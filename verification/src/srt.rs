//! SubRip (`.srt`) subtitle parsing.
//!
//! A file is a list of blocks separated by blank lines. A block holds an optional
//! numeric index line, a timing line `HH:MM:SS,mmm --> HH:MM:SS,mmm`, and the text.

use vstd::prelude::*;

use crate::text::{
    all_digits, chars_of, copy_range, digits_value, find_in, find_in_exec, lemma_digits_prefix,
    lemma_find_in, lemma_rfind_in, parse_u64, rfind_in, rfind_in_exec, string_of, trim, trim_by,
    trim_chars, trim_chars_by, trim_end_by, trim_start_by, trim_start_chars_by, CharClass,
};

verus! {

/// One subtitle line: when it is shown, and what it says.
#[derive(Debug, Clone, PartialEq, Eq)]
pub struct Cue {
    pub start_ms: u64,
    pub end_ms: u64,
    pub text: String,
}

impl View for Cue {
    type V = (u64, u64, Seq<char>);

    open spec fn view(&self) -> (u64, u64, Seq<char>) {
        (self.start_ms, self.end_ms, self.text@)
    }
}

/// Why a timing line could not be read.
#[derive(Clone, Copy, Debug, PartialEq, Eq, Structural)]
pub enum TimingError {
    /// No non-blank text on one side of a `-->`, or no `-->` at all.
    MissingSeparator,
    /// A timestamp without a `,` or `.` before its milliseconds.
    MissingFraction,
    /// A field of a timestamp that is not a number in the range of `u64`.
    InvalidNumber,
}

/// A timing line that could not be read, and why.
#[derive(Clone, Debug, PartialEq, Eq)]
pub struct SrtError {
    pub line: String,
    pub reason: TimingError,
}

/// How reading a timestamp can fail: with an error, or because its value does not
/// fit in `u64` milliseconds.
#[derive(Clone, Copy, Debug, PartialEq, Eq, Structural)]
pub enum Fault {
    Invalid(TimingError),
    Overflow,
}

/// `"-->"` starts at index `i` of `s`.
pub open spec fn arrow_at(s: Seq<char>, i: int) -> bool {
    0 <= i && i + 3 <= s.len() && s[i] == '-' && s[i + 1] == '-' && s[i + 2] == '>'
}

/// Index of the first `"-->"` of `s` at or after `i`, or `s.len()` if none.
pub open spec fn find_arrow(s: Seq<char>, i: int) -> int
    decreases s.len() - i,
{
    if i < 0 || i >= s.len() {
        s.len() as int
    } else if arrow_at(s, i) {
        i
    } else {
        find_arrow(s, i + 1)
    }
}

/// What `find_arrow` returns: the first `"-->"` at or after `i`, or the length.
pub proof fn lemma_find_arrow(s: Seq<char>, i: int)
    requires
        0 <= i <= s.len(),
    ensures
        i <= find_arrow(s, i) <= s.len(),
        find_arrow(s, i) < s.len() ==> arrow_at(s, find_arrow(s, i)),
    decreases s.len() - i,
{
    if i < s.len() && !arrow_at(s, i) {
        lemma_find_arrow(s, i + 1);
    }
}

fn find_arrow_exec(v: &[char], i: usize) -> (j: usize)
    requires
        i <= v@.len(),
    ensures
        j == find_arrow(v@, i as int),
        i <= j <= v@.len(),
        j < v@.len() ==> arrow_at(v@, j as int),
{
    proof {
        lemma_find_arrow(v@, i as int);
    }
    let mut j = i;
    while j < v.len() && !(v.len() - j >= 3 && v[j] == '-' && v[j + 1] == '-' && v[j + 2] == '>')
        invariant
            i <= j <= v@.len(),
            find_arrow(v@, i as int) == find_arrow(v@, j as int),
        decreases v.len() - j,
    {
        j += 1;
    }
    j
}

/// A blank line (`"\n\n"`) starts at index `i` of `s`.
pub open spec fn blank_at(s: Seq<char>, i: int) -> bool {
    0 <= i && i + 2 <= s.len() && s[i] == '\n' && s[i + 1] == '\n'
}

/// Index of the first `"\n\n"` of `s` at or after `i`, or `s.len()` if none.
pub open spec fn find_blank(s: Seq<char>, i: int) -> int
    decreases s.len() - i,
{
    if i < 0 || i >= s.len() {
        s.len() as int
    } else if blank_at(s, i) {
        i
    } else {
        find_blank(s, i + 1)
    }
}

/// What `find_blank` returns: the first blank line at or after `i`, or the length.
pub proof fn lemma_find_blank(s: Seq<char>, i: int)
    requires
        0 <= i <= s.len(),
    ensures
        i <= find_blank(s, i) <= s.len(),
        find_blank(s, i) < s.len() ==> blank_at(s, find_blank(s, i)),
    decreases s.len() - i,
{
    if i < s.len() && !blank_at(s, i) {
        lemma_find_blank(s, i + 1);
    }
}

fn find_blank_exec(v: &[char], i: usize) -> (j: usize)
    requires
        i <= v@.len(),
    ensures
        j == find_blank(v@, i as int),
        i <= j <= v@.len(),
        j < v@.len() ==> blank_at(v@, j as int),
{
    proof {
        lemma_find_blank(v@, i as int);
    }
    let mut j = i;
    while j < v.len() && !(v.len() - j >= 2 && v[j] == '\n' && v[j + 1] == '\n')
        invariant
            i <= j <= v@.len(),
            find_blank(v@, i as int) == find_blank(v@, j as int),
        decreases v.len() - j,
    {
        j += 1;
    }
    j
}

/// `s` with every `"\r\n"` turned into `"\n"`, then every remaining `'\r'` into `'\n'`.
pub open spec fn normalize_newlines(s: Seq<char>) -> Seq<char>
    decreases s.len(),
{
    if s.len() == 0 {
        s
    } else if s[0] == '\r' && s.len() > 1 && s[1] == '\n' {
        normalize_newlines(s.drop_first())
    } else if s[0] == '\r' {
        seq!['\n'] + normalize_newlines(s.drop_first())
    } else {
        seq![s[0]] + normalize_newlines(s.drop_first())
    }
}

fn normalize_newlines_exec(v: &[char]) -> (r: Vec<char>)
    ensures
        r@ == normalize_newlines(v@),
{
    let mut out: Vec<char> = Vec::new();
    let mut i: usize = 0;
    assert(v@.skip(0) == v@);
    while i < v.len()
        invariant
            i <= v@.len(),
            out@ + normalize_newlines(v@.skip(i as int)) == normalize_newlines(v@),
        decreases v.len() - i,
    {
        let c = v[i];
        let ghost rest = v@.skip(i as int);
        assert(rest.drop_first() == v@.skip(i + 1));
        assert(rest[0] == c);
        if c == '\r' && i + 1 < v.len() && v[i + 1] == '\n' {
            assert(rest[1] == v@[i + 1]);
        } else if c == '\r' {
            out.push('\n');
            assert(out@ + normalize_newlines(v@.skip(i + 1)) == normalize_newlines(v@));
        } else {
            out.push(c);
            assert(out@ + normalize_newlines(v@.skip(i + 1)) == normalize_newlines(v@));
        }
        i += 1;
    }
    assert(v@.skip(i as int) == Seq::<char>::empty());
    assert(out@ + Seq::<char>::empty() == out@);
    out
}

/// `s` holds no carriage return.
pub open spec fn no_carriage_return(s: Seq<char>) -> bool {
    forall|i: int| 0 <= i < s.len() ==> s[i] != '\r'
}

proof fn lemma_normalized_has_no_cr(s: Seq<char>)
    ensures
        no_carriage_return(normalize_newlines(s)),
    decreases s.len(),
{
    if s.len() > 0 {
        lemma_normalized_has_no_cr(s.drop_first());
        let r = normalize_newlines(s.drop_first());
        if !(s[0] == '\r' && s.len() > 1 && s[1] == '\n') {
            let h = if s[0] == '\r' { seq!['\n'] } else { seq![s[0]] };
            assert forall|i: int| 0 <= i < (h + r).len() implies (h + r)[i] != '\r' by {
                if i > 0 {
                    assert((h + r)[i] == r[i - 1]);
                }
            }
        }
    }
}

proof fn lemma_normalize_without_cr(s: Seq<char>)
    requires
        no_carriage_return(s),
    ensures
        normalize_newlines(s) == s,
    decreases s.len(),
{
    if s.len() > 0 {
        assert(no_carriage_return(s.drop_first()));
        lemma_normalize_without_cr(s.drop_first());
        assert(seq![s[0]] + s.drop_first() == s);
    }
}

/// Line endings do not matter: text reads the same once every `\r\n` and `\r`
/// has been turned into `\n`.
pub proof fn lemma_line_endings(s: Seq<char>)
    ensures
        spec_parse_srt(normalize_newlines(s)) == spec_parse_srt(s),
{
    lemma_normalized_has_no_cr(s);
    lemma_normalize_without_cr(normalize_newlines(s));
}

/// The pieces of `s[i..]` between occurrences of `"\n\n"`, found left to right
/// (`str::split("\n\n")`).
pub open spec fn split_blocks_from(s: Seq<char>, i: int) -> Seq<Seq<char>>
    decreases s.len() - i,
{
    if i < 0 || i > s.len() {
        seq![]
    } else {
        let j = find_blank(s, i);
        proof {
            lemma_find_blank(s, i);
        }
        if j >= s.len() {
            seq![s.subrange(i, s.len() as int)]
        } else {
            seq![s.subrange(i, j)] + split_blocks_from(s, j + 2)
        }
    }
}

fn split_blocks_exec(v: &[char]) -> (r: Vec<Vec<char>>)
    ensures
        r@.len() == split_blocks_from(v@, 0).len(),
        forall|k: int| 0 <= k < r@.len() ==> #[trigger] r@[k]@ == split_blocks_from(v@, 0)[k],
{
    let mut out: Vec<Vec<char>> = Vec::new();
    let ghost blocks: Seq<Seq<char>> = seq![];
    let mut i: usize = 0;
    loop
        invariant
            i <= v@.len(),
            out@.len() == blocks.len(),
            forall|k: int| 0 <= k < out@.len() ==> #[trigger] out@[k]@ == blocks[k],
            blocks + split_blocks_from(v@, i as int) == split_blocks_from(v@, 0),
        decreases v.len() - i,
    {
        let j = find_blank_exec(v, i);
        let piece = copy_range(v, i, j);
        if j >= v.len() {
            proof {
                blocks = blocks.push(piece@);
                assert(blocks == split_blocks_from(v@, 0));
            }
            out.push(piece);
            return out;
        }
        proof {
            assert(split_blocks_from(v@, i as int) == seq![piece@] + split_blocks_from(
                v@,
                j + 2,
            ));
            assert(blocks + seq![piece@] == blocks.push(piece@));
            blocks = blocks.push(piece@);
        }
        out.push(piece);
        i = j + 2;
    }
}

fn parse_u64_exec(t: &[char]) -> (r: Option<u64>)
    ensures
        r == parse_u64(t@),
{
    let start: usize = if t.len() > 0 && t[0] == '+' {
        1
    } else {
        0
    };
    let ghost d = if t@.len() > 0 && t@[0] == '+' {
        t@.drop_first()
    } else {
        t@
    };
    assert(d == t@.skip(start as int));
    if start >= t.len() {
        return None;
    }
    let mut value: u64 = 0;
    let mut i: usize = start;
    while i < t.len()
        invariant
            start <= i <= t@.len(),
            d == t@.skip(start as int),
            d == (if t@.len() > 0 && t@[0] == '+' {
                t@.drop_first()
            } else {
                t@
            }),
            all_digits(d.take(i - start)),
            value == digits_value(d.take(i - start)),
        decreases t.len() - i,
    {
        let c = t[i];
        let ghost k = i - start;
        assert(d[k] == c);
        assert(d.take(k + 1).drop_last() == d.take(k));
        assert(d.take(k + 1).last() == c);
        if !('0' <= c && c <= '9') {
            assert(!('0' <= d[k] <= '9'));
            assert(!all_digits(d));
            return None;
        }
        let digit = (c as u32 - 48) as u64;
        assert(all_digits(d.take(k + 1)));
        assert(digits_value(d.take(k + 1)) == value * 10 + digit);
        match value.checked_mul(10) {
            Some(tens) => match tens.checked_add(digit) {
                Some(v) => {
                    value = v;
                },
                None => {
                    proof {
                        if all_digits(d) {
                            lemma_digits_prefix(d, k + 1);
                        }
                    }
                    return None;
                },
            },
            None => {
                proof {
                    if all_digits(d) {
                        lemma_digits_prefix(d, k + 1);
                    }
                }
                return None;
            },
        }
        i += 1;
    }
    assert(d.take(i - start) == d);
    Some(value)
}

/// The hours, minutes and seconds fields of `h` (`h.split(':')`, first three
/// pieces); a missing field reads as `"0"`.
#[verifier::opaque]
pub open spec fn hms_fields(h: Seq<char>) -> (Seq<char>, Seq<char>, Seq<char>) {
    let c0 = find_in(h, CharClass::Colon, 0);
    if c0 >= h.len() {
        (h, seq!['0'], seq!['0'])
    } else {
        let c1 = find_in(h, CharClass::Colon, c0 + 1);
        if c1 >= h.len() {
            (h.subrange(0, c0), h.subrange(c0 + 1, h.len() as int), seq!['0'])
        } else {
            let c2 = find_in(h, CharClass::Colon, c1 + 1);
            (h.subrange(0, c0), h.subrange(c0 + 1, c1), h.subrange(c1 + 1, c2))
        }
    }
}

/// The milliseconds that a timestamp `HH:MM:SS,mmm` (or with `.`) stands for.
/// The fraction follows the last `,` or `.`; the part before it is split at `:`
/// into hours, minutes and seconds, missing ones counting as zero.
#[verifier::opaque]
pub open spec fn timestamp_value(s: Seq<char>) -> Result<u64, Fault> {
    let t = trim(s);
    let k = rfind_in(t, CharClass::FractionSep, t.len() as int);
    if k < 0 {
        Err(Fault::Invalid(TimingError::MissingFraction))
    } else {
        let f = hms_fields(t.subrange(0, k));
        let frac = t.subrange(k + 1, t.len() as int);
        match (parse_u64(f.0), parse_u64(f.1), parse_u64(f.2), parse_u64(frac)) {
            (Some(h), Some(m), Some(sec), Some(ms)) => {
                let v = (h * 3600 + m * 60 + sec) * 1000 + ms;
                if v <= u64::MAX {
                    Ok(v as u64)
                } else {
                    Err(Fault::Overflow)
                }
            },
            _ => Err(Fault::Invalid(TimingError::InvalidNumber)),
        }
    }
}

fn hms_fields_exec(h: &[char]) -> (r: (Vec<char>, Vec<char>, Vec<char>))
    ensures
        (r.0@, r.1@, r.2@) == hms_fields(h@),
{
    reveal(hms_fields);
    proof {
        lemma_find_in(h@, CharClass::Colon, 0);
    }
    let c0 = find_in_exec(h, CharClass::Colon, 0);
    if c0 >= h.len() {
        assert(h@.subrange(0, h@.len() as int) == h@);
        return (copy_range(h, 0, h.len()), vec!['0'], vec!['0']);
    }
    proof {
        lemma_find_in(h@, CharClass::Colon, c0 + 1);
    }
    let c1 = find_in_exec(h, CharClass::Colon, c0 + 1);
    if c1 >= h.len() {
        return (copy_range(h, 0, c0), copy_range(h, c0 + 1, h.len()), vec!['0']);
    }
    proof {
        lemma_find_in(h@, CharClass::Colon, c1 + 1);
    }
    let c2 = find_in_exec(h, CharClass::Colon, c1 + 1);
    (copy_range(h, 0, c0), copy_range(h, c0 + 1, c1), copy_range(h, c1 + 1, c2))
}

/// Reads a timestamp; see `timestamp_value`.
fn parse_timestamp(s: &[char]) -> (r: Result<u64, Fault>)
    ensures
        r == timestamp_value(s@),
{
    reveal(timestamp_value);
    let t = trim_chars(s);
    let k = match rfind_in_exec(t.as_slice(), CharClass::FractionSep) {
        Some(k) => k,
        None => {
            return Err(Fault::Invalid(TimingError::MissingFraction));
        },
    };
    proof {
        lemma_rfind_in(t@, CharClass::FractionSep, t@.len() as int);
    }
    let hms = copy_range(t.as_slice(), 0, k);
    let frac = copy_range(t.as_slice(), k + 1, t.len());
    let f = hms_fields_exec(hms.as_slice());
    let h = parse_u64_exec(f.0.as_slice());
    let m = parse_u64_exec(f.1.as_slice());
    let sec = parse_u64_exec(f.2.as_slice());
    let ms = parse_u64_exec(frac.as_slice());
    match (h, m, sec, ms) {
        (Some(h), Some(m), Some(sec), Some(ms)) => {
            let ghost v = (h * 3600 + m * 60 + sec) * 1000 + ms;
            let total = match h.checked_mul(3600) {
                Some(a) => match m.checked_mul(60) {
                    Some(b) => match a.checked_add(b) {
                        Some(c) => match c.checked_add(sec) {
                            Some(d) => match d.checked_mul(1000) {
                                Some(e) => e.checked_add(ms),
                                None => None,
                            },
                            None => None,
                        },
                        None => None,
                    },
                    None => None,
                },
                None => None,
            };
            match total {
                Some(v2) => Ok(v2),
                None => Err(Fault::Overflow),
            }
        },
        _ => Err(Fault::Invalid(TimingError::InvalidNumber)),
    }
}

/// The start and end that a timing line `START --> END` gives. `END` is the first
/// word after the arrow, so trailing positioning such as `X1:...` is ignored.
#[verifier::opaque]
pub open spec fn timing_of(line: Seq<char>) -> Result<(u64, u64), Fault> {
    let a = find_arrow(line, 0);
    let left = trim(line.subrange(0, a));
    let right = trim(
        if a < line.len() {
            let rest = line.subrange(a + 3, line.len() as int);
            rest.subrange(0, find_arrow(rest, 0))
        } else {
            seq![]
        },
    );
    if left.len() == 0 || right.len() == 0 {
        Err(Fault::Invalid(TimingError::MissingSeparator))
    } else {
        let word = right.subrange(0, find_in(right, CharClass::Whitespace, 0));
        match timestamp_value(left) {
            Err(f) => Err(f),
            Ok(l) => match timestamp_value(word) {
                Err(f) => Err(f),
                Ok(r) => Ok((l, r)),
            },
        }
    }
}

/// Reads a timing line; see `timing_of`.
fn parse_timing(line: &[char]) -> (r: Result<(u64, u64), Fault>)
    ensures
        r == timing_of(line@),
{
    reveal(timing_of);
    let a = find_arrow_exec(line, 0);
    let left = trim_chars(copy_range(line, 0, a).as_slice());
    let right_raw = if a < line.len() {
        let rest = copy_range(line, a + 3, line.len());
        let b = find_arrow_exec(rest.as_slice(), 0);
        copy_range(rest.as_slice(), 0, b)
    } else {
        Vec::new()
    };
    let right = trim_chars(right_raw.as_slice());
    if left.len() == 0 || right.len() == 0 {
        return Err(Fault::Invalid(TimingError::MissingSeparator));
    }
    proof {
        lemma_find_in(right@, CharClass::Whitespace, 0);
    }
    let w = find_in_exec(right.as_slice(), CharClass::Whitespace, 0);
    let word = copy_range(right.as_slice(), 0, w);
    let l = parse_timestamp(left.as_slice())?;
    let r = parse_timestamp(word.as_slice())?;
    Ok((l, r))
}

/// What one block of the file yields.
pub enum BlockResult {
    /// Nothing: the block is empty, or holds a single line without `-->`.
    Skip,
    /// A cue with this start, end and text.
    Parsed(u64, u64, Seq<char>),
    /// The timing line could not be read.
    Failed(Seq<char>, Fault),
}

/// A cue from `line` as its timing and `text` as its text, or the failure.
pub open spec fn timed_block(line: Seq<char>, text: Seq<char>) -> BlockResult {
    match timing_of(line) {
        Ok(t) => BlockResult::Parsed(t.0, t.1, text),
        Err(f) => BlockResult::Failed(line, f),
    }
}

/// What a block yields. Newlines at its ends are dropped. If its first line holds
/// `-->` it is the timing line; otherwise the first line is an index and the second
/// line is the timing line. The text is every line after the timing line.
#[verifier::opaque]
pub open spec fn block_of(b: Seq<char>) -> BlockResult {
    let t = trim_by(b, CharClass::Newline);
    if t.len() == 0 {
        BlockResult::Skip
    } else {
        let i1 = find_in(t, CharClass::Newline, 0);
        let first = t.subrange(0, i1);
        let after1 = if i1 < t.len() {
            t.subrange(i1 + 1, t.len() as int)
        } else {
            seq![]
        };
        if find_arrow(first, 0) < first.len() {
            timed_block(first, after1)
        } else if i1 >= t.len() {
            BlockResult::Skip
        } else {
            let i2 = find_in(after1, CharClass::Newline, 0);
            let after2 = if i2 < after1.len() {
                after1.subrange(i2 + 1, after1.len() as int)
            } else {
                seq![]
            };
            timed_block(after1.subrange(0, i2), after2)
        }
    }
}

/// Trailing newlines of `p + y`: only those of `y` go, unless `y` is nothing but
/// newlines, when those of `p` go too.
proof fn lemma_trim_end_after(p: Seq<char>, y: Seq<char>)
    ensures
        trim_end_by(p + y, CharClass::Newline) == if trim_end_by(y, CharClass::Newline).len() > 0 {
            p + trim_end_by(y, CharClass::Newline)
        } else {
            trim_end_by(p, CharClass::Newline)
        },
    decreases y.len(),
{
    if y.len() == 0 {
        assert(p + y =~= p);
    } else {
        assert((p + y).drop_last() =~= p + y.drop_last());
        assert((p + y).last() == y.last());
        lemma_trim_end_after(p, y.drop_last());
    }
}

/// The first newline of `p + "\n" + rest` is the one after `p` when `p` has none.
proof fn lemma_first_newline(p: Seq<char>, rest: Seq<char>)
    requires
        forall|i: int| 0 <= i < p.len() ==> p[i] != '\n',
    ensures
        find_in(p + seq!['\n'] + rest, CharClass::Newline, 0) == p.len(),
{
    let t = p + seq!['\n'] + rest;
    lemma_find_in(t, CharClass::Newline, 0);
    let r = find_in(t, CharClass::Newline, 0);
    assert(t[p.len() as int] == '\n');
    if r < p.len() {
        assert(t[r] == p[r]);
    }
}

/// `s` holds `"-->"` somewhere exactly when `find_arrow` finds one.
proof fn lemma_arrow_found(s: Seq<char>, j: int)
    requires
        0 <= j <= s.len(),
    ensures
        find_arrow(s, j) < s.len() <==> exists|i: int| j <= i && #[trigger] arrow_at(s, i),
    decreases s.len() - j,
{
    lemma_find_arrow(s, j);
    if j < s.len() && !arrow_at(s, j) {
        lemma_arrow_found(s, j + 1);
        if exists|i: int| j <= i && #[trigger] arrow_at(s, i) {
            let i = choose|i: int| j <= i && #[trigger] arrow_at(s, i);
            assert(i != j);
            assert(j + 1 <= i);
        }
    }
}

/// The cue of a block does not depend on whether a numeric index line comes before
/// the timing line, and its text is the lines after the timing line without
/// trailing newlines.
pub proof fn lemma_index_line_optional(index: Seq<char>, timing: Seq<char>, text: Seq<char>)
    requires
        index.len() > 0,
        all_digits(index),
        forall|i: int| 0 <= i < timing.len() ==> timing[i] != '\n',
        exists|i: int| #[trigger] arrow_at(timing, i),
    ensures
        block_of(index + seq!['\n'] + timing + seq!['\n'] + text) == block_of(
            timing + seq!['\n'] + text,
        ),
        block_of(timing + seq!['\n'] + text) == timed_block(
            timing,
            trim_end_by(text, CharClass::Newline),
        ),
{
    reveal(block_of);
    let x = trim_end_by(text, CharClass::Newline);
    let tail = if x.len() > 0 { seq!['\n'] + x } else { seq![] };
    lemma_arrow_found(timing, 0);
    assert(timing.len() > 0);
    assert(find_arrow(timing, 0) < timing.len());
    assert forall|i: int| 0 <= i < index.len() implies index[i] != '\n' by {
        assert('0' <= index[i] <= '9');
    }
    assert(forall|i: int| 0 <= i < index.len() ==> !#[trigger] arrow_at(index, i)) by {
        assert forall|i: int| 0 <= i < index.len() implies !#[trigger] arrow_at(index, i) by {
            assert('0' <= index[i] <= '9');
        }
    }
    lemma_arrow_found(index, 0);
    // Without an index line.
    let b2 = timing + seq!['\n'] + text;
    assert(b2 =~= timing + (seq!['\n'] + text));
    assert(trim_start_by(b2, CharClass::Newline) == b2);
    assert(trim_end_by(Seq::<char>::empty(), CharClass::Newline) == Seq::<char>::empty());
    assert(seq!['\n'].drop_last() =~= Seq::<char>::empty());
    assert(trim_end_by(seq!['\n'], CharClass::Newline) == Seq::<char>::empty());
    assert(trim_end_by(timing, CharClass::Newline) == timing);
    assert(trim_end_by(index + seq!['\n'] + timing, CharClass::Newline) == index + seq!['\n']
        + timing) by {
        assert((index + seq!['\n'] + timing).last() == timing.last());
    }
    lemma_trim_end_after(timing, seq!['\n'] + text);
    lemma_trim_end_after(seq!['\n'], text);
    let t2 = trim_by(b2, CharClass::Newline);
    assert(t2 =~= timing + tail) by {
        if x.len() > 0 {
            assert(trim_end_by(seq!['\n'] + text, CharClass::Newline) == seq!['\n'] + x);
        } else {
            assert(trim_end_by(seq!['\n'], CharClass::Newline) =~= Seq::<char>::empty()) by {
                assert(seq!['\n'].drop_last() =~= Seq::<char>::empty());
            }
            assert(trim_end_by(seq!['\n'] + text, CharClass::Newline).len() == 0);
        }
    }
    if x.len() > 0 {
        assert(t2 =~= timing + seq!['\n'] + x);
        lemma_first_newline(timing, x);
        assert(t2.subrange(0, timing.len() as int) =~= timing);
        assert(t2.subrange(timing.len() as int + 1, t2.len() as int) =~= x);
    } else {
        assert(t2 =~= timing);
        lemma_find_in(t2, CharClass::Newline, 0);
        let r = find_in(t2, CharClass::Newline, 0);
        if r < t2.len() {
            assert(t2[r] == timing[r]);
        }
        assert(t2.subrange(0, timing.len() as int) =~= timing);
        assert(x =~= Seq::<char>::empty());
    }
    assert(find_in(t2, CharClass::Newline, 0) == timing.len());
    assert(block_of(b2) == timed_block(timing, x));
    // With an index line.
    let b1 = index + seq!['\n'] + timing + seq!['\n'] + text;
    assert(b1 =~= index + (seq!['\n'] + timing + seq!['\n'] + text));
    assert(b1[0] == index[0]);
    assert(trim_start_by(b1, CharClass::Newline) == b1);
    let ip = index + seq!['\n'] + timing;
    assert(b1 =~= ip + (seq!['\n'] + text));
    assert(ip.last() == timing.last());
    lemma_trim_end_after(ip, seq!['\n'] + text);
    let t1 = trim_by(b1, CharClass::Newline);
    assert(t1 =~= index + seq!['\n'] + (timing + tail)) by {
        if x.len() > 0 {
            assert(trim_end_by(seq!['\n'] + text, CharClass::Newline) == seq!['\n'] + x);
        } else {
            assert(trim_end_by(seq!['\n'], CharClass::Newline) =~= Seq::<char>::empty()) by {
                assert(seq!['\n'].drop_last() =~= Seq::<char>::empty());
            }
        }
    }
    lemma_first_newline(index, timing + tail);
    assert(t1.subrange(0, index.len() as int) =~= index);
    assert(t1.subrange(index.len() as int + 1, t1.len() as int) =~= t2);
}

/// Text with no blank line is a single block.
proof fn lemma_one_block(s: Seq<char>)
    requires
        forall|i: int| !#[trigger] blank_at(s, i),
    ensures
        split_blocks_from(s, 0) == seq![s],
{
    lemma_find_blank(s, 0);
    assert(find_blank(s, 0) == s.len());
    assert(s.subrange(0, s.len() as int) =~= s);
}

/// A line without newlines put before `"\n" + rest` adds no blank line.
proof fn lemma_line_before(p: Seq<char>, rest: Seq<char>)
    requires
        p.len() > 0,
        forall|i: int| 0 <= i < p.len() ==> p[i] != '\n',
        forall|i: int| !#[trigger] blank_at(seq!['\n'] + rest, i),
    ensures
        forall|i: int| !#[trigger] blank_at(p + seq!['\n'] + rest, i),
        forall|i: int| !#[trigger] blank_at(seq!['\n'] + (p + seq!['\n'] + rest), i),
{
    let t = p + seq!['\n'] + rest;
    let r = seq!['\n'] + rest;
    assert(t =~= p + r);
    assert forall|i: int| !#[trigger] blank_at(t, i) by {
        if blank_at(t, i) {
            if i < p.len() {
                assert(t[i] == p[i]);
            } else {
                assert(t[i] == r[i - p.len()] && t[i + 1] == r[i + 1 - p.len()]);
                assert(blank_at(r, i - p.len()));
            }
        }
    }
    let u = seq!['\n'] + t;
    assert forall|i: int| !#[trigger] blank_at(u, i) by {
        if blank_at(u, i) {
            if i == 0 {
                assert(u[1] == p[0]);
            } else {
                assert(u[i] == t[i - 1] && u[i + 1] == t[i]);
                assert(blank_at(t, i - 1));
            }
        }
    }
}

/// What reading a one-cue SRT text gives: the cue whose timing is the timing line
/// and whose text is the lines after it (without trailing newlines), or the
/// failure of the timing line; an index line before the timing line changes
/// nothing.
pub proof fn lemma_one_cue(index: Seq<char>, timing: Seq<char>, text: Seq<char>)
    requires
        index.len() > 0,
        all_digits(index),
        forall|i: int| 0 <= i < timing.len() ==> timing[i] != '\n' && timing[i] != '\r',
        exists|i: int| #[trigger] arrow_at(timing, i),
        no_carriage_return(text),
        forall|i: int| !#[trigger] blank_at(seq!['\n'] + text, i),
    ensures
        spec_parse_srt(timing + seq!['\n'] + text) == match timing_of(timing) {
            Ok(t) => Ok(seq![(t.0, t.1, trim_end_by(text, CharClass::Newline))]),
            Err(f) => Err((timing, f)),
        },
        spec_parse_srt(index + seq!['\n'] + timing + seq!['\n'] + text) == spec_parse_srt(
            timing + seq!['\n'] + text,
        ),
{
    lemma_index_line_optional(index, timing, text);
    assert(timing.len() > 0);
    assert forall|i: int| 0 <= i < timing.len() implies timing[i] != '\n' by {}
    lemma_line_before(timing, text);
    let s2 = timing + seq!['\n'] + text;
    let s1 = index + seq!['\n'] + timing + seq!['\n'] + text;
    assert(s1 =~= index + seq!['\n'] + s2);
    assert(s2 =~= timing + seq!['\n'] + text);
    assert forall|i: int| 0 <= i < index.len() implies index[i] != '\n' by {
        assert('0' <= index[i] <= '9');
    }
    lemma_line_before(index, s2);
    assert(no_carriage_return(s2)) by {
        assert forall|i: int| 0 <= i < s2.len() implies s2[i] != '\r' by {
            if i > timing.len() {
                assert(s2[i] == text[i - timing.len() - 1]);
            }
        }
    }
    assert(no_carriage_return(s1)) by {
        assert forall|i: int| 0 <= i < s1.len() implies s1[i] != '\r' by {
            if i < index.len() {
                assert('0' <= index[i] <= '9');
            } else if i > index.len() {
                assert(s1[i] == s2[i - index.len() - 1]);
            }
        }
    }
    lemma_normalize_without_cr(s2);
    lemma_normalize_without_cr(s1);
    lemma_one_block(s2);
    lemma_one_block(s1);
    assert(seq![s2].drop_last() =~= Seq::<Seq<char>>::empty());
    assert(seq![s1].drop_last() =~= Seq::<Seq<char>>::empty());
    assert(parse_blocks(Seq::<Seq<char>>::empty()) == Ok::<_, (Seq<char>, Fault)>(
        Seq::<(u64, u64, Seq<char>)>::empty(),
    ));
    match timing_of(timing) {
        Ok(t) => {
            assert(Seq::<(u64, u64, Seq<char>)>::empty().push(
                (t.0, t.1, trim_end_by(text, CharClass::Newline)),
            ) =~= seq![(t.0, t.1, trim_end_by(text, CharClass::Newline))]);
        },
        Err(f) => {},
    }
}

enum BlockOutcome {
    Skip,
    Parsed(Cue),
    Failed(Vec<char>, Fault),
}

fn timed_block_exec(line: Vec<char>, text: Vec<char>) -> (r: BlockOutcome)
    ensures
        match (r, timed_block(line@, text@)) {
            (BlockOutcome::Parsed(c), BlockResult::Parsed(s, e, x)) => c@ == (s, e, x),
            (BlockOutcome::Failed(l, f), BlockResult::Failed(l2, f2)) => l@ == l2 && f == f2,
            _ => false,
        },
{
    match parse_timing(line.as_slice()) {
        Ok((start_ms, end_ms)) => BlockOutcome::Parsed(
            Cue { start_ms, end_ms, text: string_of(text.as_slice()) },
        ),
        Err(f) => BlockOutcome::Failed(line, f),
    }
}

fn parse_block(b: &[char]) -> (r: BlockOutcome)
    ensures
        match (r, block_of(b@)) {
            (BlockOutcome::Skip, BlockResult::Skip) => true,
            (BlockOutcome::Parsed(c), BlockResult::Parsed(s, e, x)) => c@ == (s, e, x),
            (BlockOutcome::Failed(l, f), BlockResult::Failed(l2, f2)) => l@ == l2 && f == f2,
            _ => false,
        },
{
    reveal(block_of);
    let t = trim_chars_by(b, CharClass::Newline);
    if t.len() == 0 {
        return BlockOutcome::Skip;
    }
    proof {
        lemma_find_in(t@, CharClass::Newline, 0);
    }
    let i1 = find_in_exec(t.as_slice(), CharClass::Newline, 0);
    let first = copy_range(t.as_slice(), 0, i1);
    let after1 = if i1 < t.len() {
        copy_range(t.as_slice(), i1 + 1, t.len())
    } else {
        Vec::new()
    };
    let a = find_arrow_exec(first.as_slice(), 0);
    if a < first.len() {
        return timed_block_exec(first, after1);
    }
    if i1 >= t.len() {
        return BlockOutcome::Skip;
    }
    proof {
        lemma_find_in(after1@, CharClass::Newline, 0);
    }
    let i2 = find_in_exec(after1.as_slice(), CharClass::Newline, 0);
    let after2 = if i2 < after1.len() {
        copy_range(after1.as_slice(), i2 + 1, after1.len())
    } else {
        Vec::new()
    };
    let second = copy_range(after1.as_slice(), 0, i2);
    timed_block_exec(second, after2)
}

/// The cues of the blocks `bs`, in order, or the first timing line that fails.
pub open spec fn parse_blocks(bs: Seq<Seq<char>>) -> Result<Seq<(u64, u64, Seq<char>)>, (Seq<char>, Fault)>
    decreases bs.len(),
{
    if bs.len() == 0 {
        Ok(seq![])
    } else {
        match parse_blocks(bs.drop_last()) {
            Err(e) => Err(e),
            Ok(cs) => match block_of(bs.last()) {
                BlockResult::Skip => Ok(cs),
                BlockResult::Parsed(s, e, x) => Ok(cs.push((s, e, x))),
                BlockResult::Failed(l, f) => Err((l, f)),
            },
        }
    }
}

/// What reading the SRT text `s` yields: the cues (start, end, text) in file
/// order, or the first timing line that fails and how.
pub open spec fn spec_parse_srt(s: Seq<char>) -> Result<Seq<(u64, u64, Seq<char>)>, (Seq<char>, Fault)> {
    parse_blocks(split_blocks_from(normalize_newlines(s), 0))
}

/// Reading `s` reaches a timestamp whose value does not fit in `u64` milliseconds.
pub open spec fn srt_overflows(s: Seq<char>) -> bool {
    spec_parse_srt(s) matches Err((_, Fault::Overflow))
}

proof fn lemma_parse_blocks_error_prefix(bs: Seq<Seq<char>>, j: int)
    requires
        0 <= j <= bs.len(),
        parse_blocks(bs.take(j)) is Err,
    ensures
        parse_blocks(bs) == parse_blocks(bs.take(j)),
    decreases bs.len(),
{
    if j < bs.len() {
        assert(bs.drop_last().take(j) == bs.take(j));
        lemma_parse_blocks_error_prefix(bs.drop_last(), j);
    } else {
        assert(bs.take(j) == bs);
    }
}

/// Reads SRT text, stopping at the first timing line that cannot be read.
fn parse_cues(input: &str) -> (r: Result<Vec<Cue>, (Vec<char>, Fault)>)
    ensures
        match (r, spec_parse_srt(input@)) {
            (Ok(v), Ok(cs)) => v@.map_values(|c: Cue| c@) == cs,
            (Err((l, f)), Err((l2, f2))) => l@ == l2 && f == f2,
            _ => false,
        },
{
    let chars = chars_of(input);
    let norm = normalize_newlines_exec(chars.as_slice());
    let blocks = split_blocks_exec(norm.as_slice());
    let ghost bs = split_blocks_from(norm@, 0);
    let mut cues: Vec<Cue> = Vec::new();
    let n = blocks.len();
    assert(bs.take(0) == Seq::<Seq<char>>::empty());
    assert(cues@.map_values(|c: Cue| c@) == Seq::<(u64, u64, Seq<char>)>::empty());
    for k in 0..n
        invariant
            bs == split_blocks_from(normalize_newlines(input@), 0),
            n == blocks@.len(),
            n == bs.len(),
            forall|j: int| 0 <= j < blocks@.len() ==> #[trigger] blocks@[j]@ == bs[j],
            parse_blocks(bs.take(k as int)) == Ok::<_, (Seq<char>, Fault)>(
                cues@.map_values(|c: Cue| c@),
            ),
    {
        let out = parse_block(blocks[k].as_slice());
        proof {
            assert(bs.take(k + 1).drop_last() == bs.take(k as int));
            assert(bs.take(k + 1).last() == blocks@[k as int]@);
        }
        match out {
            BlockOutcome::Skip => {},
            BlockOutcome::Parsed(c) => {
                let ghost before = cues@;
                cues.push(c);
                proof {
                    assert(cues@.map_values(|c: Cue| c@) == before.map_values(|c: Cue| c@).push(
                        c@,
                    ));
                }
            },
            BlockOutcome::Failed(l, f) => {
                proof {
                    lemma_parse_blocks_error_prefix(bs, k + 1);
                }
                return Err((l, f));
            },
        }
    }
    assert(bs.take(n as int) == bs);
    Ok(cues)
}

/// Reads SRT text into cues, in file order.
///
/// Line endings `\r\n` and `\r` count as `\n`; blocks are separated by blank
/// lines. A block whose timing line cannot be read fails the whole text with that
/// line and the reason. `input` must not hold a timestamp beyond `u64::MAX`
/// milliseconds; `timestamps_fit` tells whether it does.
pub fn parse_str(input: &str) -> (r: Result<Vec<Cue>, SrtError>)
    requires
        !srt_overflows(input@),
    ensures
        match spec_parse_srt(input@) {
            Ok(cs) => r matches Ok(v) && v@.map_values(|c: Cue| c@) == cs,
            Err((l, f)) => r matches Err(e) && e.line@ == l && f == Fault::Invalid(e.reason),
        },
{
    match parse_cues(input) {
        Ok(v) => Ok(v),
        Err((l, f)) => {
            let reason = match f {
                Fault::Invalid(reason) => reason,
                Fault::Overflow => TimingError::InvalidNumber,
            };
            Err(SrtError { line: string_of(l.as_slice()), reason })
        },
    }
}

/// Whether every timestamp that reading `input` reaches fits in `u64` milliseconds,
/// which `parse_str` requires.
pub fn timestamps_fit(input: &str) -> (r: bool)
    ensures
        r == !srt_overflows(input@),
{
    match parse_cues(input) {
        Err((_, Fault::Overflow)) => false,
        _ => true,
    }
}

/// `text` without the byte order marks at its start.
pub fn strip_bom(text: &str) -> (r: String)
    ensures
        r@ == trim_start_by(text@, CharClass::ByteOrderMark),
{
    let chars = chars_of(text);
    string_of(trim_start_chars_by(chars.as_slice(), CharClass::ByteOrderMark).as_slice())
}

} // verus!
