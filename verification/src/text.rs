//! Character-level helpers shared by the parsers and formatters: whitespace
//! as Unicode defines it, trimming, searching, and decimal formatting.

use vstd::prelude::*;

verus! {

/// The characters of `s`, in order.
pub fn chars_of(s: &str) -> (v: Vec<char>)
    ensures
        v@ == s@,
{
    let mut v: Vec<char> = Vec::new();
    for c in it: s.chars()
        invariant
            v@ == it.seq().take(it.index()),
            it.seq() == s@,
    {
        v.push(c);
    }
    v
}

/// Appends one character to a `String` (`String::push`).
#[verifier::external_body]
pub(crate) fn push_char(s: &mut String, c: char)
    ensures
        final(s)@ == old(s)@.push(c),
{
    s.push(c);
}

/// A `String` holding the characters of `v`, in order.
pub fn string_of(v: &[char]) -> (s: String)
    ensures
        s@ == v@,
{
    let mut s = String::new();
    let mut i: usize = 0;
    while i < v.len()
        invariant
            i <= v.len(),
            s@ == v@.take(i as int),
        decreases v.len() - i,
    {
        push_char(&mut s, v[i]);
        i += 1;
        assert(v@.take(i as int) == v@.take(i - 1).push(v@[i - 1]));
    }
    assert(v@.take(v.len() as int) == v@);
    s
}

/// Appends every character of `src` to `dst`.
pub fn extend_chars(dst: &mut Vec<char>, src: &[char])
    ensures
        final(dst)@ == old(dst)@ + src@,
{
    let mut i: usize = 0;
    while i < src.len()
        invariant
            i <= src.len(),
            dst@ == old(dst)@ + src@.take(i as int),
        decreases src.len() - i,
    {
        dst.push(src[i]);
        i += 1;
        assert(src@.take(i as int) == src@.take(i - 1).push(src@[i - 1]));
    }
    assert(src@.take(src.len() as int) == src@);
}

/// Appends every character of `src` to `dst`.
pub fn extend_str(dst: &mut Vec<char>, src: &str)
    ensures
        final(dst)@ == old(dst)@ + src@,
{
    let cs = chars_of(src);
    extend_chars(dst, cs.as_slice());
}

/// The characters `v[lo..hi]` as a new vector.
pub fn copy_range(v: &[char], lo: usize, hi: usize) -> (r: Vec<char>)
    requires
        lo <= hi <= v@.len(),
    ensures
        r@ == v@.subrange(lo as int, hi as int),
{
    let mut r: Vec<char> = Vec::new();
    let mut i: usize = lo;
    while i < hi
        invariant
            lo <= i <= hi <= v@.len(),
            r@ == v@.subrange(lo as int, i as int),
        decreases hi - i,
    {
        r.push(v[i]);
        i += 1;
        assert(v@.subrange(lo as int, i as int) == v@.subrange(lo as int, i - 1).push(v@[i - 1]));
    }
    r
}

/// Unicode `White_Space`, the property that `char::is_whitespace` tests.
pub open spec fn is_ws(c: char) -> bool {
    let u = c as u32;
    ||| 0x09 <= u <= 0x0d
    ||| u == 0x20
    ||| u == 0x85
    ||| u == 0xa0
    ||| u == 0x1680
    ||| 0x2000 <= u <= 0x200a
    ||| u == 0x2028
    ||| u == 0x2029
    ||| u == 0x202f
    ||| u == 0x205f
    ||| u == 0x3000
}

/// Whether `c` is white space in the sense of `char::is_whitespace`.
pub fn is_whitespace(c: char) -> (r: bool)
    ensures
        r == is_ws(c),
{
    let u = c as u32;
    (0x09 <= u && u <= 0x0d) || u == 0x20 || u == 0x85 || u == 0xa0 || u == 0x1680 || (0x2000
        <= u && u <= 0x200a) || u == 0x2028 || u == 0x2029 || u == 0x202f || u == 0x205f || u
        == 0x3000
}

/// Kinds of character that the parsers search for or strip.
#[derive(Clone, Copy, Debug, PartialEq, Eq, Structural)]
pub enum CharClass {
    /// Unicode white space (`char::is_whitespace`).
    Whitespace,
    /// `'\n'`.
    Newline,
    /// `':'`.
    Colon,
    /// `','` or `'.'`, the separators before the milliseconds of a timestamp.
    FractionSep,
    /// The byte order mark `'\u{feff}'`.
    ByteOrderMark,
    /// The path separator `'/'`.
    Slash,
    /// `'.'`.
    Dot,
}

/// Whether `c` belongs to class `k`.
pub open spec fn in_class(k: CharClass, c: char) -> bool {
    match k {
        CharClass::Whitespace => is_ws(c),
        CharClass::Newline => c == '\n',
        CharClass::Colon => c == ':',
        CharClass::FractionSep => c == ',' || c == '.',
        CharClass::ByteOrderMark => c == '\u{feff}',
        CharClass::Slash => c == '/',
        CharClass::Dot => c == '.',
    }
}

/// Whether `c` belongs to class `k`.
pub fn is_in(k: CharClass, c: char) -> (r: bool)
    ensures
        r == in_class(k, c),
{
    match k {
        CharClass::Whitespace => is_whitespace(c),
        CharClass::Newline => c == '\n',
        CharClass::Colon => c == ':',
        CharClass::FractionSep => c == ',' || c == '.',
        CharClass::ByteOrderMark => c == '\u{feff}',
        CharClass::Slash => c == '/',
        CharClass::Dot => c == '.',
    }
}

/// Index of the first character of class `k` at or after `i`, or `s.len()` if none.
pub open spec fn find_in(s: Seq<char>, k: CharClass, i: int) -> int
    decreases s.len() - i,
{
    if i < 0 || i >= s.len() {
        s.len() as int
    } else if in_class(k, s[i]) {
        i
    } else {
        find_in(s, k, i + 1)
    }
}

/// What `find_in` returns: the first match at or after `i`, or the length.
pub proof fn lemma_find_in(s: Seq<char>, k: CharClass, i: int)
    requires
        0 <= i <= s.len(),
    ensures
        i <= find_in(s, k, i) <= s.len(),
        find_in(s, k, i) < s.len() ==> in_class(k, s[find_in(s, k, i)]),
        forall|j: int| i <= j < find_in(s, k, i) ==> !in_class(k, #[trigger] s[j]),
    decreases s.len() - i,
{
    if i < s.len() && !in_class(k, s[i]) {
        lemma_find_in(s, k, i + 1);
    }
}

/// Index of the first character of class `k` in `v` at or after `i`, or `v.len()`.
pub fn find_in_exec(v: &[char], k: CharClass, i: usize) -> (j: usize)
    requires
        i <= v@.len(),
    ensures
        j == find_in(v@, k, i as int),
{
    let mut j = i;
    while j < v.len() && !is_in(k, v[j])
        invariant
            i <= j <= v@.len(),
            find_in(v@, k, i as int) == find_in(v@, k, j as int),
        decreases v.len() - j,
    {
        j += 1;
    }
    j
}

/// Index of the last character of class `k` in `s[..n]`, or `-1` if none.
pub open spec fn rfind_in(s: Seq<char>, k: CharClass, n: int) -> int
    decreases n,
{
    if n <= 0 || n > s.len() {
        -1
    } else if in_class(k, s[n - 1]) {
        n - 1
    } else {
        rfind_in(s, k, n - 1)
    }
}

/// What `rfind_in` returns: the last match before `n`, or `-1`.
pub proof fn lemma_rfind_in(s: Seq<char>, k: CharClass, n: int)
    requires
        0 <= n <= s.len(),
    ensures
        -1 <= rfind_in(s, k, n) < n,
        rfind_in(s, k, n) >= 0 ==> in_class(k, s[rfind_in(s, k, n)]),
        forall|j: int| rfind_in(s, k, n) < j < n ==> !in_class(k, #[trigger] s[j]),
    decreases n,
{
    if n > 0 && !in_class(k, s[n - 1]) {
        lemma_rfind_in(s, k, n - 1);
    }
}

/// Index of the last character of class `k` in `v`, if any.
pub fn rfind_in_exec(v: &[char], k: CharClass) -> (r: Option<usize>)
    ensures
        match r {
            Some(j) => j == rfind_in(v@, k, v@.len() as int),
            None => rfind_in(v@, k, v@.len() as int) == -1,
        },
{
    let mut n = v.len();
    while n > 0 && !is_in(k, v[n - 1])
        invariant
            n <= v@.len(),
            rfind_in(v@, k, v@.len() as int) == rfind_in(v@, k, n as int),
        decreases n,
    {
        n -= 1;
    }
    if n == 0 {
        None
    } else {
        Some(n - 1)
    }
}

/// `s` without its leading characters of class `k`.
pub open spec fn trim_start_by(s: Seq<char>, k: CharClass) -> Seq<char>
    decreases s.len(),
{
    if s.len() > 0 && in_class(k, s[0]) {
        trim_start_by(s.drop_first(), k)
    } else {
        s
    }
}

/// `s` without its trailing characters of class `k`.
pub open spec fn trim_end_by(s: Seq<char>, k: CharClass) -> Seq<char>
    decreases s.len(),
{
    if s.len() > 0 && in_class(k, s.last()) {
        trim_end_by(s.drop_last(), k)
    } else {
        s
    }
}

/// `s` without characters of class `k` at either end (`str::trim_matches`).
pub open spec fn trim_by(s: Seq<char>, k: CharClass) -> Seq<char> {
    trim_end_by(trim_start_by(s, k), k)
}

/// `s` without white space at either end (`str::trim`).
pub open spec fn trim(s: Seq<char>) -> Seq<char> {
    trim_by(s, CharClass::Whitespace)
}

/// Index of the first character of `v` that is not of class `k`, or `v.len()`.
fn trim_start_index(v: &[char], k: CharClass) -> (i: usize)
    ensures
        i <= v@.len(),
        trim_start_by(v@, k) == v@.skip(i as int),
{
    let mut i: usize = 0;
    assert(v@.skip(0) == v@);
    while i < v.len() && is_in(k, v[i])
        invariant
            i <= v@.len(),
            trim_start_by(v@, k) == trim_start_by(v@.skip(i as int), k),
        decreases v.len() - i,
    {
        assert(v@.skip(i as int).drop_first() == v@.skip(i + 1));
        i += 1;
    }
    i
}

/// One past the index of the last character of `v[..hi]` that is not of class `k`.
fn trim_end_index(v: &[char], hi: usize, k: CharClass) -> (j: usize)
    requires
        hi <= v@.len(),
    ensures
        j <= hi,
        trim_end_by(v@.take(hi as int), k) == v@.take(j as int),
{
    let mut j: usize = hi;
    while j > 0 && is_in(k, v[j - 1])
        invariant
            j <= hi <= v@.len(),
            trim_end_by(v@.take(hi as int), k) == trim_end_by(v@.take(j as int), k),
        decreases j,
    {
        assert(v@.take(j as int).drop_last() == v@.take(j - 1));
        j -= 1;
    }
    j
}

/// `v` without its leading characters of class `k`.
pub fn trim_start_chars_by(v: &[char], k: CharClass) -> (r: Vec<char>)
    ensures
        r@ == trim_start_by(v@, k),
{
    let i = trim_start_index(v, k);
    copy_range(v, i, v.len())
}

/// `v` without its trailing characters of class `k`.
pub fn trim_end_chars_by(v: &[char], k: CharClass) -> (r: Vec<char>)
    ensures
        r@ == trim_end_by(v@, k),
{
    let j = trim_end_index(v, v.len(), k);
    assert(v@.take(v@.len() as int) == v@);
    copy_range(v, 0, j)
}

/// `v` without characters of class `k` at either end.
pub fn trim_chars_by(v: &[char], k: CharClass) -> (r: Vec<char>)
    ensures
        r@ == trim_by(v@, k),
{
    let i = trim_start_index(v, k);
    let rest = copy_range(v, i, v.len());
    assert(rest@ == v@.skip(i as int));
    let j = trim_end_index(rest.as_slice(), rest.len(), k);
    assert(rest@.take(rest@.len() as int) == rest@);
    copy_range(rest.as_slice(), 0, j)
}

/// `v` without white space at either end.
pub fn trim_chars(v: &[char]) -> (r: Vec<char>)
    ensures
        r@ == trim(v@),
{
    trim_chars_by(v, CharClass::Whitespace)
}

/// The decimal digit character for `d < 10`.
pub open spec fn digit_char(d: int) -> char {
    (48 + d) as char
}

/// The decimal representation of `n`, as `u64`'s `Display` writes it.
pub open spec fn decimal(n: nat) -> Seq<char>
    decreases n,
{
    if n < 10 {
        seq![digit_char(n as int)]
    } else {
        decimal(n / 10) + seq![digit_char((n % 10) as int)]
    }
}

/// The decimal representation of `n`, left-padded with `0` to at least `width` characters.
pub open spec fn zero_padded(n: nat, width: nat) -> Seq<char> {
    let d = decimal(n);
    if d.len() >= width {
        d
    } else {
        Seq::new((width - d.len()) as nat, |i: int| '0') + d
    }
}

fn digit(d: u64) -> (c: char)
    requires
        d < 10,
    ensures
        c == digit_char(d as int),
{
    let b: u8 = 48u8 + d as u8;
    b as char
}

/// Appends the decimal representation of `n` to `out`.
pub fn push_decimal(out: &mut Vec<char>, n: u64)
    ensures
        final(out)@ == old(out)@ + decimal(n as nat),
    decreases n,
{
    if n >= 10 {
        push_decimal(out, n / 10);
    }
    out.push(digit(n % 10));
}

/// Appends `n` in decimal, left-padded with `0` to at least `width` characters.
pub fn push_zero_padded(out: &mut Vec<char>, n: u64, width: usize)
    ensures
        final(out)@ == old(out)@ + zero_padded(n as nat, width as nat),
{
    let mut d: Vec<char> = Vec::new();
    push_decimal(&mut d, n);
    assert(d@ == decimal(n as nat));
    let ghost start = out@;
    let mut k: usize = d.len();
    while k < width
        invariant
            d@ == decimal(n as nat),
            k >= d.len(),
            k > d.len() ==> k <= width,
            out@ == start + Seq::new((k - d.len()) as nat, |i: int| '0'),
        decreases width - k,
    {
        out.push('0');
        k += 1;
        assert(out@ == start + Seq::new((k - d.len()) as nat, |i: int| '0'));
    }
    extend_chars(out, d.as_slice());
    if d.len() >= width {
        assert(out@ == start + d@);
    }
}

/// Whether `a` and `b` hold the same characters.
pub fn chars_eq(a: &[char], b: &[char]) -> (r: bool)
    ensures
        r == (a@ == b@),
{
    if a.len() != b.len() {
        return false;
    }
    let mut i: usize = 0;
    while i < a.len()
        invariant
            a@.len() == b@.len(),
            i <= a@.len(),
            forall|j: int| 0 <= j < i ==> a@[j] == b@[j],
        decreases a.len() - i,
    {
        if a[i] != b[i] {
            return false;
        }
        i += 1;
    }
    assert(a@ == b@);
    true
}

/// Whether `a` and `b` hold the same characters.
pub fn str_eq(a: &str, b: &str) -> (r: bool)
    ensures
        r == (a@ == b@),
{
    let x = chars_of(a);
    let y = chars_of(b);
    chars_eq(x.as_slice(), y.as_slice())
}

/// `c` with ASCII `A`..`Z` turned into `a`..`z`.
pub open spec fn ascii_lower(c: char) -> char {
    if 'A' <= c <= 'Z' {
        ((c as u32) + 32) as char
    } else {
        c
    }
}

/// `s` with ASCII upper-case letters turned into lower case (`str::to_ascii_lowercase`).
pub open spec fn ascii_lowercase(s: Seq<char>) -> Seq<char> {
    s.map_values(|c: char| ascii_lower(c))
}

/// `v` with ASCII upper-case letters turned into lower case.
pub fn to_ascii_lowercase(v: &[char]) -> (r: Vec<char>)
    ensures
        r@ == ascii_lowercase(v@),
{
    let mut r: Vec<char> = Vec::new();
    let n = v.len();
    for i in 0..n
        invariant
            n == v@.len(),
            r@ == v@.take(i as int).map_values(|c: char| ascii_lower(c)),
    {
        let c = v[i];
        let l = if 'A' <= c && c <= 'Z' {
            let u: u32 = c as u32;
            let b: u8 = (u + 32) as u8;
            b as char
        } else {
            c
        };
        r.push(l);
        assert(v@.take(i + 1).map_values(|c: char| ascii_lower(c)) == v@.take(i as int).map_values(
            |c: char| ascii_lower(c),
        ).push(ascii_lower(c)));
    }
    assert(v@.take(n as int) == v@);
    r
}

/// Three-way comparison result.
#[derive(Clone, Copy, Debug, PartialEq, Eq, Structural)]
pub enum Order {
    Less,
    Equal,
    Greater,
}

/// The reverse of an order.
pub open spec fn flip(o: Order) -> Order {
    match o {
        Order::Less => Order::Greater,
        Order::Equal => Order::Equal,
        Order::Greater => Order::Less,
    }
}

/// Lexicographic order of `a` and `b` by code point (the order of their UTF-8 bytes).
pub open spec fn chars_order(a: Seq<char>, b: Seq<char>) -> Order
    decreases a.len(),
{
    if a.len() == 0 && b.len() == 0 {
        Order::Equal
    } else if a.len() == 0 {
        Order::Less
    } else if b.len() == 0 {
        Order::Greater
    } else if (a[0] as u32) < (b[0] as u32) {
        Order::Less
    } else if (a[0] as u32) > (b[0] as u32) {
        Order::Greater
    } else {
        chars_order(a.drop_first(), b.drop_first())
    }
}

/// Comparing the other way round gives the reverse order.
pub proof fn lemma_chars_order_flip(a: Seq<char>, b: Seq<char>)
    ensures
        chars_order(b, a) == flip(chars_order(a, b)),
    decreases a.len(),
{
    if a.len() > 0 && b.len() > 0 && a[0] as u32 == b[0] as u32 {
        lemma_chars_order_flip(a.drop_first(), b.drop_first());
    }
}

/// Only equal texts compare equal.
pub proof fn lemma_chars_order_equal(a: Seq<char>, b: Seq<char>)
    requires
        chars_order(a, b) == Order::Equal,
    ensures
        a == b,
    decreases a.len(),
{
    if a.len() == 0 {
        assert(b.len() == 0);
        assert(a =~= b);
    } else {
        assert(b.len() > 0);
        assert(!((a[0] as u32) < (b[0] as u32)) && !((a[0] as u32) > (b[0] as u32)));
        vstd::utf8::char_u32_cast(a[0], a[0] as u32);
        vstd::utf8::char_u32_cast(b[0], b[0] as u32);
        assert(a[0] == b[0]);
        lemma_chars_order_equal(a.drop_first(), b.drop_first());
        assert(a =~= seq![a[0]] + a.drop_first());
        assert(b =~= seq![b[0]] + b.drop_first());
    }
}

/// The order of texts is transitive.
pub proof fn lemma_chars_order_less_trans(a: Seq<char>, b: Seq<char>, c: Seq<char>)
    requires
        chars_order(a, b) == Order::Less,
        chars_order(b, c) == Order::Less,
    ensures
        chars_order(a, c) == Order::Less,
    decreases a.len(),
{
    if a.len() > 0 && b.len() > 0 && c.len() > 0 && a[0] as u32 == b[0] as u32 && b[0] as u32
        == c[0] as u32 {
        lemma_chars_order_less_trans(a.drop_first(), b.drop_first(), c.drop_first());
    }
}

/// Lexicographic order of `a` and `b` by code point.
pub fn compare_chars(a: &[char], b: &[char]) -> (r: Order)
    ensures
        r == chars_order(a@, b@),
{
    let mut i: usize = 0;
    assert(a@.skip(0) == a@ && b@.skip(0) == b@);
    loop
        invariant
            i <= a@.len(),
            i <= b@.len(),
            chars_order(a@, b@) == chars_order(a@.skip(i as int), b@.skip(i as int)),
        decreases a@.len() - i,
    {
        let ghost sa = a@.skip(i as int);
        let ghost sb = b@.skip(i as int);
        if i == a.len() && i == b.len() {
            return Order::Equal;
        } else if i == a.len() {
            return Order::Less;
        } else if i == b.len() {
            return Order::Greater;
        }
        assert(sa[0] == a@[i as int] && sb[0] == b@[i as int]);
        let x = a[i] as u32;
        let y = b[i] as u32;
        if x < y {
            return Order::Less;
        } else if x > y {
            return Order::Greater;
        }
        assert(sa.drop_first() == a@.skip(i + 1));
        assert(sb.drop_first() == b@.skip(i + 1));
        i += 1;
    }
}

/// The pieces of `s[i..]` between characters of class `k` (`str::split`).
pub open spec fn split_by(s: Seq<char>, k: CharClass, i: int) -> Seq<Seq<char>>
    decreases s.len() - i,
{
    if i < 0 || i > s.len() {
        seq![]
    } else {
        let j = find_in(s, k, i);
        proof {
            lemma_find_in(s, k, i);
        }
        if j >= s.len() {
            seq![s.subrange(i, s.len() as int)]
        } else {
            seq![s.subrange(i, j)] + split_by(s, k, j + 1)
        }
    }
}

/// The pieces of `v` between characters of class `k`.
pub fn split_by_exec(v: &[char], k: CharClass) -> (r: Vec<Vec<char>>)
    ensures
        r@.len() == split_by(v@, k, 0).len(),
        forall|j: int| 0 <= j < r@.len() ==> #[trigger] r@[j]@ == split_by(v@, k, 0)[j],
{
    let mut out: Vec<Vec<char>> = Vec::new();
    let ghost pieces: Seq<Seq<char>> = seq![];
    let mut i: usize = 0;
    loop
        invariant
            i <= v@.len(),
            out@.len() == pieces.len(),
            forall|j: int| 0 <= j < out@.len() ==> #[trigger] out@[j]@ == pieces[j],
            pieces + split_by(v@, k, i as int) == split_by(v@, k, 0),
        decreases v.len() - i,
    {
        proof {
            lemma_find_in(v@, k, i as int);
        }
        let j = find_in_exec(v, k, i);
        let piece = copy_range(v, i, j);
        if j >= v.len() {
            proof {
                pieces = pieces.push(piece@);
            }
            out.push(piece);
            return out;
        }
        proof {
            assert(split_by(v@, k, i as int) == seq![piece@] + split_by(v@, k, j + 1));
            assert(pieces + seq![piece@] == pieces.push(piece@));
            pieces = pieces.push(piece@);
        }
        out.push(piece);
        i = j + 1;
    }
}

/// The number that the digits `d` spell in decimal.
pub open spec fn digits_value(d: Seq<char>) -> nat
    decreases d.len(),
{
    if d.len() == 0 {
        0
    } else {
        digits_value(d.drop_last()) * 10 + (d.last() as nat - 48) as nat
    }
}

/// Every character of `d` is an ASCII digit.
pub open spec fn all_digits(d: Seq<char>) -> bool {
    forall|i: int| 0 <= i < d.len() ==> '0' <= #[trigger] d[i] <= '9'
}

/// What `str::parse::<u64>` accepts: an optional `+` and then one or more digits
/// whose value fits in `u64`.
pub open spec fn parse_u64(t: Seq<char>) -> Option<u64> {
    let d = if t.len() > 0 && t[0] == '+' {
        t.drop_first()
    } else {
        t
    };
    if d.len() > 0 && all_digits(d) && digits_value(d) <= u64::MAX {
        Some(digits_value(d) as u64)
    } else {
        None
    }
}

/// A prefix of a digit string spells no larger a number.
pub proof fn lemma_digits_prefix(d: Seq<char>, k: int)
    requires
        all_digits(d),
        0 <= k <= d.len(),
    ensures
        digits_value(d.take(k)) <= digits_value(d),
    decreases d.len(),
{
    if k < d.len() {
        assert(all_digits(d.drop_last()));
        lemma_digits_prefix(d.drop_last(), k);
        assert(d.drop_last().take(k) == d.take(k));
    } else {
        assert(d.take(k) == d);
    }
}

/// The decimal representation of `n` is a non-empty digit string that spells `n`.
pub proof fn lemma_decimal_digits(n: nat)
    ensures
        decimal(n).len() > 0,
        all_digits(decimal(n)),
        digits_value(decimal(n)) == n,
    decreases n,
{
    let d = decimal(n);
    if n < 10 {
        assert(d == seq![digit_char(n as int)]);
        assert(d.drop_last() == Seq::<char>::empty());
        assert(digit_char(n as int) as u32 == 48 + n);
        assert(d.last() as nat == 48 + n);
        assert(digits_value(d.drop_last()) == 0);
        assert(digits_value(d) == n);
    } else {
        assert(n == (n / 10) * 10 + n % 10) by (nonlinear_arith);
        assert(digit_char((n % 10) as int) as u32 == 48 + n % 10);
        lemma_decimal_digits(n / 10);
        let p = decimal(n / 10);
        assert(d == p + seq![digit_char((n % 10) as int)]);
        assert(d.drop_last() == p);
        assert(d.last() as nat == 48 + n % 10);
        assert(digits_value(d) == digits_value(p) * 10 + n % 10);
        assert forall|i: int| 0 <= i < d.len() implies '0' <= #[trigger] d[i] <= '9' by {
            if i < p.len() {
                assert(d[i] == p[i]);
            }
        }
    }
}

/// The decimal representation of `n` starts with `0` only when it is `0` itself,
/// and numbers below 10, 100 and 1000 take at most one, two and three digits.
pub proof fn lemma_decimal_shape(n: nat)
    ensures
        decimal(n).len() >= 1,
        n >= 1 ==> decimal(n)[0] != '0',
        n < 10 ==> decimal(n).len() == 1,
        n < 100 ==> decimal(n).len() <= 2,
        n < 1000 ==> decimal(n).len() <= 3,
    decreases n,
{
    if n >= 10 {
        lemma_decimal_shape(n / 10);
        assert(decimal(n) == decimal(n / 10) + seq![digit_char((n % 10) as int)]);
        assert(decimal(n)[0] == decimal(n / 10)[0]);
    } else {
        assert(digit_char(n as int) as u32 == 48 + n);
    }
}

/// Zeros in front of a digit string do not change the number it spells.
pub proof fn lemma_leading_zeros(z: Seq<char>, d: Seq<char>)
    requires
        forall|i: int| 0 <= i < z.len() ==> z[i] == '0',
    ensures
        digits_value(z + d) == digits_value(d),
    decreases z.len() + d.len(),
{
    if d.len() == 0 {
        assert(z + d == z);
        if z.len() > 0 {
            assert(z.drop_last() + d == z.drop_last());
            lemma_leading_zeros(z.drop_last(), d);
            assert(z.last() == '0');
        }
    } else {
        assert((z + d).drop_last() == z + d.drop_last());
        assert((z + d).last() == d.last());
        lemma_leading_zeros(z, d.drop_last());
    }
}

/// `n` below 1000, padded to three places, is three digits that spell `n`.
pub proof fn lemma_three_places(n: nat)
    requires
        n < 1000,
    ensures
        zero_padded(n, 3).len() == 3,
        all_digits(zero_padded(n, 3)),
        digits_value(zero_padded(n, 3)) == n,
{
    lemma_decimal_shape(n);
    lemma_decimal_digits(n);
    let d = decimal(n);
    if d.len() < 3 {
        let z = Seq::new((3 - d.len()) as nat, |i: int| '0');
        lemma_leading_zeros(z, d);
        assert(zero_padded(n, 3) == z + d);
        assert forall|i: int| 0 <= i < (z + d).len() implies '0' <= #[trigger] (z + d)[i] <= '9' by {
            if i >= z.len() {
                assert((z + d)[i] == d[i - z.len()]);
            }
        }
    }
}

/// `n` below 100, padded to two places, is its tens digit then its units digit.
pub proof fn lemma_two_places(n: nat)
    requires
        n < 100,
    ensures
        zero_padded(n, 2) == seq![digit_char(n as int / 10), digit_char(n as int % 10)],
{
    lemma_decimal_shape(n);
    if n < 10 {
        assert(zero_padded(n, 2) =~= seq![digit_char(0), digit_char(n as int)]);
    } else {
        lemma_decimal_shape(n / 10);
        assert(decimal(n) == decimal(n / 10) + seq![digit_char((n % 10) as int)]);
        assert(decimal(n) =~= seq![digit_char(n as int / 10), digit_char(n as int % 10)]);
    }
}

/// `x` holds the decimal representation of `n` from index `at` on, followed by a
/// character that is not a digit.
pub open spec fn has_number_at(x: Seq<char>, at: int, n: nat) -> bool {
    &&& 0 <= at
    &&& at + decimal(n).len() < x.len()
    &&& forall|k: int| 0 <= k < decimal(n).len() ==> x[at + k] == #[trigger] decimal(n)[k]
    &&& !('0' <= x[at + decimal(n).len()] <= '9')
}

/// A text holds only one number at a given index: numbers written in decimal and
/// followed by a non-digit are told apart by their text.
pub proof fn lemma_number_at_unique(x: Seq<char>, at: int, a: nat, b: nat)
    requires
        has_number_at(x, at, a),
        has_number_at(x, at, b),
    ensures
        a == b,
{
    lemma_decimal_digits(a);
    lemma_decimal_digits(b);
    let da = decimal(a);
    let db = decimal(b);
    if da.len() < db.len() {
        assert(x[at + da.len()] == db[da.len() as int]);
    } else if db.len() < da.len() {
        assert(x[at + db.len()] == da[db.len() as int]);
    } else {
        assert forall|k: int| 0 <= k < da.len() implies da[k] == db[k] by {
            assert(x[at + k] == da[k]);
            assert(x[at + k] == db[k]);
        }
        assert(da == db);
    }
}

/// Writing a number in decimal and reading it back with `str::parse::<u64>`
/// gives the number again.
pub proof fn lemma_decimal_parses_back(n: u64)
    ensures
        parse_u64(decimal(n as nat)) == Some(n),
{
    lemma_decimal_digits(n as nat);
    assert(decimal(n as nat)[0] != '+');
}

} // verus!
