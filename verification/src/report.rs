//! Human-readable durations for the summary printed after encoding.

use vstd::prelude::*;

use crate::text::{
    decimal, digit_char, lemma_two_places, push_decimal, push_zero_padded, string_of, zero_padded,
};

verus! {

/// `ms` as `{h}h{mm}m{ss}s` when it reaches an hour, else `{m}m{ss}s`; minutes and
/// seconds below the leading unit are two digits wide, and leftover milliseconds
/// are dropped.
pub open spec fn duration_text(ms: u64) -> Seq<char> {
    let secs = ms / 1000;
    let h = secs / 3600;
    let m = (secs % 3600) / 60;
    let s = secs % 60;
    if h > 0 {
        decimal(h as nat) + seq!['h'] + zero_padded(m as nat, 2) + seq!['m'] + zero_padded(
            s as nat,
            2,
        ) + seq!['s']
    } else {
        decimal(m as nat) + seq!['m'] + zero_padded(s as nat, 2) + seq!['s']
    }
}

/// `{h}h{m}m{s}s` with the minutes and seconds as two digits each, or `{m}m{s}s`
/// with the seconds as two digits when there are no hours.
pub open spec fn clock_text(h: nat, m: nat, s: nat) -> Seq<char> {
    (if h > 0 {
        decimal(h) + seq!['h', digit_char(m as int / 10), digit_char(m as int % 10)]
    } else {
        decimal(m)
    }) + seq!['m', digit_char(s as int / 10), digit_char(s as int % 10), 's']
}

/// The text reads back as the duration in whole seconds: there are hours `h`,
/// minutes `m < 60` and seconds `s < 60` with `h*3600 + m*60 + s == ms / 1000`, and
/// the text is `{h}h` (only when `h > 0`), then the minutes (exactly two digits
/// after an hour field, in plain decimal otherwise), `m`, exactly two digits of
/// seconds, and `s`.
pub proof fn lemma_duration_text_reads_back(ms: u64)
    ensures
        exists|h: nat, m: nat, s: nat|
            m < 60 && s < 60 && h * 3600 + m * 60 + s == ms / 1000 && duration_text(ms)
                == #[trigger] clock_text(h, m, s),
{
    let secs = ms / 1000;
    let h = (secs / 3600) as nat;
    let m = ((secs % 3600) / 60) as nat;
    let s = (secs % 60) as nat;
    assert(h * 3600 + m * 60 + s == secs) by (nonlinear_arith)
        requires
            h == secs / 3600,
            m == (secs % 3600) / 60,
            s == secs % 60,
    ;
    lemma_two_places(m);
    lemma_two_places(s);
    assert(duration_text(ms) == clock_text(h, m, s));
}

/// Formats a duration in milliseconds; see `duration_text`.
pub fn fmt_duration(ms: u64) -> (r: String)
    ensures
        r@ == duration_text(ms),
{
    let total_secs = ms / 1000;
    let h = total_secs / 3600;
    let m = (total_secs % 3600) / 60;
    let s = total_secs % 60;
    let mut v: Vec<char> = Vec::new();
    if h > 0 {
        push_decimal(&mut v, h);
        v.push('h');
        push_zero_padded(&mut v, m, 2);
    } else {
        push_decimal(&mut v, m);
    }
    v.push('m');
    push_zero_padded(&mut v, s, 2);
    v.push('s');
    string_of(v.as_slice())
}

} // verus!
