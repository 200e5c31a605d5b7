//! The ffmpeg filter graph that cuts the chosen segments out of an audio stream
//! and joins them.

use vstd::prelude::*;

use crate::segments::Segment;
use crate::text::{
    all_digits, decimal, digits_value, extend_str, lemma_decimal_digits, lemma_decimal_shape,
    lemma_three_places, push_decimal, push_zero_padded, string_of, zero_padded,
};

verus! {

/// A time in milliseconds written as seconds with three decimals (`1500` is `1.500`).
pub open spec fn seconds_text(ms: u64) -> Seq<char> {
    decimal((ms / 1000) as nat) + seq!['.'] + zero_padded((ms % 1000) as nat, 3)
}

/// `[{tag}0][{tag}1]...[{tag}{n-1}]`.
pub open spec fn pad_labels(tag: char, n: nat) -> Seq<char>
    decreases n,
{
    if n == 0 {
        seq![]
    } else {
        pad_labels(tag, (n - 1) as nat) + seq!['[', tag] + decimal((n - 1) as nat) + seq![']']
    }
}

/// The filter chain that cuts tap `i` down to `seg` and restarts its timestamps at zero.
pub open spec fn trim_chain(i: nat, seg: Segment) -> Seq<char> {
    seq!['[', 'a'] + decimal(i) + "]atrim=start="@ + seconds_text(seg.start_ms) + ":end="@
        + seconds_text(seg.end_ms) + ",asetpts=PTS-STARTPTS[s"@ + decimal(i) + "];"@
}

/// The trim chains of all of `segs`, tap `i` for `segs[i]`.
pub open spec fn trim_chains(segs: Seq<Segment>) -> Seq<char>
    decreases segs.len(),
{
    if segs.len() == 0 {
        seq![]
    } else {
        trim_chains(segs.drop_last()) + trim_chain((segs.len() - 1) as nat, segs.last())
    }
}

/// The whole filter graph: split audio stream `audio_idx` into one tap per segment,
/// trim each tap to its segment, and concatenate the trimmed taps into `[out]`.
pub open spec fn filter_graph(audio_idx: u32, segs: Seq<Segment>) -> Seq<char> {
    "[0:a:"@ + decimal(audio_idx as nat) + "]asplit="@ + decimal(segs.len()) + pad_labels(
        'a',
        segs.len(),
    ) + ";"@ + trim_chains(segs) + pad_labels('s', segs.len()) + "concat=n="@ + decimal(
        segs.len(),
    ) + ":v=0:a=1[out]"@
}

/// `t` writes `ms` milliseconds as seconds with exactly three decimals: whole
/// seconds in digits with no needless leading zero, a `.`, and three digits of
/// milliseconds, that read back as `ms`.
pub open spec fn reads_as_millis(t: Seq<char>, ms: nat) -> bool {
    let k = t.len() - 4;
    &&& t.len() >= 5
    &&& t[k] == '.'
    &&& all_digits(t.take(k))
    &&& all_digits(t.skip(k + 1))
    &&& (k == 1 || t[0] != '0')
    &&& digits_value(t.take(k)) * 1000 + digits_value(t.skip(k + 1)) == ms
}

/// The trim chain for tap `i` cuts out exactly `seg`: its `start=` and `end=`
/// fields are the segment's start and end in seconds with three decimals.
pub proof fn lemma_trim_chain_times(i: nat, seg: Segment)
    ensures
        exists|start: Seq<char>, end: Seq<char>|
            reads_as_millis(start, seg.start_ms as nat) && reads_as_millis(end, seg.end_ms as nat)
                && trim_chain(i, seg) == seq!['[', 'a'] + decimal(i) + "]atrim=start="@ + start
                + ":end="@ + end + ",asetpts=PTS-STARTPTS[s"@ + decimal(i) + "];"@,
{
    lemma_seconds_text_reads_back(seg.start_ms);
    lemma_seconds_text_reads_back(seg.end_ms);
    let start = seconds_text(seg.start_ms);
    let end = seconds_text(seg.end_ms);
    assert(trim_chain(i, seg) == seq!['[', 'a'] + decimal(i) + "]atrim=start="@ + start + ":end="@
        + end + ",asetpts=PTS-STARTPTS[s"@ + decimal(i) + "];"@);
}

proof fn lemma_seconds_text_reads_back(ms: u64)
    ensures
        reads_as_millis(seconds_text(ms), ms as nat),
{
    let q = (ms / 1000) as nat;
    let r = (ms % 1000) as nat;
    let d = decimal(q);
    let z = zero_padded(r, 3);
    lemma_decimal_digits(q);
    lemma_decimal_shape(q);
    lemma_three_places(r);
    let t = seconds_text(ms);
    assert(t == d + seq!['.'] + z);
    let k = t.len() - 4;
    assert(k == d.len());
    assert(t.take(k) =~= d);
    assert(t.skip(k + 1) =~= z);
    assert(t[k] == '.');
    assert(t[0] == d[0]);
    assert(q * 1000 + r == ms);
}

fn push_pad_labels(out: &mut Vec<char>, tag: char, n: usize)
    ensures
        final(out)@ == old(out)@ + pad_labels(tag, n as nat),
{
    let ghost start = out@;
    for i in 0..n
        invariant
            out@ == start + pad_labels(tag, i as nat),
    {
        out.push('[');
        out.push(tag);
        push_decimal(out, i as u64);
        out.push(']');
        assert(out@ == start + pad_labels(tag, (i + 1) as nat));
    }
}

fn push_seconds(out: &mut Vec<char>, ms: u64)
    ensures
        final(out)@ == old(out)@ + seconds_text(ms),
{
    push_decimal(out, ms / 1000);
    out.push('.');
    push_zero_padded(out, ms % 1000, 3);
}

fn push_trim_chain(out: &mut Vec<char>, i: usize, seg: Segment)
    ensures
        final(out)@ == old(out)@ + trim_chain(i as nat, seg),
{
    out.push('[');
    out.push('a');
    push_decimal(out, i as u64);
    extend_str(out, "]atrim=start=");
    push_seconds(out, seg.start_ms);
    extend_str(out, ":end=");
    push_seconds(out, seg.end_ms);
    extend_str(out, ",asetpts=PTS-STARTPTS[s");
    push_decimal(out, i as u64);
    extend_str(out, "];");
    assert(out@ == old(out)@ + trim_chain(i as nat, seg));
}

/// Builds the filter graph for `segments` of audio stream `audio_idx`
/// (see `filter_graph`). Times are written with millisecond precision.
pub fn build_filter(audio_idx: u32, segments: &[Segment]) -> (graph: String)
    ensures
        graph@ == filter_graph(audio_idx, segments@),
{
    let n = segments.len();
    let mut g: Vec<char> = Vec::new();
    extend_str(&mut g, "[0:a:");
    push_decimal(&mut g, audio_idx as u64);
    extend_str(&mut g, "]asplit=");
    push_decimal(&mut g, n as u64);
    push_pad_labels(&mut g, 'a', n);
    extend_str(&mut g, ";");
    let ghost head = g@;
    for i in 0..n
        invariant
            n == segments@.len(),
            g@ == head + trim_chains(segments@.take(i as int)),
    {
        let seg = segments[i];
        push_trim_chain(&mut g, i, seg);
        proof {
            assert(segments@.take(i + 1).drop_last() == segments@.take(i as int));
            assert(segments@.take(i + 1).last() == seg);
            assert(g@ == head + trim_chains(segments@.take(i + 1)));
        }
    }
    assert(segments@.take(n as int) == segments@);
    push_pad_labels(&mut g, 's', n);
    extend_str(&mut g, "concat=n=");
    push_decimal(&mut g, n as u64);
    extend_str(&mut g, ":v=0:a=1[out]");
    string_of(g.as_slice())
}

/// Why there is nothing to hand ffmpeg.
#[derive(Clone, Copy, Debug, PartialEq, Eq, Structural)]
pub enum ExtractError {
    /// No segments: the condensed audio would be empty.
    NoSegments,
}

/// The filter graph that encoding `segments` of audio stream `audio_idx` runs,
/// or `NoSegments` when there is nothing to encode.
pub fn encode_filter(audio_idx: u32, segments: &[Segment]) -> (r: Result<String, ExtractError>)
    ensures
        segments@.len() == 0 ==> r == Err::<String, ExtractError>(ExtractError::NoSegments),
        segments@.len() > 0 ==> (r matches Ok(g) && g@ == filter_graph(audio_idx, segments@)),
{
    if segments.len() == 0 {
        return Err(ExtractError::NoSegments);
    }
    Ok(build_filter(audio_idx, segments))
}

} // verus!
