//! Turning subtitle cues into the time ranges that make up the condensed audio.

use vstd::prelude::*;

use crate::srt::Cue;

verus! {

/// A half-open time range `[start_ms, end_ms)` of the source audio, in milliseconds.
#[derive(Debug, Clone, Copy, PartialEq, Eq, Structural)]
pub struct Segment {
    pub start_ms: u64,
    pub end_ms: u64,
}

impl Segment {
    /// Length of the segment; zero when it is empty or reversed.
    pub fn duration_ms(&self) -> (d: u64)
        ensures
            d == self.spec_duration(),
    {
        self.end_ms.saturating_sub(self.start_ms)
    }

    /// Length of the segment; zero when it is empty or reversed.
    pub open spec fn spec_duration(self) -> nat {
        if self.end_ms >= self.start_ms {
            (self.end_ms - self.start_ms) as nat
        } else {
            0
        }
    }
}

/// Sum of the durations of `s`.
pub open spec fn spec_total_duration(s: Seq<Segment>) -> nat
    decreases s.len(),
{
    if s.len() == 0 {
        0
    } else {
        spec_total_duration(s.drop_last()) + s.last().spec_duration()
    }
}

/// The time range a cue occupies once padded by `pad` on both sides: the start is
/// clamped at zero and the end at `max_end`.
pub open spec fn padded(c: Cue, pad: u64, max_end: u64) -> Segment {
    Segment {
        start_ms: if c.start_ms >= pad { (c.start_ms - pad) as u64 } else { 0 },
        end_ms: if c.end_ms + pad <= max_end { (c.end_ms + pad) as u64 } else { max_end },
    }
}

/// Whether a segment covers some time.
pub open spec fn non_empty(s: Segment) -> bool {
    s.end_ms > s.start_ms
}

/// The padded cues that still cover some time, in cue order.
pub open spec fn raw_segments(cues: Seq<Cue>, pad: u64, max_end: u64) -> Seq<Segment> {
    cues.map_values(|c: Cue| padded(c, pad, max_end)).filter(|s: Segment| non_empty(s))
}

/// Every start in `s` is no later than the starts after it.
pub open spec fn sorted_by_start(s: Seq<Segment>) -> bool {
    forall|i: int, j: int| 0 <= i < j < s.len() ==> s[i].start_ms <= s[j].start_ms
}

/// `x` inserted into `s` after every element whose start is no later than `x`'s,
/// scanning from the back: the insertion step of a stable sort by start.
pub open spec fn insert_by_start(s: Seq<Segment>, x: Segment) -> Seq<Segment>
    decreases s.len(),
{
    if s.len() == 0 {
        seq![x]
    } else if s.last().start_ms <= x.start_ms {
        s.push(x)
    } else {
        insert_by_start(s.drop_last(), x).push(s.last())
    }
}

/// `s` stably sorted by start (what `sort_by_key(|s| s.start_ms)` yields).
pub open spec fn sort_by_start(s: Seq<Segment>) -> Seq<Segment>
    decreases s.len(),
{
    if s.len() == 0 {
        s
    } else {
        insert_by_start(sort_by_start(s.drop_last()), s.last())
    }
}

/// Folds `s` left to right: a segment that starts less than `gap` after the end of
/// the last kept segment (or before that end) extends it; any other segment is
/// kept on its own.
pub open spec fn merge_segments(s: Seq<Segment>, gap: u64) -> Seq<Segment>
    decreases s.len(),
{
    if s.len() == 0 {
        seq![]
    } else {
        let m = merge_segments(s.drop_last(), gap);
        let x = s.last();
        if m.len() > 0 && x.start_ms < m.last().end_ms + gap {
            m.update(
                m.len() - 1,
                Segment {
                    start_ms: m.last().start_ms,
                    end_ms: if x.end_ms > m.last().end_ms { x.end_ms } else { m.last().end_ms },
                },
            )
        } else {
            m.push(x)
        }
    }
}

/// The latest end a segment may have: the media's duration when it is known.
pub open spec fn max_end_of(total: Option<u64>) -> u64 {
    match total {
        Some(t) => t,
        None => u64::MAX,
    }
}

/// What `build` returns for these arguments.
pub open spec fn spec_build(cues: Seq<Cue>, pad_ms: u32, gap_ms: u32, total: Option<u64>) -> Seq<
    Segment,
> {
    merge_segments(sort_by_start(raw_segments(cues, pad_ms as u64, max_end_of(total))), gap_ms as u64)
}

/// Each segment covers some time, and each next segment starts at least `gap`
/// after the previous one ends.
pub open spec fn separated(s: Seq<Segment>, gap: u64) -> bool {
    &&& forall|i: int| 0 <= i < s.len() ==> #[trigger] non_empty(s[i])
    &&& forall|i: int|
        0 <= i < s.len() - 1 ==> #[trigger] s[i + 1].start_ms >= s[i].end_ms + gap
}

/// Some segment of `outer` contains `seg`.
#[verifier::opaque]
pub open spec fn within(seg: Segment, outer: Seq<Segment>) -> bool {
    exists|j: int|
        0 <= j < outer.len() && outer[j].start_ms <= seg.start_ms && seg.end_ms <= outer[j].end_ms
}

/// Some segment of `src` starts at `v`.
#[verifier::opaque]
pub open spec fn start_in(src: Seq<Segment>, v: u64) -> bool {
    exists|j: int| 0 <= j < src.len() && src[j].start_ms == v
}

/// Some segment of `src` ends at `v`.
#[verifier::opaque]
pub open spec fn end_in(src: Seq<Segment>, v: u64) -> bool {
    exists|j: int| 0 <= j < src.len() && src[j].end_ms == v
}

/// Every segment of `inner` lies within some segment of `outer`.
pub open spec fn covered_by(inner: Seq<Segment>, outer: Seq<Segment>) -> bool {
    forall|i: int| 0 <= i < inner.len() ==> #[trigger] within(inner[i], outer)
}

/// Every start and every end in `out` is the start, or the end, of some segment of `src`.
pub open spec fn bounds_from(out: Seq<Segment>, src: Seq<Segment>) -> bool {
    &&& forall|i: int| 0 <= i < out.len() ==> #[trigger] start_in(src, out[i].start_ms)
    &&& forall|i: int| 0 <= i < out.len() ==> #[trigger] end_in(src, out[i].end_ms)
}

proof fn lemma_insert_at(s: Seq<Segment>, x: Segment, p: int)
    requires
        0 <= p <= s.len(),
        forall|j: int| p <= j < s.len() ==> s[j].start_ms > x.start_ms,
        p == 0 || s[p - 1].start_ms <= x.start_ms,
    ensures
        insert_by_start(s, x) == s.insert(p, x),
    decreases s.len(),
{
    if s.len() == 0 {
        assert(s.insert(p, x) =~= seq![x]);
    } else if s.last().start_ms <= x.start_ms {
        assert(p == s.len());
        assert(s.insert(p, x) =~= s.push(x));
    } else {
        lemma_insert_at(s.drop_last(), x, p);
        assert(s.drop_last().insert(p, x).push(s.last()) =~= s.insert(p, x));
    }
}

proof fn lemma_insert_sorted(s: Seq<Segment>, x: Segment)
    requires
        sorted_by_start(s),
    ensures
        sorted_by_start(insert_by_start(s, x)),
        insert_by_start(s, x).to_multiset() == s.to_multiset().insert(x),
        insert_by_start(s, x).len() == s.len() + 1,
        forall|i: int|
            0 <= i < s.len() + 1 ==> #[trigger] insert_by_start(s, x)[i] == x || s.contains(
                insert_by_start(s, x)[i],
            ),
    decreases s.len(),
{
    broadcast use vstd::seq_lib::group_to_multiset_ensures;

    if s.len() == 0 {
        assert(seq![x] =~= Seq::<Segment>::empty().push(x));
    } else if s.last().start_ms <= x.start_ms {
    } else {
        let t = s.drop_last();
        lemma_insert_sorted(t, x);
        let r = insert_by_start(t, x);
        assert(s =~= t.push(s.last()));
        assert forall|i: int| 0 <= i < r.len() implies r[i].start_ms <= s.last().start_ms by {
            if r[i] != x {
                let k = choose|k: int| 0 <= k < t.len() && t[k] == r[i];
                assert(t[k] == s[k]);
            }
        }
        assert forall|i: int| 0 <= i < s.len() + 1 implies #[trigger] insert_by_start(s, x)[i]
            == x || s.contains(insert_by_start(s, x)[i]) by {
            if i < r.len() && r[i] != x {
                let k = choose|k: int| 0 <= k < t.len() && t[k] == r[i];
                assert(s[k] == r[i]);
            } else if i == r.len() {
                assert(s[s.len() - 1] == s.last());
            }
        }
    }
}

/// Sorting by start yields segments ordered by start, holding exactly the
/// segments it was given.
pub proof fn lemma_sort_by_start(s: Seq<Segment>)
    ensures
        sorted_by_start(sort_by_start(s)),
        sort_by_start(s).to_multiset() == s.to_multiset(),
        sort_by_start(s).len() == s.len(),
    decreases s.len(),
{
    broadcast use vstd::seq_lib::group_to_multiset_ensures;

    if s.len() > 0 {
        lemma_sort_by_start(s.drop_last());
        lemma_insert_sorted(sort_by_start(s.drop_last()), s.last());
        assert(s =~= s.drop_last().push(s.last()));
    }
}

/// The facts about one merge step that the merge laws are built from.
spec fn merge_invariant(s: Seq<Segment>, m: Seq<Segment>, gap: u64) -> bool {
    &&& separated(m, gap)
    &&& covered_by(s, m)
    &&& bounds_from(m, s)
    &&& m.len() <= s.len()
    &&& s.len() > 0 ==> m.len() > 0
}

proof fn lemma_start_in_push(t: Seq<Segment>, x: Segment, v: u64)
    requires
        start_in(t, v) || x.start_ms == v,
    ensures
        start_in(t.push(x), v),
{
    reveal(start_in);
    if x.start_ms == v {
        assert(t.push(x)[t.len() as int] == x);
    } else {
        let j = choose|j: int| 0 <= j < t.len() && t[j].start_ms == v;
        assert(t.push(x)[j] == t[j]);
    }
}

proof fn lemma_end_in_push(t: Seq<Segment>, x: Segment, v: u64)
    requires
        end_in(t, v) || x.end_ms == v,
    ensures
        end_in(t.push(x), v),
{
    reveal(end_in);
    if x.end_ms == v {
        assert(t.push(x)[t.len() as int] == x);
    } else {
        let j = choose|j: int| 0 <= j < t.len() && t[j].end_ms == v;
        assert(t.push(x)[j] == t[j]);
    }
}

/// Containment survives replacing segments by ones that contain them.
proof fn lemma_within_grow(seg: Segment, m: Seq<Segment>, r: Seq<Segment>)
    requires
        within(seg, m),
        m.len() <= r.len(),
        forall|j: int|
            0 <= j < m.len() ==> r[j].start_ms <= m[j].start_ms && m[j].end_ms <= r[j].end_ms,
    ensures
        within(seg, r),
{
    reveal(within);
    let j = choose|j: int|
        0 <= j < m.len() && m[j].start_ms <= seg.start_ms && seg.end_ms <= m[j].end_ms;
    assert(r[j].start_ms <= seg.start_ms && seg.end_ms <= r[j].end_ms);
}

proof fn lemma_merge_step_cover(t: Seq<Segment>, x: Segment, m: Seq<Segment>, r: Seq<Segment>)
    requires
        covered_by(t, m),
        m.len() <= r.len(),
        forall|j: int|
            0 <= j < m.len() ==> r[j].start_ms <= m[j].start_ms && m[j].end_ms <= r[j].end_ms,
        within(x, r),
    ensures
        covered_by(t.push(x), r),
{
    let s = t.push(x);
    assert forall|i: int| 0 <= i < s.len() implies #[trigger] within(s[i], r) by {
        if i < t.len() {
            assert(s[i] == t[i]);
            lemma_within_grow(t[i], m, r);
        } else {
            assert(s[i] == x);
        }
    }
}

proof fn lemma_merge_step_extend(t: Seq<Segment>, x: Segment, m: Seq<Segment>, gap: u64)
    requires
        sorted_by_start(t.push(x)),
        non_empty(x),
        merge_invariant(t, m, gap),
        m.len() > 0,
        x.start_ms < m.last().end_ms + gap,
    ensures
        merge_invariant(
            t.push(x),
            m.update(
                m.len() - 1,
                Segment {
                    start_ms: m.last().start_ms,
                    end_ms: if x.end_ms > m.last().end_ms { x.end_ms } else { m.last().end_ms },
                },
            ),
            gap,
        ),
{
    let s = t.push(x);
    let n = m.len() - 1;
    let r = m.update(
        n,
        Segment {
            start_ms: m.last().start_ms,
            end_ms: if x.end_ms > m.last().end_ms { x.end_ms } else { m.last().end_ms },
        },
    );
    assert(start_in(t, m[n].start_ms));
    assert(m[n].start_ms <= x.start_ms) by {
        reveal(start_in);
        let j0 = choose|j: int| 0 <= j < t.len() && t[j].start_ms == m[n].start_ms;
        assert(t[j0] == s[j0] && s[s.len() - 1] == x);
    }
    assert(within(x, r)) by {
        reveal(within);
        assert(r[n].start_ms <= x.start_ms && x.end_ms <= r[n].end_ms);
    }
    lemma_merge_step_cover(t, x, m, r);
    assert(r.len() == m.len());
    assert(bounds_from(m, t));
    assert forall|i: int| 0 <= i < r.len() implies #[trigger] start_in(s, r[i].start_ms) by {
        assert(start_in(t, m[i].start_ms));
        lemma_start_in_push(t, x, r[i].start_ms);
    }
    assert forall|i: int| 0 <= i < r.len() implies #[trigger] end_in(s, r[i].end_ms) by {
        assert(end_in(t, m[i].end_ms));
        if i == n && x.end_ms > m[n].end_ms {
            assert(r[i].end_ms == x.end_ms);
        }
        lemma_end_in_push(t, x, r[i].end_ms);
    }
    assert forall|i: int| 0 <= i < r.len() implies #[trigger] non_empty(r[i]) by {
        assert(non_empty(m[i]));
    }
    assert forall|i: int| 0 <= i < r.len() - 1 implies #[trigger] r[i + 1].start_ms
        >= r[i].end_ms + gap by {
        assert(m[i + 1].start_ms >= m[i].end_ms + gap);
    }
}

proof fn lemma_merge_step_push(t: Seq<Segment>, x: Segment, m: Seq<Segment>, gap: u64)
    requires
        non_empty(x),
        merge_invariant(t, m, gap),
        !(m.len() > 0 && x.start_ms < m.last().end_ms + gap),
    ensures
        merge_invariant(t.push(x), m.push(x), gap),
{
    let s = t.push(x);
    let r = m.push(x);
    assert(within(x, r)) by {
        reveal(within);
        assert(r[m.len() as int] == x);
    }
    lemma_merge_step_cover(t, x, m, r);
    assert forall|i: int| 0 <= i < r.len() implies #[trigger] start_in(s, r[i].start_ms) by {
        if i < m.len() {
            assert(start_in(t, m[i].start_ms));
        }
        lemma_start_in_push(t, x, r[i].start_ms);
    }
    assert forall|i: int| 0 <= i < r.len() implies #[trigger] end_in(s, r[i].end_ms) by {
        if i < m.len() {
            assert(end_in(t, m[i].end_ms));
        }
        lemma_end_in_push(t, x, r[i].end_ms);
    }
    assert forall|i: int| 0 <= i < r.len() implies #[trigger] non_empty(r[i]) by {
        if i < m.len() {
            assert(non_empty(m[i]));
        }
    }
    assert forall|i: int| 0 <= i < r.len() - 1 implies #[trigger] r[i + 1].start_ms
        >= r[i].end_ms + gap by {
        if i + 1 < m.len() {
            assert(m[i + 1].start_ms >= m[i].end_ms + gap);
        }
    }
}

/// Merging segments sorted by start keeps them at least `gap` apart, loses no
/// time any of them covered, and only uses their own starts and ends.
pub proof fn lemma_merge_segments(s: Seq<Segment>, gap: u64)
    requires
        sorted_by_start(s),
        forall|i: int| 0 <= i < s.len() ==> #[trigger] non_empty(s[i]),
    ensures
        separated(merge_segments(s, gap), gap),
        covered_by(s, merge_segments(s, gap)),
        bounds_from(merge_segments(s, gap), s),
        merge_segments(s, gap).len() <= s.len(),
        s.len() > 0 ==> merge_segments(s, gap).len() > 0,
    decreases s.len(),
{
    if s.len() > 0 {
        let t = s.drop_last();
        let x = s.last();
        assert(s == t.push(x));
        assert forall|i: int| 0 <= i < t.len() implies #[trigger] non_empty(t[i]) by {
            assert(t[i] == s[i]);
        }
        lemma_merge_segments(t, gap);
        assert(non_empty(s[s.len() - 1]));
        let m = merge_segments(t, gap);
        if m.len() > 0 && x.start_ms < m.last().end_ms + gap {
            lemma_merge_step_extend(t, x, m, gap);
        } else {
            lemma_merge_step_push(t, x, m, gap);
        }
    } else {
        assert(merge_invariant(s, seq![], gap));
    }
}

/// The durations of segments kept apart as `separated` describes add up to no more
/// than the span from the first start to the last end.
pub proof fn lemma_total_duration_separated(s: Seq<Segment>, gap: u64)
    requires
        separated(s, gap),
        s.len() > 0,
    ensures
        spec_total_duration(s) <= s.last().end_ms - s[0].start_ms,
        spec_total_duration(s) <= u64::MAX,
    decreases s.len(),
{
    let t = s.drop_last();
    assert(non_empty(s[s.len() - 1]));
    if t.len() > 0 {
        assert forall|i: int| 0 <= i < t.len() implies #[trigger] non_empty(t[i]) by {
            assert(non_empty(s[i]));
        }
        assert forall|i: int| 0 <= i < t.len() - 1 implies #[trigger] t[i + 1].start_ms
            >= t[i].end_ms + gap by {
            assert(s[i + 1].start_ms >= s[i].end_ms + gap);
        }
        lemma_total_duration_separated(t, gap);
        let k = t.len() - 1;
        assert(s[k + 1].start_ms >= s[k].end_ms + gap);
    } else {
        assert(spec_total_duration(t) == 0);
    }
}

/// An element of one sequence is an element of any sequence holding the same elements.
proof fn lemma_same_elements(a: Seq<Segment>, b: Seq<Segment>, i: int)
    requires
        a.to_multiset() == b.to_multiset(),
        0 <= i < a.len(),
    ensures
        b.contains(a[i]),
{
    assert(a.contains(a[i]));
    vstd::seq_lib::to_multiset_contains(a, a[i]);
    vstd::seq_lib::to_multiset_contains(b, a[i]);
}

proof fn lemma_sorted_bounds(r: Seq<Segment>, ss: Seq<Segment>, rs: Seq<Segment>)
    requires
        bounds_from(r, ss),
        ss.to_multiset() == rs.to_multiset(),
    ensures
        bounds_from(r, rs),
{
    reveal(start_in);
    reveal(end_in);
    assert forall|i: int| 0 <= i < r.len() implies #[trigger] start_in(rs, r[i].start_ms) by {
        assert(start_in(ss, r[i].start_ms));
        let j = choose|j: int| 0 <= j < ss.len() && ss[j].start_ms == r[i].start_ms;
        lemma_same_elements(ss, rs, j);
        let j2 = choose|j2: int| 0 <= j2 < rs.len() && rs[j2] == ss[j];
    }
    assert forall|i: int| 0 <= i < r.len() implies #[trigger] end_in(rs, r[i].end_ms) by {
        assert(end_in(ss, r[i].end_ms));
        let k = choose|k: int| 0 <= k < ss.len() && ss[k].end_ms == r[i].end_ms;
        lemma_same_elements(ss, rs, k);
        let k2 = choose|k2: int| 0 <= k2 < rs.len() && rs[k2] == ss[k];
    }
}

proof fn lemma_cue_covered(
    cues: Seq<Cue>,
    pad: u64,
    max_end: u64,
    i: int,
    ss: Seq<Segment>,
    r: Seq<Segment>,
)
    requires
        0 <= i < cues.len(),
        non_empty(padded(cues[i], pad, max_end)),
        covered_by(ss, r),
        ss.to_multiset() == raw_segments(cues, pad, max_end).to_multiset(),
    ensures
        within(padded(cues[i], pad, max_end), r),
{
    let rs = raw_segments(cues, pad, max_end);
    broadcast use Seq::lemma_filter_contains;

    assert(cues.map_values(|c: Cue| padded(c, pad, max_end))[i] == padded(cues[i], pad, max_end));
    assert(rs.contains(padded(cues[i], pad, max_end)));
    let j = choose|j: int| 0 <= j < rs.len() && rs[j] == padded(cues[i], pad, max_end);
    lemma_same_elements(rs, ss, j);
    let k = choose|k: int| 0 <= k < ss.len() && ss[k] == rs[j];
    assert(within(ss[k], r));
}

proof fn lemma_total_duration_prefix(s: Seq<Segment>, k: int)
    requires
        0 <= k <= s.len(),
    ensures
        spec_total_duration(s.take(k)) <= spec_total_duration(s),
    decreases s.len(),
{
    if k < s.len() {
        lemma_total_duration_prefix(s.drop_last(), k);
        assert(s.drop_last().take(k) == s.take(k));
    } else {
        assert(s.take(k) == s);
    }
}

proof fn lemma_raw_segments_push(s: Seq<Cue>, c: Cue, pad: u64, max_end: u64)
    ensures
        raw_segments(s.push(c), pad, max_end) == if non_empty(padded(c, pad, max_end)) {
            raw_segments(s, pad, max_end).push(padded(c, pad, max_end))
        } else {
            raw_segments(s, pad, max_end)
        },
{
    broadcast use Seq::lemma_filter_push;

    assert(s.push(c).map_values(|c: Cue| padded(c, pad, max_end)) == s.map_values(
        |c: Cue| padded(c, pad, max_end),
    ).push(padded(c, pad, max_end)));
}

/// Stably sorts `segs` by start.
fn sort_by_start_exec(segs: &Vec<Segment>) -> (r: Vec<Segment>)
    ensures
        r@ == sort_by_start(segs@),
{
    let mut out: Vec<Segment> = Vec::new();
    let n = segs.len();
    for i in 0..n
        invariant
            n == segs.len(),
            out@ == sort_by_start(segs@.take(i as int)),
    {
        let x = segs[i];
        proof {
            lemma_sort_by_start(segs@.take(i as int));
        }
        let mut p = out.len();
        while p > 0 && out[p - 1].start_ms > x.start_ms
            invariant
                p <= out.len(),
                forall|j: int| p <= j < out.len() ==> out@[j].start_ms > x.start_ms,
            decreases p,
        {
            p -= 1;
        }
        proof {
            lemma_insert_at(out@, x, p as int);
            assert(segs@.take(i + 1).drop_last() == segs@.take(i as int));
            assert(segs@.take(i + 1).last() == x);
        }
        out.insert(p, x);
    }
    assert(segs@.take(n as int) == segs@);
    out
}

/// Merges sorted segments that overlap or lie less than `gap_ms` apart.
fn merge(sorted: Vec<Segment>, gap_ms: u64) -> (r: Vec<Segment>)
    ensures
        r@ == merge_segments(sorted@, gap_ms),
{
    let mut out: Vec<Segment> = Vec::with_capacity(sorted.len());
    let n = sorted.len();
    for i in 0..n
        invariant
            n == sorted.len(),
            out@ == merge_segments(sorted@.take(i as int), gap_ms),
    {
        let seg = sorted[i];
        let len = out.len();
        proof {
            assert(sorted@.take(i + 1).drop_last() == sorted@.take(i as int));
            assert(sorted@.take(i + 1).last() == seg);
        }
        let close = len > 0 && match out[len - 1].end_ms.checked_add(gap_ms) {
            Some(limit) => seg.start_ms < limit,
            None => true,
        };
        if close {
            let last = out[len - 1];
            let end = if seg.end_ms > last.end_ms {
                seg.end_ms
            } else {
                last.end_ms
            };
            out.set(len - 1, Segment { start_ms: last.start_ms, end_ms: end });
        } else {
            out.push(seg);
        }
    }
    assert(sorted@.take(n as int) == sorted@);
    out
}

/// Pads each cue by `pad_ms` on both sides (clamped to `[0, total_duration_ms]`),
/// drops the ones left empty, sorts them by start and merges those that overlap or
/// lie less than `gap_ms` apart.
pub fn build(cues: &[Cue], pad_ms: u32, gap_ms: u32, total_duration_ms: Option<u64>) -> (r: Vec<
    Segment,
>)
    requires
        forall|i: int| 0 <= i < cues@.len() ==> cues@[i].end_ms + pad_ms <= u64::MAX,
    ensures
        r@ == spec_build(cues@, pad_ms, gap_ms, total_duration_ms),
        separated(r@, gap_ms as u64),
        forall|i: int|
            0 <= i < r@.len() ==> #[trigger] r@[i].end_ms <= max_end_of(total_duration_ms),
        forall|i: int|
            0 <= i < cues@.len() && #[trigger] non_empty(
                padded(
                    cues@[i],
                    pad_ms as u64,
                    max_end_of(total_duration_ms),
                ),
            ) ==> within(
                padded(
                    cues@[i],
                    pad_ms as u64,
                    max_end_of(total_duration_ms),
                ),
                r@,
            ),
        bounds_from(
            r@,
            raw_segments(
                cues@,
                pad_ms as u64,
                max_end_of(total_duration_ms),
            ),
        ),
        spec_total_duration(r@) <= u64::MAX,
{
    let pad = pad_ms as u64;
    let max_end = match total_duration_ms {
        Some(t) => t,
        None => u64::MAX,
    };
    let mut raw: Vec<Segment> = Vec::new();
    let n = cues.len();
    for i in 0..n
        invariant
            n == cues@.len(),
            pad == pad_ms as u64,
            forall|k: int| 0 <= k < cues@.len() ==> cues@[k].end_ms + pad_ms <= u64::MAX,
            raw@ == raw_segments(cues@.take(i as int), pad, max_end),
            forall|k: int| 0 <= k < raw@.len() ==> #[trigger] non_empty(raw@[k]),
            forall|k: int| 0 <= k < raw@.len() ==> #[trigger] raw@[k].end_ms <= max_end,
    {
        let c = &cues[i];
        let start_ms = c.start_ms.saturating_sub(pad);
        let padded_end = c.end_ms + pad;
        let end_ms = if padded_end < max_end {
            padded_end
        } else {
            max_end
        };
        let seg = Segment { start_ms, end_ms };
        proof {
            assert(seg == padded(cues@[i as int], pad, max_end));
            assert(cues@.take(i + 1) == cues@.take(i as int).push(cues@[i as int]));
            lemma_raw_segments_push(cues@.take(i as int), cues@[i as int], pad, max_end);
        }
        if end_ms > start_ms {
            raw.push(seg);
        }
    }
    assert(cues@.take(n as int) == cues@);
    assert(raw@ == raw_segments(cues@, pad, max_end));
    let sorted = sort_by_start_exec(&raw);
    let r = merge(sorted, gap_ms as u64);
    proof {
        let rs = raw@;
        lemma_sort_by_start(rs);
        let ss = sort_by_start(rs);
        assert forall|i: int| 0 <= i < ss.len() implies #[trigger] non_empty(ss[i]) by {
            lemma_same_elements(ss, rs, i);
        }
        lemma_merge_segments(ss, gap_ms as u64);
        lemma_sorted_bounds(r@, ss, rs);
        assert forall|i: int| 0 <= i < r@.len() implies #[trigger] r@[i].end_ms <= max_end by {
            reveal(end_in);
            assert(end_in(rs, r@[i].end_ms));
        }
        assert forall|i: int|
            0 <= i < cues@.len() && #[trigger] non_empty(padded(cues@[i], pad, max_end)) implies within(
            padded(cues@[i], pad, max_end),
            r@,
        ) by {
            lemma_cue_covered(cues@, pad, max_end, i, ss, r@);
        }
        if r@.len() > 0 {
            lemma_total_duration_separated(r@, gap_ms as u64);
        }
    }
    r
}

/// Sum of the durations of `segments`.
pub fn total_duration_ms(segments: &[Segment]) -> (total: u64)
    requires
        spec_total_duration(segments@) <= u64::MAX,
    ensures
        total == spec_total_duration(segments@),
{
    let mut total: u64 = 0;
    let n = segments.len();
    for i in 0..n
        invariant
            n == segments@.len(),
            spec_total_duration(segments@) <= u64::MAX,
            total == spec_total_duration(segments@.take(i as int)),
    {
        proof {
            assert(segments@.take(i + 1).drop_last() == segments@.take(i as int));
            lemma_total_duration_prefix(segments@, i + 1);
        }
        total = total + segments[i].duration_ms();
    }
    assert(segments@.take(n as int) == segments@);
    total
}

} // verus!
