//! Laws of segment merging: merging a second time changes nothing, and the
//! segments built from cues do not depend on the order of the cues.

use vstd::prelude::*;

use crate::segments::{
    lemma_sort_by_start, max_end_of, merge_segments, non_empty, padded, raw_segments,
    sort_by_start, sorted_by_start, spec_build, Segment,
};
use crate::srt::Cue;

verus! {

/// One step of `merge_segments`: `x` extends the last segment of `m` when it
/// starts less than `gap` after that segment's end, and is kept on its own
/// otherwise.
pub open spec fn merge_step(m: Seq<Segment>, x: Segment, gap: u64) -> Seq<Segment> {
    if m.len() > 0 && x.start_ms < m.last().end_ms + gap {
        m.update(
            m.len() - 1,
            Segment {
                start_ms: m.last().start_ms,
                end_ms: if x.end_ms > m.last().end_ms { x.end_ms } else { m.last().end_ms },
            },
        )
    } else {
        m.push(x)
    }
}

/// Each next segment of `s` starts at least `gap` after the previous one ends.
pub open spec fn spaced(s: Seq<Segment>, gap: u64) -> bool {
    forall|i: int| 0 <= i < s.len() - 1 ==> #[trigger] s[i + 1].start_ms >= s[i].end_ms + gap
}

/// The (start, end) pairs of `cues`, in order; what `build` reads of a cue.
pub open spec fn timings(cues: Seq<Cue>) -> Seq<(u64, u64)> {
    cues.map_values(|c: Cue| (c.start_ms, c.end_ms))
}

/// `padded` applied to a cue's (start, end) pair.
pub open spec fn padded_timing(t: (u64, u64), pad: u64, max_end: u64) -> Segment {
    Segment {
        start_ms: if t.0 >= pad { (t.0 - pad) as u64 } else { 0 },
        end_ms: if t.1 + pad <= max_end { (t.1 + pad) as u64 } else { max_end },
    }
}

proof fn lemma_merge_push(s: Seq<Segment>, x: Segment, gap: u64)
    ensures
        merge_segments(s.push(x), gap) == merge_step(merge_segments(s, gap), x, gap),
{
    assert(s.push(x).drop_last() =~= s);
    assert(s.push(x).last() == x);
}

proof fn lemma_merge_is_spaced(s: Seq<Segment>, gap: u64)
    ensures
        spaced(merge_segments(s, gap), gap),
    decreases s.len(),
{
    if s.len() > 0 {
        let t = s.drop_last();
        let x = s.last();
        assert(s =~= t.push(x));
        lemma_merge_is_spaced(t, gap);
        lemma_merge_push(t, x, gap);
        let m = merge_segments(t, gap);
        let r = merge_step(m, x, gap);
        assert forall|i: int| 0 <= i < r.len() - 1 implies #[trigger] r[i + 1].start_ms
            >= r[i].end_ms + gap by {
            if i + 1 < m.len() {
                assert(m[i + 1].start_ms >= m[i].end_ms + gap);
            }
        }
    }
}

proof fn lemma_merge_spaced_unchanged(s: Seq<Segment>, gap: u64)
    requires
        spaced(s, gap),
    ensures
        merge_segments(s, gap) == s,
    decreases s.len(),
{
    if s.len() > 0 {
        let t = s.drop_last();
        let x = s.last();
        assert(s =~= t.push(x));
        assert forall|i: int| 0 <= i < t.len() - 1 implies #[trigger] t[i + 1].start_ms
            >= t[i].end_ms + gap by {
            assert(s[i + 1].start_ms >= s[i].end_ms + gap);
        }
        lemma_merge_spaced_unchanged(t, gap);
        lemma_merge_push(t, x, gap);
        if t.len() > 0 {
            let i = t.len() - 1;
            assert(s[i + 1].start_ms >= s[i].end_ms + gap);
        }
    }
}

/// Merging is idempotent: merging the merged segments again changes nothing.
pub proof fn lemma_merge_idempotent(s: Seq<Segment>, gap: u64)
    ensures
        merge_segments(merge_segments(s, gap), gap) == merge_segments(s, gap),
{
    lemma_merge_is_spaced(s, gap);
    lemma_merge_spaced_unchanged(merge_segments(s, gap), gap);
}

/// `m` merged further with the segments of `w`, in order.
spec fn merge_into(m: Seq<Segment>, w: Seq<Segment>, gap: u64) -> Seq<Segment>
    decreases w.len(),
{
    if w.len() == 0 {
        m
    } else {
        merge_step(merge_into(m, w.drop_last(), gap), w.last(), gap)
    }
}

proof fn lemma_merge_append(p: Seq<Segment>, w: Seq<Segment>, gap: u64)
    ensures
        merge_segments(p + w, gap) == merge_into(merge_segments(p, gap), w, gap),
    decreases w.len(),
{
    if w.len() == 0 {
        assert(p + w =~= p);
    } else {
        lemma_merge_append(p, w.drop_last(), gap);
        assert(p + w =~= (p + w.drop_last()).push(w.last()));
        lemma_merge_push(p + w.drop_last(), w.last(), gap);
    }
}

proof fn lemma_merge_into_append(m: Seq<Segment>, u: Seq<Segment>, w: Seq<Segment>, gap: u64)
    ensures
        merge_into(m, u + w, gap) == merge_into(merge_into(m, u, gap), w, gap),
    decreases w.len(),
{
    if w.len() == 0 {
        assert(u + w =~= u);
    } else {
        lemma_merge_into_append(m, u, w.drop_last(), gap);
        assert((u + w).drop_last() =~= u + w.drop_last());
        assert((u + w).last() == w.last());
    }
}

proof fn lemma_merge_into_one(m: Seq<Segment>, x: Segment, gap: u64)
    ensures
        merge_into(m, seq![x], gap) == merge_step(m, x, gap),
{
    assert(seq![x].drop_last() =~= Seq::<Segment>::empty());
    assert(merge_into(m, Seq::<Segment>::empty(), gap) == m);
}

/// The larger of two ends, written as a merge step picks it.
spec fn later(a: u64, b: u64) -> u64 {
    if b > a {
        b
    } else {
        a
    }
}

/// The latest of `e` and the ends of `w`.
spec fn latest_end(e: u64, w: Seq<Segment>) -> u64
    decreases w.len(),
{
    if w.len() == 0 {
        e
    } else {
        later(latest_end(e, w.drop_last()), w.last().end_ms)
    }
}

/// `m` with the end of its last segment set to `e`.
spec fn with_last_end(m: Seq<Segment>, e: u64) -> Seq<Segment> {
    m.update(m.len() - 1, Segment { start_ms: m.last().start_ms, end_ms: e })
}

proof fn lemma_latest_end_ge(e: u64, w: Seq<Segment>)
    ensures
        latest_end(e, w) >= e,
    decreases w.len(),
{
    if w.len() > 0 {
        lemma_latest_end_ge(e, w.drop_last());
    }
}

proof fn lemma_latest_end_pull(e: u64, x: u64, w: Seq<Segment>)
    ensures
        latest_end(later(e, x), w) == later(latest_end(e, w), x),
    decreases w.len(),
{
    if w.len() > 0 {
        lemma_latest_end_pull(e, x, w.drop_last());
    }
}

proof fn lemma_latest_end_first(e: u64, z: Segment, w: Seq<Segment>)
    ensures
        latest_end(e, seq![z] + w) == latest_end(later(e, z.end_ms), w),
    decreases w.len(),
{
    if w.len() == 0 {
        assert(seq![z] + w =~= seq![z]);
        assert(seq![z].drop_last() =~= Seq::<Segment>::empty());
        assert(latest_end(e, Seq::<Segment>::empty()) == e);
    } else {
        lemma_latest_end_first(e, z, w.drop_last());
        assert((seq![z] + w).drop_last() =~= seq![z] + w.drop_last());
        assert((seq![z] + w).last() == w.last());
    }
}

/// Segments that all start at `v`, merged into segments whose last one ends after
/// `v`, only stretch that last segment to the latest of their ends.
proof fn lemma_merge_group(m: Seq<Segment>, w: Seq<Segment>, v: u64, gap: u64)
    requires
        m.len() > 0,
        m.last().end_ms > v,
        forall|i: int| 0 <= i < w.len() ==> #[trigger] w[i].start_ms == v,
    ensures
        merge_into(m, w, gap) == with_last_end(m, latest_end(m.last().end_ms, w)),
    decreases w.len(),
{
    if w.len() == 0 {
        assert(with_last_end(m, m.last().end_ms) =~= m);
    } else {
        let t = w.drop_last();
        assert forall|i: int| 0 <= i < t.len() implies #[trigger] t[i].start_ms == v by {
            assert(t[i] == w[i]);
        }
        lemma_merge_group(m, t, v, gap);
        lemma_latest_end_ge(m.last().end_ms, t);
        let k = latest_end(m.last().end_ms, t);
        let r = with_last_end(m, k);
        assert(w[w.len() - 1].start_ms == v);
        assert(r.last() == Segment { start_ms: m.last().start_ms, end_ms: k });
        assert(merge_step(r, w.last(), gap) =~= with_last_end(m, later(k, w.last().end_ms)));
    }
}

/// Moving a segment to the end of a run of segments that all start where it
/// starts does not change what merging them gives.
proof fn lemma_merge_move_last(mm: Seq<Segment>, y: Segment, q: Seq<Segment>, gap: u64)
    requires
        q.len() > 0,
        non_empty(y),
        forall|i: int|
            0 <= i < q.len() ==> #[trigger] q[i].start_ms == y.start_ms && non_empty(q[i]),
    ensures
        merge_into(mm, seq![y] + q, gap) == merge_into(mm, q.push(y), gap),
{
    let v = y.start_ms;
    let q0 = q[0];
    let qs = q.drop_first();
    assert(q0.start_ms == v && non_empty(q0));
    assert forall|i: int| 0 <= i < qs.len() implies #[trigger] qs[i].start_ms == v by {
        assert(qs[i] == q[i + 1]);
    }
    assert forall|i: int| 0 <= i < q.len() implies #[trigger] q[i].start_ms == v by {
        assert(q[i].start_ms == y.start_ms && non_empty(q[i]));
    }
    // Left side: `y` first, then the run.
    lemma_merge_into_append(mm, seq![y], q, gap);
    lemma_merge_into_one(mm, y, gap);
    let m1 = merge_step(mm, y, gap);
    assert(m1.len() > 0 && m1.last().end_ms > v);
    lemma_merge_group(m1, q, v, gap);
    let left = with_last_end(m1, latest_end(m1.last().end_ms, q));
    // Right side: the run, then `y`.
    assert(q =~= seq![q0] + qs);
    lemma_merge_into_append(mm, seq![q0], qs, gap);
    lemma_merge_into_one(mm, q0, gap);
    let m2 = merge_step(mm, q0, gap);
    assert(m2.len() > 0 && m2.last().end_ms > v);
    lemma_merge_group(m2, qs, v, gap);
    let k2 = latest_end(m2.last().end_ms, qs);
    lemma_latest_end_ge(m2.last().end_ms, qs);
    let r2 = with_last_end(m2, k2);
    assert(q.push(y).drop_last() =~= q);
    assert(q.push(y).last() == y);
    assert(merge_into(mm, q.push(y), gap) == merge_step(r2, y, gap));
    assert(r2.last() == Segment { start_ms: m2.last().start_ms, end_ms: k2 });
    let right = with_last_end(m2, later(k2, y.end_ms));
    assert(merge_step(r2, y, gap) =~= right);
    // Both stretch the same last segment to the same end.
    if mm.len() > 0 && v < mm.last().end_ms + gap {
        let le = mm.last().end_ms;
        lemma_latest_end_pull(le, y.end_ms, q);
        lemma_latest_end_first(le, q0, qs);
        assert(left =~= with_last_end(mm, later(latest_end(le, q), y.end_ms)));
        assert(right =~= with_last_end(mm, later(latest_end(le, q), y.end_ms)));
    } else {
        lemma_latest_end_first(y.end_ms, q0, qs);
        lemma_latest_end_pull(q0.end_ms, y.end_ms, qs);
        assert(later(y.end_ms, q0.end_ms) == later(q0.end_ms, y.end_ms));
        assert(left =~= mm.push(Segment { start_ms: v, end_ms: later(k2, y.end_ms) }));
        assert(right =~= mm.push(Segment { start_ms: v, end_ms: later(k2, y.end_ms) }));
    }
}

/// Two sequences sorted by start that hold the same segments merge alike, however
/// they order segments with equal starts.
proof fn lemma_merge_same_elements(a: Seq<Segment>, b: Seq<Segment>, gap: u64)
    requires
        sorted_by_start(a),
        sorted_by_start(b),
        a.to_multiset() == b.to_multiset(),
        forall|i: int| 0 <= i < a.len() ==> #[trigger] non_empty(a[i]),
        forall|i: int| 0 <= i < b.len() ==> #[trigger] non_empty(b[i]),
    ensures
        merge_segments(a, gap) == merge_segments(b, gap),
    decreases a.len(),
{
    broadcast use vstd::seq_lib::group_to_multiset_ensures;

    vstd::seq_lib::to_multiset_len(a);
    vstd::seq_lib::to_multiset_len(b);
    if a.len() == 0 {
        assert(a =~= b);
        return;
    }
    let n = a.len();
    let x = a.last();
    let y = b.last();
    let bt = b.drop_last();
    assert(b =~= bt.push(y));
    assert forall|i: int| 0 <= i < bt.len() implies #[trigger] non_empty(bt[i]) by {
        assert(bt[i] == b[i]);
    }
    assert forall|i: int, j: int| 0 <= i < j < bt.len() implies bt[i].start_ms
        <= bt[j].start_ms by {
        assert(bt[i] == b[i] && bt[j] == b[j]);
    }
    lemma_merge_push(bt, y, gap);
    if x == y {
        let at = a.drop_last();
        assert(a =~= at.push(x));
        assert forall|i: int| 0 <= i < at.len() implies #[trigger] non_empty(at[i]) by {
            assert(at[i] == a[i]);
        }
        assert forall|i: int, j: int| 0 <= i < j < at.len() implies at[i].start_ms
            <= at[j].start_ms by {
            assert(at[i] == a[i] && at[j] == a[j]);
        }
        assert(at.to_multiset() =~= bt.to_multiset()) by {
            assert(at.to_multiset().insert(x) == bt.to_multiset().insert(x));
            assert forall|z: Segment| at.to_multiset().count(z) == bt.to_multiset().count(z) by {
                assert(at.to_multiset().insert(x).count(z) == bt.to_multiset().insert(x).count(z));
            }
        }
        lemma_merge_same_elements(at, bt, gap);
        lemma_merge_push(at, x, gap);
    } else {
        // `y` lies somewhere before the end of `a`, and `x` somewhere in `b`.
        assert(b.contains(y)) by {
            assert(b[n - 1] == y);
        }
        vstd::seq_lib::to_multiset_contains(b, y);
        vstd::seq_lib::to_multiset_contains(a, y);
        let j = choose|j: int| 0 <= j < a.len() && a[j] == y;
        assert(j < n - 1);
        assert(a.contains(x)) by {
            assert(a[n - 1] == x);
        }
        vstd::seq_lib::to_multiset_contains(a, x);
        vstd::seq_lib::to_multiset_contains(b, x);
        let k = choose|k: int| 0 <= k < b.len() && b[k] == x;
        assert(b[k].start_ms <= b[n - 1].start_ms);
        assert(a[j].start_ms <= a[n - 1].start_ms);
        let v = y.start_ms;
        assert(x.start_ms == v);
        let p = a.take(j);
        let q = a.skip(j + 1);
        assert forall|i: int| 0 <= i < q.len() implies #[trigger] q[i].start_ms == y.start_ms
            && non_empty(q[i]) by {
            assert(q[i] == a[j + 1 + i]);
            assert(a[j].start_ms <= a[j + 1 + i].start_ms);
            if j + 1 + i < n - 1 {
                assert(a[j + 1 + i].start_ms <= a[n - 1].start_ms);
            }
        }
        assert(non_empty(a[j]));
        // Moving `y` to the end of `a` keeps what merging gives.
        assert(a =~= p + (seq![y] + q));
        lemma_merge_append(p, seq![y] + q, gap);
        lemma_merge_append(p, q.push(y), gap);
        lemma_merge_move_last(merge_segments(p, gap), y, q, gap);
        let c = p + q;
        assert(p + q.push(y) =~= c.push(y));
        lemma_merge_push(c, y, gap);
        // What is left of `a` without `y` is sorted and holds what `b` holds before `y`.
        assert forall|i: int| 0 <= i < c.len() implies #[trigger] c[i] == (if i < j {
            a[i]
        } else {
            a[i + 1]
        }) by {}
        assert forall|i: int| 0 <= i < c.len() implies #[trigger] non_empty(c[i]) by {
            if i < j {
                assert(non_empty(a[i]));
            } else {
                assert(non_empty(a[i + 1]));
            }
        }
        assert forall|i: int, l: int| 0 <= i < l < c.len() implies c[i].start_ms
            <= c[l].start_ms by {
            let ai = if i < j {
                i
            } else {
                i + 1
            };
            let al = if l < j {
                l
            } else {
                l + 1
            };
            assert(c[i] == a[ai] && c[l] == a[al]);
        }
        assert(c.to_multiset() =~= bt.to_multiset()) by {
            vstd::seq_lib::lemma_multiset_commutative(p, seq![y] + q);
            vstd::seq_lib::lemma_multiset_commutative(seq![y], q);
            vstd::seq_lib::lemma_multiset_commutative(p, q);
            assert(seq![y] =~= Seq::<Segment>::empty().push(y));
            let ym = seq![y].to_multiset();
            assert(ym =~= Seq::<Segment>::empty().to_multiset().insert(y));
            assert(Seq::<Segment>::empty().to_multiset() =~= vstd::multiset::Multiset::<Segment>::empty());
            assert(b.to_multiset() == bt.push(y).to_multiset());
            assert(b.to_multiset() =~= bt.to_multiset().insert(y));
            assert(a.to_multiset() =~= p.to_multiset().add(ym.add(q.to_multiset())));
            assert(c.to_multiset() =~= p.to_multiset().add(q.to_multiset()));
            assert forall|z: Segment| c.to_multiset().count(z) == bt.to_multiset().count(z) by {
                broadcast use vstd::multiset::group_multiset_axioms;

                let e = vstd::multiset::Multiset::<Segment>::empty();
                assert(ym.count(z) == e.insert(y).count(z));
                assert(ym.count(z) == if z == y { 1nat } else { 0nat });
                assert(a.to_multiset().count(z) == p.to_multiset().count(z) + ym.count(z)
                    + q.to_multiset().count(z));
                assert(b.to_multiset().count(z) == bt.to_multiset().count(z) + if z == y {
                    1nat
                } else {
                    0nat
                });
                assert(c.to_multiset().count(z) == p.to_multiset().count(z) + q.to_multiset().count(z));
                assert(a.to_multiset().count(z) == b.to_multiset().count(z));
            }
        }
        lemma_merge_same_elements(c, bt, gap);
    }
}

proof fn lemma_mapped_add<A, B>(a: Seq<A>, b: Seq<A>, f: spec_fn(A) -> B, p: spec_fn(B) -> bool)
    ensures
        (a + b).map_values(f).filter(p).to_multiset() == a.map_values(f).filter(p).to_multiset().add(
            b.map_values(f).filter(p).to_multiset(),
        ),
{
    assert((a + b).map_values(f) =~= a.map_values(f) + b.map_values(f));
    Seq::filter_distributes_over_add(a.map_values(f), b.map_values(f), p);
    vstd::seq_lib::lemma_multiset_commutative(a.map_values(f).filter(p), b.map_values(f).filter(p));
}

/// Sequences holding the same elements still do after the same map and filter.
proof fn lemma_mapped_same_elements<A, B>(
    s1: Seq<A>,
    s2: Seq<A>,
    f: spec_fn(A) -> B,
    p: spec_fn(B) -> bool,
)
    requires
        s1.to_multiset() == s2.to_multiset(),
    ensures
        s1.map_values(f).filter(p).to_multiset() == s2.map_values(f).filter(p).to_multiset(),
    decreases s1.len(),
{
    broadcast use vstd::seq_lib::group_to_multiset_ensures;

    vstd::seq_lib::to_multiset_len(s1);
    vstd::seq_lib::to_multiset_len(s2);
    if s1.len() == 0 {
        assert(s1 =~= s2);
        return;
    }
    let x = s1.last();
    let d = s1.drop_last();
    assert(s1 =~= d.push(x));
    assert(s1.contains(x)) by {
        assert(s1[s1.len() - 1] == x);
    }
    vstd::seq_lib::to_multiset_contains(s1, x);
    vstd::seq_lib::to_multiset_contains(s2, x);
    let i = choose|i: int| 0 <= i < s2.len() && s2[i] == x;
    let s2r = s2.remove(i);
    vstd::seq_lib::to_multiset_remove(s2, i);
    assert(d.to_multiset() =~= s2r.to_multiset()) by {
        assert forall|z: A| d.to_multiset().count(z) == s2r.to_multiset().count(z) by {
            assert(s1.to_multiset().count(z) == s2.to_multiset().count(z));
        }
    }
    lemma_mapped_same_elements(d, s2r, f, p);
    let pre = s2.take(i);
    let post = s2.skip(i + 1);
    assert(s1 =~= d + seq![x]);
    assert(s2 =~= (pre + seq![x]) + post);
    assert(s2r =~= pre + post);
    lemma_mapped_add(d, seq![x], f, p);
    lemma_mapped_add(pre + seq![x], post, f, p);
    lemma_mapped_add(pre, seq![x], f, p);
    lemma_mapped_add(pre, post, f, p);
    let h1 = seq![x].map_values(f).filter(p).to_multiset();
    assert(s2.map_values(f).filter(p).to_multiset() =~= s2r.map_values(f).filter(p).to_multiset().add(
        h1,
    ));
}

/// Every element of `a` is non-empty when `a` holds what `b` holds and every
/// element of `b` is.
proof fn lemma_non_empty_same_elements(a: Seq<Segment>, b: Seq<Segment>)
    requires
        a.to_multiset() == b.to_multiset(),
        forall|i: int| 0 <= i < b.len() ==> #[trigger] non_empty(b[i]),
    ensures
        forall|i: int| 0 <= i < a.len() ==> #[trigger] non_empty(a[i]),
{
    assert forall|i: int| 0 <= i < a.len() implies #[trigger] non_empty(a[i]) by {
        assert(a.contains(a[i]));
        vstd::seq_lib::to_multiset_contains(a, a[i]);
        vstd::seq_lib::to_multiset_contains(b, a[i]);
        let j = choose|j: int| 0 <= j < b.len() && b[j] == a[i];
        assert(non_empty(b[j]));
    }
}

/// Cues with the same (start, end) pairs build the same segments, whatever order
/// the cues come in and whatever their text says.
pub proof fn lemma_build_order_free(
    cues1: Seq<Cue>,
    cues2: Seq<Cue>,
    pad_ms: u32,
    gap_ms: u32,
    total: Option<u64>,
)
    requires
        timings(cues1).to_multiset() == timings(cues2).to_multiset(),
    ensures
        spec_build(cues1, pad_ms, gap_ms, total) == spec_build(cues2, pad_ms, gap_ms, total),
{
    broadcast use Seq::lemma_filter_pred;

    let pad = pad_ms as u64;
    let me = max_end_of(total);
    let f = |t: (u64, u64)| padded_timing(t, pad, me);
    let ne = |s: Segment| non_empty(s);
    assert(cues1.map_values(|c: Cue| padded(c, pad, me)) =~= timings(cues1).map_values(f));
    assert(cues2.map_values(|c: Cue| padded(c, pad, me)) =~= timings(cues2).map_values(f));
    let r1 = raw_segments(cues1, pad, me);
    let r2 = raw_segments(cues2, pad, me);
    assert(r1 == timings(cues1).map_values(f).filter(ne));
    assert(r2 == timings(cues2).map_values(f).filter(ne));
    lemma_mapped_same_elements(timings(cues1), timings(cues2), f, ne);
    lemma_sort_by_start(r1);
    lemma_sort_by_start(r2);
    let s1 = sort_by_start(r1);
    let s2 = sort_by_start(r2);
    assert forall|i: int| 0 <= i < r1.len() implies #[trigger] non_empty(r1[i]) by {
        assert(ne(r1[i]));
    }
    assert forall|i: int| 0 <= i < r2.len() implies #[trigger] non_empty(r2[i]) by {
        assert(ne(r2[i]));
    }
    lemma_non_empty_same_elements(s1, r1);
    lemma_non_empty_same_elements(s2, r2);
    lemma_merge_same_elements(s1, s2, gap_ms as u64);
}

} // verus!
