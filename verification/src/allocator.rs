//! The per-color allocator: one interval index of balls, one interval index
//! of elementary sub-ranges, a count table, and a max-selector over those
//! sub-ranges, all keyed consistently by the same `(low, high)` pair.
//!
//! Its standing invariant: for every sub-range still present in the selector,
//! the stored priority equals the count table's value, which equals the
//! number of balls still present in the ball index that overlap it.

use vstd::prelude::*;

use crate::intervals::{
    entry_overlaps, has_ivl_key, ivl_key, ivl_keys_unique, lemma_overlap_count_split,
    lemma_overlap_partition, lemma_prefix_count_mono, lemma_selection_keys,
    lemma_selection_keys_unique,
    lemma_selection_push, overlap_count, overlapping_entries, ranges_overlap, surviving_entries,
    Interval, IntervalIndex,
};
use crate::selector::{
    contains_key, keys_unique, lemma_max_prio_index, max_prio_index, CountTable, MaxSelector,
    RangeKey,
};

verus! {

/// The sequence `s` is strictly increasing, hence free of duplicates.
pub open spec fn strictly_sorted(s: Seq<i64>) -> bool {
    forall|i: int, j: int| 0 <= i < j < s.len() ==> s[i] < s[j]
}

/// Every entry of `t` that carries the key `k` stores the value `v`, and at
/// least one entry does.
pub open spec fn table_has(t: Seq<(RangeKey, i32)>, k: RangeKey, v: i32) -> bool {
    contains_key(t, k) && forall|j: int| 0 <= j < t.len() && (#[trigger] t[j]).0 == k ==> t[j].1 == v
}

/// Consecutive pairs of a list: `(list[0], list[1]), (list[1], list[2]), ...`.
pub fn pairwise<T: Copy>(list: Vec<T>) -> (r: Vec<(T, T)>)
    ensures
        r@.len() == if list@.len() >= 2 {
            list@.len() - 1
        } else {
            0
        },
        forall|i: int| 0 <= i < r@.len() ==> r@[i] == (list@[i], list@[i + 1]),
{
    let mut r: Vec<(T, T)> = Vec::new();
    if list.len() < 2 {
        return r;
    }
    let n = list.len() - 1;
    let mut i: usize = 0;
    while i < n
        invariant
            n == list@.len() - 1,
            list@.len() >= 2,
            i <= n,
            r@.len() == i,
            forall|j: int| 0 <= j < i ==> r@[j] == (list@[j], list@[j + 1]),
        decreases n - i,
    {
        r.push((list[i], list[i + 1]));
        i = i + 1;
    }
    r
}

/// Adds `x` to a strictly sorted list unless already present, keeping the
/// list strictly sorted; no other value appears or disappears.
fn insert_sorted_unique(v: &mut Vec<i64>, x: i64)
    requires
        strictly_sorted(old(v)@),
        old(v)@.len() < usize::MAX,
    ensures
        strictly_sorted(final(v)@),
        forall|y: i64| final(v)@.contains(y) <==> old(v)@.contains(y) || y == x,
        final(v)@.len() <= old(v)@.len() + 1,
{
    let n = v.len();
    let mut i: usize = 0;
    while i < n && v[i] < x
        invariant
            n == v@.len(),
            v@ == old(v)@,
            i <= n,
            forall|j: int| 0 <= j < i ==> v@[j] < x,
        decreases n - i,
    {
        i = i + 1;
    }
    if i < n && v[i] == x {
        proof {
            assert(v@.contains(x));
        }
        return ;
    }
    v.insert(i, x);
    proof {
        let nv = v@;
        let ov = old(v)@;
        assert(nv.len() == ov.len() + 1);
        assert(forall|j: int| 0 <= j < i ==> nv[j] == ov[j]);
        assert(nv[i as int] == x);
        assert(forall|j: int| i < j < nv.len() ==> nv[j] == ov[j - 1]);
        assert forall|a: int, b: int| 0 <= a < b < nv.len() implies nv[a] < nv[b] by {
            if a < i && b > i {
                assert(ov[a] < x || a == i);
            }
            if a == i && b > i {
                assert(ov[b - 1] >= x);
                assert(ov[b - 1] != x);
            }
        }
        assert forall|y: i64| nv.contains(y) implies ov.contains(y) || y == x by {
            let w = choose|w: int| 0 <= w < nv.len() && nv[w] == y;
            if w < i {
                assert(ov[w] == y);
            } else if w > i {
                assert(ov[w - 1] == y);
            }
        }
        assert forall|y: i64| ov.contains(y) || y == x implies nv.contains(y) by {
            if ov.contains(y) {
                let w = choose|w: int| 0 <= w < ov.len() && ov[w] == y;
                if w < i {
                    assert(nv[w] == y);
                } else {
                    assert(nv[w + 1] == y);
                }
            } else {
                assert(nv[i as int] == y);
            }
        }
    }
}

/// One per-color allocator over a set of balls sharing that color.
pub struct CountRangeGreedyAllocator<T> {
    pub color: String,
    pub ball_range_tree: IntervalIndex<T>,
    pub intersect_ranges_tree: IntervalIndex<()>,
    pub intersect_range_counts: CountTable,
    pub range_points: Vec<i64>,
    pub priority_queue: MaxSelector,
}

/// The standing invariant tying the four structures together; stated over
/// the raw parts so that a constructor can require it of its arguments.
pub open spec fn parts_wf<T>(
    balls: Seq<Interval<T>>,
    subs: Seq<Interval<()>>,
    counts: Seq<(RangeKey, i32)>,
    queue: Seq<(RangeKey, i32)>,
) -> bool {
    &&& forall|i: int| 0 <= i < subs.len() ==> (#[trigger] subs[i]).low < subs[i].high
    &&& forall|i: int, j: int|
        0 <= i < j < subs.len() ==> !ranges_overlap(
            subs[i].low as int,
            subs[i].high as int,
            subs[j].low as int,
            subs[j].high as int,
        )
    &&& keys_unique(queue)
    &&& keys_unique(counts)
    &&& forall|i: int| 0 <= i < queue.len() ==> has_ivl_key(subs, (#[trigger] queue[i]).0)
    &&& forall|j: int| 0 <= j < subs.len() ==> contains_key(queue, ivl_key(#[trigger] subs[j]))
    &&& forall|i: int|
        0 <= i < queue.len() ==> (#[trigger] queue[i]).1 as int == overlap_count(
            balls,
            queue[i].0.0 as int,
            queue[i].0.1 as int,
        ) && table_has(counts, queue[i].0, queue[i].1)
}

impl<T: Copy> CountRangeGreedyAllocator<T> {
    /// The balls of this color still unconsumed.
    pub open spec fn balls(&self) -> Seq<Interval<T>> {
        self.ball_range_tree.entries@
    }

    /// The elementary sub-ranges not yet claimed by an emitted bucket.
    pub open spec fn subs(&self) -> Seq<Interval<()>> {
        self.intersect_ranges_tree.entries@
    }

    /// The selector's entries: live sub-range keys with their priorities.
    pub open spec fn queue(&self) -> Seq<(RangeKey, i32)> {
        self.priority_queue.entries@
    }

    /// The count table's entries.
    pub open spec fn counts(&self) -> Seq<(RangeKey, i32)> {
        self.intersect_range_counts.entries@
    }

    /// The standing invariant of an allocator value.
    pub open spec fn wf(&self) -> bool {
        parts_wf(self.balls(), self.subs(), self.counts(), self.queue())
    }

    /// Some sub-range is still available for a future bucket.
    pub open spec fn spec_has_ranges(&self) -> bool {
        self.queue().len() > 0
    }

    /// Assembles an allocator from pre-built parts that already satisfy the
    /// standing invariant.
    pub fn new(
        color: String,
        ball_range_tree: IntervalIndex<T>,
        intersect_ranges_tree: IntervalIndex<()>,
        intersect_range_counts: CountTable,
        range_points: Vec<i64>,
        priority_queue: MaxSelector,
    ) -> (r: Self)
        requires
            parts_wf(
                ball_range_tree.entries@,
                intersect_ranges_tree.entries@,
                intersect_range_counts.entries@,
                priority_queue.entries@,
            ),
        ensures
            r.wf(),
            r.color == color,
            r.balls() == ball_range_tree.entries@,
            r.subs() == intersect_ranges_tree.entries@,
            r.counts() == intersect_range_counts.entries@,
            r.range_points@ == range_points@,
            r.queue() == priority_queue.entries@,
    {
        Self {
            color,
            ball_range_tree,
            intersect_ranges_tree,
            intersect_range_counts,
            range_points,
            priority_queue,
        }
    }

    /// The number of sub-ranges still held by the selector.
    pub fn len(&self) -> (r: usize)
        ensures
            r == self.queue().len(),
    {
        self.priority_queue.len()
    }

    /// True iff a future bucket can still be emitted. A pure function of the
    /// allocator's state: repeated calls without an intervening consumption
    /// return the same answer.
    pub fn has_ranges_left(&self) -> (r: bool)
        ensures
            r == self.spec_has_ranges(),
    {
        !self.priority_queue.is_empty()
    }

    /// Non-mutating lookahead: the sub-range key and overlap count that the
    /// next consumption would claim, or `None` when nothing is left.
    pub fn peek(&self) -> (r: Option<(RangeKey, i32)>)
        ensures
            r == if self.queue().len() == 0 {
                Option::<(RangeKey, i32)>::None
            } else {
                Option::Some(self.queue()[max_prio_index(self.queue())])
            },
    {
        self.priority_queue.peek_max()
    }

    /// Consumes the best bucket: pops the highest-count sub-range, claims it,
    /// collects and removes every ball overlapping it, and then, one
    /// decrement per consumed ball, lowers the count of every remaining
    /// sub-range that ball overlaps, keeping count table and selector in
    /// step. Returns the true overlap count, the color, and the consumed
    /// balls' payloads.
    #[verifier::loop_isolation(false)]
    #[verifier::rlimit(100)]
    pub fn return_bucket_label(&mut self) -> (r: (i32, String, Vec<T>))
        requires
            old(self).wf(),
            old(self).spec_has_ranges(),
        ensures
            ({
                let q0 = old(self).queue();
                let mi = max_prio_index(q0);
                let k = q0[mi].0;
                let consumed = overlapping_entries(old(self).balls(), k.0 as int, k.1 as int);
                &&& final(self).wf()
                &&& final(self).color == old(self).color
                &&& final(self).range_points@ == old(self).range_points@
                &&& r.0 == q0[mi].1
                &&& r.0 as int == overlap_count(old(self).balls(), k.0 as int, k.1 as int)
                &&& r.1@ == old(self).color@
                &&& r.2@.len() == consumed.len()
                &&& (forall|i: int| 0 <= i < consumed.len() ==> r.2@[i] == consumed[i].data)
                &&& final(self).balls() == surviving_entries(
                    old(self).balls(),
                    k.0 as int,
                    k.1 as int,
                )
                &&& final(self).subs() == surviving_entries(
                    old(self).subs(),
                    k.0 as int,
                    k.1 as int,
                )
                &&& final(self).queue().len() == q0.len() - 1
                &&& (forall|i: int|
                    0 <= i < q0.len() - 1 ==> (#[trigger] final(self).queue()[i]).0 == q0.remove(
                        mi,
                    )[i].0)
                &&& (forall|i: int|
                    0 <= i < q0.len() - 1 ==> (#[trigger] final(self).queue()[i]).1 as int
                        == q0.remove(mi)[i].1 - overlap_count(
                        consumed,
                        q0.remove(mi)[i].0.0 as int,
                        q0.remove(mi)[i].0.1 as int,
                    ))
                &&& (forall|i: int|
                    0 <= i < q0.len() - 1 ==> (#[trigger] final(self).queue()[i]).1 <= r.0)
            }),
    {
        let ghost balls0 = self.balls();
        let ghost subs0 = self.subs();
        let ghost q0 = self.queue();
        let ghost mi = max_prio_index(q0);
        proof {
            lemma_max_prio_index(q0);
            q0.remove_ensures(mi);
        }
        let popped = self.priority_queue.pop_max();
        let key = popped.0;
        let count = popped.1;
        let ghost klo = key.0 as int;
        let ghost khi = key.1 as int;
        let ghost q1 = q0.remove(mi);

        proof {
            // The popped key names an elementary sub-range, so it is a
            // proper range, and distinct sub-ranges never overlap it.
            assert(has_ivl_key(subs0, key));
            assert(key.0 < key.1) by {
                let w = choose|w: int| 0 <= w < subs0.len() && ivl_key(subs0[w]) == key;
                assert(subs0[w].low < subs0[w].high);
            }
            assert(ivl_keys_unique(subs0)) by {
                assert forall|i: int, j: int| 0 <= i < j < subs0.len() implies ivl_key(subs0[i])
                    != ivl_key(subs0[j]) by {
                    assert(!ranges_overlap(
                        subs0[i].low as int,
                        subs0[i].high as int,
                        subs0[j].low as int,
                        subs0[j].high as int,
                    ));
                    assert(subs0[i].low < subs0[i].high);
                }
            }
            lemma_selection_keys(subs0, klo, khi);
            lemma_selection_keys_unique(subs0, klo, khi);
            assert(keys_unique(q1)) by {
                assert forall|i: int, j: int| 0 <= i < j < q1.len() implies q1[i].0 != q1[j].0 by {
                    assert(q1[i] == if i < mi {
                        q0[i]
                    } else {
                        q0[i + 1]
                    });
                    assert(q1[j] == if j < mi {
                        q0[j]
                    } else {
                        q0[j + 1]
                    });
                }
            }
            // Every remaining selector key is disjoint from the popped one,
            // so it survives the claim of the popped sub-range.
            assert forall|i: int| 0 <= i < q1.len() implies has_ivl_key(
                surviving_entries(subs0, klo, khi),
                (#[trigger] q1[i]).0,
            ) && q1[i].0 != key by {
                let iorig = if i < mi {
                    i
                } else {
                    i + 1
                };
                assert(q1[i] == q0[iorig]);
                assert(q0[iorig].0 != q0[mi].0);
                assert(has_ivl_key(subs0, q1[i].0));
                let w = choose|w: int| 0 <= w < subs0.len() && ivl_key(subs0[w]) == q1[i].0;
                let wk = choose|w: int| 0 <= w < subs0.len() && ivl_key(subs0[w]) == key;
                assert(w != wk);
                if w < wk {
                    assert(!ranges_overlap(
                        subs0[w].low as int,
                        subs0[w].high as int,
                        subs0[wk].low as int,
                        subs0[wk].high as int,
                    ));
                } else {
                    assert(!ranges_overlap(
                        subs0[wk].low as int,
                        subs0[wk].high as int,
                        subs0[w].low as int,
                        subs0[w].high as int,
                    ));
                }
                assert(!ranges_overlap(
                    q1[i].0.0 as int,
                    q1[i].0.1 as int,
                    klo,
                    khi,
                ));
            }
        }

        self.intersect_ranges_tree.remove_overlap(key.0, key.1);
        let ghost subs1 = self.subs();

        proof {
            // Conversely, every surviving sub-range key is still a selector
            // key: it cannot be the popped key, which overlaps itself.
            assert forall|j: int| 0 <= j < subs1.len() implies contains_key(
                q1,
                ivl_key(#[trigger] subs1[j]),
            ) by {
                let k2 = ivl_key(subs1[j]);
                assert(has_ivl_key(subs1, k2));
                assert(has_ivl_key(subs0, k2) && !ranges_overlap(k2.0 as int, k2.1 as int, klo, khi));
                assert(k2 != key);
                let w2 = choose|w: int| 0 <= w < subs0.len() && ivl_key(subs0[w]) == k2;
                assert(contains_key(q0, k2));
                let wq = choose|w: int| 0 <= w < q0.len() && q0[w].0 == k2;
                assert(wq != mi);
                let wn = if wq < mi {
                    wq
                } else {
                    wq - 1
                };
                assert(q1[wn].0 == k2);
            }
        }

        let consumed = self.ball_range_tree.overlap(key.0, key.1);
        self.ball_range_tree.remove_overlap(key.0, key.1);
        let ghost balls1 = self.balls();

        let mut ball_ids: Vec<T> = Vec::new();
        let ncons = consumed.len();
        let mut t: usize = 0;
        while t < ncons
            invariant
                t <= ncons,
                ball_ids@.len() == t,
                forall|i: int| 0 <= i < t ==> ball_ids@[i] == consumed@[i].data,
            decreases ncons - t,
        {
            ball_ids.push(consumed[t].data);
            t = t + 1;
        }

        proof {
            // The original count of each remaining key splits into the part
            // owed to the consumed balls and the part owed to the survivors.
            assert forall|i: int| 0 <= i < q1.len() implies (#[trigger] q1[i]).1 as int
                == overlap_count(balls0, q1[i].0.0 as int, q1[i].0.1 as int) by {
                let iorig = if i < mi {
                    i
                } else {
                    i + 1
                };
                assert(q1[i] == q0[iorig]);
            }
            assert forall|i: int| 0 <= i < q1.len() implies table_has(
                self.counts(),
                (#[trigger] q1[i]).0,
                q1[i].1,
            ) by {
                let iorig = if i < mi {
                    i
                } else {
                    i + 1
                };
                assert(q1[i] == q0[iorig]);
            }
        }

        let nb = consumed.len();
        let mut bi: usize = 0;
        while bi < nb
            invariant
                bi <= nb,
                self.color == old(self).color,
                self.range_points@ == old(self).range_points@,
                self.balls() == balls1,
                self.subs() == subs1,
                keys_unique(self.counts()),
                self.queue().len() == q1.len(),
                forall|i: int| 0 <= i < q1.len() ==> (#[trigger] self.queue()[i]).0 == q1[i].0,
                forall|i: int|
                    0 <= i < q1.len() ==> (#[trigger] self.queue()[i]).1 as int == q1[i].1
                        - overlap_count(
                        consumed@.take(bi as int),
                        q1[i].0.0 as int,
                        q1[i].0.1 as int,
                    ),
                forall|i: int|
                    0 <= i < q1.len() ==> table_has(
                        self.counts(),
                        (#[trigger] self.queue()[i]).0,
                        self.queue()[i].1,
                    ),
            decreases nb - bi,
        {
            let b_low = consumed[bi].low;
            let b_high = consumed[bi].high;
            let ghost bball = consumed@[bi as int];
            let to_dec = self.intersect_ranges_tree.overlap(b_low, b_high);
            let ghost dseq = to_dec@;
            proof {
                lemma_selection_keys(subs1, b_low as int, b_high as int);
                lemma_selection_keys_unique(subs1, b_low as int, b_high as int);
                assert(consumed@.take(bi as int + 1) =~= consumed@.take(bi as int).push(bball));
            }
            let nd = to_dec.len();
            let mut di: usize = 0;
            while di < nd
                invariant
                    di <= nd,
                    self.color == old(self).color,
                    self.range_points@ == old(self).range_points@,
                    self.balls() == balls1,
                    self.subs() == subs1,
                    keys_unique(self.counts()),
                    self.queue().len() == q1.len(),
                    forall|i: int| 0 <= i < q1.len() ==> (#[trigger] self.queue()[i]).0 == q1[i].0,
                    forall|i: int|
                        0 <= i < q1.len() ==> (#[trigger] self.queue()[i]).1 as int == q1[i].1
                            - overlap_count(
                            consumed@.take(bi as int),
                            q1[i].0.0 as int,
                            q1[i].0.1 as int,
                        ) - (if has_ivl_key(dseq.take(di as int), q1[i].0) {
                            1int
                        } else {
                            0int
                        }),
                    forall|i: int|
                        0 <= i < q1.len() ==> table_has(
                            self.counts(),
                            (#[trigger] self.queue()[i]).0,
                            self.queue()[i].1,
                        ),
                decreases nd - di,
            {
                let rkey = (to_dec[di].low, to_dec[di].high);
                proof {
                    assert(ivl_key(dseq[di as int]) == rkey);
                    assert(has_ivl_key(dseq, rkey));
                    assert(has_ivl_key(subs1, rkey) && ranges_overlap(
                        rkey.0 as int,
                        rkey.1 as int,
                        b_low as int,
                        b_high as int,
                    ));
                    assert(contains_key(q1, rkey));
                    let wq = choose|w: int| 0 <= w < q1.len() && q1[w].0 == rkey;
                    assert(self.queue()[wq].0 == rkey);
                    assert(contains_key(self.queue(), rkey));
                    assert(contains_key(self.counts(), rkey));
                    // This key has not been decremented yet in this pass.
                    assert(!has_ivl_key(dseq.take(di as int), rkey)) by {
                        if has_ivl_key(dseq.take(di as int), rkey) {
                            let d = choose|d: int|
                                0 <= d < di && ivl_key(dseq.take(di as int)[d]) == rkey;
                            assert(ivl_key(dseq[d]) == rkey);
                            assert(ivl_keys_unique(dseq));
                        }
                    }
                    // The stored count is at least one while a consumed
                    // overlapping ball is still unaccounted.
                    assert(overlap_count(consumed@.take(bi as int), rkey.0 as int, rkey.1 as int)
                        + 1 == overlap_count(
                        consumed@.take(bi as int + 1),
                        rkey.0 as int,
                        rkey.1 as int,
                    )) by {
                        lemma_selection_push(
                            consumed@.take(bi as int),
                            bball,
                            rkey.0 as int,
                            rkey.1 as int,
                        );
                    }
                    lemma_prefix_count_mono(consumed@, bi as int + 1, rkey.0 as int, rkey.1 as int);
                    lemma_overlap_count_split(balls0, klo, khi, rkey.0 as int, rkey.1 as int);
                }
                let oldc = self.intersect_range_counts.get(rkey);
                let ghost qpre = self.queue();
                let ghost cpre = self.counts();
                proof {
                    let i0 = choose|w: int| 0 <= w < q1.len() && q1[w].0 == rkey;
                    assert(table_has(cpre, qpre[i0].0, qpre[i0].1));
                    assert(oldc == qpre[i0].1);
                    assert(oldc as int >= 1 + overlap_count(balls1, rkey.0 as int, rkey.1 as int));
                    assert(oldc as int >= 1 - 0x7fffffff);
                }
                let newc = oldc - 1;
                self.intersect_range_counts.set(rkey, newc);
                self.priority_queue.reprioritize(rkey, newc);
                di = di + 1;
                proof {
                    assert(dseq.take(di as int) =~= dseq.take(di as int - 1).push(
                        dseq[di as int - 1],
                    ));
                    assert forall|k2: RangeKey| #[trigger]
                        has_ivl_key(dseq.take(di as int), k2) implies has_ivl_key(
                        dseq.take(di as int - 1),
                        k2,
                    ) || k2 == rkey by {
                        let d = choose|d: int|
                            0 <= d < di && ivl_key(dseq.take(di as int)[d]) == k2;
                        if d < di - 1 {
                            assert(ivl_key(dseq.take(di as int - 1)[d]) == k2);
                        }
                    }
                    assert(forall|j: int|
                        0 <= j < cpre.len() ==> (#[trigger] self.counts()[j]) == (if cpre[j].0
                            == rkey {
                            (rkey, newc)
                        } else {
                            cpre[j]
                        }));
                    assert(keys_unique(self.counts())) by {
                        assert(forall|j: int|
                            0 <= j < cpre.len() ==> (#[trigger] self.counts()[j]).0 == cpre[j].0);
                    }
                    assert forall|i: int| 0 <= i < q1.len() implies (#[trigger] self.queue()[
                        i]).1 as int == q1[i].1 - overlap_count(
                        consumed@.take(bi as int),
                        q1[i].0.0 as int,
                        q1[i].0.1 as int,
                    ) - (if has_ivl_key(dseq.take(di as int), q1[i].0) {
                        1int
                    } else {
                        0int
                    }) by {
                        if q1[i].0 == rkey {
                            assert(self.queue()[i] == (rkey, newc));
                            let i0 = choose|w: int| 0 <= w < q1.len() && q1[w].0 == rkey;
                            assert(i0 == i);
                            assert(oldc == qpre[i].1);
                            assert(ivl_key(dseq.take(di as int)[di - 1]) == rkey);
                            assert(has_ivl_key(dseq.take(di as int), rkey));
                        } else {
                            assert(self.queue()[i] == qpre[i]);
                            if has_ivl_key(dseq.take(di as int - 1), q1[i].0) {
                                let d = choose|d: int|
                                    0 <= d < di - 1 && #[trigger] ivl_key(
                                        dseq.take(di as int - 1)[d],
                                    ) == q1[i].0;
                                assert(ivl_key(dseq.take(di as int)[d]) == q1[i].0);
                                assert(has_ivl_key(dseq.take(di as int), q1[i].0));
                            }
                        }
                    }
                    assert forall|i: int| 0 <= i < q1.len() implies table_has(
                        self.counts(),
                        (#[trigger] self.queue()[i]).0,
                        self.queue()[i].1,
                    ) by {
                        let k2 = self.queue()[i].0;
                        assert(k2 == q1[i].0);
                        assert(contains_key(cpre, k2));
                        let wc = choose|w: int| 0 <= w < cpre.len() && cpre[w].0 == k2;
                        assert(self.counts()[wc].0 == k2);
                        if k2 == rkey {
                            assert(self.queue()[i].1 == newc);
                        } else {
                            assert(table_has(cpre, qpre[i].0, qpre[i].1));
                            assert forall|j: int|
                                0 <= j < self.counts().len() && (#[trigger] self.counts()[j]).0
                                    == k2 implies self.counts()[j].1 == self.queue()[i].1 by {
                                assert(cpre[j].0 == k2);
                                assert(cpre[j].1 == qpre[i].1);
                            }
                        }
                    }
                }
            }
            bi = bi + 1;
            proof {
                assert(dseq.take(nd as int) =~= dseq);
                assert forall|i: int| 0 <= i < q1.len() implies (#[trigger] self.queue()[i]).1
                    as int == q1[i].1 - overlap_count(
                    consumed@.take(bi as int),
                    q1[i].0.0 as int,
                    q1[i].0.1 as int,
                ) by {
                    let k2 = q1[i].0;
                    lemma_selection_push(
                        consumed@.take(bi as int - 1),
                        bball,
                        k2.0 as int,
                        k2.1 as int,
                    );
                    if entry_overlaps(bball, k2.0 as int, k2.1 as int) {
                        assert(ranges_overlap(k2.0 as int, k2.1 as int, b_low as int, b_high as int));
                        assert(has_ivl_key(subs1, k2)) by {
                            let w = choose|w: int| 0 <= w < subs1.len() && ivl_key(subs1[w]) == k2;
                        }
                        assert(has_ivl_key(dseq, k2));
                    } else {
                        assert(!ranges_overlap(
                            k2.0 as int,
                            k2.1 as int,
                            b_low as int,
                            b_high as int,
                        ));
                        assert(!has_ivl_key(dseq, k2));
                    }
                }
            }
        }

        proof {
            assert(consumed@.take(nb as int) =~= consumed@);
            assert forall|i: int| 0 <= i < q1.len() implies (#[trigger] self.queue()[i]).1 as int
                == overlap_count(balls1, q1[i].0.0 as int, q1[i].0.1 as int) by {
                lemma_overlap_count_split(balls0, klo, khi, q1[i].0.0 as int, q1[i].0.1 as int);
            }
            assert forall|i: int| 0 <= i < self.queue().len() implies has_ivl_key(
                self.subs(),
                (#[trigger] self.queue()[i]).0,
            ) by {
                assert(self.queue()[i].0 == q1[i].0);
            }
            assert forall|j: int| 0 <= j < self.subs().len() implies contains_key(
                self.queue(),
                ivl_key(#[trigger] self.subs()[j]),
            ) by {
                assert(contains_key(q1, ivl_key(subs1[j])));
                let w = choose|w: int| 0 <= w < q1.len() && q1[w].0 == ivl_key(subs1[j]);
                assert(self.queue()[w].0 == ivl_key(subs1[j]));
            }
            assert(keys_unique(self.queue()));
            assert(forall|i: int|
                0 <= i < subs1.len() ==> (#[trigger] subs1[i]).low < subs1[i].high) by {
                lemma_selection_keys(subs0, klo, khi);
                assert forall|i: int| 0 <= i < subs1.len() implies (#[trigger] subs1[i]).low
                    < subs1[i].high by {
                    let k2 = ivl_key(subs1[i]);
                    assert(has_ivl_key(subs1, k2));
                    assert(has_ivl_key(subs0, k2));
                    let w = choose|w: int| 0 <= w < subs0.len() && ivl_key(subs0[w]) == k2;
                    assert(subs0[w].low < subs0[w].high);
                }
            }
            assert forall|i: int, j: int| 0 <= i < j < subs1.len() implies !ranges_overlap(
                subs1[i].low as int,
                subs1[i].high as int,
                subs1[j].low as int,
                subs1[j].high as int,
            ) by {
                let ki = ivl_key(subs1[i]);
                let kj = ivl_key(subs1[j]);
                assert(ivl_keys_unique(subs1));
                assert(ki != kj);
                assert(has_ivl_key(subs1, ki)) by {
                    assert(ivl_key(subs1[i]) == ki);
                }
                assert(has_ivl_key(subs1, kj)) by {
                    assert(ivl_key(subs1[j]) == kj);
                }
                assert(has_ivl_key(subs0, ki) && has_ivl_key(subs0, kj));
                let wi = choose|w: int| 0 <= w < subs0.len() && ivl_key(subs0[w]) == ki;
                let wj = choose|w: int| 0 <= w < subs0.len() && ivl_key(subs0[w]) == kj;
                assert(wi != wj);
                if wi < wj {
                    assert(!ranges_overlap(
                        subs0[wi].low as int,
                        subs0[wi].high as int,
                        subs0[wj].low as int,
                        subs0[wj].high as int,
                    ));
                } else {
                    assert(!ranges_overlap(
                        subs0[wj].low as int,
                        subs0[wj].high as int,
                        subs0[wi].low as int,
                        subs0[wi].high as int,
                    ));
                }
            }
            assert forall|i: int| 0 <= i < q1.len() implies (#[trigger] self.queue()[i]).1
                <= count by {
                assert(q1[i].1 <= q0[mi].1);
                assert(overlap_count(consumed@, q1[i].0.0 as int, q1[i].0.1 as int) >= 0);
            }
        }

        (count, self.color.clone(), ball_ids)
    }
}

/// For every sub-range still present in the selector of a well-formed
/// allocator, the stored priority equals the count table's value, which
/// equals the number of balls still present in the ball index overlapping
/// that sub-range.
pub proof fn lemma_live_counts_match<T: Copy>(a: &CountRangeGreedyAllocator<T>, i: int)
    requires
        a.wf(),
        0 <= i < a.queue().len(),
    ensures
        a.queue()[i].1 as int == overlap_count(
            a.balls(),
            a.queue()[i].0.0 as int,
            a.queue()[i].0.1 as int,
        ),
        table_has(a.counts(), a.queue()[i].0, a.queue()[i].1),
{
}

/// One consumption partitions the balls of its color: the consumed balls
/// and the remaining balls together are exactly the balls held before, as a
/// multiset. So, summed over all buckets emitted for one color, the
/// returned ball ids never exceed the color's original ball count, and no
/// ball entry is handed to two buckets.
pub proof fn lemma_bucket_partitions_balls<T: Copy>(
    pre: &CountRangeGreedyAllocator<T>,
    post: &CountRangeGreedyAllocator<T>,
    ids: Seq<T>,
)
    requires
        pre.spec_has_ranges(),
        ({
            let k = pre.queue()[max_prio_index(pre.queue())].0;
            post.balls() == surviving_entries(pre.balls(), k.0 as int, k.1 as int) && ids.len()
                == overlapping_entries(pre.balls(), k.0 as int, k.1 as int).len()
        }),
    ensures
        ids.len() + post.balls().len() == pre.balls().len(),
        ({
            let k = pre.queue()[max_prio_index(pre.queue())].0;
            overlapping_entries(pre.balls(), k.0 as int, k.1 as int).to_multiset().add(
                post.balls().to_multiset(),
            ) == pre.balls().to_multiset()
        }),
{
    let k = pre.queue()[max_prio_index(pre.queue())].0;
    lemma_overlap_partition(pre.balls(), k.0 as int, k.1 as int);
}

/// `has_ranges_left` is a pure function of the allocator's state: any two
/// results obtained from the same state, with no consumption in between,
/// are equal.
pub proof fn lemma_has_ranges_left_idempotent<T: Copy>(
    a: &CountRangeGreedyAllocator<T>,
    r1: bool,
    r2: bool,
)
    requires
        r1 == a.spec_has_ranges(),
        r2 == a.spec_has_ranges(),
    ensures
        r1 == r2,
{
}

/// Within one allocator alone, successive consumptions return non-increasing
/// counts: after a consumption that returned `c1`, every remaining selector
/// priority is at most `c1`, so the next consumption's count — the maximal
/// remaining priority — is at most `c1`. Across different colors no such
/// order is guaranteed.
pub proof fn lemma_single_color_monotone(q2: Seq<(RangeKey, i32)>, c1: i32)
    requires
        q2.len() > 0,
        forall|i: int| 0 <= i < q2.len() ==> (#[trigger] q2[i]).1 <= c1,
    ensures
        q2[max_prio_index(q2)].1 <= c1,
{
    lemma_max_prio_index(q2);
}

/// The relation between one color's input records and the allocator built
/// for them: the ball index holds the records in order; the endpoint list is
/// strictly sorted and holds exactly the records' endpoints; the sub-ranges
/// are the consecutive endpoint pairs; and the selector holds exactly those
/// sub-range keys, in order, with the standing invariant tying counts to the
/// ball index.
pub open spec fn built_from(
    a: CountRangeGreedyAllocator<i32>,
    color: Seq<char>,
    records: Seq<(i32, String, i64, i64)>,
) -> bool {
    &&& a.wf()
    &&& a.color@ == color
    &&& a.balls().len() == records.len()
    &&& (forall|i: int|
        0 <= i < records.len() ==> a.balls()[i] == (Interval {
            low: (#[trigger] records[i]).2,
            high: records[i].3,
            data: records[i].0,
        }))
    &&& strictly_sorted(a.range_points@)
    &&& (forall|x: i64|
        a.range_points@.contains(x) <==> (exists|i: int|
            0 <= i < records.len() && ((#[trigger] records[i]).2 == x || records[i].3 == x)))
    &&& a.subs().len() == (if a.range_points@.len() >= 2 {
        a.range_points@.len() - 1
    } else {
        0
    })
    &&& (forall|i: int|
        0 <= i < a.subs().len() ==> a.subs()[i] == (Interval {
            low: a.range_points@[i],
            high: a.range_points@[i + 1],
            data: (),
        }))
    &&& a.queue().len() == a.subs().len()
    &&& (forall|i: int|
        0 <= i < a.queue().len() ==> (#[trigger] a.queue()[i]).0 == (
            a.range_points@[i],
            a.range_points@[i + 1],
        ))
}

/// Builds the allocator for one color: collects the distinct endpoint values
/// of the balls, forms elementary sub-ranges from consecutive pairs, counts
/// for each sub-range the balls overlapping it, and seeds the count table
/// and the selector with those counts.
pub fn create_bucket_allocator(balls: Vec<(i32, String, i64, i64)>, color: String) -> (r:
    CountRangeGreedyAllocator<i32>)
    requires
        balls@.len() <= 0x7fffffff,
    ensures
        built_from(r, color@, balls@),
        r.color == color,
{
    let mut ball_range_tree = IntervalIndex::<i32>::new();
    let mut intersect_ranges_tree = IntervalIndex::<()>::new();
    let mut range_points: Vec<i64> = Vec::new();
    let mut intersect_range_counts = CountTable::new();

    let nb = balls.len();
    let mut i: usize = 0;
    while i < nb
        invariant
            nb == balls@.len(),
            nb <= 0x7fffffff,
            i <= nb,
            ball_range_tree.entries@.len() == i,
            forall|j: int|
                0 <= j < i ==> ball_range_tree.entries@[j] == (Interval {
                    low: (#[trigger] balls@[j]).2,
                    high: balls@[j].3,
                    data: balls@[j].0,
                }),
            strictly_sorted(range_points@),
            range_points@.len() <= 2 * i,
            forall|x: i64|
                range_points@.contains(x) <==> (exists|j: int|
                    0 <= j < i && ((#[trigger] balls@[j]).2 == x || balls@[j].3 == x)),
        decreases nb - i,
    {
        let id = balls[i].0;
        let low = balls[i].2;
        let high = balls[i].3;
        insert_sorted_unique(&mut range_points, low);
        insert_sorted_unique(&mut range_points, high);
        ball_range_tree.insert(low, high, id);
        i = i + 1;
        proof {
            assert forall|x: i64| range_points@.contains(x) implies (exists|j: int|
                0 <= j < i && ((#[trigger] balls@[j]).2 == x || balls@[j].3 == x)) by {
                if balls@[i - 1].2 == x || balls@[i - 1].3 == x {
                    assert(0 <= i - 1 < i);
                }
            }
        }
    }

    let overlap_ranges = pairwise(range_points.clone());

    let mut priority_queue = MaxSelector::new();
    let ns = overlap_ranges.len();
    let mut j: usize = 0;
    while j < ns
        invariant
            ns == overlap_ranges@.len(),
            j <= ns,
            nb == balls@.len(),
            nb <= 0x7fffffff,
            ball_range_tree.entries@.len() == nb,
            strictly_sorted(range_points@),
            overlap_ranges@.len() == if range_points@.len() >= 2 {
                range_points@.len() - 1
            } else {
                0
            },
            forall|t: int|
                0 <= t < overlap_ranges@.len() ==> overlap_ranges@[t] == (
                    range_points@[t],
                    range_points@[t + 1],
                ),
            intersect_ranges_tree.entries@.len() == j,
            forall|t: int|
                0 <= t < j ==> intersect_ranges_tree.entries@[t] == (Interval {
                    low: range_points@[t],
                    high: range_points@[t + 1],
                    data: (),
                }),
            priority_queue.entries@.len() == j,
            intersect_range_counts.entries@ == priority_queue.entries@,
            forall|t: int|
                0 <= t < j ==> (#[trigger] priority_queue.entries@[t]).0 == (
                    range_points@[t],
                    range_points@[t + 1],
                ),
            forall|t: int|
                0 <= t < j ==> (#[trigger] priority_queue.entries@[t]).1 as int == overlap_count(
                    ball_range_tree.entries@,
                    range_points@[t] as int,
                    range_points@[t + 1] as int,
                ),
        decreases ns - j,
    {
        let lo = overlap_ranges[j].0;
        let hi = overlap_ranges[j].1;
        intersect_ranges_tree.insert(lo, hi, ());
        let covering = ball_range_tree.overlap(lo, hi);
        proof {
            lemma_overlap_partition(ball_range_tree.entries@, lo as int, hi as int);
            assert(!contains_key(priority_queue.entries@, (lo, hi)));
        }
        let c = covering.len();
        intersect_range_counts.set((lo, hi), c as i32);
        priority_queue.push((lo, hi), c as i32);
        j = j + 1;
    }

    proof {
        assert forall|t: int| 0 <= t < priority_queue.entries@.len() implies has_ivl_key(
            intersect_ranges_tree.entries@,
            (#[trigger] priority_queue.entries@[t]).0,
        ) by {
            assert(ivl_key(intersect_ranges_tree.entries@[t]) == priority_queue.entries@[t].0);
        }
        assert forall|t: int| 0 <= t < intersect_ranges_tree.entries@.len() implies contains_key(
            priority_queue.entries@,
            ivl_key(#[trigger] intersect_ranges_tree.entries@[t]),
        ) by {
            assert(priority_queue.entries@[t].0 == ivl_key(intersect_ranges_tree.entries@[t]));
        }
    }

    CountRangeGreedyAllocator::new(
        color,
        ball_range_tree,
        intersect_ranges_tree,
        intersect_range_counts,
        range_points,
        priority_queue,
    )
}

} // verus!
