//! An ownership-exclusive index of half-open numeric ranges, each carrying a
//! payload, with range-overlap queries and bulk removal of overlapping
//! entries.
//!
//! The index is a flat sequence scanned linearly; queries and removals are
//! specified exactly as selections of the stored sequence.

use vstd::prelude::*;

verus! {

/// One stored entry: a `[low, high)` range with an attached payload.
#[derive(Clone, Copy)]
pub struct Interval<T> {
    pub low: i64,
    pub high: i64,
    pub data: T,
}

/// Two half-open ranges `[alo, ahi)` and `[blo, bhi)` intersect in at least
/// one point; ranges that merely touch at an endpoint do not overlap.
pub open spec fn ranges_overlap(alo: int, ahi: int, blo: int, bhi: int) -> bool {
    alo < bhi && ahi > blo
}

/// The entry `e` overlaps the query range `[lo, hi)`.
pub open spec fn entry_overlaps<T>(e: Interval<T>, lo: int, hi: int) -> bool {
    ranges_overlap(e.low as int, e.high as int, lo, hi)
}

/// Exactly the entries of `s` that overlap `[lo, hi)`, in stored order.
pub open spec fn overlapping_entries<T>(s: Seq<Interval<T>>, lo: int, hi: int) -> Seq<
    Interval<T>,
>
    decreases s.len(),
{
    if s.len() == 0 {
        Seq::empty()
    } else {
        let rest = overlapping_entries(s.drop_last(), lo, hi);
        if entry_overlaps(s.last(), lo, hi) {
            rest.push(s.last())
        } else {
            rest
        }
    }
}

/// Exactly the entries of `s` that do not overlap `[lo, hi)`, in stored order.
pub open spec fn surviving_entries<T>(s: Seq<Interval<T>>, lo: int, hi: int) -> Seq<Interval<T>>
    decreases s.len(),
{
    if s.len() == 0 {
        Seq::empty()
    } else {
        let rest = surviving_entries(s.drop_last(), lo, hi);
        if !entry_overlaps(s.last(), lo, hi) {
            rest.push(s.last())
        } else {
            rest
        }
    }
}

/// The number of entries of `s` that overlap `[lo, hi)`.
pub open spec fn overlap_count<T>(s: Seq<Interval<T>>, lo: int, hi: int) -> int {
    overlapping_entries(s, lo, hi).len() as int
}

/// Appending one entry extends the overlapping selection exactly when the
/// entry overlaps, and the surviving selection exactly when it does not.
pub proof fn lemma_selection_push<T>(s: Seq<Interval<T>>, e: Interval<T>, lo: int, hi: int)
    ensures
        overlapping_entries(s.push(e), lo, hi) == if entry_overlaps(e, lo, hi) {
            overlapping_entries(s, lo, hi).push(e)
        } else {
            overlapping_entries(s, lo, hi)
        },
        surviving_entries(s.push(e), lo, hi) == if !entry_overlaps(e, lo, hi) {
            surviving_entries(s, lo, hi).push(e)
        } else {
            surviving_entries(s, lo, hi)
        },
{
    assert(s.push(e).drop_last() =~= s);
    assert(s.push(e).last() == e);
}

/// The `(low, high)` boundary pair of an entry.
pub open spec fn ivl_key<T>(e: Interval<T>) -> (i64, i64) {
    (e.low, e.high)
}

/// Some entry of `s` has the boundary pair `k`.
pub open spec fn has_ivl_key<T>(s: Seq<Interval<T>>, k: (i64, i64)) -> bool {
    exists|i: int| 0 <= i < s.len() && ivl_key(s[i]) == k
}

/// No two entries of `s` share a boundary pair.
pub open spec fn ivl_keys_unique<T>(s: Seq<Interval<T>>) -> bool {
    forall|i: int, j: int| 0 <= i < j < s.len() ==> ivl_key(s[i]) != ivl_key(s[j])
}

/// Whether an entry overlaps a query depends on its boundary pair alone, so
/// a selection holds exactly the boundary pairs of the input that pass the
/// overlap test.
pub proof fn lemma_selection_keys<T>(s: Seq<Interval<T>>, lo: int, hi: int)
    ensures
        forall|k: (i64, i64)|
            #[trigger] has_ivl_key(overlapping_entries(s, lo, hi), k) <==> has_ivl_key(s, k)
                && ranges_overlap(k.0 as int, k.1 as int, lo, hi),
        forall|k: (i64, i64)|
            #[trigger] has_ivl_key(surviving_entries(s, lo, hi), k) <==> has_ivl_key(s, k)
                && !ranges_overlap(k.0 as int, k.1 as int, lo, hi),
    decreases s.len(),
{
    if s.len() == 0 {
    } else {
        let init = s.drop_last();
        let last = s.last();
        lemma_selection_keys(init, lo, hi);
        assert(s =~= init.push(last));
        lemma_selection_push(init, last, lo, hi);
        assert forall|k: (i64, i64)| #[trigger]
            has_ivl_key(s, k) implies has_ivl_key(init, k) || ivl_key(last) == k by {
            let w = choose|i: int| 0 <= i < s.len() && ivl_key(s[i]) == k;
            if w < s.len() - 1 {
                assert(init[w] == s[w]);
            }
        }
        assert forall|k: (i64, i64)|
            has_ivl_key(init, k) || ivl_key(last) == k implies #[trigger] has_ivl_key(s, k) by {
            if has_ivl_key(init, k) {
                let w = choose|i: int| 0 <= i < init.len() && ivl_key(init[i]) == k;
                assert(ivl_key(s[w]) == k);
            } else {
                assert(ivl_key(s[s.len() - 1]) == k);
            }
        }
        assert forall|k: (i64, i64)|
            has_ivl_key(overlapping_entries(init, lo, hi), k) || (ivl_key(last) == k
                && entry_overlaps(last, lo, hi)) implies #[trigger] has_ivl_key(
            overlapping_entries(s, lo, hi),
            k,
        ) by {
            let sel = overlapping_entries(init, lo, hi);
            if has_ivl_key(sel, k) {
                let w = choose|i: int| 0 <= i < sel.len() && ivl_key(sel[i]) == k;
                assert(ivl_key(overlapping_entries(s, lo, hi)[w]) == k);
            } else {
                let full = overlapping_entries(s, lo, hi);
                assert(ivl_key(full[full.len() - 1]) == k);
            }
        }
        assert forall|k: (i64, i64)| #[trigger]
            has_ivl_key(overlapping_entries(s, lo, hi), k) implies has_ivl_key(
            overlapping_entries(init, lo, hi),
            k,
        ) || (ivl_key(last) == k && entry_overlaps(last, lo, hi)) by {
            let full = overlapping_entries(s, lo, hi);
            let sel = overlapping_entries(init, lo, hi);
            let w = choose|i: int| 0 <= i < full.len() && ivl_key(full[i]) == k;
            if w < sel.len() {
                assert(sel[w] == full[w]);
            }
        }
        assert forall|k: (i64, i64)|
            has_ivl_key(surviving_entries(init, lo, hi), k) || (ivl_key(last) == k
                && !entry_overlaps(last, lo, hi)) implies #[trigger] has_ivl_key(
            surviving_entries(s, lo, hi),
            k,
        ) by {
            let sel = surviving_entries(init, lo, hi);
            if has_ivl_key(sel, k) {
                let w = choose|i: int| 0 <= i < sel.len() && ivl_key(sel[i]) == k;
                assert(ivl_key(surviving_entries(s, lo, hi)[w]) == k);
            } else {
                let full = surviving_entries(s, lo, hi);
                assert(ivl_key(full[full.len() - 1]) == k);
            }
        }
        assert forall|k: (i64, i64)| #[trigger]
            has_ivl_key(surviving_entries(s, lo, hi), k) implies has_ivl_key(
            surviving_entries(init, lo, hi),
            k,
        ) || (ivl_key(last) == k && !entry_overlaps(last, lo, hi)) by {
            let full = surviving_entries(s, lo, hi);
            let sel = surviving_entries(init, lo, hi);
            let w = choose|i: int| 0 <= i < full.len() && ivl_key(full[i]) == k;
            if w < sel.len() {
                assert(sel[w] == full[w]);
            }
        }
    }
}

/// A selection out of entries with pairwise distinct boundary pairs again has
/// pairwise distinct boundary pairs.
pub proof fn lemma_selection_keys_unique<T>(s: Seq<Interval<T>>, lo: int, hi: int)
    requires
        ivl_keys_unique(s),
    ensures
        ivl_keys_unique(overlapping_entries(s, lo, hi)),
        ivl_keys_unique(surviving_entries(s, lo, hi)),
    decreases s.len(),
{
    if s.len() == 0 {
    } else {
        let init = s.drop_last();
        let last = s.last();
        assert(forall|i: int| 0 <= i < init.len() ==> init[i] == #[trigger] s[i]);
        lemma_selection_keys_unique(init, lo, hi);
        assert(s =~= init.push(last));
        lemma_selection_push(init, last, lo, hi);
        lemma_selection_keys(init, lo, hi);
        assert(!has_ivl_key(init, ivl_key(last)));
        let ov = overlapping_entries(s, lo, hi);
        let ov0 = overlapping_entries(init, lo, hi);
        assert forall|i: int, j: int| 0 <= i < j < ov.len() implies ivl_key(ov[i]) != ivl_key(
            ov[j],
        ) by {
            if j < ov0.len() {
                assert(ov[i] == ov0[i] && ov[j] == ov0[j]);
            } else {
                assert(ov[i] == ov0[i] && ov[j] == last);
                assert(has_ivl_key(ov0, ivl_key(ov0[i])));
            }
        }
        let sv = surviving_entries(s, lo, hi);
        let sv0 = surviving_entries(init, lo, hi);
        assert forall|i: int, j: int| 0 <= i < j < sv.len() implies ivl_key(sv[i]) != ivl_key(
            sv[j],
        ) by {
            if j < sv0.len() {
                assert(sv[i] == sv0[i] && sv[j] == sv0[j]);
            } else {
                assert(sv[i] == sv0[i] && sv[j] == last);
                assert(has_ivl_key(sv0, ivl_key(sv0[i])));
            }
        }
    }
}

/// Splitting a sequence by one query does not change how many of its entries
/// overlap any other range: the two halves count it between them.
pub proof fn lemma_overlap_count_split<T>(s: Seq<Interval<T>>, qlo: int, qhi: int, lo: int, hi: int)
    ensures
        overlap_count(s, lo, hi) == overlap_count(overlapping_entries(s, qlo, qhi), lo, hi)
            + overlap_count(surviving_entries(s, qlo, qhi), lo, hi),
    decreases s.len(),
{
    if s.len() == 0 {
    } else {
        let init = s.drop_last();
        let last = s.last();
        lemma_overlap_count_split(init, qlo, qhi, lo, hi);
        assert(s =~= init.push(last));
        lemma_selection_push(init, last, qlo, qhi);
        lemma_selection_push(init, last, lo, hi);
        lemma_selection_push(overlapping_entries(init, qlo, qhi), last, lo, hi);
        lemma_selection_push(surviving_entries(init, qlo, qhi), last, lo, hi);
    }
}

/// A prefix of a sequence never overlaps a range more often than the whole
/// sequence does.
pub proof fn lemma_prefix_count_mono<T>(s: Seq<Interval<T>>, t: int, lo: int, hi: int)
    requires
        0 <= t <= s.len(),
    ensures
        overlap_count(s.take(t), lo, hi) <= overlap_count(s, lo, hi),
    decreases s.len() - t,
{
    if t < s.len() {
        lemma_prefix_count_mono(s, t + 1, lo, hi);
        assert(s.take(t + 1) =~= s.take(t).push(s[t]));
        lemma_selection_push(s.take(t), s[t], lo, hi);
    } else {
        assert(s.take(t) =~= s);
    }
}

/// A query splits the stored entries into the overlapping ones and the
/// surviving ones: together they are a permutation of the whole index, so a
/// bulk removal loses nothing but the overlapping entries.
pub proof fn lemma_overlap_partition<T>(s: Seq<Interval<T>>, lo: int, hi: int)
    ensures
        overlapping_entries(s, lo, hi).len() + surviving_entries(s, lo, hi).len() == s.len(),
        overlapping_entries(s, lo, hi).to_multiset().add(
            surviving_entries(s, lo, hi).to_multiset(),
        ) == s.to_multiset(),
    decreases s.len(),
{
    broadcast use vstd::seq_lib::group_to_multiset_ensures;
    broadcast use vstd::multiset::group_multiset_axioms;

    if s.len() == 0 {
        assert(s =~= Seq::<Interval<T>>::empty());
        assert(overlapping_entries(s, lo, hi).to_multiset().add(
            surviving_entries(s, lo, hi).to_multiset(),
        ) =~= s.to_multiset());
    } else {
        let init = s.drop_last();
        let last = s.last();
        lemma_overlap_partition(init, lo, hi);
        assert(s =~= init.push(last));
        lemma_selection_push(init, last, lo, hi);
        assert(overlapping_entries(s, lo, hi).to_multiset().add(
            surviving_entries(s, lo, hi).to_multiset(),
        ) =~= s.to_multiset());
    }
}

/// An associative structure over `[low, high)` ranges with payloads,
/// supporting overlap queries and bulk removal of all overlapping entries.
pub struct IntervalIndex<T> {
    pub entries: Vec<Interval<T>>,
}

impl<T: Copy> IntervalIndex<T> {
    /// A new, empty index.
    pub fn new() -> (r: Self)
        ensures
            r.entries@ == Seq::<Interval<T>>::empty(),
    {
        IntervalIndex { entries: Vec::new() }
    }

    /// The number of stored entries.
    pub fn len(&self) -> (r: usize)
        ensures
            r == self.entries@.len(),
    {
        self.entries.len()
    }

    /// Adds one entry; existing entries are untouched.
    pub fn insert(&mut self, low: i64, high: i64, data: T)
        ensures
            final(self).entries@ == old(self).entries@.push(Interval { low, high, data }),
    {
        self.entries.push(Interval { low, high, data });
    }

    /// Returns all stored entries overlapping `[lo, hi)`, in stored order:
    /// no duplicates beyond those stored, no omissions.
    pub fn overlap(&self, lo: i64, hi: i64) -> (r: Vec<Interval<T>>)
        ensures
            r@ == overlapping_entries(self.entries@, lo as int, hi as int),
    {
        let mut r: Vec<Interval<T>> = Vec::new();
        let n = self.entries.len();
        let mut i: usize = 0;
        while i < n
            invariant
                n == self.entries@.len(),
                i <= n,
                r@ == overlapping_entries(self.entries@.take(i as int), lo as int, hi as int),
            decreases n - i,
        {
            let e = self.entries[i];
            proof {
                assert(self.entries@.take(i as int).push(self.entries@[i as int]) =~= self
                    .entries@
                    .take(i as int + 1));
                lemma_selection_push(
                    self.entries@.take(i as int),
                    self.entries@[i as int],
                    lo as int,
                    hi as int,
                );
            }
            if e.low < hi && e.high > lo {
                r.push(e);
            }
            i = i + 1;
        }
        proof {
            assert(self.entries@.take(n as int) =~= self.entries@);
        }
        r
    }

    /// Deletes every stored entry overlapping `[lo, hi)`; the surviving
    /// entries keep their relative order. Removing when nothing overlaps
    /// changes nothing.
    pub fn remove_overlap(&mut self, lo: i64, hi: i64)
        ensures
            final(self).entries@ == surviving_entries(old(self).entries@, lo as int, hi as int),
    {
        let mut kept: Vec<Interval<T>> = Vec::new();
        let n = self.entries.len();
        let mut i: usize = 0;
        while i < n
            invariant
                n == self.entries@.len(),
                self.entries@ == old(self).entries@,
                i <= n,
                kept@ == surviving_entries(self.entries@.take(i as int), lo as int, hi as int),
            decreases n - i,
        {
            let e = self.entries[i];
            proof {
                assert(self.entries@.take(i as int).push(self.entries@[i as int]) =~= self
                    .entries@
                    .take(i as int + 1));
                lemma_selection_push(
                    self.entries@.take(i as int),
                    self.entries@[i as int],
                    lo as int,
                    hi as int,
                );
            }
            if !(e.low < hi && e.high > lo) {
                kept.push(e);
            }
            i = i + 1;
        }
        proof {
            assert(self.entries@.take(n as int) =~= self.entries@);
        }
        self.entries = kept;
    }
}

} // verus!
