//! The cross-color coordinator: groups ball records by color, builds one
//! per-color allocator per distinct color, and on each round consumes the
//! best bucket from the allocator whose peeked count is globally greatest,
//! first-seen winning ties.

use vstd::prelude::*;

use crate::allocator::{built_from, create_bucket_allocator, CountRangeGreedyAllocator};
use crate::intervals::{overlap_count, overlapping_entries, surviving_entries};
use crate::selector::{lemma_max_prio_index, max_prio_index};

verus! {

/// One parsed ball record: id, color, low and high endpoint.
pub type BallRecord = (i32, String, i64, i64);

/// One emitted output record: the densest remaining sub-range of one color
/// at selection time, with the balls that covered it. The reported
/// half-width of a bucket is `(high - low) / 2`, left to the caller since
/// it need not be a whole number.
pub struct Bucket {
    pub color: String,
    pub count: i32,
    pub low: i64,
    pub high: i64,
    pub ball_ids: Vec<i32>,
}

/// The distinct colors of `s` in first-occurrence order.
pub open spec fn distinct_colors(s: Seq<BallRecord>) -> Seq<Seq<char>>
    decreases s.len(),
{
    if s.len() == 0 {
        Seq::empty()
    } else {
        let rest = distinct_colors(s.drop_last());
        if rest.contains(s.last().1@) {
            rest
        } else {
            rest.push(s.last().1@)
        }
    }
}

/// The records of `s` whose color is `c`, in input order.
pub open spec fn records_of_color(s: Seq<BallRecord>, c: Seq<char>) -> Seq<BallRecord>
    decreases s.len(),
{
    if s.len() == 0 {
        Seq::empty()
    } else {
        let rest = records_of_color(s.drop_last(), c);
        if s.last().1@ == c {
            rest.push(s.last())
        } else {
            rest
        }
    }
}

/// Partitions validated ball records into per-color groups, keeping the
/// input order of records within each group and listing colors in
/// first-occurrence order.
pub fn split_lines_by_color(parsed_lines: Vec<BallRecord>) -> (r: Vec<(String, Vec<BallRecord>)>)
    ensures
        r@.len() == distinct_colors(parsed_lines@).len(),
        forall|g: int|
            0 <= g < r@.len() ==> (#[trigger] r@[g]).0@ == distinct_colors(parsed_lines@)[g],
        forall|g: int|
            0 <= g < r@.len() ==> (#[trigger] r@[g]).1@ == records_of_color(
                parsed_lines@,
                distinct_colors(parsed_lines@)[g],
            ),
{
    let mut groups: Vec<(String, Vec<BallRecord>)> = Vec::new();
    let n = parsed_lines.len();
    let mut i: usize = 0;
    while i < n
        invariant
            n == parsed_lines@.len(),
            i <= n,
            groups@.len() == distinct_colors(parsed_lines@.take(i as int)).len(),
            forall|g: int|
                0 <= g < groups@.len() ==> (#[trigger] groups@[g]).0@ == distinct_colors(
                    parsed_lines@.take(i as int),
                )[g],
            forall|g: int|
                0 <= g < groups@.len() ==> (#[trigger] groups@[g]).1@ == records_of_color(
                    parsed_lines@.take(i as int),
                    distinct_colors(parsed_lines@.take(i as int))[g],
                ),
            forall|g1: int, g2: int|
                0 <= g1 < g2 < groups@.len() ==> (#[trigger] groups@[g1]).0@ != (
                #[trigger] groups@[g2]).0@,
        decreases n - i,
    {
        let ghost pre = parsed_lines@.take(i as int);
        let ghost cur = parsed_lines@.take(i as int + 1);
        let ghost rec0 = parsed_lines@[i as int];
        proof {
            assert(cur =~= pre.push(rec0));
            assert(cur.drop_last() =~= pre);
        }
        let rec = (
            parsed_lines[i].0,
            parsed_lines[i].1.clone(),
            parsed_lines[i].2,
            parsed_lines[i].3,
        );
        proof {
            assert(rec.1@ == rec0.1@);
            assert(rec == rec0);
        }
        let ng = groups.len();
        let mut g: usize = 0;
        let mut found = false;
        while g < ng && !found
            invariant
                ng == groups@.len(),
                g <= ng,
                rec == rec0,
                found ==> g < ng && (groups@[g as int].0@ == rec0.1@),
                !found ==> forall|h: int| 0 <= h < g ==> (#[trigger] groups@[h]).0@ != rec0.1@,
            decreases ng - g + (if found {
                0int
            } else {
                1int
            }),
        {
            if groups[g].0.eq(&rec.1) {
                found = true;
            } else {
                g = g + 1;
            }
        }
        if found {
            let ghost gpre = groups@;
            let mut entry = groups.remove(g);
            entry.1.push(rec);
            let ghost entry_v = entry;
            groups.insert(g, entry);
            proof {
                gpre.remove_ensures(g as int);
                gpre.remove(g as int).insert_ensures(g as int, entry_v);
                assert(entry_v.0 == gpre[g as int].0);
                assert(entry_v.1@ == gpre[g as int].1@.push(rec0));
                assert forall|h: int|
                    0 <= h < gpre.len() && h != g implies #[trigger] groups@[h] == gpre[h] by {
                    if h < g {
                        assert(groups@[h] == gpre.remove(g as int)[h]);
                    } else {
                        assert(groups@[h] == gpre.remove(g as int)[h - 1]);
                    }
                }
                assert(groups@[g as int].0 == gpre[g as int].0);
                assert(distinct_colors(pre).contains(rec0.1@)) by {
                    assert(distinct_colors(pre)[g as int] == groups@[g as int].0@);
                }
                assert(distinct_colors(cur) == distinct_colors(pre));
                assert(groups@[g as int].1@ == records_of_color(pre, distinct_colors(pre)[g as int]).push(
                    rec0,
                ));
                assert forall|h: int| 0 <= h < groups@.len() implies (#[trigger] groups@[h]).1@
                    == records_of_color(cur, distinct_colors(cur)[h]) by {
                    if h == g {
                        assert(distinct_colors(cur)[h] == rec0.1@);
                    } else {
                        assert(distinct_colors(pre)[h] == gpre[h].0@);
                        assert(gpre[g as int].0@ == rec0.1@);
                        if h < g {
                            assert(gpre[h].0@ != gpre[g as int].0@);
                        } else {
                            assert(gpre[g as int].0@ != gpre[h].0@);
                        }
                        assert(distinct_colors(cur)[h] != rec0.1@);
                    }
                }
            }
        } else {
            let mut fresh: Vec<BallRecord> = Vec::new();
            let color_copy = rec.1.clone();
            fresh.push(rec);
            groups.push((color_copy, fresh));
            proof {
                assert(!distinct_colors(pre).contains(rec0.1@)) by {
                    if distinct_colors(pre).contains(rec0.1@) {
                        let w = choose|w: int|
                            0 <= w < distinct_colors(pre).len() && distinct_colors(pre)[w]
                                == rec0.1@;
                        assert(groups@.drop_last()[w].0@ == rec0.1@);
                    }
                }
                assert(distinct_colors(cur) == distinct_colors(pre).push(rec0.1@));
                assert forall|h: int| 0 <= h < groups@.len() implies (#[trigger] groups@[h]).1@
                    == records_of_color(cur, distinct_colors(cur)[h]) by {
                    if h < groups@.len() - 1 {
                        assert(distinct_colors(cur)[h] != rec0.1@) by {
                            assert(groups@[h].0@ == distinct_colors(pre)[h]);
                            assert(groups@[groups@.len() - 1].0@ == rec0.1@);
                        }
                        assert(groups@[h] == groups@.drop_last()[h]);
                    } else {
                        assert(records_of_color(pre, rec0.1@) =~= Seq::<BallRecord>::empty()) by {
                            lemma_records_of_absent_color(pre, rec0.1@);
                        }
                    }
                }
            }
        }
        i = i + 1;
    }
    proof {
        assert(parsed_lines@.take(n as int) =~= parsed_lines@);
    }
    groups
}

/// A color that never occurs in `s` selects no records.
proof fn lemma_records_of_absent_color(s: Seq<BallRecord>, c: Seq<char>)
    requires
        !distinct_colors(s).contains(c),
    ensures
        records_of_color(s, c).len() == 0,
    decreases s.len(),
{
    if s.len() > 0 {
        if !distinct_colors(s.drop_last()).contains(c) {
            lemma_records_of_absent_color(s.drop_last(), c);
        } else {
            let w = choose|w: int|
                0 <= w < distinct_colors(s.drop_last()).len() && distinct_colors(s.drop_last())[w]
                    == c;
            if distinct_colors(s.drop_last()).contains(s.last().1@) {
                assert(distinct_colors(s)[w] == c);
            } else {
                assert(distinct_colors(s)[w] == c);
            }
            assert(false);
        }
        assert(s.last().1@ != c) by {
            if s.last().1@ == c {
                let dc = distinct_colors(s);
                if distinct_colors(s.drop_last()).contains(c) {
                } else {
                    assert(dc[dc.len() - 1] == c);
                }
            }
        }
    }
}

/// The overlap count that a non-empty allocator's next consumption returns.
pub open spec fn peek_count(a: CountRangeGreedyAllocator<i32>) -> int {
    a.queue()[max_prio_index(a.queue())].1 as int
}

/// The allocator that the coordinator's round selects: the first one, in
/// order, with sub-ranges left whose peeked count is strictly greater than
/// every earlier candidate's and at least every later candidate's.
pub open spec fn best_alloc_index(s: Seq<CountRangeGreedyAllocator<i32>>) -> int
    decreases s.len(),
{
    if s.len() <= 1 {
        0
    } else {
        let j = best_alloc_index(s.drop_last());
        let l = s.len() - 1;
        if s[l].spec_has_ranges() && (!s[j].spec_has_ranges() || peek_count(s[l]) > peek_count(
            s[j],
        )) {
            l
        } else {
            j
        }
    }
}

/// When some allocator still has ranges, the selected index is in range,
/// has ranges, and carries the greatest peeked count, earliest first.
pub proof fn lemma_best_alloc_index(s: Seq<CountRangeGreedyAllocator<i32>>)
    requires
        exists|i: int| 0 <= i < s.len() && (#[trigger] s[i]).spec_has_ranges(),
    ensures
        0 <= best_alloc_index(s) < s.len(),
        s[best_alloc_index(s)].spec_has_ranges(),
        forall|i: int|
            0 <= i < s.len() && (#[trigger] s[i]).spec_has_ranges() ==> peek_count(s[i])
                <= peek_count(s[best_alloc_index(s)]),
        forall|i: int|
            0 <= i < best_alloc_index(s) && (#[trigger] s[i]).spec_has_ranges() ==> peek_count(
                s[i],
            ) < peek_count(s[best_alloc_index(s)]),
    decreases s.len(),
{
    let w = choose|i: int| 0 <= i < s.len() && (#[trigger] s[i]).spec_has_ranges();
    lemma_best_alloc_bounds(s);
    if s.len() > 1 {
        let init = s.drop_last();
        let l = s.len() - 1;
        let j0 = best_alloc_index(init);
        lemma_best_alloc_bounds(init);
        assert(forall|i: int| 0 <= i < init.len() ==> init[i] == #[trigger] s[i]);
        if exists|i: int| 0 <= i < init.len() && (#[trigger] init[i]).spec_has_ranges() {
            lemma_best_alloc_index(init);
            assert(init[j0].spec_has_ranges());
        } else {
            assert(forall|i: int| 0 <= i < l ==> !(#[trigger] s[i]).spec_has_ranges());
            assert(s[l].spec_has_ranges());
        }
    }
}

/// The selected index is always within bounds for a non-empty list.
pub proof fn lemma_best_alloc_bounds(s: Seq<CountRangeGreedyAllocator<i32>>)
    requires
        s.len() > 0,
    ensures
        0 <= best_alloc_index(s) < s.len(),
    decreases s.len(),
{
    if s.len() > 1 {
        lemma_best_alloc_bounds(s.drop_last());
    }
}

/// One coordinator round: selects the allocator with the globally greatest
/// peeked count (first seen wins ties), consumes its best bucket, and
/// returns the true count, the claimed sub-range, the color, and the ids of
/// the consumed balls.
#[verifier::loop_isolation(false)]
pub fn pop_max_allocator(allocators_by_color: &mut Vec<CountRangeGreedyAllocator<i32>>) -> (r: (
    i32,
    (i64, i64),
    String,
    Vec<i32>,
))
    requires
        forall|i: int|
            0 <= i < old(allocators_by_color)@.len() ==> (#[trigger] old(
                allocators_by_color,
            )@[i]).wf(),
        exists|i: int|
            0 <= i < old(allocators_by_color)@.len() && (#[trigger] old(
                allocators_by_color,
            )@[i]).spec_has_ranges(),
    ensures
        ({
            let s = old(allocators_by_color)@;
            let b = best_alloc_index(s);
            let a0 = s[b];
            let q = a0.queue();
            let k = q[max_prio_index(q)].0;
            let consumed = overlapping_entries(a0.balls(), k.0 as int, k.1 as int);
            &&& final(allocators_by_color)@.len() == s.len()
            &&& (forall|i: int|
                0 <= i < s.len() && i != b ==> #[trigger] final(allocators_by_color)@[i] == s[i])
            &&& final(allocators_by_color)@[b].wf()
            &&& final(allocators_by_color)@[b].color == a0.color
            &&& final(allocators_by_color)@[b].balls() == surviving_entries(
                a0.balls(),
                k.0 as int,
                k.1 as int,
            )
            &&& final(allocators_by_color)@[b].subs() == surviving_entries(
                a0.subs(),
                k.0 as int,
                k.1 as int,
            )
            &&& final(allocators_by_color)@[b].range_points@ == a0.range_points@
            &&& final(allocators_by_color)@[b].queue().len() == q.len() - 1
            &&& (forall|i: int|
                0 <= i < q.len() - 1 ==> (#[trigger] final(allocators_by_color)@[b].queue()[i]).0
                    == q.remove(max_prio_index(q))[i].0)
            &&& (forall|i: int|
                0 <= i < q.len() - 1 ==> (#[trigger] final(allocators_by_color)@[b].queue()[i]).1
                    as int == q.remove(max_prio_index(q))[i].1 - overlap_count(
                    consumed,
                    q.remove(max_prio_index(q))[i].0.0 as int,
                    q.remove(max_prio_index(q))[i].0.1 as int,
                ))
            &&& (forall|i: int|
                0 <= i < q.len() - 1 ==> (#[trigger] final(allocators_by_color)@[b].queue()[i]).1
                    <= r.0)
            &&& r.0 == q[max_prio_index(q)].1
            &&& r.0 as int == overlap_count(a0.balls(), k.0 as int, k.1 as int)
            &&& r.0 >= 0
            &&& r.1 == k
            &&& r.1.0 < r.1.1
            &&& r.2@ == a0.color@
            &&& r.3@.len() == consumed.len()
            &&& (forall|t: int| 0 <= t < consumed.len() ==> r.3@[t] == consumed[t].data)
        }),
{
    let ghost s = allocators_by_color@;
    let n = allocators_by_color.len();
    let mut best: usize = 0;
    let mut best_count: i32 = 0;
    let mut found = false;
    let mut i: usize = 0;
    while i < n
        invariant
            allocators_by_color@ == s,
            i <= n,
            found == exists|h: int| 0 <= h < i && (#[trigger] s[h]).spec_has_ranges(),
            found ==> best < i && best == best_alloc_index(s.take(i as int))
                && s[best as int].spec_has_ranges() && best_count as int == peek_count(
                s[best as int],
            ),
        decreases n - i,
    {
        proof {
            assert(s.take(i as int + 1).drop_last() =~= s.take(i as int));
            assert(s.take(i as int + 1).last() == s[i as int]);
            if i > 0 {
                lemma_best_alloc_bounds(s.take(i as int));
            }
            if found {
                assert(s.take(i as int)[best as int] == s[best as int]);
            }
        }
        let a = &allocators_by_color[i];
        if a.has_ranges_left() {
            let peeked = a.peek();
            proof {
                lemma_max_prio_index(s[i as int].queue());
            }
            let c = match peeked {
                Some(p) => p.1,
                None => 0,
            };
            if !found || c > best_count {
                best = i;
                best_count = c;
                found = true;
            }
        }
        proof {
            if found && best == i {
                assert(best_alloc_index(s.take(i as int + 1)) == i);
            }
            assert forall|h: int| 0 <= h < i + 1 && (#[trigger] s[h]).spec_has_ranges() implies
                found by {}
        }
        i = i + 1;
    }
    proof {
        assert(s.take(n as int) =~= s);
        assert(found);
    }

    let ghost b = best as int;
    let ghost a0 = s[b];
    let mut chosen = allocators_by_color.remove(best);
    let peeked = chosen.peek();
    let rng = match peeked {
        Some(p) => p.0,
        None => (0, 0),
    };
    proof {
        lemma_best_alloc_index(s);
        assert(old(allocators_by_color)@[b].wf());
        assert(a0.wf());
        assert(chosen.spec_has_ranges());
        let q = a0.queue();
        lemma_max_prio_index(q);
        let mi = max_prio_index(q);
        assert(crate::intervals::has_ivl_key(a0.subs(), q[mi].0));
        let w = choose|w: int|
            0 <= w < a0.subs().len() && crate::intervals::ivl_key(a0.subs()[w]) == q[mi].0;
        assert(a0.subs()[w].low < a0.subs()[w].high);
    }
    let res = chosen.return_bucket_label();
    let ghost chosen_after = chosen;
    allocators_by_color.insert(best, chosen);
    proof {
        s.remove_ensures(b);
        s.remove(b).insert_ensures(b, chosen_after);
        assert forall|t: int| 0 <= t < s.len() && t != b implies #[trigger] allocators_by_color@[t]
            == s[t] by {
            if t < b {
                assert(allocators_by_color@[t] == s.remove(b)[t]);
            } else {
                assert(allocators_by_color@[t] == s.remove(b)[t - 1]);
            }
        }
        assert(allocators_by_color@[b] == chosen_after);
    }
    (res.0, rng, res.1, res.2)
}

/// Every allocator reports that nothing is left.
pub open spec fn all_exhausted(s: Seq<CountRangeGreedyAllocator<i32>>) -> bool {
    forall|i: int| 0 <= i < s.len() ==> !(#[trigger] s[i]).spec_has_ranges()
}

/// One coordinator round as a relation between the allocator states before
/// (`s`) and after (`s2`) and the bucket `b` it emits: the selected
/// allocator consumes its best sub-range, every other allocator is
/// untouched, and the bucket reports that sub-range, its true count, the
/// color, and the consumed balls' ids in index order.
pub open spec fn consume_round(
    s: Seq<CountRangeGreedyAllocator<i32>>,
    s2: Seq<CountRangeGreedyAllocator<i32>>,
    b: Bucket,
) -> bool {
    let bi = best_alloc_index(s);
    let a0 = s[bi];
    let q = a0.queue();
    let k = q[max_prio_index(q)].0;
    &&& s2.len() == s.len()
    &&& (forall|i: int| 0 <= i < s.len() && i != bi ==> #[trigger] s2[i] == s[i])
    &&& s2[bi].wf()
    &&& s2[bi].color == a0.color
    &&& s2[bi].balls() == surviving_entries(a0.balls(), k.0 as int, k.1 as int)
    &&& s2[bi].subs() == surviving_entries(a0.subs(), k.0 as int, k.1 as int)
    &&& s2[bi].range_points@ == a0.range_points@
    &&& s2[bi].queue().len() == q.len() - 1
    &&& (forall|i: int|
        0 <= i < q.len() - 1 ==> (#[trigger] s2[bi].queue()[i]).0 == q.remove(
            max_prio_index(q),
        )[i].0)
    &&& (forall|i: int|
        0 <= i < q.len() - 1 ==> (#[trigger] s2[bi].queue()[i]).1 as int == q.remove(
            max_prio_index(q),
        )[i].1 - overlap_count(
            overlapping_entries(a0.balls(), k.0 as int, k.1 as int),
            q.remove(max_prio_index(q))[i].0.0 as int,
            q.remove(max_prio_index(q))[i].0.1 as int,
        ))
    &&& (forall|i: int| 0 <= i < q.len() - 1 ==> (#[trigger] s2[bi].queue()[i]).1 <= b.count)
    &&& b.color@ == a0.color@
    &&& b.count == q[max_prio_index(q)].1
    &&& (b.low, b.high) == k
    &&& b.ball_ids@.len() == overlapping_entries(a0.balls(), k.0 as int, k.1 as int).len()
    &&& (forall|t: int|
        0 <= t < b.ball_ids@.len() ==> b.ball_ids@[t] == overlapping_entries(
            a0.balls(),
            k.0 as int,
            k.1 as int,
        )[t].data)
}

/// The coordinator's whole run as a relation: with `n` rounds left and the
/// allocators in states `s`, exactly the bucket sequence `buckets` comes
/// out. It is empty once `n` is zero or every allocator is exhausted;
/// otherwise the first bucket comes from one round and the rest from a run
/// with one round fewer on the resulting states.
pub open spec fn runs_to(
    s: Seq<CountRangeGreedyAllocator<i32>>,
    n: nat,
    buckets: Seq<Bucket>,
) -> bool
    decreases n,
{
    if n == 0 || all_exhausted(s) {
        buckets.len() == 0
    } else {
        &&& buckets.len() >= 1
        &&& exists|s2: Seq<CountRangeGreedyAllocator<i32>>|
            #[trigger] consume_round(s, s2, buckets.first()) && runs_to(
                s2,
                (n - 1) as nat,
                buckets.drop_first(),
            )
    }
}

/// The total number of ball ids across a sequence of buckets.
pub open spec fn total_ids(buckets: Seq<Bucket>) -> int
    decreases buckets.len(),
{
    if buckets.len() == 0 {
        0
    } else {
        buckets.first().ball_ids@.len() + total_ids(buckets.drop_first())
    }
}

/// Summed across all buckets that a run over a single allocator emits, the
/// returned ball ids never exceed the allocator's original ball count: each
/// round hands out only balls it also removes.
pub proof fn lemma_run_ids_bounded(
    s: Seq<CountRangeGreedyAllocator<i32>>,
    n: nat,
    buckets: Seq<Bucket>,
)
    requires
        s.len() == 1,
        runs_to(s, n, buckets),
    ensures
        total_ids(buckets) <= s[0].balls().len(),
    decreases n,
{
    if n == 0 || all_exhausted(s) {
    } else {
        let s2 = choose|s2: Seq<CountRangeGreedyAllocator<i32>>|
            #[trigger] consume_round(s, s2, buckets.first()) && runs_to(
                s2,
                (n - 1) as nat,
                buckets.drop_first(),
            );
        assert(best_alloc_index(s) == 0);
        let a0 = s[0];
        let k = a0.queue()[max_prio_index(a0.queue())].0;
        crate::intervals::lemma_overlap_partition(a0.balls(), k.0 as int, k.1 as int);
        assert(buckets.first().ball_ids@.len() + s2[0].balls().len() == a0.balls().len());
        lemma_run_ids_bounded(s2, (n - 1) as nat, buckets.drop_first());
    }
}

/// Builds one allocator per distinct color from the grouped records, then
/// emits up to `num_buckets` buckets, each round consuming the globally
/// densest remaining sub-range across all colors; stops early, with a
/// shorter sequence, once every allocator is exhausted. With `num_buckets`
/// zero it returns an empty sequence without touching any allocator. The
/// returned sequence is exactly a run, in the sense of `runs_to`, over
/// allocators built from the given groups in their given order.
#[verifier::loop_isolation(false)]
pub fn run_allocators(lines_by_color: Vec<(String, Vec<BallRecord>)>, num_buckets: usize) -> (r:
    Vec<Bucket>)
    requires
        forall|g: int|
            0 <= g < lines_by_color@.len() ==> (#[trigger] lines_by_color@[g]).1@.len()
                <= 0x7fffffff,
    ensures
        r@.len() <= num_buckets,
        num_buckets == 0 ==> r@.len() == 0,
        forall|b: int|
            0 <= b < r@.len() ==> (#[trigger] r@[b]).count >= 0 && r@[b].low < r@[b].high
                && r@[b].ball_ids@.len() <= r@[b].count,
        exists|allocs: Seq<CountRangeGreedyAllocator<i32>>|
            {
                &&& #[trigger] runs_to(allocs, num_buckets as nat, r@)
                &&& allocs.len() == lines_by_color@.len()
                &&& (forall|g: int|
                    0 <= g < allocs.len() ==> built_from(
                        #[trigger] allocs[g],
                        lines_by_color@[g].0@,
                        lines_by_color@[g].1@,
                    ))
            },
{
    let ghost lines0 = lines_by_color@;
    let mut remaining = lines_by_color;
    let mut allocators: Vec<CountRangeGreedyAllocator<i32>> = Vec::new();
    while remaining.len() > 0
        invariant
            allocators@.len() + remaining@.len() == lines0.len(),
            forall|g: int|
                0 <= g < remaining@.len() ==> #[trigger] remaining@[g] == lines0[g
                    + allocators@.len()],
            forall|h: int|
                0 <= h < allocators@.len() ==> built_from(
                    #[trigger] allocators@[h],
                    lines0[h].0@,
                    lines0[h].1@,
                ),
        decreases remaining@.len(),
    {
        let ghost rpre = remaining@;
        let entry = remaining.remove(0);
        proof {
            rpre.remove_ensures(0);
            assert(entry == lines0[allocators@.len() as int]);
        }
        let a = create_bucket_allocator(entry.1, entry.0);
        allocators.push(a);
    }

    let ghost allocs0 = allocators@;
    let ghost n = num_buckets as nat;
    let mut buckets: Vec<Bucket> = Vec::new();
    let mut round: usize = 0;
    while round < num_buckets
        invariant
            round <= num_buckets,
            buckets@.len() == round,
            forall|h: int| 0 <= h < allocators@.len() ==> (#[trigger] allocators@[h]).wf(),
            forall|b: int|
                0 <= b < buckets@.len() ==> (#[trigger] buckets@[b]).count >= 0 && buckets@[b].low
                    < buckets@[b].high && buckets@[b].ball_ids@.len() <= buckets@[b].count,
            forall|fut: Seq<Bucket>|
                #[trigger] runs_to(allocators@, (n - round) as nat, fut) ==> runs_to(
                    allocs0,
                    n,
                    buckets@ + fut,
                ),
        decreases num_buckets - round,
    {
        let na = allocators.len();
        let mut any = false;
        let mut t: usize = 0;
        while t < na
            invariant
                t <= na,
                na == allocators@.len(),
                any == exists|h: int| 0 <= h < t && (#[trigger] allocators@[h]).spec_has_ranges(),
            decreases na - t,
        {
            let a = &allocators[t];
            if a.has_ranges_left() {
                any = true;
            }
            proof {
                assert forall|h: int|
                    0 <= h < t + 1 && (#[trigger] allocators@[h]).spec_has_ranges() implies
                    any by {}
            }
            t = t + 1;
        }
        if !any {
            proof {
                assert(all_exhausted(allocators@));
                assert(runs_to(allocators@, (n - round) as nat, Seq::<Bucket>::empty()));
                assert(buckets@ + Seq::<Bucket>::empty() =~= buckets@);
            }
            return buckets;
        }
        let ghost spre = allocators@;
        let ghost done = buckets@;
        let popped = pop_max_allocator(&mut allocators);
        proof {
            lemma_best_alloc_index(spre);
            let b = best_alloc_index(spre);
            let a0 = spre[b];
            let k = a0.queue()[max_prio_index(a0.queue())].0;
            crate::intervals::lemma_overlap_partition(a0.balls(), k.0 as int, k.1 as int);
        }
        let bucket = Bucket {
            color: popped.2,
            count: popped.0,
            low: popped.1.0,
            high: popped.1.1,
            ball_ids: popped.3,
        };
        let ghost bval = bucket;
        buckets.push(bucket);
        round = round + 1;
        proof {
            assert(consume_round(spre, allocators@, bval));
            assert forall|fut2: Seq<Bucket>| #[trigger]
                runs_to(allocators@, (n - round) as nat, fut2) implies runs_to(
                allocs0,
                n,
                buckets@ + fut2,
            ) by {
                let fut1 = seq![bval] + fut2;
                assert(fut1.first() == bval);
                assert(fut1.drop_first() =~= fut2);
                assert(!all_exhausted(spre));
                assert(runs_to(spre, (n - round + 1) as nat, fut1));
                assert(runs_to(allocs0, n, done + fut1));
                assert(done + fut1 =~= buckets@ + fut2);
            }
        }
    }
    proof {
        assert(runs_to(allocators@, (n - round) as nat, Seq::<Bucket>::empty()));
        assert(buckets@ + Seq::<Bucket>::empty() =~= buckets@);
    }
    buckets
}

} // verus!
