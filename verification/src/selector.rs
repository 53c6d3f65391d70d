//! A reprioritizable max-selector over `(low, high)` sub-range keys with
//! integer priorities, and the count table that mirrors those priorities.
//!
//! The selector supports push, pop-max, peek-max and in-place reprioritization
//! of an existing key; ties on priority are broken deterministically in favor
//! of the earliest pushed entry.

use vstd::prelude::*;

verus! {

/// The `(low, high)` boundaries of a sub-range, used as a key.
pub type RangeKey = (i64, i64);

/// Some entry of `s` carries the key `k`.
pub open spec fn contains_key(s: Seq<(RangeKey, i32)>, k: RangeKey) -> bool {
    exists|i: int| 0 <= i < s.len() && s[i].0 == k
}

/// No two entries of `s` carry the same key.
pub open spec fn keys_unique(s: Seq<(RangeKey, i32)>) -> bool {
    forall|i: int, j: int| 0 <= i < j < s.len() ==> s[i].0 != s[j].0
}

/// The index of the entry that a pop or peek selects: the first entry whose
/// priority is strictly greater than every priority before it and at least
/// every priority after it.
pub open spec fn max_prio_index(s: Seq<(RangeKey, i32)>) -> int
    decreases s.len(),
{
    if s.len() <= 1 {
        0
    } else {
        let j = max_prio_index(s.drop_last());
        if s.last().1 > s[j].1 {
            s.len() - 1
        } else {
            j
        }
    }
}

/// The selected index is in range, carries a maximal priority, and is the
/// earliest entry carrying it.
pub proof fn lemma_max_prio_index(s: Seq<(RangeKey, i32)>)
    requires
        s.len() > 0,
    ensures
        0 <= max_prio_index(s) < s.len(),
        forall|i: int| 0 <= i < s.len() ==> #[trigger] s[i].1 <= s[max_prio_index(s)].1,
        forall|i: int| 0 <= i < max_prio_index(s) ==> #[trigger] s[i].1 < s[max_prio_index(s)].1,
    decreases s.len(),
{
    if s.len() > 1 {
        let init = s.drop_last();
        lemma_max_prio_index(init);
        assert(forall|i: int| 0 <= i < init.len() ==> init[i] == #[trigger] s[i]);
        let j = max_prio_index(init);
        if s.last().1 > s[j].1 {
            assert(forall|i: int|
                0 <= i < s.len() - 1 ==> #[trigger] s[i].1 <= s[j].1 < s.last().1);
        }
    }
}

/// A priority structure over sub-range keys and integer overlap counts,
/// supporting pop-max, peek-max and decrease-key on a present key.
pub struct MaxSelector {
    pub entries: Vec<(RangeKey, i32)>,
}

impl MaxSelector {
    /// A new, empty selector.
    pub fn new() -> (r: Self)
        ensures
            r.entries@ == Seq::<(RangeKey, i32)>::empty(),
    {
        MaxSelector { entries: Vec::new() }
    }

    /// The number of keys held.
    pub fn len(&self) -> (r: usize)
        ensures
            r == self.entries@.len(),
    {
        self.entries.len()
    }

    /// True iff no key is held.
    pub fn is_empty(&self) -> (r: bool)
        ensures
            r == (self.entries@.len() == 0),
    {
        self.entries.len() == 0
    }

    /// Adds a key that is not yet present, with its initial priority.
    pub fn push(&mut self, key: RangeKey, priority: i32)
        requires
            !contains_key(old(self).entries@, key),
        ensures
            final(self).entries@ == old(self).entries@.push((key, priority)),
    {
        self.entries.push((key, priority));
    }

    /// The index of the entry that `pop_max` would remove.
    fn max_index(&self) -> (r: usize)
        requires
            self.entries@.len() > 0,
        ensures
            r == max_prio_index(self.entries@),
    {
        let n = self.entries.len();
        let mut best: usize = 0;
        let mut i: usize = 1;
        while i < n
            invariant
                n == self.entries@.len(),
                1 <= i <= n,
                0 <= best < i,
                best == max_prio_index(self.entries@.take(i as int)),
            decreases n - i,
        {
            proof {
                assert(self.entries@.take(i as int + 1).drop_last() =~= self.entries@.take(
                    i as int,
                ));
                lemma_max_prio_index(self.entries@.take(i as int));
            }
            if self.entries[i].1 > self.entries[best].1 {
                best = i;
            }
            i = i + 1;
        }
        proof {
            assert(self.entries@.take(n as int) =~= self.entries@);
        }
        best
    }

    /// Removes and returns the single highest-priority entry; on ties the
    /// earliest pushed entry wins. Popping from an empty selector is a
    /// programming error, excluded by the precondition.
    pub fn pop_max(&mut self) -> (r: (RangeKey, i32))
        requires
            old(self).entries@.len() > 0,
        ensures
            r == old(self).entries@[max_prio_index(old(self).entries@)],
            final(self).entries@ == old(self).entries@.remove(
                max_prio_index(old(self).entries@),
            ),
            forall|i: int| 0 <= i < old(self).entries@.len() ==> #[trigger] old(self).entries@[i].1 <= r.1,
    {
        proof {
            lemma_max_prio_index(self.entries@);
        }
        let best = self.max_index();
        let e = self.entries[best];
        self.entries.remove(best);
        e
    }

    /// Non-destructively returns the entry that `pop_max` would remove, or
    /// `None` when the selector is empty.
    pub fn peek_max(&self) -> (r: Option<(RangeKey, i32)>)
        ensures
            r == if self.entries@.len() == 0 {
                Option::<(RangeKey, i32)>::None
            } else {
                Option::Some(self.entries@[max_prio_index(self.entries@)])
            },
    {
        if self.entries.len() == 0 {
            None
        } else {
            let best = self.max_index();
            proof {
                lemma_max_prio_index(self.entries@);
            }
            Some(self.entries[best])
        }
    }

    /// Updates in place the priority of a key known to be present; every
    /// other entry, and the order of entries, is untouched. Calling it with
    /// an absent key is a programming error, excluded by the precondition.
    pub fn reprioritize(&mut self, key: RangeKey, new_priority: i32)
        requires
            contains_key(old(self).entries@, key),
        ensures
            final(self).entries@.len() == old(self).entries@.len(),
            forall|j: int|
                0 <= j < old(self).entries@.len() ==> final(self).entries@[j] == (if old(
                    self,
                ).entries@[j].0 == key {
                    (key, new_priority)
                } else {
                    old(self).entries@[j]
                }),
    {
        let n = self.entries.len();
        let mut i: usize = 0;
        while i < n
            invariant
                n == self.entries@.len(),
                n == old(self).entries@.len(),
                i <= n,
                contains_key(old(self).entries@, key),
                forall|j: int|
                    0 <= j < n ==> self.entries@[j] == (if j < i && old(
                        self,
                    ).entries@[j].0 == key {
                        (key, new_priority)
                    } else {
                        old(self).entries@[j]
                    }),
            decreases n - i,
        {
            if self.entries[i].0.0 == key.0 && self.entries[i].0.1 == key.1 {
                self.entries[i] = (key, new_priority);
            }
            i = i + 1;
        }
    }
}

/// The live overlap count of every sub-range, keyed like the selector.
pub struct CountTable {
    pub entries: Vec<(RangeKey, i32)>,
}

impl CountTable {
    /// A new, empty table.
    pub fn new() -> (r: Self)
        ensures
            r.entries@ == Seq::<(RangeKey, i32)>::empty(),
    {
        CountTable { entries: Vec::new() }
    }

    /// The value stored under a key known to be present. With unique keys
    /// the returned value is the one stored at that key's entry.
    pub fn get(&self, key: RangeKey) -> (r: i32)
        requires
            contains_key(self.entries@, key),
        ensures
            exists|j: int|
                0 <= j < self.entries@.len() && self.entries@[j].0 == key && self.entries@[j].1
                    == r,
    {
        let n = self.entries.len();
        let mut i: usize = 0;
        while i < n
            invariant
                n == self.entries@.len(),
                i <= n,
                contains_key(self.entries@, key),
                forall|j: int| 0 <= j < i ==> self.entries@[j].0 != key,
            decreases n - i,
        {
            if self.entries[i].0.0 == key.0 && self.entries[i].0.1 == key.1 {
                return self.entries[i].1;
            }
            i = i + 1;
        }
        proof {
            assert(false);
        }
        0
    }

    /// Stores a value under a key: updates the key's entries in place when
    /// the key is present, appends a fresh entry otherwise.
    pub fn set(&mut self, key: RangeKey, value: i32)
        ensures
            if contains_key(old(self).entries@, key) {
                final(self).entries@.len() == old(self).entries@.len() && (forall|j: int|
                    0 <= j < old(self).entries@.len() ==> final(self).entries@[j] == (if old(
                        self,
                    ).entries@[j].0 == key {
                        (key, value)
                    } else {
                        old(self).entries@[j]
                    }))
            } else {
                final(self).entries@ == old(self).entries@.push((key, value))
            },
    {
        let n = self.entries.len();
        let mut found = false;
        let mut i: usize = 0;
        while i < n
            invariant
                n == self.entries@.len(),
                n == old(self).entries@.len(),
                i <= n,
                found == contains_key(old(self).entries@.take(i as int), key),
                forall|j: int|
                    0 <= j < n ==> self.entries@[j] == (if j < i && old(
                        self,
                    ).entries@[j].0 == key {
                        (key, value)
                    } else {
                        old(self).entries@[j]
                    }),
            decreases n - i,
        {
            if self.entries[i].0.0 == key.0 && self.entries[i].0.1 == key.1 {
                self.entries[i] = (key, value);
                found = true;
                proof {
                    assert(old(self).entries@.take(i as int + 1)[i as int].0 == key);
                }
            }
            i = i + 1;
            proof {
                if contains_key(old(self).entries@.take(i as int), key) && !found {
                    let w = choose|w: int|
                        0 <= w < i && old(self).entries@.take(i as int)[w].0 == key;
                    assert(old(self).entries@.take(i as int - 1)[w] == old(self).entries@.take(
                        i as int,
                    )[w]);
                    assert(false);
                }
            }
        }
        proof {
            assert(old(self).entries@.take(n as int) =~= old(self).entries@);
        }
        if !found {
            self.entries.push((key, value));
        }
    }
}

} // verus!
