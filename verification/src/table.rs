//! An ordered table keyed by offset: entries kept in strictly ascending key
//! order, with the ordered queries the stream needs (first, last, the entry
//! at or below an offset, everything below a bound).

use vstd::prelude::*;

verus! {

pub struct Entry<V> {
    pub key: u64,
    pub value: V,
}

/// Keys strictly ascend, so no key occurs twice.
pub open spec fn ascending<V>(s: Seq<Entry<V>>) -> bool {
    forall|i: int, j: int| 0 <= i < j < s.len() ==> s[i].key < s[j].key
}

/// How many entries of `s` have a key below `bound`.
pub open spec fn rank<V>(s: Seq<Entry<V>>, bound: int) -> nat
    decreases s.len(),
{
    if s.len() == 0 {
        0
    } else {
        rank(s.drop_last(), bound) + if s.last().key < bound {
            1nat
        } else {
            0nat
        }
    }
}

/// `i` parts `s` into the keys below `bound` and the keys at or above it.
pub open spec fn parts_at<V>(s: Seq<Entry<V>>, bound: int, i: int) -> bool {
    &&& 0 <= i <= s.len()
    &&& forall|j: int| 0 <= j < i ==> (#[trigger] s[j]).key < bound
    &&& forall|j: int| i <= j < s.len() ==> (#[trigger] s[j]).key >= bound
}

/// `s` with `e` put in its place by key; an entry that had the same key is
/// replaced.
pub open spec fn with_entry<V>(s: Seq<Entry<V>>, e: Entry<V>) -> Seq<Entry<V>> {
    let r = rank(s, e.key as int) as int;
    let next = if r < s.len() && s[r].key == e.key {
        r + 1
    } else {
        r
    };
    s.subrange(0, r).push(e) + s.subrange(next, s.len() as int)
}

/// The position that parts a table at `bound` is the rank of `bound`.
pub proof fn lemma_rank_is_part<V>(s: Seq<Entry<V>>, bound: int, i: int)
    requires
        parts_at(s, bound, i),
    ensures
        rank(s, bound) == i,
    decreases s.len(),
{
    if s.len() > 0 {
        let t = s.drop_last();
        if i == s.len() {
            assert(s[s.len() - 1].key < bound);
            assert(parts_at(t, bound, i - 1)) by {
                assert forall|j: int| 0 <= j < i - 1 implies (#[trigger] t[j]).key < bound by {
                    assert(t[j] == s[j]);
                }
            }
            lemma_rank_is_part(t, bound, i - 1);
        } else {
            assert(s[s.len() - 1].key >= bound);
            assert(parts_at(t, bound, i)) by {
                assert forall|j: int| 0 <= j < i implies (#[trigger] t[j]).key < bound by {
                    assert(t[j] == s[j]);
                }
                assert forall|j: int| i <= j < t.len() implies (#[trigger] t[j]).key >= bound by {
                    assert(t[j] == s[j]);
                }
            }
            lemma_rank_is_part(t, bound, i);
        }
    }
}

/// In an ascending table the rank of a bound parts the table at that bound.
pub proof fn lemma_rank_parts<V>(s: Seq<Entry<V>>, bound: int)
    requires
        ascending(s),
    ensures
        parts_at(s, bound, rank(s, bound) as int),
    decreases s.len(),
{
    if s.len() > 0 {
        let t = s.drop_last();
        assert(ascending(t)) by {
            assert forall|i: int, j: int| 0 <= i < j < t.len() implies t[i].key < t[j].key by {
                assert(t[i] == s[i] && t[j] == s[j]);
            }
        }
        lemma_rank_parts(t, bound);
        let r = rank(t, bound) as int;
        assert forall|j: int| 0 <= j < r implies (#[trigger] s[j]).key < bound by {
            assert(t[j] == s[j]);
        }
        if s.last().key < bound {
            assert(r == t.len()) by {
                if r < t.len() {
                    assert(t[r].key >= bound);
                    assert(t[r] == s[r]);
                    assert(s[r].key < s[s.len() - 1].key);
                }
            }
        } else {
            assert forall|j: int| r <= j < s.len() implies (#[trigger] s[j]).key >= bound by {
                if j < t.len() {
                    assert(t[j] == s[j]);
                }
            }
        }
    }
}

/// Putting an entry in its place keeps the keys ascending.
pub proof fn lemma_with_entry_ascending<V>(s: Seq<Entry<V>>, e: Entry<V>)
    requires
        ascending(s),
    ensures
        ascending(with_entry(s, e)),
        rank(with_entry(s, e), e.key as int) == rank(s, e.key as int),
        with_entry(s, e)[rank(s, e.key as int) as int] == e,
{
    lemma_rank_parts(s, e.key as int);
    let r = rank(s, e.key as int) as int;
    let n = with_entry(s, e);
    assert(parts_at(n, e.key as int, r));
    lemma_rank_is_part(n, e.key as int, r);
}

/// A table from offsets to values, in ascending order of offset.
pub struct OffsetMap<V> {
    pub entries: Vec<Entry<V>>,
}

impl<V> OffsetMap<V> {
    pub open spec fn view(&self) -> Seq<Entry<V>> {
        self.entries@
    }

    pub open spec fn wf(&self) -> bool {
        ascending(self@)
    }

    pub fn new() -> (table: Self)
        ensures
            table@.len() == 0,
            table.wf(),
    {
        OffsetMap { entries: Vec::new() }
    }

    pub fn len(&self) -> (n: usize)
        ensures
            n == self@.len(),
    {
        self.entries.len()
    }

    pub fn is_empty(&self) -> (empty: bool)
        ensures
            empty == (self@.len() == 0),
    {
        self.entries.len() == 0
    }

    pub fn get(&self, i: usize) -> (entry: &Entry<V>)
        requires
            i < self@.len(),
        ensures
            *entry == self@[i as int],
    {
        &self.entries[i]
    }

    /// The entry with the smallest key.
    pub fn first(&self) -> (entry: Option<&Entry<V>>)
        ensures
            self@.len() == 0 ==> entry.is_none(),
            self@.len() > 0 ==> entry == Some(&self@[0]),
    {
        if self.entries.len() == 0 {
            None
        } else {
            Some(&self.entries[0])
        }
    }

    /// The entry with the greatest key.
    pub fn last(&self) -> (entry: Option<&Entry<V>>)
        ensures
            self@.len() == 0 ==> entry.is_none(),
            self@.len() > 0 ==> entry == Some(&self@[self@.len() - 1]),
    {
        let n: usize = self.entries.len();
        if n == 0 {
            None
        } else {
            Some(&self.entries[n - 1])
        }
    }

    /// The position of the first entry whose key is at or above `bound`.
    pub fn lower_bound(&self, bound: u64) -> (i: usize)
        requires
            self.wf(),
        ensures
            i == rank(self@, bound as int),
            parts_at(self@, bound as int, i as int),
    {
        let mut lo: usize = 0;
        let mut hi: usize = self.entries.len();
        while lo < hi
            invariant
                self.wf(),
                lo <= hi <= self@.len(),
                forall|j: int| 0 <= j < lo ==> (#[trigger] self@[j]).key < bound,
                forall|j: int| hi <= j < self@.len() ==> (#[trigger] self@[j]).key >= bound,
            decreases hi - lo,
        {
            let mid: usize = lo + (hi - lo) / 2;
            if self.entries[mid].key < bound {
                assert forall|j: int| 0 <= j < mid + 1 implies (#[trigger] self@[j]).key
                    < bound by {
                    if j < mid {
                        assert(self@[j].key < self@[mid as int].key);
                    }
                }
                lo = mid + 1;
            } else {
                assert forall|j: int| mid <= j < self@.len() implies (#[trigger] self@[j]).key
                    >= bound by {
                    if mid < j {
                        assert(self@[mid as int].key < self@[j].key);
                    }
                }
                hi = mid;
            }
        }
        proof {
            lemma_rank_is_part(self@, bound as int, lo as int);
        }
        lo
    }

    /// The position of the entry with the greatest key at or below `offset`.
    pub fn floor(&self, offset: u64) -> (at: Option<usize>)
        requires
            self.wf(),
        ensures
            match at {
                Some(i) => i + 1 == rank(self@, offset + 1) && i < self@.len()
                    && self@[i as int].key <= offset && forall|j: int|
                    i < j < self@.len() ==> (#[trigger] self@[j]).key > offset,
                None => rank(self@, offset + 1) == 0 && forall|j: int|
                    0 <= j < self@.len() ==> (#[trigger] self@[j]).key > offset,
            },
    {
        let above: usize = if offset == u64::MAX {
            proof {
                lemma_rank_is_part(self@, offset + 1, self@.len() as int);
            }
            self.entries.len()
        } else {
            self.lower_bound(offset + 1)
        };
        if above == 0 {
            None
        } else {
            Some(above - 1)
        }
    }

    /// Puts `value` under `key`, in place of what was there.
    pub fn insert(&mut self, key: u64, value: V)
        requires
            old(self).wf(),
        ensures
            final(self).wf(),
            final(self)@ == with_entry(old(self)@, (Entry { key, value })),
    {
        let i: usize = self.lower_bound(key);
        let e = Entry { key, value };
        proof {
            lemma_with_entry_ascending(self@, e);
        }
        if i < self.entries.len() && self.entries[i].key == key {
            self.entries.set(i, e);
            assert(self@ =~= with_entry(old(self)@, e));
        } else {
            self.entries.insert(i, e);
            assert(self@ =~= with_entry(old(self)@, e));
        }
    }

    /// Replaces the value at position `i`, leaving its key.
    pub fn set_value(&mut self, i: usize, value: V)
        requires
            old(self).wf(),
            i < old(self)@.len(),
        ensures
            final(self).wf(),
            final(self)@ == old(self)@.update(
                i as int,
                (Entry { key: old(self)@[i as int].key, value }),
            ),
    {
        let key: u64 = self.entries[i].key;
        self.entries.set(i, Entry { key, value });
    }

    /// Takes out every entry whose key is below `bound`, in order.
    pub fn take_below(&mut self, bound: u64) -> (taken: Vec<Entry<V>>)
        requires
            old(self).wf(),
        ensures
            final(self).wf(),
            taken@ == old(self)@.subrange(0, rank(old(self)@, bound as int) as int),
            final(self)@ == old(self)@.subrange(
                rank(old(self)@, bound as int) as int,
                old(self)@.len() as int,
            ),
    {
        let i: usize = self.lower_bound(bound);
        let mut rest: Vec<Entry<V>> = self.entries.split_off(i);
        std::mem::swap(&mut self.entries, &mut rest);
        rest
    }

    /// Takes out every entry, in order.
    pub fn take_all(&mut self) -> (taken: Vec<Entry<V>>)
        ensures
            final(self).wf(),
            taken@ == old(self)@,
            final(self)@.len() == 0,
    {
        let mut all: Vec<Entry<V>> = Vec::new();
        std::mem::swap(&mut self.entries, &mut all);
        all
    }
}

} // verus!
