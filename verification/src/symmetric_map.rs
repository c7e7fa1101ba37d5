use vstd::prelude::*;

verus! {

use vstd::map::*;

/// The unordered pair `{i1, i2}`, normalised so that the smaller index
/// comes first. Both orders of the same two indices give the same key.
pub open spec fn key_of_int(i1: int, i2: int) -> (int, int) {
    if i1 <= i2 {
        (i1, i2)
    } else {
        (i2, i1)
    }
}

/// `key_of_int` over the values of two machine indices.
pub open spec fn key_of(i1: usize, i2: usize) -> (int, int) {
    key_of_int(i1 as int, i2 as int)
}

/// Looking up by `(i2, i1)` reaches exactly what was stored under `(i1, i2)`:
/// the two orders of a pair share one key.
pub proof fn lemma_key_symmetric(i1: usize, i2: usize)
    ensures
        key_of(i1, i2) == key_of(i2, i1),
{
}

/// For any map state, a value inserted under the pair `(i1, i2)` is
/// retrieved under the reversed pair `(i2, i1)`.
pub proof fn lemma_insert_get_symmetric<T>(m: Map<(int, int), T>, i1: usize, i2: usize, v: T)
    ensures
        m.insert(key_of(i1, i2), v)[key_of(i2, i1)] == v,
{
    lemma_key_symmetric(i1, i2);
}

spec fn entries_to_map<T>(s: Seq<((usize, usize), T)>) -> Map<(int, int), T>
    decreases s.len(),
{
    if s.len() == 0 {
        Map::empty()
    } else {
        entries_to_map(s.drop_last()).insert(
            (s.last().0.0 as int, s.last().0.1 as int),
            s.last().1,
        )
    }
}

/// An associative store keyed by unordered pairs of indices: entries written
/// via `(i1, i2)` are read back via `(i2, i1)` as well.
pub struct SymmetricMap<T> {
    entries: Vec<((usize, usize), T)>,
}

impl<T> View for SymmetricMap<T> {
    type V = Map<(int, int), T>;

    closed spec fn view(&self) -> Map<(int, int), T> {
        entries_to_map(self.entries@)
    }
}

spec fn entry_keys_normalised<T>(s: Seq<((usize, usize), T)>) -> bool {
    forall|k: int| 0 <= k < s.len() ==> (#[trigger] s[k]).0.0 <= s[k].0.1
}

spec fn entry_keys_distinct<T>(s: Seq<((usize, usize), T)>) -> bool {
    forall|k1: int, k2: int|
        0 <= k1 < s.len() && 0 <= k2 < s.len() && k1 != k2 ==> (#[trigger] s[k1]).0 != (
        #[trigger] s[k2]).0
}

proof fn lemma_lookup_found<T>(s: Seq<((usize, usize), T)>, k: int)
    requires
        entry_keys_distinct(s),
        0 <= k < s.len(),
    ensures
        entries_to_map(s).contains_key((s[k].0.0 as int, s[k].0.1 as int)),
        entries_to_map(s)[(s[k].0.0 as int, s[k].0.1 as int)] == s[k].1,
    decreases s.len(),
{
    if k == s.len() - 1 {
    } else {
        assert(entry_keys_distinct(s.drop_last())) by {
            assert forall|k1: int, k2: int|
                0 <= k1 < s.drop_last().len() && 0 <= k2 < s.drop_last().len() && k1 != k2 implies (
            #[trigger] s.drop_last()[k1]).0 != (#[trigger] s.drop_last()[k2]).0 by {
                assert(s[k1].0 != s[k2].0);
            }
        }
        lemma_lookup_found(s.drop_last(), k);
        assert(s[k].0 != s[s.len() - 1].0);
    }
}

proof fn lemma_lookup_absent<T>(s: Seq<((usize, usize), T)>, key: (int, int))
    requires
        forall|k: int| 0 <= k < s.len() ==> ((#[trigger] s[k]).0.0 as int, s[k].0.1 as int) != key,
    ensures
        !entries_to_map(s).contains_key(key),
    decreases s.len(),
{
    if s.len() > 0 {
        lemma_lookup_absent(s.drop_last(), key);
        assert(s[s.len() - 1].0 == s.last().0);
    }
}

proof fn lemma_update_is_insert<T>(s: Seq<((usize, usize), T)>, k: int, v: T)
    requires
        entry_keys_distinct(s),
        0 <= k < s.len(),
    ensures
        entries_to_map(s.update(k, (s[k].0, v))) == entries_to_map(s).insert(
            (s[k].0.0 as int, s[k].0.1 as int),
            v,
        ),
    decreases s.len(),
{
    let t = s.update(k, (s[k].0, v));
    let key = (s[k].0.0 as int, s[k].0.1 as int);
    if k == s.len() - 1 {
        assert(t.drop_last() =~= s.drop_last());
        assert(entries_to_map(t) =~= entries_to_map(s).insert(key, v));
    } else {
        assert(entry_keys_distinct(s.drop_last())) by {
            assert forall|k1: int, k2: int|
                0 <= k1 < s.drop_last().len() && 0 <= k2 < s.drop_last().len() && k1 != k2 implies (
            #[trigger] s.drop_last()[k1]).0 != (#[trigger] s.drop_last()[k2]).0 by {
                assert(s[k1].0 != s[k2].0);
            }
        }
        lemma_update_is_insert(s.drop_last(), k, v);
        assert(t.drop_last() =~= s.drop_last().update(k, (s[k].0, v)));
        assert(s[k].0 != s[s.len() - 1].0);
        let last_key = (s.last().0.0 as int, s.last().0.1 as int);
        assert(last_key != key);
        assert(t.last() == s.last());
        assert(entries_to_map(t) == entries_to_map(t.drop_last()).insert(last_key, s.last().1));
        assert(entries_to_map(s.drop_last()).insert(key, v).insert(last_key, s.last().1)
            =~= entries_to_map(s.drop_last()).insert(last_key, s.last().1).insert(key, v));
    }
}

impl<T> SymmetricMap<T> {
    /// Every stored key is a normalised pair, stored at most once.
    pub closed spec fn wf(self) -> bool {
        entry_keys_normalised(self.entries@) && entry_keys_distinct(self.entries@)
    }

    pub fn new() -> (r: SymmetricMap<T>)
        ensures
            r.wf(),
            r@ == Map::<(int, int), T>::empty(),
    {
        SymmetricMap { entries: Vec::new() }
    }

    fn order_indices(i1: usize, i2: usize) -> (r: (usize, usize))
        ensures
            (r.0 as int, r.1 as int) == key_of(i1, i2),
            r.0 <= r.1,
    {
        if i1 > i2 {
            (i2, i1)
        } else {
            (i1, i2)
        }
    }

    /// Position of the normalised key in the entry list, if present.
    fn find(&self, a: usize, b: usize) -> (r: Option<usize>)
        requires
            self.wf(),
        ensures
            match r {
                Some(k) => k < self.entries@.len() && self.entries@[k as int].0 == (a, b),
                None => forall|k: int|
                    0 <= k < self.entries@.len() ==> (#[trigger] self.entries@[k]).0 != (a, b),
            },
    {
        let mut k: usize = 0;
        while k < self.entries.len()
            invariant
                k <= self.entries@.len(),
                forall|m: int| 0 <= m < k ==> (#[trigger] self.entries@[m]).0 != (a, b),
            decreases self.entries@.len() - k,
        {
            if self.entries[k].0.0 == a && self.entries[k].0.1 == b {
                return Some(k);
            }
            k = k + 1;
        }
        None
    }

    /// The value stored for the unordered pair `{i1, i2}`. The pair must
    /// have been inserted (in either order).
    pub fn get(&self, i1: usize, i2: usize) -> (r: &T)
        requires
            self.wf(),
            self@.contains_key(key_of(i1, i2)),
        ensures
            *r == self@[key_of(i1, i2)],
    {
        let (a, b) = Self::order_indices(i1, i2);
        let found = self.find(a, b);
        match found {
            Some(k) => {
                proof {
                    lemma_lookup_found(self.entries@, k as int);
                }
                &self.entries[k].1
            },
            None => {
                proof {
                    lemma_lookup_absent(self.entries@, key_of(i1, i2));
                }
                unreached()
            },
        }
    }

    /// Store `value` for the unordered pair `{i1, i2}`, replacing any value
    /// stored for it before, under either order of the two indices.
    pub fn insert(&mut self, i1: usize, i2: usize, value: T)
        requires
            old(self).wf(),
        ensures
            final (self).wf(),
            final (self)@ == old(self)@.insert(key_of(i1, i2), value),
    {
        let (a, b) = Self::order_indices(i1, i2);
        let found = self.find(a, b);
        match found {
            Some(k) => {
                proof {
                    lemma_update_is_insert(self.entries@, k as int, value);
                }
                self.entries.set(k, ((a, b), value));
            },
            None => {
                proof {
                    let ghost s = self.entries@;
                    assert(s.push(((a, b), value)).drop_last() =~= s);
                }
                self.entries.push(((a, b), value));
            },
        }
    }
}

} // verus!
