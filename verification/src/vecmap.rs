//! An ordered map from `u64` keys to values, backed by a vector of entries
//! with pairwise-distinct keys. Insertion order is preserved, which gives the
//! runtime a deterministic iteration order over node and channel tables.

use vstd::prelude::*;

verus! {

/// The finite map denoted by an entry sequence (later entries win, though
/// under `distinct_keys` every key occurs at most once).
pub open spec fn entries_map<V>(s: Seq<(u64, V)>) -> Map<u64, V>
    decreases s.len(),
{
    if s.len() == 0 {
        Map::empty()
    } else {
        entries_map(s.drop_last()).insert(s.last().0, s.last().1)
    }
}

/// The keys of an entry sequence, in order.
pub open spec fn entry_keys<V>(s: Seq<(u64, V)>) -> Seq<u64> {
    s.map_values(|e: (u64, V)| e.0)
}

/// No key occurs twice.
pub open spec fn distinct_keys<V>(s: Seq<(u64, V)>) -> bool {
    forall|i: int, j: int| 0 <= i < j < s.len() ==> s[i].0 != s[j].0
}

/// The index at which key `k` sits.
pub open spec fn key_index<V>(s: Seq<(u64, V)>, k: u64) -> int {
    choose|i: int| 0 <= i < s.len() && s[i].0 == k
}

pub proof fn lemma_entries_map_dom<V>(s: Seq<(u64, V)>)
    ensures
        forall|k: u64| entries_map(s).dom().contains(k)
            <==> exists|i: int| 0 <= i < s.len() && (#[trigger] s[i]).0 == k,
    decreases s.len(),
{
    if s.len() > 0 {
        lemma_entries_map_dom(s.drop_last());
        assert forall|k: u64| entries_map(s).dom().contains(k)
            implies exists|i: int| 0 <= i < s.len() && (#[trigger] s[i]).0 == k by {
            if k == s.last().0 {
                assert((s[s.len() - 1]).0 == k);
            } else {
                assert(entries_map(s) == entries_map(s.drop_last()).insert(s.last().0, s.last().1));
                assert(entries_map(s.drop_last()).dom().contains(k));
                let i = choose|i: int| 0 <= i < s.drop_last().len() && (#[trigger] s.drop_last()[i]).0 == k;
                assert(s.drop_last()[i] == s[i]);
                assert((s[i]).0 == k);
            }
        }
        assert forall|k: u64| (exists|i: int| 0 <= i < s.len() && (#[trigger] s[i]).0 == k)
            implies entries_map(s).dom().contains(k) by {
            let i = choose|i: int| 0 <= i < s.len() && (#[trigger] s[i]).0 == k;
            if i == s.len() - 1 {
                assert(entries_map(s).dom().contains(k));
            } else {
                assert(s.drop_last()[i] == s[i]);
                assert((s.drop_last()[i]).0 == k);
                assert(entries_map(s.drop_last()).dom().contains(k));
            }
        }
    }
}

pub proof fn lemma_entries_map_index<V>(s: Seq<(u64, V)>, i: int)
    requires
        distinct_keys(s),
        0 <= i < s.len(),
    ensures
        entries_map(s).dom().contains(s[i].0),
        entries_map(s)[s[i].0] == s[i].1,
    decreases s.len(),
{
    if i == s.len() - 1 {
    } else {
        lemma_entries_map_index(s.drop_last(), i);
        assert(s.drop_last()[i] == s[i]);
        assert(s[i].0 != s.last().0);
    }
}

pub proof fn lemma_entries_map_push<V>(s: Seq<(u64, V)>, k: u64, v: V)
    ensures
        entries_map(s.push((k, v))) == entries_map(s).insert(k, v),
{
    assert(s.push((k, v)).drop_last() =~= s);
    assert(s.push((k, v)).last() == (k, v));
}

pub proof fn lemma_entries_map_update<V>(s: Seq<(u64, V)>, i: int, v: V)
    requires
        distinct_keys(s),
        0 <= i < s.len(),
    ensures
        entries_map(s.update(i, (s[i].0, v))) == entries_map(s).insert(s[i].0, v),
    decreases s.len(),
{
    let k = s[i].0;
    let t = s.update(i, (k, v));
    if i == s.len() - 1 {
        assert(t.drop_last() =~= s.drop_last());
        assert(t.last() == (k, v));
        assert(entries_map(t) == entries_map(s.drop_last()).insert(k, v));
        assert(entries_map(s.drop_last()).insert(k, s[i].1).insert(k, v)
            =~= entries_map(s.drop_last()).insert(k, v));
    } else {
        assert(t.drop_last() =~= s.drop_last().update(i, (k, v)));
        assert(s.drop_last()[i] == s[i]);
        lemma_entries_map_update(s.drop_last(), i, v);
        assert(t.last() == s.last());
        assert(k != s.last().0);
        assert(entries_map(s.drop_last()).insert(k, v).insert(s.last().0, s.last().1)
            =~= entries_map(s.drop_last()).insert(s.last().0, s.last().1).insert(k, v));
    }
}

pub proof fn lemma_entries_map_remove<V>(s: Seq<(u64, V)>, i: int)
    requires
        distinct_keys(s),
        0 <= i < s.len(),
    ensures
        entries_map(s.remove(i)) == entries_map(s).remove(s[i].0),
    decreases s.len(),
{
    let k = s[i].0;
    let t = s.remove(i);
    if i == s.len() - 1 {
        assert(t =~= s.drop_last());
        lemma_entries_map_dom(s.drop_last());
        assert(forall|j: int| 0 <= j < s.drop_last().len() ==> s.drop_last()[j] == s[j]);
        assert(!entries_map(s.drop_last()).dom().contains(k));
        assert(entries_map(s.drop_last()).insert(k, s[i].1).remove(k)
            =~= entries_map(s.drop_last()));
    } else {
        assert(t.len() == s.len() - 1);
        assert(t.drop_last() =~= s.drop_last().remove(i));
        assert(s.drop_last()[i] == s[i]);
        lemma_entries_map_remove(s.drop_last(), i);
        assert(t.last() == s.last());
        assert(k != s.last().0);
        assert(entries_map(s.drop_last()).remove(k).insert(s.last().0, s.last().1)
            =~= entries_map(s.drop_last()).insert(s.last().0, s.last().1).remove(k));
        assert(entries_map(t) == entries_map(t.drop_last()).insert(t.last().0, t.last().1));
    }
}

/// An ordered `u64`-keyed map with pairwise-distinct keys.
pub struct VecMap<V> {
    pub entries: Vec<(u64, V)>,
}

impl<V> View for VecMap<V> {
    type V = Map<u64, V>;

    open spec fn view(&self) -> Map<u64, V> {
        entries_map(self.entries@)
    }
}

impl<V> VecMap<V> {
    /// Keys in insertion order.
    pub open spec fn kseq(&self) -> Seq<u64> {
        entry_keys(self.entries@)
    }

    /// Well-formed: no key occurs twice.
    pub open spec fn wf(&self) -> bool {
        distinct_keys(self.entries@)
    }

    pub fn new() -> (r: Self)
        ensures
            r@ == Map::<u64, V>::empty(),
            r.wf(),
            r.entries@ == Seq::<(u64, V)>::empty(),
    {
        let r = VecMap { entries: Vec::new() };
        proof {
            assert(r.entries@ =~= Seq::<(u64, V)>::empty());
        }
        r
    }

    pub fn len(&self) -> (r: usize)
        ensures
            r == self.entries@.len(),
    {
        self.entries.len()
    }

    fn find_index(&self, k: u64) -> (r: Option<usize>)
        ensures
            match r {
                Some(i) => i < self.entries@.len() && self.entries@[i as int].0 == k,
                None => !self@.dom().contains(k),
            },
    {
        let mut i: usize = 0;
        while i < self.entries.len()
            invariant
                i <= self.entries@.len(),
                forall|j: int| 0 <= j < i ==> self.entries@[j].0 != k,
            decreases self.entries@.len() - i,
        {
            if self.entries[i].0 == k {
                return Some(i);
            }
            i = i + 1;
        }
        proof {
            lemma_entries_map_dom(self.entries@);
        }
        None
    }

    pub fn contains_key(&self, k: u64) -> (r: bool)
        ensures
            r == self@.dom().contains(k),
    {
        proof {
            lemma_entries_map_dom(self.entries@);
        }
        match self.find_index(k) {
            Some(_) => true,
            None => false,
        }
    }

    pub fn get(&self, k: u64) -> (r: Option<&V>)
        requires
            self.wf(),
        ensures
            match r {
                Some(v) => self@.dom().contains(k) && *v == self@[k],
                None => !self@.dom().contains(k),
            },
    {
        match self.find_index(k) {
            Some(i) => {
                proof {
                    lemma_entries_map_index(self.entries@, i as int);
                }
                Some(&self.entries[i].1)
            },
            None => None,
        }
    }

    /// Insert a key that is not yet present; the entry is appended at the end.
    pub fn insert_new(&mut self, k: u64, v: V)
        requires
            old(self).wf(),
            !old(self)@.dom().contains(k),
        ensures
            final(self).wf(),
            final(self)@ == old(self)@.insert(k, v),
            final(self).entries@ == old(self).entries@.push((k, v)),
    {
        proof {
            lemma_entries_map_dom(self.entries@);
            lemma_entries_map_push(self.entries@, k, v);
        }
        self.entries.push((k, v));
    }

    /// Replace the value of a key that is present, keeping its position.
    pub fn replace(&mut self, k: u64, v: V) -> (r: V)
        requires
            old(self).wf(),
            old(self)@.dom().contains(k),
        ensures
            final(self).wf(),
            final(self)@ == old(self)@.insert(k, v),
            r == old(self)@[k],
            final(self).entries@ == old(self).entries@.update(
                key_index(old(self).entries@, k),
                (k, v),
            ),
    {
        proof {
            lemma_entries_map_dom(self.entries@);
        }
        let i = match self.find_index(k) {
            Some(i) => i,
            None => {
                proof {
                    assert(false);
                }
                0
            },
        };
        let ghost s0 = self.entries@;
        let e = self.entries.remove(i);
        self.entries.insert(i, (k, v));
        proof {
            let ki = key_index(s0, k);
            assert(0 <= ki < s0.len() && s0[ki].0 == k);
            assert(ki == i as int);
            assert(self.entries@ =~= s0.update(i as int, (k, v)));
            lemma_entries_map_update(s0, i as int, v);
            lemma_entries_map_index(s0, i as int);
        }
        e.1
    }

    /// Remove a key if present; later entries keep their order.
    pub fn remove(&mut self, k: u64) -> (r: Option<V>)
        requires
            old(self).wf(),
        ensures
            final(self).wf(),
            final(self)@ == old(self)@.remove(k),
            match r {
                Some(v) => old(self)@.dom().contains(k) && v == old(self)@[k]
                    && final(self).entries@ == old(self).entries@.remove(
                        key_index(old(self).entries@, k),
                    ),
                None => !old(self)@.dom().contains(k) && *final(self) == *old(self),
            },
    {
        match self.find_index(k) {
            Some(i) => {
                let ghost s0 = self.entries@;
                let e = self.entries.remove(i);
                proof {
                    let ki = key_index(s0, k);
                    assert(0 <= ki < s0.len() && s0[ki].0 == k);
                    assert(ki == i as int);
                    lemma_entries_map_remove(s0, i as int);
                    lemma_entries_map_index(s0, i as int);
                }
                Some(e.1)
            },
            None => {
                proof {
                    assert(self@.remove(k) =~= self@);
                }
                None
            },
        }
    }

    /// The key stored at position `i`.
    pub fn key_at(&self, i: usize) -> (r: u64)
        requires
            i < self.entries@.len(),
        ensures
            r == self.entries@[i as int].0,
            self@.dom().contains(r),
    {
        proof {
            lemma_entries_map_dom(self.entries@);
        }
        self.entries[i].0
    }

    /// The keys in order, as a vector.
    pub fn keys(&self) -> (r: Vec<u64>)
        ensures
            r@ == self.kseq(),
            forall|j: int| 0 <= j < r@.len() ==> self@.dom().contains(#[trigger] r@[j]),
    {
        proof {
            lemma_entries_map_dom(self.entries@);
        }
        let mut out: Vec<u64> = Vec::new();
        let mut i: usize = 0;
        while i < self.entries.len()
            invariant
                i <= self.entries@.len(),
                out@.len() == i,
                forall|j: int| 0 <= j < i ==> out@[j] == self.entries@[j].0,
            decreases self.entries@.len() - i,
        {
            out.push(self.entries[i].0);
            i = i + 1;
        }
        proof {
            assert(out@ =~= self.kseq());
        }
        out
    }
}

} // verus!
