//! An insertion-order-preserving, uniquely-keyed map: a growable sequence of
//! values plus the keys beside them, append-only.

use vstd::prelude::*;

verus! {

/// Whether some entry carries the key `k`.
pub open spec fn contains_key<X>(m: Seq<(Seq<char>, X)>, k: Seq<char>) -> bool {
    exists|i: int| 0 <= i < m.len() && m[i].0 == k
}

/// The position of the entry carrying `k`, or the length when absent.
pub open spec fn key_ix<X>(m: Seq<(Seq<char>, X)>, k: Seq<char>) -> int
    decreases m.len(),
{
    if m.len() == 0 {
        0
    } else if m[0].0 == k {
        0
    } else {
        1 + key_ix(m.skip(1), k)
    }
}

pub proof fn lemma_key_ix<X>(m: Seq<(Seq<char>, X)>, k: Seq<char>)
    ensures
        0 <= key_ix(m, k) <= m.len(),
        key_ix(m, k) < m.len() ==> m[key_ix(m, k)].0 == k,
        forall|j: int| 0 <= j < key_ix(m, k) ==> m[j].0 != k,
        (key_ix(m, k) < m.len()) == contains_key(m, k),
    decreases m.len(),
{
    if m.len() > 0 && m[0].0 != k {
        lemma_key_ix(m.skip(1), k);
        assert(forall|j: int| 1 <= j < m.len() ==> m[j] == m.skip(1)[j - 1]);
        if contains_key(m, k) {
            let w = choose|i: int| 0 <= i < m.len() && m[i].0 == k;
            assert(m.skip(1)[w - 1].0 == k);
            assert(contains_key(m.skip(1), k));
        }
    }
}

/// A position holding `k` with none before it is where `k` lives.
pub proof fn lemma_key_ix_unique<X>(m: Seq<(Seq<char>, X)>, k: Seq<char>, i: int)
    requires
        0 <= i < m.len(),
        m[i].0 == k,
        forall|j: int| 0 <= j < i ==> m[j].0 != k,
    ensures
        key_ix(m, k) == i,
        contains_key(m, k),
{
    lemma_key_ix(m, k);
}

/// Keys are pairwise distinct.
pub open spec fn keys_distinct<X>(m: Seq<(Seq<char>, X)>) -> bool {
    forall|i: int, j: int| 0 <= i < j < m.len() ==> m[i].0 != m[j].0
}

/// An insertion-ordered map from string keys to values; inserting a present
/// key fails.
#[derive(Debug)]
pub struct SortedMap<V> {
    pub keys: Vec<String>,
    pub entries: Vec<V>,
}

impl<V: View> View for SortedMap<V> {
    type V = Seq<(Seq<char>, V::V)>;

    open spec fn view(&self) -> Seq<(Seq<char>, V::V)> {
        Seq::new(self.keys@.len(), |i: int| (self.keys@[i]@, self.entries@[i]@))
    }
}

impl<V: View> SortedMap<V> {
    /// One value per key, and one key per entry.
    pub open spec fn wf(&self) -> bool {
        &&& self.keys@.len() == self.entries@.len()
        &&& keys_distinct(self@)
    }

    pub fn empty() -> (r: Self)
        ensures
            r@ == Seq::<(Seq<char>, V::V)>::empty(),
            r.wf(),
    {
        let r = SortedMap { keys: Vec::new(), entries: Vec::new() };
        proof {
            assert(r@ =~= Seq::<(Seq<char>, V::V)>::empty());
        }
        r
    }

    pub fn len(&self) -> (r: usize)
        requires
            self.wf(),
        ensures
            r == self@.len(),
    {
        self.keys.len()
    }

    pub fn key_at(&self, i: usize) -> (r: &String)
        requires
            i < self@.len(),
        ensures
            r@ == self@[i as int].0,
    {
        &self.keys[i]
    }

    pub fn value_at(&self, i: usize) -> (r: &V)
        requires
            self.wf(),
            i < self@.len(),
        ensures
            r@ == self@[i as int].1,
            *r == self.entries@[i as int],
    {
        &self.entries[i]
    }

    /// The position of `key`, if present.
    fn position(&self, key: &String) -> (r: Option<usize>)
        requires
            self.wf(),
        ensures
            match r {
                Some(i) => {
                    &&& contains_key(self@, key@)
                    &&& i == key_ix(self@, key@)
                    &&& i < self@.len()
                    &&& self@[i as int].0 == key@
                },
                None => !contains_key(self@, key@),
            },
    {
        let n = self.keys.len();
        let mut i: usize = 0;
        while i < n
            invariant
                i <= n,
                n == self@.len(),
                self.wf(),
                forall|j: int| 0 <= j < i ==> self@[j].0 != key@,
            decreases n - i,
        {
            if key.eq(&self.keys[i]) {
                proof {
                    lemma_key_ix(self@, key@);
                    assert(self@[i as int].0 == key@);
                }
                return Some(i);
            }
            assert(self@[i as int].0 != key@);
            i = i + 1;
        }
        proof {
            lemma_key_ix(self@, key@);
        }
        None
    }

    /// Appends a new entry; a present key is refused, naming the position of
    /// the entry that holds it.
    pub fn insert(&mut self, key: String, val: V) -> (r: Result<(), usize>)
        requires
            old(self).wf(),
        ensures
            final(self).wf(),
            match r {
                Ok(()) => {
                    &&& !contains_key(old(self)@, key@)
                    &&& final(self)@ == old(self)@.push((key@, val@))
                    &&& final(self).keys@ == old(self).keys@.push(key)
                    &&& final(self).entries@ == old(self).entries@.push(val)
                },
                Err(i) => {
                    &&& contains_key(old(self)@, key@)
                    &&& i == key_ix(old(self)@, key@)
                    &&& *final(self) == *old(self)
                },
            },
    {
        match self.position(&key) {
            Some(i) => Err(i),
            None => {
                self.keys.push(key);
                self.entries.push(val);
                proof {
                    assert(final(self)@ =~= old(self)@.push((key@, val@)));
                    assert forall|i: int, j: int|
                        0 <= i < j < final(self)@.len() implies final(self)@[i].0
                        != final(self)@[j].0 by {
                        if j < final(self)@.len() - 1 {
                            assert(old(self)@[i].0 != old(self)@[j].0);
                        } else {
                            assert(final(self)@[i].0 == old(self)@[i].0);
                        }
                    }
                }
                Ok(())
            },
        }
    }

    /// The value under `key`, if present.
    pub fn get(&self, index: &String) -> (r: Option<&V>)
        requires
            self.wf(),
        ensures
            match r {
                Some(v) => {
                    &&& contains_key(self@, index@)
                    &&& v@ == self@[key_ix(self@, index@)].1
                    &&& *v == self.entries@[key_ix(self@, index@)]
                },
                None => !contains_key(self@, index@),
            },
    {
        match self.position(index) {
            Some(i) => Some(&self.entries[i]),
            None => None,
        }
    }

    /// The value under `key`, putting `fallback` there first when the key is
    /// absent. The caller lifts the component facts to the view with
    /// [`lemma_updated_view`] or [`lemma_pushed_view`] once the borrow ends.
    pub fn get_or_insert_default(&mut self, key: String, fallback: V) -> (r: &mut V)
        requires
            old(self).wf(),
        ensures
            contains_key(old(self)@, key@) ==> {
                let ix = key_ix(old(self)@, key@);
                &&& *r == old(self).entries@[ix]
                &&& final(self).keys@ == old(self).keys@
                &&& final(self).entries@ == old(self).entries@.update(ix, *final(r))
            },
            !contains_key(old(self)@, key@) ==> {
                &&& *r == fallback
                &&& final(self).keys@ == old(self).keys@.push(key)
                &&& final(self).entries@ == old(self).entries@.push(fallback).update(
                    old(self).entries@.len() as int,
                    *final(r),
                )
            },
    {
        proof {
            lemma_key_ix(old(self)@, key@);
        }
        let pos = self.position(&key);
        match pos {
            Some(i) => &mut self.entries[i],
            None => {
                self.keys.push(key);
                self.entries.push(fallback);
                let last = self.entries.len() - 1;
                &mut self.entries[last]
            },
        }
    }

    /// The values in insertion order.
    pub fn values(&self) -> (r: &Vec<V>)
        requires
            self.wf(),
        ensures
            r@.len() == self@.len(),
            forall|i: int| 0 <= i < self@.len() ==> (#[trigger] r@[i])@ == self@[i].1,
    {
        &self.entries
    }

    /// The entries in insertion order.
    pub fn iter(&self) -> (r: Vec<(&String, &V)>)
        requires
            self.wf(),
        ensures
            r@.len() == self@.len(),
            forall|i: int| 0 <= i < self@.len() ==> (#[trigger] r@[i]).0@ == self@[i].0,
            forall|i: int| 0 <= i < self@.len() ==> (#[trigger] r@[i]).1@ == self@[i].1,
    {
        let n = self.keys.len();
        let mut out: Vec<(&String, &V)> = Vec::new();
        let mut i: usize = 0;
        while i < n
            invariant
                i <= n,
                n == self@.len(),
                self.wf(),
                out@.len() == i,
                forall|j: int| 0 <= j < i ==> (#[trigger] out@[j]).0@ == self@[j].0,
                forall|j: int| 0 <= j < i ==> (#[trigger] out@[j]).1@ == self@[j].1,
            decreases n - i,
        {
            out.push((&self.keys[i], &self.entries[i]));
            i = i + 1;
        }
        out
    }
}

/// A map whose entry at `i` was replaced in place shows the update in its
/// view and keeps its keys.
pub proof fn lemma_updated_view<V: View>(pre: SortedMap<V>, post: SortedMap<V>, i: int, v: V)
    requires
        pre.wf(),
        0 <= i < pre@.len(),
        post.keys@ == pre.keys@,
        post.entries@ == pre.entries@.update(i, v),
    ensures
        post@ == pre@.update(i, (pre@[i].0, v@)),
        post.wf(),
{
    assert(post@ =~= pre@.update(i, (pre@[i].0, v@)));
}

/// A map extended at the end with a fresh key shows the push in its view and
/// keeps its entries unique.
pub proof fn lemma_pushed_view<V: View>(pre: SortedMap<V>, post: SortedMap<V>, kview: Seq<char>, v: V)
    requires
        pre.wf(),
        !contains_key(pre@, kview),
        post.keys@.len() == pre.keys@.len() + 1,
        forall|i: int| 0 <= i < pre.keys@.len() ==> post.keys@[i] == pre.keys@[i],
        post.keys@.last()@ == kview,
        post.entries@.len() == pre.entries@.len() + 1,
        forall|i: int| 0 <= i < pre.entries@.len() ==> post.entries@[i] == pre.entries@[i],
        post.entries@.last() == v,
    ensures
        post@ == pre@.push((kview, v@)),
        post.wf(),
{
    assert(post@ =~= pre@.push((kview, v@)));
    assert forall|i: int, j: int| 0 <= i < j < post@.len() implies post@[i].0 != post@[j].0 by {
        if j < post@.len() - 1 {
            assert(pre@[i].0 != pre@[j].0);
        } else {
            assert(post@[i].0 == pre@[i].0);
            assert(post@[j].0 == kview);
        }
    }
}

impl<V: View> Default for SortedMap<V> {
    /// The empty map.
    fn default() -> (r: Self)
        ensures
            r@ == Seq::<(Seq<char>, V::V)>::empty(),
            r.wf(),
    {
        SortedMap::empty()
    }
}

} // verus!
