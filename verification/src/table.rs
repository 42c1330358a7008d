//! A map keyed by peer identifier.

use vstd::prelude::*;

use crate::identity::PeerId;

verus! {

/// Whether some pair of `s` has the key `k`.
pub open spec fn has_key<V>(s: Seq<(PeerId, V)>, k: PeerId) -> bool {
    exists|i: int| 0 <= i < s.len() && (#[trigger] s[i]).0 == k
}

/// A position in `s` at which the key `k` stands, if there is one.
pub open spec fn key_pos<V>(s: Seq<(PeerId, V)>, k: PeerId) -> int {
    choose|i: int| 0 <= i < s.len() && (#[trigger] s[i]).0 == k
}

/// No key stands at two positions of `s`.
pub open spec fn unique_keys<V>(s: Seq<(PeerId, V)>) -> bool {
    forall|i: int, j: int|
        0 <= i < s.len() && 0 <= j < s.len() && i != j ==> (#[trigger] s[i]).0 != (
        #[trigger] s[j]).0
}

/// The map whose bindings are the pairs of `s`.
pub open spec fn pairs_map<V>(s: Seq<(PeerId, V)>) -> Map<PeerId, V> {
    Map::new(|k: PeerId| has_key(s, k), |k: PeerId| s[key_pos(s, k)].1)
}

/// With unique keys, the position of a key is where it stands.
pub proof fn lemma_key_pos<V>(s: Seq<(PeerId, V)>, i: int)
    requires
        unique_keys(s),
        0 <= i < s.len(),
    ensures
        has_key(s, s[i].0),
        key_pos(s, s[i].0) == i,
        pairs_map(s).dom().contains(s[i].0),
        pairs_map(s)[s[i].0] == s[i].1,
{
    let k = s[i].0;
    let j = key_pos(s, k);
    assert(0 <= j < s.len() && s[j].0 == k);
}

/// The map has as many bindings as there are pairs.
pub proof fn lemma_map_len<V>(s: Seq<(PeerId, V)>)
    requires
        unique_keys(s),
    ensures
        pairs_map(s).dom().finite(),
        pairs_map(s).dom().len() == s.len(),
    decreases s.len(),
{
    if s.len() == 0 {
        assert(pairs_map(s).dom() =~= Set::empty());
    } else {
        let t = s.drop_last();
        let k = s.last().0;
        assert forall|i: int, j: int|
            0 <= i < t.len() && 0 <= j < t.len() && i != j implies (#[trigger] t[i]).0 != (
        #[trigger] t[j]).0 by {
            assert(s[i].0 != s[j].0);
        }
        lemma_map_len(t);
        assert(!pairs_map(t).dom().contains(k)) by {
            if has_key(t, k) {
                let i = key_pos(t, k);
                assert(t[i].0 == k && s[i].0 == k && s[s.len() - 1].0 == k);
            }
        }
        assert(pairs_map(s).dom() =~= pairs_map(t).dom().insert(k)) by {
            assert forall|q: PeerId| has_key(s, q) == (has_key(t, q) || q == k) by {
                if has_key(s, q) {
                    let i = key_pos(s, q);
                    assert(s[i].0 == q);
                    if i < t.len() {
                        assert(t[i].0 == q);
                    }
                }
                if has_key(t, q) {
                    let i = key_pos(t, q);
                    assert(t[i].0 == q);
                    assert(s[i].0 == q);
                }
                if q == k {
                    assert(s[s.len() - 1].0 == q);
                }
            }
        }
    }
}

/// Adding a pair with a fresh key adds a binding.
pub proof fn lemma_map_push<V>(s: Seq<(PeerId, V)>, k: PeerId, v: V)
    requires
        unique_keys(s),
        !has_key(s, k),
    ensures
        unique_keys(s.push((k, v))),
        pairs_map(s.push((k, v))) == pairs_map(s).insert(k, v),
{
    let t = s.push((k, v));
    assert forall|i: int, j: int|
        0 <= i < t.len() && 0 <= j < t.len() && i != j implies (#[trigger] t[i]).0 != (
    #[trigger] t[j]).0 by {
        if i < s.len() && j < s.len() {
            assert(s[i].0 != s[j].0);
        } else if i < s.len() {
            assert(s[i].0 != k);
        } else {
            assert(s[j].0 != k);
        }
    }
    assert forall|q: PeerId| has_key(t, q) == (has_key(s, q) || q == k) by {
        if has_key(t, q) {
            let i = key_pos(t, q);
            assert(t[i].0 == q);
            if i < s.len() {
                assert(s[i].0 == q);
            }
        }
        if has_key(s, q) {
            let i = key_pos(s, q);
            assert(s[i].0 == q);
            assert(t[i].0 == q);
        }
        if q == k {
            assert(t[s.len() as int].0 == q);
        }
    }
    assert forall|q: PeerId| has_key(t, q) implies pairs_map(t)[q] == pairs_map(s).insert(
        k,
        v,
    )[q] by {
        let i = key_pos(t, q);
        assert(t[i].0 == q);
        if q == k {
            lemma_key_pos(t, s.len() as int);
        } else {
            assert(i < s.len());
            assert(s[i].0 == q);
            lemma_key_pos(s, i);
        }
    }
    assert(pairs_map(t) =~= pairs_map(s).insert(k, v));
}

/// Replacing the value of a pair rebinds its key.
pub proof fn lemma_map_update<V>(s: Seq<(PeerId, V)>, i: int, v: V)
    requires
        unique_keys(s),
        0 <= i < s.len(),
    ensures
        unique_keys(s.update(i, (s[i].0, v))),
        pairs_map(s.update(i, (s[i].0, v))) == pairs_map(s).insert(s[i].0, v),
{
    let k = s[i].0;
    let t = s.update(i, (k, v));
    assert forall|j: int| 0 <= j < t.len() implies (#[trigger] t[j]).0 == s[j].0 by {}
    assert forall|a: int, b: int|
        0 <= a < t.len() && 0 <= b < t.len() && a != b implies (#[trigger] t[a]).0 != (
    #[trigger] t[b]).0 by {
        assert(s[a].0 != s[b].0);
    }
    lemma_key_pos(s, i);
    assert forall|q: PeerId| has_key(t, q) == has_key(s, q) by {
        if has_key(t, q) {
            let j = key_pos(t, q);
            assert(t[j].0 == q && s[j].0 == q);
        }
        if has_key(s, q) {
            let j = key_pos(s, q);
            assert(s[j].0 == q && t[j].0 == q);
        }
    }
    assert forall|q: PeerId| has_key(t, q) implies pairs_map(t)[q] == pairs_map(s).insert(
        k,
        v,
    )[q] by {
        let j = key_pos(t, q);
        assert(t[j].0 == q && s[j].0 == q);
        lemma_key_pos(s, j);
        lemma_key_pos(t, j);
        if q == k {
            lemma_key_pos(t, i);
        }
    }
    assert(pairs_map(t) =~= pairs_map(s).insert(k, v));
}

/// Dropping a pair drops its binding.
pub proof fn lemma_map_remove<V>(s: Seq<(PeerId, V)>, i: int)
    requires
        unique_keys(s),
        0 <= i < s.len(),
    ensures
        unique_keys(s.remove(i)),
        pairs_map(s.remove(i)) == pairs_map(s).remove(s[i].0),
{
    let k = s[i].0;
    let t = s.remove(i);
    assert forall|a: int| 0 <= a < t.len() implies (#[trigger] t[a]) == s[if a < i {
        a
    } else {
        a + 1
    }] by {}
    assert forall|a: int, b: int|
        0 <= a < t.len() && 0 <= b < t.len() && a != b implies (#[trigger] t[a]).0 != (
    #[trigger] t[b]).0 by {
        let a2 = if a < i { a } else { a + 1 };
        let b2 = if b < i { b } else { b + 1 };
        assert(s[a2].0 != s[b2].0);
    }
    assert forall|q: PeerId| has_key(t, q) == (has_key(s, q) && q != k) by {
        if has_key(t, q) {
            let a = key_pos(t, q);
            assert(t[a].0 == q);
            let a2 = if a < i { a } else { a + 1 };
            assert(s[a2].0 == q);
        }
        if has_key(s, q) && q != k {
            let a = key_pos(s, q);
            assert(s[a].0 == q);
            let a2 = if a < i { a } else { a - 1 };
            assert(t[a2] == s[a]);
        }
    }
    assert forall|q: PeerId| has_key(t, q) implies pairs_map(t)[q] == pairs_map(s).remove(
        k,
    )[q] by {
        let a = key_pos(t, q);
        assert(t[a].0 == q);
        let a2 = if a < i { a } else { a + 1 };
        assert(s[a2].0 == q);
        lemma_key_pos(s, a2);
    }
    assert(pairs_map(t) =~= pairs_map(s).remove(k));
}

/// A map from peer identifiers to values. Each key is bound at most once.
pub struct PeerMap<V> {
    entries: Vec<(PeerId, V)>,
}

impl<V> View for PeerMap<V> {
    type V = Map<PeerId, V>;

    closed spec fn view(&self) -> Map<PeerId, V> {
        pairs_map(self.entries@)
    }
}

impl<V> PeerMap<V> {
    /// The bindings in the order in which they are walked.
    pub closed spec fn pairs(&self) -> Seq<(PeerId, V)> {
        self.entries@
    }

    #[verifier::type_invariant]
    spec fn keys_unique(self) -> bool {
        unique_keys(self.entries@)
    }

    /// The empty map.
    pub fn new() -> (m: Self)
        ensures
            m@ == Map::<PeerId, V>::empty(),
            m.pairs() == Seq::<(PeerId, V)>::empty(),
    {
        let m = PeerMap { entries: Vec::new() };
        assert(m@ =~= Map::<PeerId, V>::empty());
        m
    }

    /// The number of bindings, which is the length of the walk.
    pub fn len(&self) -> (n: usize)
        ensures
            n == self@.dom().len(),
            self@.dom().finite(),
            n == self.pairs().len(),
            unique_keys(self.pairs()),
            self@ == pairs_map(self.pairs()),
    {
        proof {
            use_type_invariant(self);
            lemma_map_len(self.entries@);
        }
        self.entries.len()
    }

    /// Where `k` stands in the walk order.
    pub fn position(&self, k: &PeerId) -> (r: Option<usize>)
        ensures
            r is Some <==> self@.dom().contains(*k),
            r matches Some(i) ==> {
                &&& i < self.pairs().len()
                &&& self.pairs()[i as int].0 == *k
                &&& self.pairs()[i as int].1 == self@[*k]
            },
    {
        proof {
            use_type_invariant(self);
        }
        let mut i: usize = 0;
        while i < self.entries.len()
            invariant
                i <= self.entries@.len(),
                unique_keys(self.entries@),
                forall|j: int| 0 <= j < i ==> (#[trigger] self.entries@[j]).0 != *k,
            decreases self.entries@.len() - i,
        {
            if self.entries[i].0.same(k) {
                proof {
                    lemma_key_pos(self.entries@, i as int);
                }
                return Some(i);
            }
            i = i + 1;
        }
        None
    }

    /// The value bound to `k`.
    pub fn get(&self, k: &PeerId) -> (r: Option<&V>)
        ensures
            r is Some <==> self@.dom().contains(*k),
            r matches Some(v) ==> *v == self@[*k],
    {
        match self.position(k) {
            Some(i) => Some(&self.entries[i].1),
            None => None,
        }
    }

    /// Whether `k` is bound.
    pub fn contains(&self, k: &PeerId) -> (r: bool)
        ensures
            r == self@.dom().contains(*k),
    {
        self.position(k).is_some()
    }

    /// The binding at position `i` of the walk order.
    pub fn at(&self, i: usize) -> (r: (PeerId, &V))
        requires
            i < self.pairs().len(),
        ensures
            r.0 == self.pairs()[i as int].0,
            *r.1 == self.pairs()[i as int].1,
            self@.dom().contains(r.0),
            self@[r.0] == *r.1,
    {
        proof {
            use_type_invariant(self);
            lemma_key_pos(self.entries@, i as int);
        }
        (self.entries[i].0, &self.entries[i].1)
    }

    /// Binds `k` to `v`; returns what it was bound to before.
    pub fn insert(&mut self, k: PeerId, v: V) -> (r: Option<V>)
        ensures
            final(self)@ == old(self)@.insert(k, v),
            r is Some <==> old(self)@.dom().contains(k),
            r matches Some(w) ==> w == old(self)@[k],
    {
        let pos = self.position(&k);
        proof {
            use_type_invariant(&*self);
        }
        let mut entries: Vec<(PeerId, V)> = Vec::new();
        std::mem::swap(&mut entries, &mut self.entries);
        let ghost before = entries@;
        match pos {
            Some(i) => {
                let mut slot = (k, v);
                proof {
                    lemma_map_update(before, i as int, v);
                }
                std::mem::swap(&mut slot, &mut entries[i]);
                assert(entries@ =~= before.update(i as int, (before[i as int].0, v)));
                self.entries = entries;
                Some(slot.1)
            },
            None => {
                proof {
                    lemma_map_push(before, k, v);
                }
                entries.push((k, v));
                self.entries = entries;
                None
            },
        }
    }

    /// Unbinds `k`; returns what it was bound to.
    pub fn remove(&mut self, k: &PeerId) -> (r: Option<V>)
        ensures
            final(self)@ == old(self)@.remove(*k),
            r is Some <==> old(self)@.dom().contains(*k),
            r matches Some(w) ==> w == old(self)@[*k],
    {
        let pos = self.position(k);
        match pos {
            Some(i) => {
                proof {
                    use_type_invariant(&*self);
                }
                let mut entries: Vec<(PeerId, V)> = Vec::new();
                std::mem::swap(&mut entries, &mut self.entries);
                let ghost before = entries@;
                proof {
                    lemma_map_remove(before, i as int);
                }
                let pair = entries.remove(i);
                self.entries = entries;
                Some(pair.1)
            },
            None => {
                assert(self@.remove(*k) =~= self@);
                None
            },
        }
    }
}

} // verus!
