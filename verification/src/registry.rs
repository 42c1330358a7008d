//! The key registry: which static public key belongs to which peer.

use vstd::prelude::*;

use crate::identity::PeerId;
use crate::table::PeerMap;

verus! {

/// The peers of `s` other than `p`, in order.
pub open spec fn without_peer(s: Seq<PeerId>, p: PeerId) -> Seq<PeerId> {
    s.filter(|q: PeerId| q != p)
}

/// What a key registry holds: the known keys, the peers whose key was learned by gossip alone
/// (oldest first), and the bound on the number of keys.
#[verifier::ext_equal]
pub struct RegistryModel {
    pub keys: Map<PeerId, [u8; 32]>,
    pub gossip: Seq<PeerId>,
    pub max_size: Option<usize>,
}

impl RegistryModel {
    /// Only finitely many keys; gossip tracking lists known peers, each once.
    pub open spec fn valid(self) -> bool {
        &&& self.keys.dom().finite()
        &&& self.gossip.no_duplicates()
        &&& forall|i: int|
            0 <= i < self.gossip.len() ==> self.keys.dom().contains(#[trigger] self.gossip[i])
    }

    /// Whether the registry has a bound and has reached it.
    pub open spec fn full(self) -> bool {
        self.max_size is Some && self.keys.dom().len() >= self.max_size->0
    }

    /// Whether the key of `p` was confirmed by a handshake.
    pub open spec fn direct(self, p: PeerId) -> bool {
        self.keys.dom().contains(p) && !self.gossip.contains(p)
    }

    /// After a handshake has shown that `p` holds `key`.
    pub open spec fn after_direct(self, p: PeerId, key: [u8; 32]) -> RegistryModel {
        RegistryModel {
            keys: self.keys.insert(p, key),
            gossip: without_peer(self.gossip, p),
            max_size: self.max_size,
        }
    }

    /// After `p` was forgotten.
    pub open spec fn after_remove(self, p: PeerId) -> RegistryModel {
        RegistryModel {
            keys: self.keys.remove(p),
            gossip: without_peer(self.gossip, p),
            max_size: self.max_size,
        }
    }

    /// After gossip has claimed that `p` holds `key`. A known peer keeps its key and its standing.
    /// A new one takes the place of the oldest gossip-learned key when the registry is full, and
    /// is dropped when there is none to take the place of.
    pub open spec fn after_gossip(self, p: PeerId, key: [u8; 32]) -> RegistryModel {
        if self.keys.dom().contains(p) {
            self
        } else if !self.full() {
            RegistryModel {
                keys: self.keys.insert(p, key),
                gossip: self.gossip.push(p),
                max_size: self.max_size,
            }
        } else if self.gossip.len() == 0 {
            self
        } else {
            RegistryModel {
                keys: self.keys.remove(self.gossip[0]).insert(p, key),
                gossip: self.gossip.skip(1).push(p),
                max_size: self.max_size,
            }
        }
    }
}

/// Filtering out one peer keeps the rest, and keeps the list free of repetitions.
pub proof fn lemma_without(s: Seq<PeerId>, p: PeerId)
    ensures
        forall|q: PeerId| #[trigger]
            without_peer(s, p).contains(q) <==> s.contains(q) && q != p,
        s.no_duplicates() ==> without_peer(s, p).no_duplicates(),
    decreases s.len(),
{
    reveal(Seq::filter);
    if s.len() > 0 {
        let t = s.drop_last();
        lemma_without(t, p);
        let tf = without_peer(t, p);
        let sf = without_peer(s, p);
        assert(s =~= t.push(s.last()));
        assert(sf == if s.last() != p { tf.push(s.last()) } else { tf });
        assert forall|q: PeerId| #[trigger] sf.contains(q) <==> s.contains(q) && q != p by {
            if sf.contains(q) {
                let i = choose|i: int| 0 <= i < sf.len() && sf[i] == q;
                if i < tf.len() {
                    assert(tf[i] == q);
                    assert(tf.contains(q));
                    assert(t.contains(q));
                    let j = choose|j: int| 0 <= j < t.len() && t[j] == q;
                    assert(s[j] == q);
                } else {
                    assert(s[s.len() - 1] == q);
                }
            }
            if s.contains(q) && q != p {
                let i = choose|i: int| 0 <= i < s.len() && s[i] == q;
                if i < t.len() {
                    assert(t[i] == q);
                    assert(t.contains(q));
                    assert(tf.contains(q));
                    let j = choose|j: int| 0 <= j < tf.len() && tf[j] == q;
                    assert(sf[j] == q);
                } else {
                    assert(sf[sf.len() - 1] == q);
                }
            }
        }
        if s.no_duplicates() {
            assert(t.no_duplicates());
            if s.last() != p {
                assert forall|i: int, j: int|
                    0 <= i < sf.len() && 0 <= j < sf.len() && i != j implies sf[i] != sf[j] by {
                    if i < tf.len() && j < tf.len() {
                    } else {
                        let k = if i < tf.len() { i } else { j };
                        assert(tf.contains(tf[k]));
                        assert(t.contains(tf[k]));
                        let m = choose|m: int| 0 <= m < t.len() && t[m] == tf[k];
                        assert(s[m] == tf[k]);
                    }
                }
            }
        }
    }
}

/// A copy of `s` without the peer `p`.
fn without(s: &Vec<PeerId>, p: &PeerId) -> (out: Vec<PeerId>)
    ensures
        out@ == without_peer(s@, *p),
{
    let mut out: Vec<PeerId> = Vec::new();
    let mut i: usize = 0;
    proof {
        reveal(Seq::filter);
        assert(without_peer(s@.take(0), *p) =~= Seq::<PeerId>::empty());
    }
    while i < s.len()
        invariant
            i <= s@.len(),
            out@ == without_peer(s@.take(i as int), *p),
        decreases s@.len() - i,
    {
        let q = s[i];
        proof {
            reveal(Seq::filter);
            assert(s@.take(i + 1).drop_last() =~= s@.take(i as int));
            assert(s@.take(i + 1).last() == q);
        }
        if !q.same(p) {
            out.push(q);
        }
        i = i + 1;
    }
    assert(s@.take(i as int) =~= s@);
    out
}

/// Maps peers to their static public keys. Keys confirmed by a handshake stay; keys learned by
/// gossip make room for newer ones, oldest first, when the registry is bounded.
pub struct KeyRegistryState {
    entries: PeerMap<[u8; 32]>,
    gossip_order: Vec<PeerId>,
    max_size: Option<usize>,
}

impl View for KeyRegistryState {
    type V = RegistryModel;

    closed spec fn view(&self) -> RegistryModel {
        RegistryModel {
            keys: self.entries@,
            gossip: self.gossip_order@,
            max_size: self.max_size,
        }
    }
}

impl KeyRegistryState {
    /// The registry's invariant.
    pub open spec fn well_formed(&self) -> bool {
        self@.valid()
    }

    /// An empty registry with room for `max_size` keys, or for any number of them.
    pub fn new(max_size: Option<usize>) -> (r: Self)
        ensures
            r.well_formed(),
            r@.keys == Map::<PeerId, [u8; 32]>::empty(),
            r@.gossip == Seq::<PeerId>::empty(),
            r@.max_size == max_size,
    {
        KeyRegistryState { entries: PeerMap::new(), gossip_order: Vec::new(), max_size }
    }

    /// The key of `peer_id`, if it is known.
    pub fn get(&self, peer_id: &PeerId) -> (key: Option<[u8; 32]>)
        ensures
            key is Some <==> self@.keys.dom().contains(*peer_id),
            key matches Some(k) ==> k == self@.keys[*peer_id],
    {
        match self.entries.get(peer_id) {
            Some(k) => Some(*k),
            None => None,
        }
    }

    /// Forgets `peer_id`; returns the key it had.
    pub fn remove(&mut self, peer_id: &PeerId) -> (key: Option<[u8; 32]>)
        requires
            old(self).well_formed(),
        ensures
            final(self).well_formed(),
            final(self)@ == old(self)@.after_remove(*peer_id),
            key is Some <==> old(self)@.keys.dom().contains(*peer_id),
            key matches Some(k) ==> k == old(self)@.keys[*peer_id],
    {
        proof {
            law_remove_keeps_validity(self@, *peer_id);
        }
        self.gossip_order = without(&self.gossip_order, peer_id);
        self.entries.remove(peer_id)
    }

    /// Records a key that a handshake has confirmed. It is never evicted, and a peer known by
    /// gossip alone is promoted. Returns whether the peer had no key before.
    pub fn insert_direct(&mut self, peer_id: PeerId, public_key: [u8; 32]) -> (is_new: bool)
        requires
            old(self).well_formed(),
        ensures
            final(self).well_formed(),
            final(self)@ == old(self)@.after_direct(peer_id, public_key),
            is_new == !old(self)@.keys.dom().contains(peer_id),
    {
        proof {
            law_direct_keeps_validity(self@, peer_id, public_key);
        }
        self.gossip_order = without(&self.gossip_order, &peer_id);
        self.entries.insert(peer_id, public_key).is_none()
    }

    /// Records a key learned by gossip, as `RegistryModel::after_gossip` says.
    pub fn insert_gossip(&mut self, peer_id: PeerId, public_key: [u8; 32])
        requires
            old(self).well_formed(),
        ensures
            final(self).well_formed(),
            final(self)@ == old(self)@.after_gossip(peer_id, public_key),
    {
        proof {
            law_gossip_keeps_validity(self@, peer_id, public_key);
        }
        let ghost before = self@;
        if self.entries.contains(&peer_id) {
            return;
        }
        let known: usize = self.entries.len();
        match self.max_size {
            Some(max) => {
                if known >= max {
                    if self.gossip_order.len() == 0 {
                        return;
                    }
                    let oldest = self.gossip_order.remove(0);
                    self.entries.remove(&oldest);
                    assert(self.gossip_order@ =~= before.gossip.skip(1));
                }
            },
            None => {},
        }
        self.entries.insert(peer_id, public_key);
        self.gossip_order.push(peer_id);
    }
}

/// A registry without a bound.
pub fn new_key_registry() -> (r: KeyRegistryState)
    ensures
        r.well_formed(),
        r@.keys == Map::<PeerId, [u8; 32]>::empty(),
        r@.gossip == Seq::<PeerId>::empty(),
        r@.max_size is None,
{
    new_key_registry_with_bound(None)
}

/// A registry with the given bound.
pub fn new_key_registry_with_bound(max_size: Option<usize>) -> (r: KeyRegistryState)
    ensures
        r.well_formed(),
        r@.keys == Map::<PeerId, [u8; 32]>::empty(),
        r@.gossip == Seq::<PeerId>::empty(),
        r@.max_size == max_size,
{
    KeyRegistryState::new(max_size)
}

/// Recording a handshake keeps the registry's invariant.
pub proof fn law_direct_keeps_validity(m: RegistryModel, p: PeerId, key: [u8; 32])
    requires
        m.valid(),
    ensures
        m.after_direct(p, key).valid(),
{
    let n = m.after_direct(p, key);
    lemma_without(m.gossip, p);
    assert forall|i: int| 0 <= i < n.gossip.len() implies n.keys.dom().contains(
        #[trigger] n.gossip[i],
    ) by {
        assert(n.gossip.contains(n.gossip[i]));
        let j = choose|j: int| 0 <= j < m.gossip.len() && m.gossip[j] == n.gossip[i];
        assert(m.keys.dom().contains(m.gossip[j]));
    }
}

/// Forgetting a peer keeps the registry's invariant.
pub proof fn law_remove_keeps_validity(m: RegistryModel, p: PeerId)
    requires
        m.valid(),
    ensures
        m.after_remove(p).valid(),
{
    let n = m.after_remove(p);
    lemma_without(m.gossip, p);
    assert forall|i: int| 0 <= i < n.gossip.len() implies n.keys.dom().contains(
        #[trigger] n.gossip[i],
    ) by {
        assert(n.gossip.contains(n.gossip[i]));
        let j = choose|j: int| 0 <= j < m.gossip.len() && m.gossip[j] == n.gossip[i];
        assert(m.keys.dom().contains(m.gossip[j]));
    }
}

/// Recording gossip keeps the registry's invariant.
pub proof fn law_gossip_keeps_validity(m: RegistryModel, p: PeerId, key: [u8; 32])
    requires
        m.valid(),
    ensures
        m.after_gossip(p, key).valid(),
{
    let n = m.after_gossip(p, key);
    assert forall|i: int, j: int|
        0 <= i < n.gossip.len() && 0 <= j < n.gossip.len() && i != j implies n.gossip[i]
        != n.gossip[j] by {
        if !m.keys.dom().contains(p) {
            assert forall|k: int| 0 <= k < m.gossip.len() implies m.gossip[k] != p by {
                assert(m.keys.dom().contains(m.gossip[k]));
            }
        }
    }
    assert forall|i: int| 0 <= i < n.gossip.len() implies n.keys.dom().contains(
        #[trigger] n.gossip[i],
    ) by {
        if !m.keys.dom().contains(p) && m.full() && m.gossip.len() > 0 {
            if i + 1 < m.gossip.len() {
                assert(n.gossip[i] == m.gossip[i + 1]);
                assert(m.keys.dom().contains(m.gossip[i + 1]));
                assert(m.gossip[i + 1] != m.gossip[0]);
            }
        }
    }
}

/// Gossip never evicts, changes the standing of, or loses a peer whose key a handshake has
/// confirmed.
pub proof fn law_gossip_never_evicts_direct(m: RegistryModel, p: PeerId, key: [u8; 32], d: PeerId)
    requires
        m.valid(),
        m.direct(d),
    ensures
        m.after_gossip(p, key).direct(d),
        m.after_gossip(p, key).keys[d] == m.keys[d],
{
    let n = m.after_gossip(p, key);
    if n.gossip.contains(d) {
        let i = choose|i: int| 0 <= i < n.gossip.len() && n.gossip[i] == d;
        if m.keys.dom().contains(p) {
            assert(m.gossip[i] == d);
        } else if !m.full() {
            if i < m.gossip.len() {
                assert(m.gossip[i] == d);
            }
        } else if m.gossip.len() > 0 {
            if i + 1 < m.gossip.len() {
                assert(m.gossip[i + 1] == d);
            }
        } else {
            assert(m.gossip[i] == d);
        }
    }
    if m.gossip.len() > 0 {
        assert(m.gossip.contains(m.gossip[0]));
    }
}

/// Gossip never makes a bounded registry larger than its bound, nor larger than it was when it
/// was over the bound already.
pub proof fn law_gossip_respects_bound(m: RegistryModel, p: PeerId, key: [u8; 32])
    requires
        m.valid(),
        m.max_size is Some,
    ensures
        m.after_gossip(p, key).keys.dom().len() <= m.max_size->0 || m.after_gossip(
            p,
            key,
        ).keys.dom().len() <= m.keys.dom().len(),
{
    if m.full() && m.gossip.len() > 0 {
        assert(m.keys.dom().contains(m.gossip[0]));
        assert(m.keys.remove(m.gossip[0]).insert(p, key).dom() =~= m.keys.dom().remove(
            m.gossip[0],
        ).insert(p));
    } else if !m.full() {
        assert(m.keys.insert(p, key).dom() =~= m.keys.dom().insert(p));
    }
}

/// In a full registry the only key that gossip about a new peer can displace is the one that
/// was learned by gossip first.
pub proof fn law_gossip_evicts_oldest_only(
    m: RegistryModel,
    p: PeerId,
    key: [u8; 32],
    lost: PeerId,
)
    requires
        m.valid(),
        m.keys.dom().contains(lost),
        !m.after_gossip(p, key).keys.dom().contains(lost),
    ensures
        m.full(),
        m.gossip.len() > 0,
        lost == m.gossip[0],
{
}

/// Gossip never puts another key in the place of one that is known: whoever was known has the
/// same key afterwards or, having been learned by gossip first, none; and gossip about a peer that
/// is known changes nothing at all.
pub proof fn law_gossip_never_overwrites(m: RegistryModel, p: PeerId, key: [u8; 32], q: PeerId)
    requires
        m.valid(),
        m.keys.dom().contains(q),
    ensures
        m.after_gossip(p, key).keys.dom().contains(q) ==> m.after_gossip(p, key).keys[q]
            == m.keys[q],
        m.after_gossip(q, key) == m,
{
}

/// Without a bound no key is ever lost to gossip, and every new peer gets the key it was said to
/// hold.
pub proof fn law_unbounded_never_evicts(m: RegistryModel, p: PeerId, key: [u8; 32], q: PeerId)
    requires
        m.valid(),
        m.max_size is None,
    ensures
        m.after_gossip(p, key).keys.dom().contains(p),
        !m.keys.dom().contains(p) ==> m.after_gossip(p, key).keys[p] == key,
        m.keys.dom().contains(q) ==> m.after_gossip(p, key).keys.dom().contains(q),
{
}

/// A handshake promotes a peer: it is direct afterwards, whatever it was before.
pub proof fn law_handshake_promotes(m: RegistryModel, p: PeerId, key: [u8; 32])
    requires
        m.valid(),
    ensures
        m.after_direct(p, key).direct(p),
        m.after_direct(p, key).keys[p] == key,
{
    lemma_without(m.gossip, p);
}

/// What gossip about a peer does to the registry. A peer that is known stays as it is. A new one is
/// recorded as the youngest of those learned by gossip while the number of keys is below the bound,
/// or there is none; at the bound it takes the place of the oldest of them, and if there is none it
/// is not recorded.
pub proof fn law_gossip_exact(m: RegistryModel, p: PeerId, key: [u8; 32])
    ensures
        ({
            let n = m.after_gossip(p, key);
            let room = m.max_size is None || m.keys.dom().len() < m.max_size->0;
            &&& n.max_size == m.max_size
            &&& m.keys.dom().contains(p) ==> n == m
            &&& !m.keys.dom().contains(p) && room ==> n.keys == m.keys.insert(p, key) && n.gossip
                == m.gossip.push(p)
            &&& !m.keys.dom().contains(p) && !room && m.gossip.len() > 0 ==> n.keys == m.keys.remove(
                m.gossip[0],
            ).insert(p, key) && n.gossip == m.gossip.skip(1).push(p)
            &&& !m.keys.dom().contains(p) && !room && m.gossip.len() == 0 ==> n == m
        }),
{
}

proof fn lemma_without_absent(s: Seq<PeerId>, p: PeerId)
    requires
        !s.contains(p),
    ensures
        without_peer(s, p) == s,
    decreases s.len(),
{
    reveal(Seq::filter);
    if s.len() > 0 {
        let t = s.drop_last();
        assert(!t.contains(p)) by {
            if t.contains(p) {
                let i = choose|i: int| 0 <= i < t.len() && t[i] == p;
                assert(s[i] == p);
            }
        }
        lemma_without_absent(t, p);
        assert(s[s.len() - 1] != p);
        assert(t.push(s.last()) =~= s);
    } else {
        assert(without_peer(s, p) =~= s);
    }
}

proof fn lemma_without_split(a: Seq<PeerId>, b: Seq<PeerId>, p: PeerId)
    requires
        !a.contains(p),
        !b.contains(p),
    ensures
        without_peer(a + seq![p] + b, p) == a + b,
    decreases b.len(),
{
    reveal(Seq::filter);
    let s = a + seq![p] + b;
    if b.len() == 0 {
        lemma_without_absent(a, p);
        assert(s.drop_last() =~= a);
        assert(s.last() == p);
        assert(a + b =~= a);
    } else {
        let c = b.drop_last();
        assert(!c.contains(p)) by {
            if c.contains(p) {
                let i = choose|i: int| 0 <= i < c.len() && c[i] == p;
                assert(b[i] == p);
            }
        }
        lemma_without_split(a, c, p);
        assert(s.drop_last() =~= a + seq![p] + c);
        assert(s.last() == b[b.len() - 1]);
        assert((a + c).push(b.last()) =~= a + b);
    }
}

/// A handshake records its key whatever the bound is, and forgetting a peer removes its key; no
/// other key changes.
pub proof fn law_direct_and_remove_exact(m: RegistryModel, p: PeerId, key: [u8; 32], q: PeerId)
    ensures
        m.after_direct(p, key).keys == m.keys.insert(p, key),
        m.after_direct(p, key).max_size == m.max_size,
        m.after_direct(p, key).gossip.contains(q) <==> m.gossip.contains(q) && q != p,
        m.after_remove(p).keys == m.keys.remove(p),
        m.after_remove(p).max_size == m.max_size,
        m.after_remove(p).gossip.contains(q) <==> m.gossip.contains(q) && q != p,
{
    lemma_without(m.gossip, p);
}

/// A handshake with a peer, or forgetting it, takes it out of those learned by gossip wherever it
/// stands, and leaves the others in their order; the order stays as it is if the peer is not among
/// them.
pub proof fn law_gossip_order_kept(
    m: RegistryModel,
    p: PeerId,
    key: [u8; 32],
    older: Seq<PeerId>,
    younger: Seq<PeerId>,
)
    requires
        !older.contains(p),
        !younger.contains(p),
    ensures
        m.gossip == older + seq![p] + younger ==> m.after_direct(p, key).gossip == older + younger,
        m.gossip == older + seq![p] + younger ==> m.after_remove(p).gossip == older + younger,
        m.gossip == older ==> m.after_direct(p, key).gossip == older,
        m.gossip == older ==> m.after_remove(p).gossip == older,
{
    lemma_without_absent(older, p);
    lemma_without_split(older, younger, p);
}

} // verus!
