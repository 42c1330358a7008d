//! Which peers are known, and at which addresses they can be dialled.

use vstd::prelude::*;

use crate::identity::PeerId;
use crate::table::PeerMap;
#[allow(unused_imports)]
use crate::table::{has_key, key_pos, lemma_key_pos, pairs_map, unique_keys};
use crate::transport::{copy_announcements, PeerAddress, PeerAnnouncement};
#[allow(unused_imports)]
use crate::transport::{announcement_models, AddressModel, AnnouncementModel};

verus! {

/// Whether one of the announcements is for the address `a`.
pub open spec fn has_address(anns: Seq<AnnouncementModel>, a: AddressModel) -> bool {
    exists|i: int| 0 <= i < anns.len() && (#[trigger] anns[i]).address == a
}

/// The announcements of a peer after one more: an address that is there is not added again.
pub open spec fn with_announcement(anns: Seq<AnnouncementModel>, a: AnnouncementModel) -> Seq<
    AnnouncementModel,
> {
    if has_address(anns, a.address) {
        anns
    } else {
        anns.push(a)
    }
}

/// No address occurs twice.
pub open spec fn addresses_unique(anns: Seq<AnnouncementModel>) -> bool {
    forall|i: int, j: int|
        0 <= i < j < anns.len() ==> (#[trigger] anns[i]).address != (#[trigger] anns[j]).address
}

/// What is known of the peers: each one's announcements, in the order in which they came.
pub type PeersModel = Map<PeerId, Seq<AnnouncementModel>>;

/// The announcements of a peer; none if it is not known.
pub open spec fn announcements_of(m: PeersModel, p: PeerId) -> Seq<AnnouncementModel> {
    if m.dom().contains(p) {
        m[p]
    } else {
        Seq::empty()
    }
}

/// The peers after one announcement more.
pub open spec fn after_announcement(m: PeersModel, p: PeerId, a: AnnouncementModel) -> PeersModel {
    m.insert(p, with_announcement(announcements_of(m, p), a))
}

/// The announcement that an address alone makes.
pub open spec fn bare_announcement(a: AddressModel) -> AnnouncementModel {
    AnnouncementModel { address: a, short_id: None }
}

/// The peers after a peer has told its addresses.
pub open spec fn after_addresses(m: PeersModel, p: PeerId, addrs: Seq<AddressModel>) -> PeersModel
    decreases addrs.len(),
{
    if addrs.len() == 0 {
        m
    } else {
        after_announcement(
            after_addresses(m, p, addrs.drop_last()),
            p,
            bare_announcement(addrs.last()),
        )
    }
}

/// Every peer has each of its addresses once.
pub open spec fn peers_valid(m: PeersModel) -> bool {
    forall|p: PeerId| #[trigger] m.dom().contains(p) ==> addresses_unique(m[p])
}

/// A peer and where it can be dialled.
pub type Neighbor = (PeerId, Vec<PeerAnnouncement>);

/// Whether `n` lists the peers of `m` other than `a` and `b`, each once, with its announcements.
pub open spec fn lists_peers_except(n: Seq<Neighbor>, m: PeersModel, a: PeerId, b: PeerId) -> bool {
    &&& forall|i: int|
        0 <= i < n.len() ==> {
            &&& m.dom().contains((#[trigger] n[i]).0)
            &&& n[i].0 != a
            &&& n[i].0 != b
            &&& announcement_models(n[i].1@) == m[n[i].0]
        }
    &&& forall|i: int, j: int|
        0 <= i < j < n.len() ==> (#[trigger] n[i]).0 != (#[trigger] n[j]).0
    &&& forall|p: PeerId| #[trigger]
        m.dom().contains(p) && p != a && p != b ==> exists|i: int|
            0 <= i < n.len() && (#[trigger] n[i]).0 == p
}

/// The values of a peer map of announcement lists.
pub open spec fn peers_model(m: Map<PeerId, Vec<PeerAnnouncement>>) -> PeersModel {
    Map::new(|p: PeerId| m.dom().contains(p), |p: PeerId| announcement_models(m[p]@))
}

/// The values of a list of addresses.
pub open spec fn address_models(s: Seq<PeerAddress>) -> Seq<AddressModel> {
    s.map_values(|a: PeerAddress| a@)
}

/// Whether one of the announcements is for an address.
fn lists_address(anns: &Vec<PeerAnnouncement>, address: &PeerAddress) -> (r: bool)
    ensures
        r == has_address(announcement_models(anns@), address@),
{
    let ghost models = announcement_models(anns@);
    let mut i: usize = 0;
    while i < anns.len()
        invariant
            i <= anns@.len(),
            models == announcement_models(anns@),
            forall|k: int| 0 <= k < i ==> (#[trigger] models[k]).address != address@,
        decreases anns@.len() - i,
    {
        if anns[i].address.same(address) {
            assert(models[i as int].address == address@);
            return true;
        }
        assert(models[i as int].address != address@);
        i = i + 1;
    }
    false
}

/// The known peers and their announcements.
pub struct PeerTable {
    peers: PeerMap<Vec<PeerAnnouncement>>,
}

impl View for PeerTable {
    type V = PeersModel;

    closed spec fn view(&self) -> PeersModel {
        peers_model(self.peers@)
    }
}

/// A table without peers.
pub fn new_peer_table() -> (t: PeerTable)
    ensures
        t@ == Map::<PeerId, Seq<AnnouncementModel>>::empty(),
{
    let t = PeerTable { peers: PeerMap::new() };
    assert(t@ =~= Map::<PeerId, Seq<AnnouncementModel>>::empty());
    t
}

impl PeerTable {
    /// Whether the peer is known.
    pub fn contains(&self, peer_id: &PeerId) -> (r: bool)
        ensures
            r == self@.dom().contains(*peer_id),
    {
        self.peers.contains(peer_id)
    }

    /// Where the peer can be dialled, if it is known.
    pub fn get(&self, peer_id: &PeerId) -> (r: Option<Vec<PeerAnnouncement>>)
        ensures
            r is Some <==> self@.dom().contains(*peer_id),
            r matches Some(anns) ==> announcement_models(anns@) == self@[*peer_id],
    {
        match self.peers.get(peer_id) {
            Some(anns) => Some(copy_announcements(anns)),
            None => None,
        }
    }

    /// Records where a peer can be dialled. An address that is there is not added again.
    pub fn add(&mut self, peer_id: PeerId, announcement: PeerAnnouncement)
        ensures
            final(self)@ == after_announcement(old(self)@, peer_id, announcement@),
    {
        let ghost before = self.peers@;
        let ghost m = self@;
        let ghost a = announcement@;
        let mut anns: Vec<PeerAnnouncement> = match self.peers.remove(&peer_id) {
            Some(anns) => anns,
            None => Vec::new(),
        };
        assert(announcement_models(anns@) =~= announcements_of(m, peer_id));
        let ghost models = announcement_models(anns@);
        let found = lists_address(&anns, &announcement.address);
        if !found {
            anns.push(announcement);
        }
        assert(announcement_models(anns@) =~= with_announcement(models, a));
        let ghost value = anns;
        self.peers.insert(peer_id, anns);
        proof {
            assert(self.peers@ =~= before.insert(peer_id, value));
            assert(self@ =~= after_announcement(m, peer_id, a));
        }
    }

    /// Records the addresses that a peer has told.
    pub fn upsert_peer_addresses(&mut self, peer_id: &PeerId, addrs: Vec<PeerAddress>)
        ensures
            final(self)@ == after_addresses(old(self)@, *peer_id, address_models(addrs@)),
    {
        let ghost m = self@;
        let ghost all = address_models(addrs@);
        let mut i: usize = 0;
        assert(all.take(0) =~= Seq::<AddressModel>::empty());
        while i < addrs.len()
            invariant
                i <= addrs@.len(),
                all == address_models(addrs@),
                self@ == after_addresses(m, *peer_id, all.take(i as int)),
            decreases addrs@.len() - i,
        {
            proof {
                assert(all.take(i + 1).drop_last() =~= all.take(i as int));
                assert(all.take(i + 1).last() == addrs@[i as int]@);
            }
            self.add(*peer_id, PeerAnnouncement { address: addrs[i].clone(), short_id: None });
            i = i + 1;
        }
        assert(all.take(i as int) =~= all);
    }

    /// The peers that can be dialled at an address.
    pub fn peers_at(&self, address: &PeerAddress) -> (ids: Vec<PeerId>)
        ensures
            ids@.no_duplicates(),
            forall|p: PeerId| #[trigger]
                ids@.contains(p) <==> has_address(announcements_of(self@, p), address@),
    {
        let total: usize = self.peers.len();
        let ghost pairs = self.peers.pairs();
        let mut ids: Vec<PeerId> = Vec::new();
        let mut i: usize = 0;
        while i < total
            invariant
                i <= total,
                total == pairs.len(),
                pairs == self.peers.pairs(),
                unique_keys(pairs),
                self.peers@ == pairs_map(pairs),
                ids@.no_duplicates(),
                forall|k: int|
                    0 <= k < ids@.len() ==> {
                        &&& has_key(pairs, #[trigger] ids@[k])
                        &&& key_pos(pairs, ids@[k]) < i
                        &&& has_address(announcements_of(self@, ids@[k]), address@)
                    },
                forall|j: int|
                    0 <= j < i && has_address(
                        announcements_of(self@, (#[trigger] pairs[j]).0),
                        address@,
                    ) ==> ids@.contains(pairs[j].0),
            decreases total - i,
        {
            let (p, anns) = self.peers.at(i);
            proof {
                lemma_key_pos(pairs, i as int);
            }
            let ghost before = ids@;
            if lists_address(anns, address) {
                ids.push(p);
                assert(ids@[before.len() as int] == p);
            }
            proof {
                assert forall|j: int|
                    0 <= j < i + 1 && has_address(
                        announcements_of(self@, (#[trigger] pairs[j]).0),
                        address@,
                    ) implies ids@.contains(pairs[j].0) by {
                    if j < i {
                        let k = choose|k: int| 0 <= k < before.len() && before[k] == pairs[j].0;
                        assert(ids@[k] == pairs[j].0);
                    }
                }
            }
            i = i + 1;
        }
        proof {
            assert forall|p: PeerId| #[trigger] ids@.contains(p) <==> has_address(
                announcements_of(self@, p),
                address@,
            ) by {
                if has_address(announcements_of(self@, p), address@) {
                    assert(self@.dom().contains(p));
                    let j = key_pos(pairs, p);
                    assert(0 <= j < pairs.len() && pairs[j].0 == p);
                }
            }
        }
        ids
    }

    /// The known peers other than `a` and `b`.
    pub fn neighbors(&self, a: &PeerId, b: &PeerId) -> (n: Vec<Neighbor>)
        ensures
            lists_peers_except(n@, self@, *a, *b),
    {
        let total: usize = self.peers.len();
        let ghost pairs = self.peers.pairs();
        let mut n: Vec<Neighbor> = Vec::new();
        let mut i: usize = 0;
        while i < total
            invariant
                i <= total,
                total == pairs.len(),
                pairs == self.peers.pairs(),
                unique_keys(pairs),
                self.peers@ == pairs_map(pairs),
                forall|k: int|
                    0 <= k < n@.len() ==> {
                        &&& self@.dom().contains((#[trigger] n@[k]).0)
                        &&& n@[k].0 != *a
                        &&& n@[k].0 != *b
                        &&& announcement_models(n@[k].1@) == self@[n@[k].0]
                        &&& has_key(pairs, n@[k].0)
                        &&& key_pos(pairs, n@[k].0) < i
                    },
                forall|k: int, l: int|
                    0 <= k < l < n@.len() ==> (#[trigger] n@[k]).0 != (#[trigger] n@[l]).0,
                forall|j: int|
                    0 <= j < i && (#[trigger] pairs[j]).0 != *a && pairs[j].0 != *b ==> exists|k: int|
                        0 <= k < n@.len() && (#[trigger] n@[k]).0 == pairs[j].0,
            decreases total - i,
        {
            let (p, anns) = self.peers.at(i);
            proof {
                lemma_key_pos(pairs, i as int);
            }
            let ghost before = n@;
            if !p.same(a) && !p.same(b) {
                n.push((p, copy_announcements(anns)));
                assert(n@[before.len() as int].0 == p);
            }
            proof {
                assert forall|j: int|
                    0 <= j < i + 1 && (#[trigger] pairs[j]).0 != *a && pairs[j].0
                        != *b implies exists|k: int|
                    0 <= k < n@.len() && (#[trigger] n@[k]).0 == pairs[j].0 by {
                    if j < i {
                        let k = choose|k: int|
                            0 <= k < before.len() && (#[trigger] before[k]).0 == pairs[j].0;
                        assert(n@[k] == before[k]);
                    } else {
                        assert(n@[before.len() as int].0 == p);
                    }
                }
            }
            i = i + 1;
        }
        proof {
            assert forall|p: PeerId| #[trigger]
                self@.dom().contains(p) && p != *a && p != *b implies exists|k: int|
                0 <= k < n@.len() && (#[trigger] n@[k]).0 == p by {
                assert(has_key(pairs, p));
                let j = key_pos(pairs, p);
                assert(0 <= j < pairs.len() && pairs[j].0 == p);
            }
        }
        n
    }
}

/// One announcement more leaves every peer with each of its addresses once, and keeps every
/// announcement that was there.
pub proof fn law_announcement_keeps_addresses_unique(m: PeersModel, p: PeerId, a: AnnouncementModel)
    requires
        peers_valid(m),
    ensures
        peers_valid(after_announcement(m, p, a)),
        has_address(after_announcement(m, p, a)[p], a.address),
        announcements_of(m, p).is_prefix_of(after_announcement(m, p, a)[p]),
        forall|q: PeerId|
            q != p ==> announcements_of(after_announcement(m, p, a), q)
                == #[trigger] announcements_of(m, q),
{
    let t = after_announcement(m, p, a);
    let anns = announcements_of(m, p);
    if !has_address(anns, a.address) {
        assert(t[p][anns.len() as int].address == a.address);
        assert forall|i: int, j: int| 0 <= i < j < t[p].len() implies (#[trigger] t[p][i]).address
            != (#[trigger] t[p][j]).address by {
            assert(anns[i].address == t[p][i].address);
            if j < anns.len() {
                assert(addresses_unique(anns));
                assert(anns[j].address == t[p][j].address);
            }
        }
    }
    assert forall|q: PeerId| #[trigger] t.dom().contains(q) implies addresses_unique(t[q]) by {
        if q != p {
            assert(m.dom().contains(q));
        } else if has_address(anns, a.address) {
            assert(m.dom().contains(p));
        }
    }
}

/// A peer that tells its addresses leaves every peer with each of its addresses once.
pub proof fn law_addresses_keep_unique(m: PeersModel, p: PeerId, addrs: Seq<AddressModel>)
    requires
        peers_valid(m),
    ensures
        peers_valid(after_addresses(m, p, addrs)),
        forall|q: PeerId|
            q != p ==> announcements_of(after_addresses(m, p, addrs), q)
                == #[trigger] announcements_of(m, q),
        forall|i: int|
            0 <= i < addrs.len() ==> has_address(
                announcements_of(after_addresses(m, p, addrs), p),
                #[trigger] addrs[i],
            ),
    decreases addrs.len(),
{
    if addrs.len() > 0 {
        let rest = addrs.drop_last();
        let mid = after_addresses(m, p, rest);
        let last = bare_announcement(addrs.last());
        law_addresses_keep_unique(m, p, rest);
        law_announcement_keeps_addresses_unique(mid, p, last);
        let after = after_addresses(m, p, addrs);
        assert forall|i: int| 0 <= i < addrs.len() implies has_address(
            announcements_of(after, p),
            #[trigger] addrs[i],
        ) by {
            if i < rest.len() {
                assert(rest[i] == addrs[i]);
                let had = announcements_of(mid, p);
                let j = choose|j: int| 0 <= j < had.len() && (#[trigger] had[j]).address == addrs[i];
                assert(after[p][j] == had[j]);
            }
        }
    }
}

/// The addresses that were dialled or are being dialled.
pub struct KnownAddresses {
    addrs: Vec<PeerAddress>,
}

impl View for KnownAddresses {
    type V = Set<AddressModel>;

    closed spec fn view(&self) -> Set<AddressModel> {
        address_models(self.addrs@).to_set()
    }
}

impl KnownAddresses {
    /// No address.
    pub fn new() -> (k: Self)
        ensures
            k@ == Set::<AddressModel>::empty(),
    {
        let k = KnownAddresses { addrs: Vec::new() };
        assert(k@ =~= Set::<AddressModel>::empty());
        k
    }

    fn position(&self, addr: &PeerAddress) -> (r: Option<usize>)
        ensures
            r is Some <==> self@.contains(addr@),
            r matches Some(i) ==> i < self.addrs@.len() && self.addrs@[i as int]@ == addr@,
            r is None ==> forall|k: int|
                0 <= k < self.addrs@.len() ==> (#[trigger] self.addrs@[k])@ != addr@,
    {
        let ghost models = address_models(self.addrs@);
        let mut i: usize = 0;
        while i < self.addrs.len()
            invariant
                i <= self.addrs@.len(),
                models == address_models(self.addrs@),
                forall|k: int| 0 <= k < i ==> (#[trigger] self.addrs@[k])@ != addr@,
            decreases self.addrs@.len() - i,
        {
            if self.addrs[i].same(addr) {
                assert(models[i as int] == addr@);
                assert(models.contains(addr@));
                return Some(i);
            }
            i = i + 1;
        }
        proof {
            if self@.contains(addr@) {
                let k = choose|k: int| 0 <= k < models.len() && models[k] == addr@;
                assert(self.addrs@[k]@ == addr@);
            }
        }
        None
    }

    /// Records an address. Returns whether it was not there.
    pub fn insert(&mut self, addr: PeerAddress) -> (is_new: bool)
        ensures
            is_new == !old(self)@.contains(addr@),
            final(self)@ == old(self)@.insert(addr@),
    {
        let ghost before = address_models(self.addrs@);
        let ghost a = addr@;
        if self.position(&addr).is_some() {
            assert(self@ =~= old(self)@.insert(a));
            return false;
        }
        self.addrs.push(addr);
        proof {
            let after = address_models(self.addrs@);
            assert(after =~= before.push(a));
            assert forall|x: AddressModel| after.to_set().contains(x) <==> before.to_set().insert(
                a,
            ).contains(x) by {
                if before.contains(x) {
                    let k = choose|k: int| 0 <= k < before.len() && before[k] == x;
                    assert(after[k] == x);
                }
                if x == a {
                    assert(after[before.len() as int] == x);
                }
                if after.contains(x) && x != a {
                    let k = choose|k: int| 0 <= k < after.len() && after[k] == x;
                    assert(before[k] == x);
                }
            }
            assert(self@ =~= old(self)@.insert(a));
        }
        true
    }

    /// Forgets an address.
    pub fn remove(&mut self, addr: &PeerAddress)
        ensures
            final(self)@ == old(self)@.remove(addr@),
    {
        let ghost before = address_models(self.addrs@);
        let mut kept: Vec<PeerAddress> = Vec::new();
        let mut i: usize = 0;
        while i < self.addrs.len()
            invariant
                i <= self.addrs@.len(),
                before == address_models(self.addrs@),
                forall|k: int|
                    0 <= k < kept@.len() ==> (#[trigger] kept@[k])@ != addr@ && before.contains(
                        kept@[k]@,
                    ),
                forall|j: int|
                    0 <= j < i && #[trigger] before[j] != addr@ ==> exists|k: int|
                        0 <= k < kept@.len() && (#[trigger] kept@[k])@ == before[j],
            decreases self.addrs@.len() - i,
        {
            let ghost so_far = kept@;
            assert(before[i as int] == self.addrs@[i as int]@);
            if !self.addrs[i].same(addr) {
                kept.push(self.addrs[i].clone());
                assert(kept@[so_far.len() as int]@ == before[i as int]);
            }
            proof {
                assert forall|j: int| 0 <= j < i + 1 && #[trigger] before[j] != addr@ implies exists|
                    k: int,
                |
                    0 <= k < kept@.len() && (#[trigger] kept@[k])@ == before[j] by {
                    if j < i {
                        let k = choose|k: int|
                            0 <= k < so_far.len() && (#[trigger] so_far[k])@ == before[j];
                        assert(kept@[k] == so_far[k]);
                    } else {
                        assert(kept@[so_far.len() as int]@ == before[i as int]);
                    }
                }
            }
            i = i + 1;
        }
        self.addrs = kept;
        proof {
            let after = address_models(self.addrs@);
            assert forall|x: AddressModel| after.to_set().contains(x) <==> before.to_set().remove(
                addr@,
            ).contains(x) by {
                if after.contains(x) {
                    let k = choose|k: int| 0 <= k < after.len() && after[k] == x;
                    assert(self.addrs@[k]@ == x);
                }
                if before.contains(x) && x != addr@ {
                    let j = choose|j: int| 0 <= j < before.len() && before[j] == x;
                    assert(before[j] != addr@);
                    let k = choose|k: int|
                        0 <= k < self.addrs@.len() && (#[trigger] self.addrs@[k])@ == before[j];
                    assert(after[k] == x);
                }
            }
            assert(self@ =~= old(self)@.remove(addr@));
        }
    }
}

/// What one more announcement does: a peer's list grows by it, at the end, exactly if none on it is
/// for the same address; the peer is known afterwards, and no other peer's list changes.
pub proof fn law_announcement_exact(
    m: PeersModel,
    p: PeerId,
    a: AnnouncementModel,
    q: PeerId,
    before: Seq<AnnouncementModel>,
)
    requires
        m.dom().contains(p) ==> before == m[p],
        !m.dom().contains(p) ==> before == Seq::<AnnouncementModel>::empty(),
    ensures
        ({
            let after = after_announcement(m, p, a);
            &&& after.dom().contains(p)
            &&& (forall|i: int| 0 <= i < before.len() ==> (#[trigger] before[i]).address
                != a.address) ==> after[p] == before.push(a)
            &&& (exists|i: int| 0 <= i < before.len() && (#[trigger] before[i]).address
                == a.address) ==> after[p] == before
            &&& q != p ==> (after.dom().contains(q) <==> m.dom().contains(q)) && after[q] == m[q]
            &&& announcements_of(m, p) == before
        }),
{
}

/// What a peer that tells its addresses changes: its list keeps what it had, in place, and what is
/// added are addresses that it told, without a short identifier; no other peer's list changes.
pub proof fn law_addresses_added_only(m: PeersModel, p: PeerId, addrs: Seq<AddressModel>, q: PeerId)
    ensures
        ({
            let before = announcements_of(m, p);
            let after = announcements_of(after_addresses(m, p, addrs), p);
            &&& before.len() <= after.len()
            &&& forall|i: int| 0 <= i < before.len() ==> #[trigger] after[i] == before[i]
            &&& forall|i: int|
                before.len() <= i < after.len() ==> (#[trigger] after[i]).short_id is None
                    && addrs.contains(after[i].address)
            &&& addrs.len() == 0 ==> after_addresses(m, p, addrs) == m
            &&& addrs.len() > 0 ==> after_addresses(m, p, addrs).dom().contains(p)
            &&& q != p ==> (after_addresses(m, p, addrs).dom().contains(q) <==> m.dom().contains(q))
                && after_addresses(m, p, addrs)[q] == m[q]
        }),
    decreases addrs.len(),
{
    if addrs.len() > 0 {
        let rest = addrs.drop_last();
        let mid = after_addresses(m, p, rest);
        law_addresses_added_only(m, p, rest, q);
        let had = announcements_of(mid, p);
        let after = announcements_of(after_addresses(m, p, addrs), p);
        let before = announcements_of(m, p);
        assert forall|i: int| before.len() <= i < after.len() implies (
        #[trigger] after[i]).short_id is None && addrs.contains(after[i].address) by {
            if i < had.len() {
                assert(after[i] == had[i]);
                let j = choose|j: int| 0 <= j < rest.len() && rest[j] == had[i].address;
                assert(addrs[j] == after[i].address);
            } else {
                assert(addrs[addrs.len() - 1] == after[i].address);
            }
        }
        assert forall|i: int| 0 <= i < before.len() implies #[trigger] after[i] == before[i] by {
            assert(after[i] == had[i]);
        }
    }
}

/// A list of the peers other than two has each of them once, with all its announcements, and nobody
/// else.
pub proof fn law_listed_peers_exact(n: Seq<Neighbor>, m: PeersModel, a: PeerId, b: PeerId, p: PeerId)
    requires
        lists_peers_except(n, m, a, b),
    ensures
        (exists|i: int| 0 <= i < n.len() && (#[trigger] n[i]).0 == p) <==> m.dom().contains(p) && p
            != a && p != b,
        forall|i: int|
            0 <= i < n.len() && (#[trigger] n[i]).0 == p ==> announcement_models(n[i].1@) == m[p],
        forall|i: int, j: int|
            0 <= i < n.len() && 0 <= j < n.len() && (#[trigger] n[i]).0 == p && (
            #[trigger] n[j]).0 == p ==> i == j,
{
    assert forall|i: int, j: int|
        0 <= i < n.len() && 0 <= j < n.len() && (#[trigger] n[i]).0 == p && (#[trigger] n[j]).0
            == p implies i == j by {
        if i < j {
            assert(n[i].0 != n[j].0);
        }
        if j < i {
            assert(n[j].0 != n[i].0);
        }
    }
}

/// Whether one of the announcements is for an address.
pub proof fn law_has_address_exact(anns: Seq<AnnouncementModel>, a: AddressModel)
    ensures
        has_address(anns, a) <==> exists|i: int|
            0 <= i < anns.len() && (#[trigger] anns[i]).address == a,
{
}

/// The value of a list of addresses has one for each of them, in order.
pub proof fn law_address_list_values(s: Seq<PeerAddress>, i: int)
    requires
        0 <= i < s.len(),
    ensures
        address_models(s).len() == s.len(),
        address_models(s)[i] == s[i]@,
{
}

} // verus!
