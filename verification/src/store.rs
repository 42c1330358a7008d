//! Payloads that wait for a way to their destination.

use vstd::prelude::*;

use crate::identity::PeerId;
use crate::table::PeerMap;
#[allow(unused_imports)]
use crate::table::{has_key, key_pos, lemma_key_pos, pairs_map, unique_keys};

verus! {

/// How long a payload is kept unless the configuration says otherwise, in nanoseconds: one day.
pub const STORE_TTL_DEFAULT: u128 = 86_400_000_000_000;

/// A payload that waits: the identifier that every attempt to deliver it uses, and when it was
/// stored.
pub struct Stored {
    pub msg_id: u64,
    pub payload: Vec<u8>,
    pub queued_at: u128,
}

/// The value of a waiting payload.
pub struct StoredModel {
    pub msg_id: u64,
    pub payload: Seq<u8>,
    pub queued_at: u128,
}

impl View for Stored {
    type V = StoredModel;

    open spec fn view(&self) -> StoredModel {
        StoredModel { msg_id: self.msg_id, payload: self.payload@, queued_at: self.queued_at }
    }
}

/// The values of a queue.
pub open spec fn stored_models(q: Seq<Stored>) -> Seq<StoredModel> {
    q.map_values(|e: Stored| e@)
}

/// What waits for each destination, oldest first.
pub type StoreModel = Map<PeerId, Seq<StoredModel>>;

/// What waits for a destination.
pub open spec fn queue_of(m: StoreModel, p: PeerId) -> Seq<StoredModel> {
    if m.dom().contains(p) {
        m[p]
    } else {
        Seq::empty()
    }
}

/// Whether a queue has no room for another payload.
pub open spec fn queue_full(q: Seq<StoredModel>, max: Option<usize>) -> bool {
    max matches Some(n) && q.len() >= n
}

/// Whether a payload has waited longer than `ttl`.
pub open spec fn expired(e: StoredModel, now: u128, ttl: u128) -> bool {
    now - e.queued_at > ttl
}

/// What of a queue has not expired, in order.
pub open spec fn live_part(q: Seq<StoredModel>, now: u128, ttl: u128) -> Seq<StoredModel>
    decreases q.len(),
{
    if q.len() == 0 {
        Seq::empty()
    } else {
        let before = live_part(q.drop_last(), now, ttl);
        if expired(q.last(), now, ttl) {
            before
        } else {
            before.push(q.last())
        }
    }
}

/// Whether the attempt at position `i` succeeded.
pub open spec fn succeeded(results: Seq<bool>, i: int) -> bool {
    i < results.len() && results[i]
}

/// What of a queue was not delivered, in order.
pub open spec fn failed_part(q: Seq<StoredModel>, results: Seq<bool>) -> Seq<StoredModel>
    decreases q.len(),
{
    if q.len() == 0 {
        Seq::empty()
    } else {
        let before = failed_part(q.drop_last(), results);
        if succeeded(results, q.len() - 1) {
            before
        } else {
            before.push(q.last())
        }
    }
}

/// After `entries` were put back before what has come for the destination since.
pub open spec fn after_put_back(m: StoreModel, p: PeerId, entries: Seq<StoredModel>) -> StoreModel {
    if entries.len() == 0 {
        m
    } else {
        m.insert(p, entries + queue_of(m, p))
    }
}

/// The values of a map of queues.
pub open spec fn store_model(m: Map<PeerId, Vec<Stored>>) -> StoreModel {
    Map::new(|p: PeerId| m.dom().contains(p), |p: PeerId| stored_models(m[p]@))
}

/// Whether `ids` lists each destination of `m` once.
pub open spec fn lists_destinations(ids: Seq<PeerId>, m: StoreModel) -> bool {
    &&& ids.no_duplicates()
    &&& forall|p: PeerId| #[trigger] ids.contains(p) <==> m.dom().contains(p)
}

/// Queues of waiting payloads, one for each destination.
pub struct PendingStore {
    queues: PeerMap<Vec<Stored>>,
}

impl View for PendingStore {
    type V = StoreModel;

    closed spec fn view(&self) -> StoreModel {
        store_model(self.queues@)
    }
}

impl PendingStore {
    /// Nothing waits.
    pub fn new() -> (s: Self)
        ensures
            s@ == Map::<PeerId, Seq<StoredModel>>::empty(),
    {
        let s = PendingStore { queues: PeerMap::new() };
        assert(s@ =~= Map::<PeerId, Seq<StoredModel>>::empty());
        s
    }

    /// Whether nothing waits for anyone.
    pub fn is_empty(&self) -> (r: bool)
        ensures
            r == (self@.dom() == Set::<PeerId>::empty()),
    {
        let n: usize = self.queues.len();
        proof {
            assert(self@.dom() =~= self.queues@.dom());
            if n == 0 {
                self.queues@.dom().lemma_len0_is_empty();
            }
        }
        n == 0
    }

    /// How many payloads wait for a destination.
    pub fn depth(&self, peer_id: &PeerId) -> (n: usize)
        ensures
            n == queue_of(self@, *peer_id).len(),
    {
        match self.queues.get(peer_id) {
            Some(q) => q.len(),
            None => 0,
        }
    }

    /// Takes all that waits for a destination.
    pub fn take(&mut self, peer_id: &PeerId) -> (q: Option<Vec<Stored>>)
        ensures
            q is Some <==> old(self)@.dom().contains(*peer_id),
            q matches Some(v) ==> stored_models(v@) == old(self)@[*peer_id],
            final(self)@ == old(self)@.remove(*peer_id),
    {
        let q = self.queues.remove(peer_id);
        assert(self@ =~= old(self)@.remove(*peer_id));
        q
    }

    fn set_queue(&mut self, peer_id: PeerId, q: Vec<Stored>)
        ensures
            final(self)@ == old(self)@.insert(peer_id, stored_models(q@)),
    {
        let ghost v = q;
        self.queues.insert(peer_id, q);
        assert(self@ =~= old(self)@.insert(peer_id, stored_models(v@)));
    }

    /// Adds a payload to the end of a queue, unless the queue is full. Returns whether it was
    /// added.
    pub fn store(&mut self, peer_id: PeerId, entry: Stored, max: Option<usize>) -> (kept: bool)
        ensures
            kept == !queue_full(queue_of(old(self)@, peer_id), max),
            final(self)@ == if kept {
                old(self)@.insert(peer_id, queue_of(old(self)@, peer_id).push(entry@))
            } else {
                old(self)@
            },
    {
        let ghost m = self@;
        let ghost e = entry@;
        let waiting: usize = self.depth(&peer_id);
        let full = match max {
            Some(n) => waiting >= n,
            None => false,
        };
        if full {
            return false;
        }
        let mut q: Vec<Stored> = match self.take(&peer_id) {
            Some(q) => q,
            None => Vec::new(),
        };
        assert(stored_models(q@) =~= queue_of(m, peer_id));
        q.push(entry);
        assert(stored_models(q@) =~= queue_of(m, peer_id).push(e));
        self.set_queue(peer_id, q);
        assert(self@ =~= m.insert(peer_id, queue_of(m, peer_id).push(e)));
        true
    }

    /// Puts payloads back to the front of a queue.
    pub fn put_back(&mut self, peer_id: PeerId, entries: Vec<Stored>)
        ensures
            final(self)@ == after_put_back(old(self)@, peer_id, stored_models(entries@)),
    {
        let ghost m = self@;
        let ghost put = stored_models(entries@);
        if entries.len() == 0 {
            return;
        }
        let mut q: Vec<Stored> = entries;
        match self.take(&peer_id) {
            Some(newer) => {
                let mut rest = newer;
                let ghost tail = stored_models(newer@);
                let ghost head = q@;
                q.append(&mut rest);
                assert(stored_models(q@) =~= put + tail);
            },
            None => {
                assert(put + Seq::<StoredModel>::empty() =~= put);
            },
        }
        assert(stored_models(q@) =~= put + queue_of(m, peer_id));
        self.set_queue(peer_id, q);
        assert(self@ =~= after_put_back(m, peer_id, put));
    }

    /// The destinations that something waits for.
    pub fn destinations(&self) -> (ids: Vec<PeerId>)
        ensures
            lists_destinations(ids@, self@),
    {
        let total: usize = self.queues.len();
        let ghost pairs = self.queues.pairs();
        let mut ids: Vec<PeerId> = Vec::new();
        let mut i: usize = 0;
        while i < total
            invariant
                i <= total,
                total == pairs.len(),
                pairs == self.queues.pairs(),
                unique_keys(pairs),
                self.queues@ == pairs_map(pairs),
                ids@.len() == i,
                forall|k: int| 0 <= k < i ==> #[trigger] ids@[k] == pairs[k].0,
            decreases total - i,
        {
            ids.push(self.queues.at(i).0);
            i = i + 1;
        }
        proof {
            assert forall|p: PeerId| #[trigger] ids@.contains(p) <==> self@.dom().contains(p) by {
                if ids@.contains(p) {
                    let k = choose|k: int| 0 <= k < ids@.len() && ids@[k] == p;
                    lemma_key_pos(pairs, k);
                }
                if self@.dom().contains(p) {
                    assert(has_key(pairs, p));
                    let j = key_pos(pairs, p);
                    assert(ids@[j] == p);
                }
            }
        }
        ids
    }
}

/// The same payloads, last one first.
fn reversed(q: Vec<Stored>) -> (back: Vec<Stored>)
    ensures
        stored_models(back@) == stored_models(q@).reverse(),
{
    let ghost all = stored_models(q@);
    let ghost n = all.len();
    let mut rest = q;
    let mut back: Vec<Stored> = Vec::new();
    while rest.len() > 0
        invariant
            n == all.len(),
            rest@.len() + back@.len() == n,
            stored_models(rest@) == all.take(rest@.len() as int),
            forall|k: int| 0 <= k < back@.len() ==> (#[trigger] back@[k])@ == all[n - 1 - k],
        decreases rest@.len(),
    {
        let ghost before = rest@;
        match rest.pop() {
            Some(e) => {
                proof {
                    assert(e@ == stored_models(before)[before.len() - 1]);
                    assert(stored_models(rest@) =~= all.take(rest@.len() as int));
                }
                back.push(e);
            },
            None => {},
        }
    }
    assert(stored_models(back@) =~= all.reverse());
    back
}

/// Splits a queue into what has expired, of which the number is returned, and the rest.
pub fn split_expired(q: Vec<Stored>, now: u128, ttl: u128) -> (r: (usize, Vec<Stored>))
    ensures
        stored_models(r.1@) == live_part(stored_models(q@), now, ttl),
        r.0 + r.1@.len() == q@.len(),
{
    let ghost all = stored_models(q@);
    let n: usize = q.len();
    let mut back = reversed(q);
    let mut live: Vec<Stored> = Vec::new();
    let mut gone: usize = 0;
    assert(all.take(0) =~= Seq::<StoredModel>::empty());
    assert(stored_models(back@) =~= all.reverse().take(back@.len() as int));
    while back.len() > 0
        invariant
            n == all.len(),
            back@.len() <= n,
            stored_models(back@) == all.reverse().take(back@.len() as int),
            stored_models(live@) == live_part(all.take(n - back@.len()), now, ttl),
            gone + live@.len() + back@.len() == n,
        decreases back@.len(),
    {
        let ghost before = back@;
        let ghost i = n - before.len();
        match back.pop() {
            Some(e) => {
                proof {
                    assert(e@ == stored_models(before)[before.len() - 1]);
                    assert(e@ == all[i]);
                    assert(all.take(i + 1).drop_last() =~= all.take(i));
                    assert(all.take(i + 1).last() == all[i]);
                    assert(stored_models(back@) =~= all.reverse().take(back@.len() as int));
                }
                let ghost so_far = live@;
                if now > e.queued_at && now - e.queued_at > ttl {
                    gone = gone + 1;
                } else {
                    live.push(e);
                    assert(stored_models(live@) =~= stored_models(so_far).push(e@));
                }
            },
            None => {},
        }
    }
    assert(all.take(n as int) =~= all);
    (gone, live)
}

/// Keeps what of a queue was not delivered, in order.
pub fn keep_failed(q: Vec<Stored>, results: &Vec<bool>) -> (kept: Vec<Stored>)
    ensures
        stored_models(kept@) == failed_part(stored_models(q@), results@),
{
    let ghost all = stored_models(q@);
    let n: usize = q.len();
    let mut back = reversed(q);
    let mut kept: Vec<Stored> = Vec::new();
    assert(all.take(0) =~= Seq::<StoredModel>::empty());
    assert(stored_models(back@) =~= all.reverse().take(back@.len() as int));
    while back.len() > 0
        invariant
            n == all.len(),
            back@.len() <= n,
            stored_models(back@) == all.reverse().take(back@.len() as int),
            stored_models(kept@) == failed_part(all.take(n - back@.len()), results@),
        decreases back@.len(),
    {
        let ghost before = back@;
        let i: usize = n - back.len();
        match back.pop() {
            Some(e) => {
                proof {
                    assert(e@ == stored_models(before)[before.len() - 1]);
                    assert(e@ == all[i as int]);
                    assert(all.take(i + 1).drop_last() =~= all.take(i as int));
                    assert(all.take(i + 1).last() == all[i as int]);
                    assert(stored_models(back@) =~= all.reverse().take(back@.len() as int));
                }
                let ghost so_far = kept@;
                let delivered = i < results.len() && results[i];
                if !delivered {
                    kept.push(e);
                    assert(stored_models(kept@) =~= stored_models(so_far).push(e@));
                }
            },
            None => {},
        }
    }
    assert(all.take(n as int) =~= all);
    kept
}

/// Whether `a` is what is left of `b` after some of it was taken out: `at` says where each of
/// `a` stands in `b`, in order.
pub open spec fn picked_from(a: Seq<StoredModel>, b: Seq<StoredModel>, at: Seq<int>) -> bool {
    &&& at.len() == a.len()
    &&& forall|i: int| 0 <= i < a.len() ==> 0 <= #[trigger] at[i] < b.len() && a[i] == b[at[i]]
    &&& forall|i: int, j: int| 0 <= i < j < a.len() ==> #[trigger] at[i] < #[trigger] at[j]
}

/// What has not expired keeps its order.
proof fn lemma_live_picked(q: Seq<StoredModel>, now: u128, ttl: u128) -> (at: Seq<int>)
    ensures
        picked_from(live_part(q, now, ttl), q, at),
        forall|i: int| 0 <= i < at.len() ==> !expired(q[#[trigger] at[i]], now, ttl),
    decreases q.len(),
{
    if q.len() == 0 {
        Seq::empty()
    } else {
        let t = lemma_live_picked(q.drop_last(), now, ttl);
        if expired(q.last(), now, ttl) {
            t
        } else {
            t.push(q.len() - 1)
        }
    }
}

/// What was not delivered keeps its order.
proof fn lemma_failed_picked(q: Seq<StoredModel>, results: Seq<bool>) -> (at: Seq<int>)
    ensures
        picked_from(failed_part(q, results), q, at),
        forall|i: int| 0 <= i < at.len() ==> !succeeded(results, #[trigger] at[i]),
    decreases q.len(),
{
    if q.len() == 0 {
        Seq::empty()
    } else {
        let t = lemma_failed_picked(q.drop_last(), results);
        if succeeded(results, q.len() - 1) {
            t
        } else {
            t.push(q.len() - 1)
        }
    }
}

/// A drain keeps the order of what it does not deliver, and what it keeps has neither expired nor
/// was delivered.
pub proof fn law_drain_keeps_order(
    q: Seq<StoredModel>,
    now: u128,
    ttl: u128,
    results: Seq<bool>,
)
    ensures
        exists|at: Seq<int>|
            picked_from(failed_part(live_part(q, now, ttl), results), q, at) && forall|i: int|
                0 <= i < at.len() ==> !expired(q[#[trigger] at[i]], now, ttl),
{
    let live = live_part(q, now, ttl);
    let a = lemma_live_picked(q, now, ttl);
    let f = lemma_failed_picked(live, results);
    let at = Seq::new(f.len(), |i: int| a[f[i]]);
    assert forall|i: int| 0 <= i < at.len() implies 0 <= #[trigger] at[i] < q.len() && failed_part(
        live,
        results,
    )[i] == q[at[i]] && !expired(q[at[i]], now, ttl) by {
        assert(0 <= f[i] < live.len());
        assert(0 <= a[f[i]] < q.len());
    }
    assert forall|i: int, j: int| 0 <= i < j < at.len() implies #[trigger] at[i] < #[trigger] at[j] by {
        assert(f[i] < f[j]);
        assert(0 <= f[i] < live.len() && 0 <= f[j] < live.len());
        assert(a[f[i]] < a[f[j]]);
    }
    assert(picked_from(failed_part(live, results), q, at));
}

/// What a drain fails to deliver and has not expired stays as it was, and what it delivers is
/// gone.
pub proof fn law_drain_loses_nothing(
    q: Seq<StoredModel>,
    now: u128,
    ttl: u128,
    results: Seq<bool>,
)
    requires
        forall|i: int| 0 <= i < q.len() ==> !expired(#[trigger] q[i], now, ttl),
    ensures
        live_part(q, now, ttl) == q,
        (forall|i: int| 0 <= i < q.len() ==> !#[trigger] succeeded(results, i)) ==> failed_part(
            q,
            results,
        ) == q,
        (forall|i: int| 0 <= i < q.len() ==> #[trigger] succeeded(results, i)) ==> failed_part(
            q,
            results,
        ) == Seq::<StoredModel>::empty(),
    decreases q.len(),
{
    if q.len() > 0 {
        let t = q.drop_last();
        assert forall|i: int| 0 <= i < t.len() implies !expired(#[trigger] t[i], now, ttl) by {
            assert(t[i] == q[i]);
        }
        law_drain_loses_nothing(t, now, ttl, results);
        assert(!expired(q[q.len() - 1], now, ttl));
        assert(t.push(q.last()) =~= q);
    }
}

/// Storing keeps a queue within its bound.
pub proof fn law_store_respects_bound(q: Seq<StoredModel>, e: StoredModel, max: usize)
    requires
        q.len() <= max,
    ensures
        !queue_full(q, Some(max)) ==> q.push(e).len() <= max,
{
}

/// What a drain takes out to deliver are exactly the payloads whose time is not over, in order: a
/// payload is among them if and only if `now` is at most `ttl` after it was stored.
pub proof fn law_live_exactly_within_ttl(q: Seq<StoredModel>, now: u128, ttl: u128)
    ensures
        live_part(q, now, ttl) == q.filter(|e: StoredModel| now <= e.queued_at + ttl),
        (forall|i: int| 0 <= i < q.len() ==> now <= (#[trigger] q[i]).queued_at + ttl) ==> live_part(
            q,
            now,
            ttl,
        ) == q,
        (forall|i: int| 0 <= i < q.len() ==> now > (#[trigger] q[i]).queued_at + ttl) ==> live_part(
            q,
            now,
            ttl,
        ) == Seq::<StoredModel>::empty(),
    decreases q.len(),
{
    reveal(Seq::filter);
    if q.len() > 0 {
        let t = q.drop_last();
        law_live_exactly_within_ttl(t, now, ttl);
        assert(q[q.len() - 1] == q.last());
        assert(forall|i: int| 0 <= i < t.len() ==> t[i] == q[i]);
        assert(t.push(q.last()) =~= q);
    } else {
        assert(q =~= Seq::<StoredModel>::empty());
        assert(live_part(q, now, ttl) =~= q.filter(|e: StoredModel| now <= e.queued_at + ttl));
    }
}

/// A stored payload is among those that a drain takes out if and only if its time is not over.
pub proof fn law_payload_kept_until_ttl(q: Seq<StoredModel>, now: u128, ttl: u128, i: int)
    requires
        0 <= i < q.len(),
    ensures
        now <= q[i].queued_at + ttl ==> live_part(q, now, ttl).contains(q[i]),
        now > q[i].queued_at + ttl ==> !live_part(q, now, ttl).contains(q[i]),
    decreases q.len(),
{
    let live = live_part(q, now, ttl);
    let t = q.drop_last();
    let before = live_part(t, now, ttl);
    let at = lemma_live_picked(q, now, ttl);
    if now <= q[i].queued_at + ttl {
        if i == q.len() - 1 {
            assert(live[live.len() - 1] == q[i]);
        } else {
            law_payload_kept_until_ttl(t, now, ttl, i);
            let k = choose|k: int| 0 <= k < before.len() && before[k] == t[i];
            assert(live[k] == q[i]);
        }
    } else if live.contains(q[i]) {
        let k = choose|k: int| 0 <= k < live.len() && live[k] == q[i];
        assert(!expired(q[at[k]], now, ttl));
    }
}

/// What is put back after a drain are exactly the payloads that were not delivered, in order: `at`
/// says where each stood.
pub proof fn law_put_back_exactly_what_failed(q: Seq<StoredModel>, results: Seq<bool>) -> (at: Seq<
    int,
>)
    ensures
        at.len() == failed_part(q, results).len(),
        forall|k: int|
            0 <= k < at.len() ==> 0 <= #[trigger] at[k] < q.len() && failed_part(q, results)[k]
                == q[at[k]],
        forall|k: int, l: int| 0 <= k < l < at.len() ==> #[trigger] at[k] < #[trigger] at[l],
        forall|i: int|
            0 <= i < q.len() ==> (#[trigger] at.contains(i) <==> !(i < results.len() && results[i])),
    decreases q.len(),
{
    if q.len() == 0 {
        Seq::empty()
    } else {
        let n = q.len() - 1;
        let t = q.drop_last();
        let before = law_put_back_exactly_what_failed(t, results);
        let at = if n < results.len() && results[n] {
            before
        } else {
            before.push(n)
        };
        assert forall|i: int| 0 <= i < q.len() implies (#[trigger] at.contains(i) <==> !(i
            < results.len() && results[i])) by {
            if i < n {
                assert(before.contains(i) <==> !(i < results.len() && results[i]));
                if before.contains(i) {
                    let k = choose|k: int| 0 <= k < before.len() && before[k] == i;
                    assert(at[k] == i);
                }
                if at.contains(i) {
                    let k = choose|k: int| 0 <= k < at.len() && at[k] == i;
                    assert(before[k] == i);
                }
            } else if n < results.len() && results[n] {
                if at.contains(i) {
                    let k = choose|k: int| 0 <= k < at.len() && at[k] == i;
                    assert(0 <= before[k] < t.len());
                }
            } else {
                assert(at[before.len() as int] == i);
            }
        }
        at
    }
}

/// A queue takes every payload as long as it holds fewer than its bound, and without a bound it
/// takes every payload.
pub proof fn law_queue_full_exactly_at_bound(q: Seq<StoredModel>, max: usize)
    ensures
        queue_full(q, Some(max)) <==> q.len() >= max,
        !queue_full(q, None),
{
}

/// What is put back for a destination stands before all that has come for it since, and nothing
/// that waits for others changes.
pub proof fn law_put_back_comes_first(
    m: StoreModel,
    p: PeerId,
    entries: Seq<StoredModel>,
    other: PeerId,
)
    ensures
        ({
            let after = after_put_back(m, p, entries);
            let newer = if m.dom().contains(p) {
                m[p]
            } else {
                Seq::empty()
            };
            &&& entries.len() > 0 ==> after.dom().contains(p) && after[p] == entries + newer
            &&& entries.len() == 0 ==> after == m
            &&& other != p ==> (after.dom().contains(other) <==> m.dom().contains(other))
            &&& other != p ==> after[other] == m[other]
            &&& queue_of(m, p) == newer
        }),
{
}

/// The value of a queue has one entry for each payload, in order, with its identifier, its bytes
/// and the time at which it was stored.
pub proof fn law_queue_values(q: Seq<Stored>, i: int)
    requires
        0 <= i < q.len(),
    ensures
        stored_models(q).len() == q.len(),
        stored_models(q)[i].msg_id == q[i].msg_id,
        stored_models(q)[i].payload == q[i].payload@,
        stored_models(q)[i].queued_at == q[i].queued_at,
{
}

/// A list of destinations has each destination that something waits for once, and no other.
pub proof fn law_destinations_listed(ids: Seq<PeerId>, m: StoreModel, p: PeerId)
    requires
        lists_destinations(ids, m),
    ensures
        m.dom().contains(p) <==> exists|i: int| 0 <= i < ids.len() && ids[i] == p,
        forall|i: int, j: int|
            0 <= i < ids.len() && 0 <= j < ids.len() && i != j ==> ids[i] != ids[j],
{
    assert(ids.contains(p) <==> m.dom().contains(p));
}

} // verus!
