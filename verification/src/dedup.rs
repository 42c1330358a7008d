//! Suppression of messages that were already seen.

use vstd::prelude::*;

use crate::identity::PeerId;

verus! {

/// How long a message stays known, in nanoseconds: one minute.
pub const DEDUP_TTL: u128 = 60_000_000_000;

/// What a message is recognised by: its identifier, and for a message that was sent directly
/// also its sender.
pub type SeenKey = (Option<PeerId>, u64);

/// Whether something recorded at `at` is still within the window of `ttl` at time `now`. What
/// was recorded in the future of `now` is.
pub open spec fn fresh(at: u128, now: u128, ttl: u128) -> bool {
    now < at || now - at < ttl
}

/// The records of `m` that are still within the window.
pub open spec fn fresh_part(m: Map<SeenKey, u128>, now: u128, ttl: u128) -> Map<SeenKey, u128> {
    Map::new(|k: SeenKey| m.dom().contains(k) && fresh(m[k], now, ttl), |k: SeenKey| m[k])
}

/// The records after `k` was looked up at time `now`: stale ones are gone, and `k` is recorded
/// unless it was there.
pub open spec fn after_check(m: Map<SeenKey, u128>, k: SeenKey, now: u128, ttl: u128) -> Map<
    SeenKey,
    u128,
> {
    let live = fresh_part(m, now, ttl);
    if live.dom().contains(k) {
        live
    } else {
        live.insert(k, now)
    }
}

/// One record.
struct Seen {
    from: Option<PeerId>,
    id: u64,
    at: u128,
}

impl Seen {
    spec fn key(self) -> SeenKey {
        (self.from, self.id)
    }

    fn has_key(&self, from: &Option<PeerId>, id: u64) -> (r: bool)
        ensures
            r == (self.key() == (*from, id)),
    {
        if self.id != id {
            return false;
        }
        match (&self.from, from) {
            (Some(a), Some(b)) => a.same(b),
            (None, None) => true,
            _ => false,
        }
    }
}

spec fn seen_at(s: Seq<Seen>, k: SeenKey) -> int {
    choose|i: int| 0 <= i < s.len() && (#[trigger] s[i]).key() == k
}

spec fn seen_has(s: Seq<Seen>, k: SeenKey) -> bool {
    exists|i: int| 0 <= i < s.len() && (#[trigger] s[i]).key() == k
}

spec fn seen_unique(s: Seq<Seen>) -> bool {
    forall|i: int, j: int|
        0 <= i < s.len() && 0 <= j < s.len() && i != j ==> (#[trigger] s[i]).key() != (
        #[trigger] s[j]).key()
}

spec fn seen_map(s: Seq<Seen>) -> Map<SeenKey, u128> {
    Map::new(|k: SeenKey| seen_has(s, k), |k: SeenKey| s[seen_at(s, k)].at)
}

proof fn lemma_seen_at(s: Seq<Seen>, i: int)
    requires
        seen_unique(s),
        0 <= i < s.len(),
    ensures
        seen_has(s, s[i].key()),
        seen_at(s, s[i].key()) == i,
        seen_map(s).dom().contains(s[i].key()),
        seen_map(s)[s[i].key()] == s[i].at,
{
    let j = seen_at(s, s[i].key());
    assert(0 <= j < s.len() && s[j].key() == s[i].key());
}

/// `t` holds exactly the records of `s` that are fresh.
spec fn keeps_fresh(s: Seq<Seen>, t: Seq<Seen>, now: u128, ttl: u128) -> bool {
    &&& seen_unique(t)
    &&& forall|i: int|
        0 <= i < t.len() ==> fresh((#[trigger] t[i]).at, now, ttl) && exists|j: int|
            0 <= j < s.len() && #[trigger] s[j] == t[i]
    &&& forall|j: int|
        0 <= j < s.len() && fresh((#[trigger] s[j]).at, now, ttl) ==> exists|i: int|
            0 <= i < t.len() && #[trigger] t[i] == s[j]
}

proof fn lemma_keeps_fresh(s: Seq<Seen>, t: Seq<Seen>, now: u128, ttl: u128)
    requires
        seen_unique(s),
        keeps_fresh(s, t, now, ttl),
    ensures
        seen_map(t) == fresh_part(seen_map(s), now, ttl),
{
    let f = fresh_part(seen_map(s), now, ttl);
    assert forall|k: SeenKey| seen_has(t, k) == f.dom().contains(k) by {
        if seen_has(t, k) {
            let i = seen_at(t, k);
            assert(t[i].key() == k);
            let j = choose|j: int| 0 <= j < s.len() && #[trigger] s[j] == t[i];
            lemma_seen_at(s, j);
        }
        if f.dom().contains(k) {
            let j = seen_at(s, k);
            assert(s[j].key() == k);
            lemma_seen_at(s, j);
            let i = choose|i: int| 0 <= i < t.len() && #[trigger] t[i] == s[j];
            assert(t[i].key() == k);
        }
    }
    assert forall|k: SeenKey| seen_has(t, k) implies seen_map(t)[k] == f[k] by {
        let i = seen_at(t, k);
        assert(t[i].key() == k);
        let j = choose|j: int| 0 <= j < s.len() && #[trigger] s[j] == t[i];
        lemma_seen_at(s, j);
    }
    assert(seen_map(t) =~= f);
}

proof fn lemma_seen_push(s: Seq<Seen>, r: Seen)
    requires
        seen_unique(s),
        !seen_has(s, r.key()),
    ensures
        seen_unique(s.push(r)),
        seen_map(s.push(r)) == seen_map(s).insert(r.key(), r.at),
{
    let t = s.push(r);
    let k0 = r.key();
    assert forall|i: int, j: int|
        0 <= i < t.len() && 0 <= j < t.len() && i != j implies (#[trigger] t[i]).key() != (
    #[trigger] t[j]).key() by {
        if i < s.len() {
            assert(s[i].key() != k0);
        }
        if j < s.len() {
            assert(s[j].key() != k0);
        }
    }
    assert forall|k: SeenKey| seen_has(t, k) == (seen_has(s, k) || k == k0) by {
        if seen_has(t, k) {
            let i = seen_at(t, k);
            assert(t[i].key() == k);
            if i < s.len() {
                assert(s[i].key() == k);
            }
        }
        if seen_has(s, k) {
            let i = seen_at(s, k);
            assert(s[i].key() == k);
            assert(t[i].key() == k);
        }
        if k == k0 {
            assert(t[s.len() as int].key() == k);
        }
    }
    assert forall|k: SeenKey| seen_has(t, k) implies seen_map(t)[k] == seen_map(s).insert(
        k0,
        r.at,
    )[k] by {
        let i = seen_at(t, k);
        assert(t[i].key() == k);
        if i < s.len() {
            assert(s[i].key() == k);
            lemma_seen_at(s, i);
        }
    }
    assert(seen_map(t) =~= seen_map(s).insert(k0, r.at));
}

/// A set of records, each key at most once.
struct SeenSet {
    records: Vec<Seen>,
}

impl SeenSet {
    spec fn map(&self) -> Map<SeenKey, u128> {
        seen_map(self.records@)
    }

    #[verifier::type_invariant]
    spec fn unique(self) -> bool {
        seen_unique(self.records@)
    }

    fn new() -> (s: Self)
        ensures
            s.map() == Map::<SeenKey, u128>::empty(),
    {
        let s = SeenSet { records: Vec::new() };
        assert(s.map() =~= Map::<SeenKey, u128>::empty());
        s
    }

    /// Drops the stale records.
    fn evict(&mut self, now: u128, ttl: u128)
        ensures
            final(self).map() == fresh_part(old(self).map(), now, ttl),
    {
        proof {
            use_type_invariant(&*self);
        }
        let mut all: Vec<Seen> = Vec::new();
        std::mem::swap(&mut all, &mut self.records);
        let ghost s = all@;
        let mut kept: Vec<Seen> = Vec::new();
        let mut done: Ghost<int> = Ghost(s.len() as int);
        // Records are taken from the end, so `kept` holds the fresh ones of `s[done..]`.
        while all.len() > 0
            invariant
                seen_unique(s),
                0 <= done@ <= s.len(),
                all@ == s.take(done@),
                forall|i: int|
                    0 <= i < kept@.len() ==> fresh((#[trigger] kept@[i]).at, now, ttl) && exists|
                        j: int,
                    |
                        done@ <= j < s.len() && #[trigger] s[j] == kept@[i],
                forall|j: int|
                    done@ <= j < s.len() && fresh((#[trigger] s[j]).at, now, ttl) ==> exists|
                        i: int,
                    |
                        0 <= i < kept@.len() && #[trigger] kept@[i] == s[j],
                seen_unique(kept@),
            ensures
                done@ == 0,
            decreases all@.len(),
        {
            let ghost kept_before = kept@;
            let ghost at = done@ - 1;
            let last = all.pop();
            assert(last is Some);
            proof {
                done@ = at;
                assert(all@ =~= s.take(at));
            }
            if let Some(r) = last {
                assert(r == s[at]);
                if now < r.at || now - r.at < ttl {
                    proof {
                        assert forall|i: int| 0 <= i < kept_before.len() implies (
                        #[trigger] kept_before[i]).key() != r.key() by {
                            let j = choose|j: int|
                                done@ + 1 <= j < s.len() && #[trigger] s[j] == kept_before[i];
                            assert(s[j].key() != s[at].key());
                        }
                    }
                    kept.push(r);
                    proof {
                        assert forall|j: int|
                            done@ <= j < s.len() && fresh(
                                (#[trigger] s[j]).at,
                                now,
                                ttl,
                            ) implies exists|i: int|
                            0 <= i < kept@.len() && #[trigger] kept@[i] == s[j] by {
                            if j == at {
                                assert(kept@[kept_before.len() as int] == s[j]);
                            } else {
                                let i = choose|i: int|
                                    0 <= i < kept_before.len() && #[trigger] kept_before[i]
                                        == s[j];
                                assert(kept@[i] == s[j]);
                            }
                        }
                        assert forall|i: int| 0 <= i < kept@.len() implies fresh(
                            (#[trigger] kept@[i]).at,
                            now,
                            ttl,
                        ) && exists|j: int| done@ <= j < s.len() && #[trigger] s[j] == kept@[i] by {
                            if i < kept_before.len() {
                                assert(kept@[i] == kept_before[i]);
                            } else {
                                assert(s[at] == kept@[i]);
                            }
                        }
                    }
                }
            }
        }
        proof {
            assert(keeps_fresh(s, kept@, now, ttl));
            lemma_keeps_fresh(s, kept@, now, ttl);
        }
        self.records = kept;
    }

    /// Drops the stale records, then records the key unless it is there. Returns whether it was.
    fn check(&mut self, from: Option<PeerId>, id: u64, now: u128, ttl: u128) -> (seen: bool)
        ensures
            seen == fresh_part(old(self).map(), now, ttl).dom().contains((from, id)),
            final(self).map() == after_check(old(self).map(), (from, id), now, ttl),
    {
        self.evict(now, ttl);
        proof {
            use_type_invariant(&*self);
        }
        let ghost k: SeenKey = (from, id);
        let mut i: usize = 0;
        while i < self.records.len()
            invariant
                i <= self.records@.len(),
                k == (from, id),
                seen_unique(self.records@),
                self.map() == fresh_part(old(self).map(), now, ttl),
                forall|j: int| 0 <= j < i ==> (#[trigger] self.records@[j]).key() != k,
            decreases self.records@.len() - i,
        {
            if self.records[i].has_key(&from, id) {
                proof {
                    lemma_seen_at(self.records@, i as int);
                }
                return true;
            }
            i = i + 1;
        }
        let r = Seen { from, id, at: now };
        proof {
            assert(!seen_has(self.records@, r.key()));
            lemma_seen_push(self.records@, r);
        }
        let mut all: Vec<Seen> = Vec::new();
        std::mem::swap(&mut all, &mut self.records);
        all.push(r);
        self.records = all;
        false
    }
}

#[verifier::external_type_specification]
#[verifier::external_body]
pub struct ExInstant(std::time::Instant);

/// The nanoseconds by which the clock reading `to` is later than the reading `from`, as
/// `std::time::Instant` counts them.
pub uninterp spec fn nanos_between(from: std::time::Instant, to: std::time::Instant) -> u128;

/// Whether `now` is the time since `origin` at some reading of the clock.
pub open spec fn measured_from(origin: std::time::Instant, now: u128) -> bool {
    exists|at: std::time::Instant| now == #[trigger] nanos_between(origin, at)
}

/// Calls `std::time::Instant::now`. Nothing is claimed of the time it returns.
#[verifier::external_body]
fn clock_start() -> (origin: std::time::Instant)
{
    std::time::Instant::now()
}

/// Calls `std::time::Instant::elapsed`, in nanoseconds. Claimed: the result is the time from
/// `origin` to a reading of the clock. Nothing is claimed of when that reading is made.
#[verifier::external_body]
fn nanos_since(origin: &std::time::Instant) -> (now: u128)
    ensures
        exists|at: std::time::Instant| now == #[trigger] nanos_between(*origin, at),
{
    origin.elapsed().as_nanos()
}

/// Remembers which messages arrived recently, so that a retry whose acknowledgement was lost is
/// not delivered twice. Directly sent messages are recognised by sender and identifier, routed
/// ones by identifier alone, because the immediate sender of those is whichever relay was first.
pub struct DeduplicationCache {
    seen: SeenSet,
    seen_routed: SeenSet,
    ttl: u128,
    origin: std::time::Instant,
}

impl DeduplicationCache {
    /// When each directly sent message that is still remembered was first seen.
    pub closed spec fn direct(&self) -> Map<SeenKey, u128> {
        self.seen.map()
    }

    /// When each routed message that is still remembered was first seen.
    pub closed spec fn routed(&self) -> Map<SeenKey, u128> {
        self.seen_routed.map()
    }

    /// The length of the window.
    pub closed spec fn window(&self) -> u128 {
        self.ttl
    }

    /// The clock reading from which the cache counts time.
    pub closed spec fn origin(&self) -> std::time::Instant {
        self.origin
    }

    /// An empty cache with the standard window.
    pub fn new() -> (c: Self)
        ensures
            c.direct() == Map::<SeenKey, u128>::empty(),
            c.routed() == Map::<SeenKey, u128>::empty(),
            c.window() == DEDUP_TTL,
            c.window() == 60_000_000_000,
    {
        DeduplicationCache::with_ttl(DEDUP_TTL)
    }

    /// An empty cache with a window of `ttl` nanoseconds.
    pub fn with_ttl(ttl: u128) -> (c: Self)
        ensures
            c.direct() == Map::<SeenKey, u128>::empty(),
            c.routed() == Map::<SeenKey, u128>::empty(),
            c.window() == ttl,
    {
        DeduplicationCache {
            seen: SeenSet::new(),
            seen_routed: SeenSet::new(),
            ttl,
            origin: clock_start(),
        }
    }

    /// Nanoseconds since the cache was made.
    pub fn now(&self) -> (now: u128)
        ensures
            measured_from(self.origin(), now),
    {
        nanos_since(&self.origin)
    }

    /// Whether message `message_id` of `peer_id` was seen within the window that ends at `now`.
    /// If not, it is recorded as seen at `now`.
    pub fn check_and_insert_at(&mut self, peer_id: &PeerId, message_id: u64, now: u128) -> (seen:
        bool)
        ensures
            seen == fresh_part(old(self).direct(), now, old(self).window()).dom().contains(
                (Some(*peer_id), message_id),
            ),
            final(self).direct() == after_check(
                old(self).direct(),
                (Some(*peer_id), message_id),
                now,
                old(self).window(),
            ),
            final(self).routed() == old(self).routed(),
            final(self).window() == old(self).window(),
            final(self).origin() == old(self).origin(),
    {
        self.seen.check(Some(*peer_id), message_id, now, self.ttl)
    }

    /// Whether the routed message `message_id` was seen within the window that ends at `now`.
    /// If not, it is recorded as seen at `now`.
    pub fn check_and_insert_routed_at(&mut self, message_id: u64, now: u128) -> (seen: bool)
        ensures
            seen == fresh_part(old(self).routed(), now, old(self).window()).dom().contains(
                (None, message_id),
            ),
            final(self).routed() == after_check(
                old(self).routed(),
                (None, message_id),
                now,
                old(self).window(),
            ),
            final(self).direct() == old(self).direct(),
            final(self).window() == old(self).window(),
            final(self).origin() == old(self).origin(),
    {
        self.seen_routed.check(None, message_id, now, self.ttl)
    }

    /// `check_and_insert_at` at the present time.
    pub fn check_and_insert(&mut self, peer_id: &PeerId, message_id: u64) -> (seen: bool)
        ensures
            exists|now: u128|
                {
                    &&& measured_from(old(self).origin(), now)
                    &&& seen == #[trigger] fresh_part(
                        old(self).direct(),
                        now,
                        old(self).window(),
                    ).dom().contains((Some(*peer_id), message_id))
                    &&& final(self).direct() == after_check(
                        old(self).direct(),
                        (Some(*peer_id), message_id),
                        now,
                        old(self).window(),
                    )
                },
            final(self).routed() == old(self).routed(),
            final(self).window() == old(self).window(),
            final(self).origin() == old(self).origin(),
    {
        let now: u128 = self.now();
        self.check_and_insert_at(peer_id, message_id, now)
    }

    /// `check_and_insert_routed_at` at the present time.
    pub fn check_and_insert_routed(&mut self, message_id: u64) -> (seen: bool)
        ensures
            exists|now: u128|
                {
                    &&& measured_from(old(self).origin(), now)
                    &&& seen == #[trigger] fresh_part(
                        old(self).routed(),
                        now,
                        old(self).window(),
                    ).dom().contains((None, message_id))
                    &&& final(self).routed() == after_check(
                        old(self).routed(),
                        (None, message_id),
                        now,
                        old(self).window(),
                    )
                },
            final(self).direct() == old(self).direct(),
            final(self).window() == old(self).window(),
            final(self).origin() == old(self).origin(),
    {
        let now: u128 = self.now();
        self.check_and_insert_routed_at(message_id, now)
    }
}

/// The records of a cache: those of directly sent messages, then those of routed ones.
pub type SeenMaps = (Map<SeenKey, u128>, Map<SeenKey, u128>);

/// The records that `k` is looked up in: a key with a sender among the directly sent messages, a
/// key without among the routed ones.
pub open spec fn records_for(s: SeenMaps, k: SeenKey) -> Map<SeenKey, u128> {
    if k.0 is Some {
        s.0
    } else {
        s.1
    }
}

/// The records of a cache after `k` was looked up in it at time `now`.
pub open spec fn after_lookup(s: SeenMaps, k: SeenKey, now: u128, ttl: u128) -> SeenMaps {
    if k.0 is Some {
        (after_check(s.0, k, now, ttl), s.1)
    } else {
        (s.0, after_check(s.1, k, now, ttl))
    }
}

/// Whether `k` is found when it is looked up at time `now`.
pub open spec fn found(s: SeenMaps, k: SeenKey, now: u128, ttl: u128) -> bool {
    fresh_part(records_for(s, k), now, ttl).dom().contains(k)
}

/// The records of a cache that was empty, after a history of look-ups, each with its time.
pub open spec fn after_history(h: Seq<(SeenKey, u128)>, ttl: u128) -> SeenMaps
    decreases h.len(),
{
    if h.len() == 0 {
        (Map::empty(), Map::empty())
    } else {
        after_lookup(after_history(h.drop_last(), ttl), h.last().0, h.last().1, ttl)
    }
}

/// Whether look-up `i` of a history found its key.
pub open spec fn was_found(h: Seq<(SeenKey, u128)>, i: int, ttl: u128) -> bool {
    found(after_history(h.take(i), ttl), h[i].0, h[i].1, ttl)
}

/// Whether the times of a history never run backwards, and `now` is not before the last of them.
pub open spec fn in_time_order(h: Seq<(SeenKey, u128)>, now: u128) -> bool {
    &&& forall|i: int, j: int| 0 <= i < j < h.len() ==> (#[trigger] h[i]).1 <= (#[trigger] h[j]).1
    &&& forall|i: int| 0 <= i < h.len() ==> (#[trigger] h[i]).1 <= now
}

/// Whether a look-up of `k` less than the window before `now` did not find it.
pub open spec fn new_within_window(
    h: Seq<(SeenKey, u128)>,
    k: SeenKey,
    now: u128,
    ttl: u128,
) -> bool {
    exists|i: int|
        0 <= i < h.len() && (#[trigger] h[i]).0 == k && !was_found(h, i, ttl) && now - h[i].1 < ttl
}

/// A message is a duplicate if and only if, less than the window ago, a look-up of the same key
/// found it new. Look-ups that found it do not count, so none of them prolongs the window; nor do
/// look-ups of other keys.
pub proof fn law_duplicate_exactly_within_window_of_new(
    h: Seq<(SeenKey, u128)>,
    k: SeenKey,
    now: u128,
    ttl: u128,
)
    requires
        in_time_order(h, now),
    ensures
        found(after_history(h, ttl), k, now, ttl) <==> new_within_window(h, k, now, ttl),
{
    lemma_record_of_history(h, k, ttl);
    let m = records_for(after_history(h, ttl), k);
    if new_within_window(h, k, now, ttl) {
        let i = choose|i: int|
            0 <= i < h.len() && (#[trigger] h[i]).0 == k && !was_found(h, i, ttl) && now - h[i].1
                < ttl;
        assert(h[i].1 <= h.last().1) by {
            if i < h.len() - 1 {
                assert(h[i].1 <= h[h.len() - 1].1);
            }
        }
        assert(h[h.len() - 1].1 <= now);
        assert(h.last().1 - h[i].1 < ttl);
        assert(m.dom().contains(k) && m[k] >= h[i].1);
    }
}

/// What is recorded of a key after a history: the time of a look-up that found it new, and no
/// record is missing that is still within the window.
proof fn lemma_record_of_history(h: Seq<(SeenKey, u128)>, k: SeenKey, ttl: u128)
    requires
        forall|i: int, j: int|
            0 <= i < j < h.len() ==> (#[trigger] h[i]).1 <= (#[trigger] h[j]).1,
    ensures
        ({
            let m = records_for(after_history(h, ttl), k);
            &&& m.dom().contains(k) ==> exists|i: int|
                0 <= i < h.len() && (#[trigger] h[i]).0 == k && !was_found(h, i, ttl) && h[i].1
                    == m[k]
            &&& forall|i: int|
                0 <= i < h.len() && (#[trigger] h[i]).0 == k && !was_found(h, i, ttl)
                    && h.last().1 - h[i].1 < ttl ==> m.dom().contains(k) && m[k] >= h[i].1
        }),
    decreases h.len(),
{
    if h.len() > 0 {
        let t = h.drop_last();
        let n = h.len() - 1;
        let last = h.last();
        assert forall|i: int, j: int| 0 <= i < j < t.len() implies (#[trigger] t[i]).1 <= (
        #[trigger] t[j]).1 by {
            assert(h[i].1 <= h[j].1);
        }
        lemma_record_of_history(t, k, ttl);
        assert(h.take(n) =~= t);
        assert forall|i: int| 0 <= i < n implies was_found(t, i, ttl) == #[trigger] was_found(
            h,
            i,
            ttl,
        ) by {
            assert(t.take(i) =~= h.take(i));
        }
        let before = after_history(t, ttl);
        let m0 = records_for(before, k);
        let m = records_for(after_history(h, ttl), k);
        if m.dom().contains(k) {
            if m0.dom().contains(k) && m[k] == m0[k] {
                let i = choose|i: int|
                    0 <= i < t.len() && (#[trigger] t[i]).0 == k && !was_found(t, i, ttl) && t[i].1
                        == m0[k];
                assert(h[i].0 == k && !was_found(h, i, ttl) && h[i].1 == m[k]);
            } else {
                assert(h[n].0 == k && !was_found(h, n, ttl) && h[n].1 == m[k]);
            }
        }
        assert forall|i: int|
            0 <= i < h.len() && (#[trigger] h[i]).0 == k && !was_found(h, i, ttl) && h.last().1
                - h[i].1 < ttl implies m.dom().contains(k) && m[k] >= h[i].1 by {
            if i < n {
                assert(h[i].1 <= h[n].1);
                assert(t[i] == h[i]);
                assert(t.last().1 <= h[n].1) by {
                    assert(h[n - 1].1 <= h[n].1);
                }
                assert(t.last().1 - t[i].1 < ttl);
                assert(m0.dom().contains(k) && m0[k] >= h[i].1);
            }
        }
    }
}

/// A message that was new at `t1` is a duplicate as long as less than the window has passed.
pub proof fn law_duplicate_within_window(
    m: Map<SeenKey, u128>,
    k: SeenKey,
    t1: u128,
    t2: u128,
    ttl: u128,
)
    requires
        !fresh_part(m, t1, ttl).dom().contains(k),
        t1 <= t2,
        t2 - t1 < ttl,
    ensures
        fresh_part(after_check(m, k, t1, ttl), t2, ttl).dom().contains(k),
{
}

/// A message that was new at `t1` is new again once the window has passed.
pub proof fn law_redeliverable_after_window(
    m: Map<SeenKey, u128>,
    k: SeenKey,
    t1: u128,
    t2: u128,
    ttl: u128,
)
    requires
        !fresh_part(m, t1, ttl).dom().contains(k),
        t1 <= t2,
        t2 - t1 >= ttl,
    ensures
        !fresh_part(after_check(m, k, t1, ttl), t2, ttl).dom().contains(k),
{
}

/// A duplicate does not prolong its own window: what was recorded first stays recorded.
pub proof fn law_duplicate_does_not_refresh(m: Map<SeenKey, u128>, k: SeenKey, now: u128, ttl: u128)
    requires
        fresh_part(m, now, ttl).dom().contains(k),
    ensures
        after_check(m, k, now, ttl).dom().contains(k),
        after_check(m, k, now, ttl)[k] == m[k],
{
}

/// Looking up one message does not change whether another one is recognised at the same time.
pub proof fn law_messages_independent(
    m: Map<SeenKey, u128>,
    k: SeenKey,
    other: SeenKey,
    now: u128,
    ttl: u128,
)
    requires
        k != other,
    ensures
        fresh_part(after_check(m, k, now, ttl), now, ttl).dom().contains(other) == fresh_part(
            m,
            now,
            ttl,
        ).dom().contains(other),
{
}

/// What a look-up does to the records, key by key: exactly the records less than the window old
/// stay, as they were; the key that was looked up is recorded at `now` unless its own record
/// stays; and nothing else is recorded.
pub proof fn law_look_up_exact(
    m: Map<SeenKey, u128>,
    k: SeenKey,
    now: u128,
    ttl: u128,
    other: SeenKey,
)
    ensures
        fresh_part(m, now, ttl).dom().contains(k) <==> m.dom().contains(k) && (now < m[k] || now
            - m[k] < ttl),
        after_check(m, k, now, ttl).dom().contains(k),
        after_check(m, k, now, ttl)[k] == if m.dom().contains(k) && (now < m[k] || now - m[k]
            < ttl) {
            m[k]
        } else {
            now
        },
        other != k ==> {
            &&& after_check(m, k, now, ttl).dom().contains(other) <==> m.dom().contains(other) && (
            now < m[other] || now - m[other] < ttl)
            &&& after_check(m, k, now, ttl).dom().contains(other) ==> after_check(
                m,
                k,
                now,
                ttl,
            )[other] == m[other]
        },
{
}

/// What was never recorded is new at every time.
pub proof fn law_unrecorded_is_new(m: Map<SeenKey, u128>, k: SeenKey, now: u128, ttl: u128)
    requires
        !m.dom().contains(k),
    ensures
        !fresh_part(m, now, ttl).dom().contains(k),
{
}

/// A time is measured from an origin exactly if it is the time from the origin to a reading of the
/// clock.
pub proof fn law_measured_exact(origin: std::time::Instant, now: u128)
    ensures
        measured_from(origin, now) <==> exists|at: std::time::Instant|
            now == #[trigger] nanos_between(origin, at),
{
}

} // verus!
