//! What a node does with a whole history of messages: each is handled once within the window,
//! however often it arrives.

use vstd::prelude::*;

#[allow(unused_imports)]
use crate::dedup::{after_check, law_look_up_exact, SeenKey};
#[allow(unused_imports)]
use crate::dispatch::{
    dispatched, law_direct_message_handled, law_key_announcement_handled,
    law_routed_message_handled, law_sealed_message_handled, DispatchState, Outcome,
};
#[allow(unused_imports)]
use crate::frame::{id_of, key_of, lemma_id_of_bytes};
#[allow(unused_imports)]
use crate::identity::{blake3_digest, PeerId};
#[allow(unused_imports)]
use crate::wire::{be_u64, from_be_u64, law_be_u64_read_write};

verus! {

/// Bytes that have arrived: who sent them, and when.
pub struct Arrival {
    pub from: PeerId,
    pub bytes: Seq<u8>,
    pub at: u128,
}

/// The state of a node after all of `h` has arrived.
pub open spec fn after_arrivals(
    local: PeerId,
    private: Seq<u8>,
    st: DispatchState,
    h: Seq<Arrival>,
) -> DispatchState
    decreases h.len(),
{
    if h.len() == 0 {
        st
    } else {
        let last = h.last();
        dispatched(
            local,
            private,
            after_arrivals(local, private, st, h.drop_last()),
            last.from,
            last.bytes,
            last.at,
        ).0
    }
}

/// What comes of arrival `i` after all before it.
pub open spec fn outcome_at(
    local: PeerId,
    private: Seq<u8>,
    st: DispatchState,
    h: Seq<Arrival>,
    i: int,
) -> Outcome {
    dispatched(
        local,
        private,
        after_arrivals(local, private, st, h.take(i)),
        h[i].from,
        h[i].bytes,
        h[i].at,
    ).1
}

/// Whether time never runs backwards.
pub open spec fn in_time(h: Seq<Arrival>) -> bool {
    forall|i: int, j: int| 0 <= i < j < h.len() ==> (#[trigger] h[i]).at <= (#[trigger] h[j]).at
}

/// Whether bytes are a direct message.
pub open spec fn is_direct(m: Seq<u8>) -> bool {
    m.len() >= 9 && m[8] == 0
}

/// Whether arrival `i` is a direct message that an earlier one has delivered already: one of the
/// same sender with the same identifier that was delivered less than the window before.
pub open spec fn delivered_before(
    local: PeerId,
    private: Seq<u8>,
    st: DispatchState,
    h: Seq<Arrival>,
    i: int,
) -> bool {
    exists|j: int|
        {
            &&& 0 <= j < i
            &&& is_direct((#[trigger] h[j]).bytes)
            &&& h[j].from == h[i].from
            &&& h[j].bytes.subrange(0, 8) == h[i].bytes.subrange(0, 8)
            &&& outcome_at(local, private, st, h, j).deliver is Some
            &&& h[i].at - h[j].at < st.window
        }
}

proof fn lemma_in_time_without_last(h: Seq<Arrival>)
    requires
        in_time(h),
        h.len() > 0,
    ensures
        in_time(h.drop_last()),
{
    let t = h.drop_last();
    assert forall|i: int, j: int| 0 <= i < j < t.len() implies (#[trigger] t[i]).at <= (
    #[trigger] t[j]).at by {
        assert(h[i].at <= h[j].at);
    }
}

/// Two identifiers are the same exactly if their bytes are.
proof fn lemma_same_identifier(a: Seq<u8>, b: Seq<u8>)
    requires
        a.len() >= 8,
        b.len() >= 8,
    ensures
        from_be_u64(a) == from_be_u64(b) <==> a.subrange(0, 8) == b.subrange(0, 8),
{
    law_be_u64_read_write(a);
    law_be_u64_read_write(b);
    if a.subrange(0, 8) == b.subrange(0, 8) {
        assert forall|i: int| 0 <= i < 8 implies a[i] == b[i] by {
            assert(a.subrange(0, 8)[i] == b.subrange(0, 8)[i]);
        }
    }
}

/// The window stays, and only direct messages change what is on record of direct messages.
proof fn lemma_step(
    local: PeerId,
    private: Seq<u8>,
    st: DispatchState,
    from: PeerId,
    m: Seq<u8>,
    now: u128,
)
    ensures
        ({
            let after = dispatched(local, private, st, from, m, now).0;
            &&& after.window == st.window
            &&& !is_direct(m) ==> after.direct == st.direct
            &&& !looked_up_routed(local, m) ==> after.routed == st.routed
            &&& looked_up_routed(local, m) ==> after.routed == after_check(
                st.routed,
                (None, from_be_u64(m)),
                now,
                st.window,
            )
        }),
{
    if m.len() >= 42 && m[8] == 1 {
        law_routed_message_handled(local, private, st, from, m, now);
    }
    if m.len() >= 74 && m[8] == 3 {
        lemma_id_of_bytes(m.subrange(42, 74));
        law_sealed_message_handled(
            local,
            private,
            st,
            from,
            m,
            now,
            id_of(m.subrange(42, 74)),
        );
    }
    if m.len() >= 74 && m[8] == 2 {
        lemma_id_of_bytes(m.subrange(9, 41));
        lemma_key_of_bytes(m.subrange(41, 73));
        law_key_announcement_handled(
            local,
            private,
            st,
            from,
            m,
            now,
            id_of(m.subrange(9, 41)),
            key_of(m.subrange(41, 73)),
        );
    }
}

/// Every 32 bytes are a key.
proof fn lemma_key_of_bytes(b: Seq<u8>)
    requires
        b.len() == 32,
    ensures
        key_of(b)@ == b,
{
    let k: [u8; 32] = [
        b[0], b[1], b[2], b[3], b[4], b[5], b[6], b[7],
        b[8], b[9], b[10], b[11], b[12], b[13], b[14], b[15],
        b[16], b[17], b[18], b[19], b[20], b[21], b[22], b[23],
        b[24], b[25], b[26], b[27], b[28], b[29], b[30], b[31],
    ];
    assert(k@ =~= b);
}

/// What is on record of a direct message after a history.
proof fn lemma_direct_record(
    local: PeerId,
    private: Seq<u8>,
    st: DispatchState,
    h: Seq<Arrival>,
    k: SeenKey,
)
    requires
        in_time(h),
        st.direct == Map::<SeenKey, u128>::empty(),
    ensures
        ({
            let s = after_arrivals(local, private, st, h);
            &&& s.window == st.window
            &&& s.direct.dom().contains(k) ==> exists|i: int|
                {
                    &&& 0 <= i < h.len()
                    &&& is_direct((#[trigger] h[i]).bytes)
                    &&& k == (Some(h[i].from), from_be_u64(h[i].bytes))
                    &&& outcome_at(local, private, st, h, i).deliver is Some
                    &&& h[i].at == s.direct[k]
                }
            &&& forall|i: int|
                {
                    &&& 0 <= i < h.len()
                    &&& is_direct((#[trigger] h[i]).bytes)
                    &&& k == (Some(h[i].from), from_be_u64(h[i].bytes))
                    &&& outcome_at(local, private, st, h, i).deliver is Some
                    &&& h.last().at - h[i].at < st.window
                } ==> s.direct.dom().contains(k) && s.direct[k] >= h[i].at
        }),
    decreases h.len(),
{
    if h.len() > 0 {
        let t = h.drop_last();
        let n = h.len() - 1;
        let last = h.last();
        lemma_in_time_without_last(h);
        lemma_direct_record(local, private, st, t, k);
        assert(h.take(n) =~= t);
        assert forall|i: int| 0 <= i < n implies outcome_at(local, private, st, t, i)
            == #[trigger] outcome_at(local, private, st, h, i) by {
            assert(t.take(i) =~= h.take(i));
        }
        let before = after_arrivals(local, private, st, t);
        let s = after_arrivals(local, private, st, h);
        lemma_step(local, private, before, last.from, last.bytes, last.at);
        let key: SeenKey = (Some(last.from), from_be_u64(last.bytes));
        if is_direct(last.bytes) {
            law_direct_message_handled(
                local,
                private,
                before,
                last.from,
                last.bytes,
                last.at,
            );
            law_look_up_exact(before.direct, key, last.at, before.window, k);
        }
        if s.direct.dom().contains(k) {
            if before.direct.dom().contains(k) && s.direct[k] == before.direct[k] {
                let i = choose|i: int|
                    {
                        &&& 0 <= i < t.len()
                        &&& is_direct((#[trigger] t[i]).bytes)
                        &&& k == (Some(t[i].from), from_be_u64(t[i].bytes))
                        &&& outcome_at(local, private, st, t, i).deliver is Some
                        &&& t[i].at == before.direct[k]
                    };
                assert(h[i] == t[i]);
                assert(outcome_at(local, private, st, h, i).deliver is Some);
            } else {
                assert(h[n] == last);
                assert(outcome_at(local, private, st, h, n).deliver is Some);
            }
        }
        assert forall|i: int|
            {
                &&& 0 <= i < h.len()
                &&& is_direct((#[trigger] h[i]).bytes)
                &&& k == (Some(h[i].from), from_be_u64(h[i].bytes))
                &&& outcome_at(local, private, st, h, i).deliver is Some
                &&& h.last().at - h[i].at < st.window
            } implies s.direct.dom().contains(k) && s.direct[k] >= h[i].at by {
            if i < n {
                assert(t[i] == h[i]);
                assert(outcome_at(local, private, st, t, i).deliver is Some);
                assert(t.last() == h[n - 1]);
                assert(h[n - 1].at <= h[n].at);
                assert(h[i].at <= h[n].at);
                assert(before.direct.dom().contains(k) && before.direct[k] >= h[i].at);
            } else {
                assert(h[n] == last);
            }
        }
    }
}

/// Over any history that starts with no direct message on record, a direct message is delivered
/// exactly if no earlier one of the same sender with the same identifier was delivered less than
/// the window before, and then its payload is delivered in its sender's name.
pub proof fn law_direct_message_delivered_once_per_window(
    local: PeerId,
    private: Seq<u8>,
    st: DispatchState,
    h: Seq<Arrival>,
    i: int,
)
    requires
        in_time(h),
        st.direct == Map::<SeenKey, u128>::empty(),
        0 <= i < h.len(),
        is_direct(h[i].bytes),
    ensures
        outcome_at(local, private, st, h, i).deliver == (if delivered_before(
            local,
            private,
            st,
            h,
            i,
        ) {
            None
        } else {
            Some((h[i].from, h[i].bytes.skip(9)))
        }),
{
    let t = h.take(i);
    let k: SeenKey = (Some(h[i].from), from_be_u64(h[i].bytes));
    assert(in_time(t)) by {
        assert forall|a: int, b: int| 0 <= a < b < t.len() implies (#[trigger] t[a]).at <= (
        #[trigger] t[b]).at by {
            assert(h[a].at <= h[b].at);
        }
    }
    assert forall|j: int| 0 <= j < i implies outcome_at(local, private, st, t, j)
        == #[trigger] outcome_at(local, private, st, h, j) by {
        assert(t.take(j) =~= h.take(j));
    }
    lemma_direct_record(local, private, st, t, k);
    let s = after_arrivals(local, private, st, t);
    law_direct_message_handled(local, private, s, h[i].from, h[i].bytes, h[i].at);
    let seen = s.direct.dom().contains(k) && (h[i].at < s.direct[k] || h[i].at - s.direct[k]
        < s.window);
    if seen {
        let j = choose|j: int|
            {
                &&& 0 <= j < t.len()
                &&& is_direct((#[trigger] t[j]).bytes)
                &&& k == (Some(t[j].from), from_be_u64(t[j].bytes))
                &&& outcome_at(local, private, st, t, j).deliver is Some
                &&& t[j].at == s.direct[k]
            };
        assert(t[j] == h[j]);
        assert(h[j].at <= h[i].at);
        lemma_same_identifier(h[j].bytes, h[i].bytes);
        assert(outcome_at(local, private, st, h, j).deliver is Some);
        assert(delivered_before(local, private, st, h, i));
    }
    if delivered_before(local, private, st, h, i) {
        let j = choose|j: int|
            {
                &&& 0 <= j < i
                &&& is_direct((#[trigger] h[j]).bytes)
                &&& h[j].from == h[i].from
                &&& h[j].bytes.subrange(0, 8) == h[i].bytes.subrange(0, 8)
                &&& outcome_at(local, private, st, h, j).deliver is Some
                &&& h[i].at - h[j].at < st.window
            };
        lemma_same_identifier(h[j].bytes, h[i].bytes);
        assert(t[j] == h[j]);
        assert(outcome_at(local, private, st, t, j).deliver is Some);
        assert(t.last() == h[i - 1]);
        assert(h[i - 1].at <= h[i].at);
        assert(h[j].at <= h[i].at);
        assert(s.direct.dom().contains(k) && s.direct[k] >= h[j].at);
        assert(seen);
    }
}

/// Whether bytes are a message that is recognised by its identifier alone: one that is relayed
/// and has arrived or has hops left, or a genuine key announcement.
pub open spec fn looked_up_routed(local: PeerId, m: Seq<u8>) -> bool {
    ||| m.len() >= 42 && m[8] == 1 && (m.subrange(9, 41) == local@ || m[41] > 0)
    ||| m.len() >= 74 && m[8] == 3 && (m.subrange(9, 41) == local@ || m[41] > 0)
    ||| m.len() >= 74 && m[8] == 2 && blake3_digest(m.subrange(41, 73)) == m.subrange(9, 41)
}

/// Whether one of the arrivals `h` marked as news has the identifier of `m` and came less than the
/// window before `now`.
pub open spec fn news_within(
    window: u128,
    h: Seq<Arrival>,
    news: Seq<bool>,
    m: Seq<u8>,
    now: u128,
) -> bool {
    exists|j: int|
        {
            &&& 0 <= j < h.len()
            &&& #[trigger] news[j]
            &&& h[j].bytes.subrange(0, 8) == m.subrange(0, 8)
            &&& now - h[j].at < window
        }
}

/// Which arrivals are news: those that are recognised by their identifier and come when none with
/// the same identifier was news less than the window before.
pub open spec fn news_of(local: PeerId, window: u128, h: Seq<Arrival>) -> Seq<bool>
    decreases h.len(),
{
    if h.len() == 0 {
        Seq::empty()
    } else {
        let t = h.drop_last();
        let before = news_of(local, window, t);
        before.push(
            looked_up_routed(local, h.last().bytes) && !news_within(
                window,
                t,
                before,
                h.last().bytes,
                h.last().at,
            ),
        )
    }
}

/// Whether arrival `i` is news.
pub open spec fn is_news(local: PeerId, window: u128, h: Seq<Arrival>, i: int) -> bool {
    news_of(local, window, h)[i]
}

/// Whether an arrival is news does not depend on what comes after it.
proof fn lemma_news_prefix(local: PeerId, window: u128, h: Seq<Arrival>, n: int)
    requires
        0 <= n <= h.len(),
    ensures
        news_of(local, window, h).len() == h.len(),
        news_of(local, window, h.take(n)) == news_of(local, window, h).take(n),
    decreases h.len(),
{
    let f = news_of(local, window, h);
    if h.len() == 0 {
        assert(h.take(n) =~= h);
        assert(f.take(n) =~= f);
    } else if n == h.len() {
        lemma_news_prefix(local, window, h.drop_last(), 0);
        assert(h.take(n) =~= h);
        assert(f.take(n) =~= f);
    } else {
        let t = h.drop_last();
        lemma_news_prefix(local, window, t, n);
        assert(t.take(n) =~= h.take(n));
        assert(f.take(n) =~= news_of(local, window, t).take(n));
    }
}

/// Whether an arrival is news, told from those before it.
proof fn lemma_news_at(local: PeerId, window: u128, h: Seq<Arrival>, i: int)
    requires
        0 <= i < h.len(),
    ensures
        is_news(local, window, h, i) == (looked_up_routed(local, h[i].bytes) && !news_within(
            window,
            h.take(i),
            news_of(local, window, h.take(i)),
            h[i].bytes,
            h[i].at,
        )),
{
    lemma_news_prefix(local, window, h, i + 1);
    let u = h.take(i + 1);
    assert(u.drop_last() =~= h.take(i));
    lemma_news_prefix(local, window, u, 0);
    assert(news_of(local, window, u)[i] == news_of(local, window, h)[i]);
    lemma_news_prefix(local, window, h.take(i), 0);
}

/// What is on record of a routed message after a history.
proof fn lemma_routed_record(
    local: PeerId,
    private: Seq<u8>,
    st: DispatchState,
    h: Seq<Arrival>,
    id: u64,
)
    requires
        in_time(h),
        st.routed == Map::<SeenKey, u128>::empty(),
    ensures
        ({
            let s = after_arrivals(local, private, st, h);
            let k: SeenKey = (None, id);
            &&& s.window == st.window
            &&& s.routed.dom().contains(k) ==> exists|i: int|
                {
                    &&& 0 <= i < h.len()
                    &&& #[trigger] is_news(local, st.window, h, i)
                    &&& id == from_be_u64(h[i].bytes)
                    &&& h[i].at == s.routed[k]
                }
            &&& forall|i: int|
                {
                    &&& 0 <= i < h.len()
                    &&& #[trigger] is_news(local, st.window, h, i)
                    &&& id == from_be_u64(h[i].bytes)
                    &&& h.last().at - h[i].at < st.window
                } ==> s.routed.dom().contains(k) && s.routed[k] >= h[i].at
        }),
    decreases h.len(), 0int,
{
    if h.len() > 0 {
        let t = h.drop_last();
        let n = h.len() - 1;
        let last = h.last();
        let w = st.window;
        let k: SeenKey = (None, id);
        lemma_in_time_without_last(h);
        lemma_routed_record(local, private, st, t, id);
        assert(h.take(n) =~= t);
        lemma_news_prefix(local, w, h, n);
        lemma_news_at(local, w, h, n);
        let before = after_arrivals(local, private, st, t);
        let s = after_arrivals(local, private, st, h);
        lemma_step(local, private, before, last.from, last.bytes, last.at);
        assert(h[n] == last);
        let key: SeenKey = (None, from_be_u64(last.bytes));
        if looked_up_routed(local, last.bytes) {
            law_look_up_exact(before.routed, key, last.at, w, k);
            if key == k {
                lemma_seen_is_no_news(local, private, st, h, n);
            }
        }
        if s.routed.dom().contains(k) {
            if before.routed.dom().contains(k) && s.routed[k] == before.routed[k] {
                let i = choose|i: int|
                    {
                        &&& 0 <= i < t.len()
                        &&& #[trigger] is_news(local, w, t, i)
                        &&& id == from_be_u64(t[i].bytes)
                        &&& t[i].at == before.routed[k]
                    };
                assert(h[i] == t[i]);
                assert(is_news(local, w, h, i));
            } else {
                assert(is_news(local, w, h, n));
            }
        }
        assert forall|i: int|
            {
                &&& 0 <= i < h.len()
                &&& #[trigger] is_news(local, w, h, i)
                &&& id == from_be_u64(h[i].bytes)
                &&& h.last().at - h[i].at < w
            } implies s.routed.dom().contains(k) && s.routed[k] >= h[i].at by {
            if i < n {
                assert(t[i] == h[i]);
                assert(is_news(local, w, t, i));
                assert(t.last() == h[n - 1]);
                assert(h[n - 1].at <= h[n].at);
                assert(h[i].at <= h[n].at);
                assert(before.routed.dom().contains(k) && before.routed[k] >= h[i].at);
            } else {
                assert(looked_up_routed(local, last.bytes));
            }
        }
    }
}

/// A message that is recognised by its identifier finds a record of it less than the window old
/// exactly if it is no news.
proof fn lemma_seen_is_no_news(
    local: PeerId,
    private: Seq<u8>,
    st: DispatchState,
    h: Seq<Arrival>,
    i: int,
)
    requires
        in_time(h),
        st.routed == Map::<SeenKey, u128>::empty(),
        0 <= i < h.len(),
        looked_up_routed(local, h[i].bytes),
    ensures
        ({
            let s = after_arrivals(local, private, st, h.take(i));
            let k: SeenKey = (None, from_be_u64(h[i].bytes));
            &&& s.window == st.window
            &&& (s.routed.dom().contains(k) && (h[i].at < s.routed[k] || h[i].at - s.routed[k]
                < st.window)) <==> !is_news(local, st.window, h, i)
        }),
    decreases i, 1int,
{
    let t = h.take(i);
    let w = st.window;
    lemma_news_at(local, w, h, i);
    let id = from_be_u64(h[i].bytes);
    let k: SeenKey = (None, id);
    assert(in_time(t)) by {
        assert forall|a: int, b: int| 0 <= a < b < t.len() implies (#[trigger] t[a]).at <= (
        #[trigger] t[b]).at by {
            assert(h[a].at <= h[b].at);
        }
    }
    lemma_routed_record(local, private, st, t, id);
    let s = after_arrivals(local, private, st, t);
    if s.routed.dom().contains(k) && (h[i].at < s.routed[k] || h[i].at - s.routed[k] < w) {
        let j = choose|j: int|
            {
                &&& 0 <= j < t.len()
                &&& #[trigger] is_news(local, w, t, j)
                &&& id == from_be_u64(t[j].bytes)
                &&& t[j].at == s.routed[k]
            };
        assert(t[j] == h[j]);
        assert(h[j].at <= h[i].at);
        lemma_news_at(local, w, t, j);
        lemma_same_identifier(h[j].bytes, h[i].bytes);
        assert(news_of(local, w, t)[j]);
        assert(news_within(w, t, news_of(local, w, t), h[i].bytes, h[i].at));
    }
    if !is_news(local, w, h, i) {
        let j = choose|j: int|
            {
                &&& 0 <= j < t.len()
                &&& #[trigger] news_of(local, w, t)[j]
                &&& t[j].bytes.subrange(0, 8) == h[i].bytes.subrange(0, 8)
                &&& h[i].at - t[j].at < w
            };
        assert(t[j] == h[j]);
        assert(is_news(local, w, t, j));
        lemma_news_at(local, w, t, j);
        lemma_same_identifier(h[j].bytes, h[i].bytes);
        assert(t.last() == h[i - 1]);
        assert(h[i - 1].at <= h[i].at);
        assert(h[j].at <= h[i].at);
        assert(s.routed.dom().contains(k) && s.routed[k] >= h[j].at);
    }
}

/// Over any history that starts with no routed message on record, something comes of a message
/// that is recognised by its identifier exactly if no earlier one with the same identifier, from
/// whomever, was news less than the window before. Then a routed message is delivered where it is
/// for, with its payload, and passed on anywhere else; so is a sealed one; and a genuine key
/// announcement is passed on as long as it has hops left.
pub proof fn law_routed_message_handled_once_per_window(
    local: PeerId,
    private: Seq<u8>,
    st: DispatchState,
    h: Seq<Arrival>,
    i: int,
)
    requires
        in_time(h),
        st.routed == Map::<SeenKey, u128>::empty(),
        0 <= i < h.len(),
        looked_up_routed(local, h[i].bytes),
    ensures
        ({
            let m = h[i].bytes;
            let out = outcome_at(local, private, st, h, i);
            let here = m.subrange(9, 41) == local@;
            let news = is_news(local, st.window, h, i);
            &&& !news ==> out.deliver is None && out.relay is None && out.learned is None
            &&& news && m[8] == 1 && here ==> out.deliver == Some((h[i].from, m.skip(42)))
            &&& news && (m[8] == 1 || m[8] == 3) && !here ==> out.relay is Some
            &&& news && m[8] == 2 && m[73] > 0 ==> out.relay is Some
        }),
{
    let m = h[i].bytes;
    let s = after_arrivals(local, private, st, h.take(i));
    lemma_seen_is_no_news(local, private, st, h, i);
    if m[8] == 1 {
        law_routed_message_handled(local, private, s, h[i].from, m, h[i].at);
    } else if m[8] == 3 {
        lemma_id_of_bytes(m.subrange(42, 74));
        law_sealed_message_handled(
            local,
            private,
            s,
            h[i].from,
            m,
            h[i].at,
            id_of(m.subrange(42, 74)),
        );
    } else {
        lemma_id_of_bytes(m.subrange(9, 41));
        lemma_key_of_bytes(m.subrange(41, 73));
        law_key_announcement_handled(
            local,
            private,
            s,
            h[i].from,
            m,
            h[i].at,
            id_of(m.subrange(9, 41)),
            key_of(m.subrange(41, 73)),
        );
    }
}

} // verus!
