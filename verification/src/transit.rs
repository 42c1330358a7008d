//! What comes of the frames of several messages that share a link.

use vstd::prelude::*;

#[allow(unused_imports)]
use crate::bundle::{
    bundle_parsed, carries, carries_pieces, carries_whole, collecting, covers, feed,
    fragment_fields, lemma_one_piece, next_number, numbers_below, reads_as, receive, with_piece,
    PendingMap, Received,
};
#[allow(unused_imports)]
use crate::reassembly::{collects, Fragment};

verus! {

/// A message on its way: the number of its bundles, its frames, and what it says.
pub struct Sent {
    pub seq: u64,
    pub frames: Seq<Seq<u8>>,
    pub payload: Seq<u8>,
}

/// Every message can be put together from its frames, and no two have the same number.
pub open spec fn all_sent(ms: Seq<Sent>) -> bool {
    &&& forall|i: int|
        0 <= i < ms.len() ==> carries((#[trigger] ms[i]).frames, ms[i].seq, ms[i].payload)
    &&& forall|i: int, j: int|
        0 <= i < ms.len() && 0 <= j < ms.len() && i != j ==> (#[trigger] ms[i]).seq != (
        #[trigger] ms[j]).seq
}

/// The frames of message `i` among those that arrived, in the order of arrival. An arrival is the
/// number of a message and the number of one of its frames.
pub open spec fn arrived_of(arrivals: Seq<(int, int)>, i: int) -> Seq<int>
    decreases arrivals.len(),
{
    if arrivals.len() == 0 {
        Seq::empty()
    } else {
        let before = arrived_of(arrivals.drop_last(), i);
        if arrivals.last().0 == i {
            before.push(arrivals.last().1)
        } else {
            before
        }
    }
}

/// Whether all frames of message `i` have arrived.
pub open spec fn all_arrived(ms: Seq<Sent>, arrivals: Seq<(int, int)>, i: int) -> bool {
    covers(arrived_of(arrivals, i), ms[i].frames.len() as int)
}

/// Whether every arrival is a frame of one of the messages.
pub open spec fn arrivals_known(ms: Seq<Sent>, arrivals: Seq<(int, int)>) -> bool {
    forall|k: int|
        0 <= k < arrivals.len() ==> 0 <= (#[trigger] arrivals[k]).0 < ms.len() && 0 <= arrivals[k].1
            < ms[arrivals[k].0].frames.len()
}

/// Whether nothing of a message arrives once all of it has.
pub open spec fn none_after_all(ms: Seq<Sent>, arrivals: Seq<(int, int)>) -> bool {
    forall|k: int|
        0 <= k < arrivals.len() ==> !all_arrived(
            ms,
            arrivals.take(k),
            (#[trigger] arrivals[k]).0,
        )
}

/// The frames that arrived.
pub open spec fn frames_at(ms: Seq<Sent>, arrivals: Seq<(int, int)>) -> Seq<Seq<u8>> {
    arrivals.map_values(|a: (int, int)| ms[a.0].frames[a.1])
}

/// What the last arrival gives: the message, if nothing of it is missing any more.
pub open spec fn last_gives(ms: Seq<Sent>, arrivals: Seq<(int, int)>) -> Received {
    if all_arrived(ms, arrivals, arrivals.last().0) {
        Received::Payload(ms[arrivals.last().0].payload)
    } else {
        Received::More
    }
}

/// Whether message `i` is given out with arrival `k` and with no other.
pub open spec fn given_once(
    arrivals: Seq<(int, int)>,
    outcomes: Seq<Received>,
    i: int,
    k: int,
    payload: Seq<u8>,
) -> bool {
    &&& 0 <= k < arrivals.len()
    &&& arrivals[k].0 == i
    &&& outcomes[k] == Received::Payload(payload)
    &&& forall|other: int|
        0 <= other < arrivals.len() && other != k && (#[trigger] arrivals[other]).0 == i
            ==> outcomes[other] is More
}

/// The pieces in which a message travels, if it does not travel whole.
spec fn pieces_of(m: Sent) -> Seq<Fragment> {
    choose|c: Seq<Fragment>| carries_pieces(m.frames, m.seq, m.payload, c)
}

/// What is pending of a message of which the frames `arrived` have arrived.
spec fn message_pending(pending: PendingMap, m: Sent, arrived: Seq<int>) -> bool {
    let c = pieces_of(m);
    if carries_whole(m.frames, m.seq, m.payload) || arrived.len() == 0 || covers(
        arrived,
        m.frames.len() as int,
    ) {
        !pending.dom().contains(m.seq)
    } else {
        &&& pending.dom().contains(m.seq)
        &&& pending[m.seq].total == m.payload.len() as u64
        &&& collects(pending[m.seq].fragments, c)
        &&& forall|j: int|
            0 <= j < c.len() ==> (pending[m.seq].fragments.contains(#[trigger] c[j])
                <==> arrived.contains(j))
    }
}

/// What is pending of each message, while all else is as it was.
spec fn transit_pending(
    before: PendingMap,
    ms: Seq<Sent>,
    arrivals: Seq<(int, int)>,
    after: PendingMap,
) -> bool {
    &&& forall|s: u64|
        (forall|i: int| 0 <= i < ms.len() ==> (#[trigger] ms[i]).seq != s) ==> (
        #[trigger] after.dom().contains(s) <==> before.dom().contains(s)) && after[s] == before[s]
    &&& forall|i: int|
        0 <= i < ms.len() ==> message_pending(after, #[trigger] ms[i], arrived_of(arrivals, i))
}

/// The frames that arrived of a message are frames of it.
proof fn lemma_arrived_below(ms: Seq<Sent>, arrivals: Seq<(int, int)>, i: int)
    requires
        arrivals_known(ms, arrivals),
        0 <= i < ms.len(),
    ensures
        numbers_below(arrived_of(arrivals, i), ms[i].frames.len() as int),
    decreases arrivals.len(),
{
    if arrivals.len() > 0 {
        lemma_known_without_last(ms, arrivals);
        lemma_arrived_below(ms, arrivals.drop_last(), i);
        assert(arrivals[arrivals.len() - 1] == arrivals.last());
    }
}

/// What holds of all arrivals holds without the last of them.
proof fn lemma_known_without_last(ms: Seq<Sent>, arrivals: Seq<(int, int)>)
    requires
        arrivals_known(ms, arrivals),
        arrivals.len() > 0,
    ensures
        arrivals_known(ms, arrivals.drop_last()),
{
    let t = arrivals.drop_last();
    assert forall|k: int| 0 <= k < t.len() implies 0 <= (#[trigger] t[k]).0 < ms.len() && 0
        <= t[k].1 < ms[t[k].0].frames.len() by {
        assert(t[k] == arrivals[k]);
    }
}

/// Nothing of a message arrives once all of it has: that holds of the last arrival, and without
/// it.
proof fn lemma_none_after_without_last(ms: Seq<Sent>, arrivals: Seq<(int, int)>)
    requires
        none_after_all(ms, arrivals),
        arrivals.len() > 0,
    ensures
        none_after_all(ms, arrivals.drop_last()),
        !all_arrived(ms, arrivals.drop_last(), arrivals.last().0),
{
    let t = arrivals.drop_last();
    assert forall|k: int| 0 <= k < t.len() implies !all_arrived(
        ms,
        t.take(k),
        (#[trigger] t[k]).0,
    ) by {
        assert(t[k] == arrivals[k]);
        assert(t.take(k) =~= arrivals.take(k));
    }
    assert(arrivals[arrivals.len() - 1] == arrivals.last());
    assert(arrivals.take(arrivals.len() - 1) =~= t);
}

/// One more frame arrives.
proof fn lemma_one_arrival(
    before: PendingMap,
    ms: Seq<Sent>,
    arrivals: Seq<(int, int)>,
    pending: PendingMap,
)
    requires
        all_sent(ms),
        arrivals.len() > 0,
        arrivals_known(ms, arrivals),
        none_after_all(ms, arrivals),
        transit_pending(before, ms, arrivals.drop_last(), pending),
    ensures
        ({
            let frame = ms[arrivals.last().0].frames[arrivals.last().1];
            let step = receive(pending, bundle_parsed(frame));
            &&& transit_pending(before, ms, arrivals, step.0)
            &&& step.1 == last_gives(ms, arrivals)
        }),
{
    let t = arrivals.drop_last();
    let i = arrivals.last().0;
    let j = arrivals.last().1;
    assert(arrivals[arrivals.len() - 1] == (i, j));
    let m = ms[i];
    let n = m.frames.len() as int;
    let arr = arrived_of(t, i);
    let all = arr.push(j);
    let step = receive(pending, bundle_parsed(m.frames[j]));
    lemma_none_after_without_last(ms, arrivals);
    lemma_known_without_last(ms, arrivals);
    lemma_arrived_below(ms, t, i);
    assert(arrived_of(arrivals, i) == all);
    assert(carries(m.frames, m.seq, m.payload));
    assert(message_pending(pending, m, arr));
    if carries_whole(m.frames, m.seq, m.payload) {
        assert(all[arr.len() as int] == 0);
        assert(covers(all, n)) by {
            assert forall|x: int| 0 <= x < n implies #[trigger] all.contains(x) by {
                assert(all[arr.len() as int] == x);
            }
        }
        assert(step == (pending, Received::Payload(m.payload)));
    } else {
        let c = pieces_of(m);
        assert(exists|c: Seq<Fragment>| carries_pieces(m.frames, m.seq, m.payload, c));
        assert(carries_pieces(m.frames, m.seq, m.payload, c));
        assert(bundle_parsed(m.frames[j]) == reads_as(
            fragment_fields(m.seq, m.payload.len() as u64, c[j]),
        ));
        let base = pending.remove(m.seq);
        let state = (pending, Seq::new(arr.len(), |k: int| Received::More));
        if arr.len() == 0 {
            assert(base =~= pending);
        } else {
            assert(pending =~= base.insert(m.seq, pending[m.seq]));
        }
        assert(collecting(base, m.seq, m.payload.len() as u64, c, arr, state));
        lemma_one_piece(base, m.seq, m.payload, c, arr, state, j);
        assert(step == with_piece(pending, m.seq, c[j].0, m.payload.len() as u64, c[j].1));
    }
    assert forall|x: int| 0 <= x < ms.len() implies message_pending(
        step.0,
        #[trigger] ms[x],
        arrived_of(arrivals, x),
    ) by {
        assert(message_pending(pending, ms[x], arrived_of(t, x)));
        if x != i {
            assert(ms[x].seq != m.seq);
        }
    }
    assert forall|s: u64|
        (forall|x: int| 0 <= x < ms.len() ==> (#[trigger] ms[x]).seq != s) implies (
    #[trigger] step.0.dom().contains(s) <==> before.dom().contains(s)) && step.0[s]
        == before[s] by {
        assert(ms[i].seq != s);
        assert(pending.dom().contains(s) <==> before.dom().contains(s));
    }
}

/// What is pending, and what was given out, after each arrival.
proof fn lemma_in_transit(before: PendingMap, ms: Seq<Sent>, arrivals: Seq<(int, int)>)
    requires
        all_sent(ms),
        arrivals_known(ms, arrivals),
        none_after_all(ms, arrivals),
        forall|i: int| 0 <= i < ms.len() ==> !before.dom().contains((#[trigger] ms[i]).seq),
    ensures
        ({
            let (after, outcomes) = feed(before, frames_at(ms, arrivals));
            &&& transit_pending(before, ms, arrivals, after)
            &&& outcomes == Seq::new(
                arrivals.len(),
                |k: int| last_gives(ms, arrivals.take(k + 1)),
            )
        }),
    decreases arrivals.len(),
{
    let outcomes = feed(before, frames_at(ms, arrivals)).1;
    if arrivals.len() == 0 {
        assert(outcomes =~= Seq::new(
            arrivals.len(),
            |k: int| last_gives(ms, arrivals.take(k + 1)),
        ));
    } else {
        let t = arrivals.drop_last();
        lemma_known_without_last(ms, arrivals);
        lemma_none_after_without_last(ms, arrivals);
        lemma_in_transit(before, ms, t);
        assert(frames_at(ms, arrivals).drop_last() =~= frames_at(ms, t));
        lemma_one_arrival(before, ms, arrivals, feed(before, frames_at(ms, t)).0);
        assert(arrivals.take(arrivals.len() as int) =~= arrivals);
        assert forall|k: int| 0 <= k < arrivals.len() implies outcomes[k] == last_gives(
            ms,
            arrivals.take(k + 1),
        ) by {
            if k < t.len() {
                assert(t.take(k + 1) =~= arrivals.take(k + 1));
            }
        }
        assert(outcomes =~= Seq::new(
            arrivals.len(),
            |k: int| last_gives(ms, arrivals.take(k + 1)),
        ));
    }
}

/// What has arrived stays arrived.
proof fn lemma_arrived_grows(ms: Seq<Sent>, arrivals: Seq<(int, int)>, k: int, i: int)
    requires
        0 <= k <= arrivals.len(),
        all_arrived(ms, arrivals.take(k), i),
    ensures
        all_arrived(ms, arrivals, i),
    decreases arrivals.len() - k,
{
    if k == arrivals.len() {
        assert(arrivals.take(k) =~= arrivals);
    } else {
        let next = arrivals.take(k + 1);
        assert(next.drop_last() =~= arrivals.take(k));
        let a = arrived_of(arrivals.take(k), i);
        let b = arrived_of(next, i);
        assert forall|x: int| 0 <= x < ms[i].frames.len() implies #[trigger] b.contains(x) by {
            assert(a.contains(x));
            let y = choose|y: int| 0 <= y < a.len() && a[y] == x;
            assert(b[y] == x);
        }
        lemma_arrived_grows(ms, arrivals, k + 1, i);
    }
}

/// The arrival that completes a message.
proof fn lemma_completed_by(ms: Seq<Sent>, arrivals: Seq<(int, int)>, i: int) -> (k: int)
    requires
        ms[i].frames.len() > 0,
        all_arrived(ms, arrivals, i),
    ensures
        0 <= k < arrivals.len(),
        arrivals[k].0 == i,
        all_arrived(ms, arrivals.take(k + 1), i),
    decreases arrivals.len(),
{
    if arrivals.len() == 0 {
        assert(arrived_of(arrivals, i).contains(0));
        0
    } else if arrivals.last().0 == i {
        assert(arrivals.take(arrivals.len() as int) =~= arrivals);
        arrivals.len() - 1
    } else {
        let t = arrivals.drop_last();
        let k = lemma_completed_by(ms, t, i);
        assert(t.take(k + 1) =~= arrivals.take(k + 1));
        k
    }
}

/// A message is not complete before its last arrival.
proof fn lemma_not_complete_before(ms: Seq<Sent>, arrivals: Seq<(int, int)>, a: int, b: int)
    requires
        none_after_all(ms, arrivals),
        0 <= a < b < arrivals.len(),
    ensures
        !all_arrived(ms, arrivals.take(a + 1), arrivals[b].0),
{
    let t = arrivals.take(b);
    assert(!all_arrived(ms, t, arrivals[b].0));
    if all_arrived(ms, arrivals.take(a + 1), arrivals[b].0) {
        assert(t.take(a + 1) =~= arrivals.take(a + 1));
        lemma_arrived_grows(ms, t, a + 1, arrivals[b].0);
    }
}

/// Messages that share a link come out whole. However their frames are ordered and interleaved,
/// each arrival gives the message that it completes, and nothing if it completes none; so every
/// message of which all frames arrive is given out exactly once, with its last missing frame, and
/// nothing is given out that is part of a message or of two. Once no message is left half arrived,
/// nothing of any stays behind. A frame may arrive more than once, but not after its message is
/// complete.
pub proof fn law_interleaved_messages_come_out_whole(
    before: PendingMap,
    ms: Seq<Sent>,
    arrivals: Seq<(int, int)>,
)
    requires
        all_sent(ms),
        arrivals_known(ms, arrivals),
        none_after_all(ms, arrivals),
        forall|i: int| 0 <= i < ms.len() ==> !before.dom().contains((#[trigger] ms[i]).seq),
    ensures
        ({
            let (after, outcomes) = feed(before, frames_at(ms, arrivals));
            &&& outcomes == Seq::new(
                arrivals.len(),
                |k: int| last_gives(ms, arrivals.take(k + 1)),
            )
            &&& forall|i: int|
                0 <= i < ms.len() && all_arrived(ms, arrivals, i) ==> exists|k: int|
                    given_once(arrivals, outcomes, i, k, (#[trigger] ms[i]).payload)
            &&& (forall|i: int|
                0 <= i < ms.len() ==> #[trigger] all_arrived(ms, arrivals, i) || arrived_of(
                    arrivals,
                    i,
                ).len() == 0) ==> after == before
        }),
{
    let (after, outcomes) = feed(before, frames_at(ms, arrivals));
    lemma_in_transit(before, ms, arrivals);
    assert forall|i: int| 0 <= i < ms.len() && all_arrived(ms, arrivals, i) implies exists|k: int|
        given_once(arrivals, outcomes, i, k, (#[trigger] ms[i]).payload) by {
        assert(carries(ms[i].frames, ms[i].seq, ms[i].payload));
        let k = lemma_completed_by(ms, arrivals, i);
        assert(arrivals.take(k + 1).last() == arrivals[k]);
        assert forall|other: int|
            0 <= other < arrivals.len() && other != k && (#[trigger] arrivals[other]).0
                == i implies outcomes[other] is More by {
            assert(arrivals.take(other + 1).last() == arrivals[other]);
            if other < k {
                lemma_not_complete_before(ms, arrivals, other, k);
            } else {
                lemma_not_complete_before(ms, arrivals, k, other);
            }
        }
        assert(given_once(arrivals, outcomes, i, k, ms[i].payload));
    }
    if forall|i: int|
        0 <= i < ms.len() ==> #[trigger] all_arrived(ms, arrivals, i) || arrived_of(
            arrivals,
            i,
        ).len() == 0 {
        assert forall|s: u64| after.dom().contains(s) <==> before.dom().contains(s) by {
            if exists|i: int| 0 <= i < ms.len() && (#[trigger] ms[i]).seq == s {
                let i = choose|i: int| 0 <= i < ms.len() && (#[trigger] ms[i]).seq == s;
                assert(all_arrived(ms, arrivals, i) || arrived_of(arrivals, i).len() == 0);
                assert(message_pending(after, ms[i], arrived_of(arrivals, i)));
            }
        }
        assert forall|s: u64| #[trigger] after.dom().contains(s) implies after[s] == before[s] by {
            if exists|i: int| 0 <= i < ms.len() && (#[trigger] ms[i]).seq == s {
                let i = choose|i: int| 0 <= i < ms.len() && (#[trigger] ms[i]).seq == s;
                assert(!before.dom().contains(ms[i].seq));
            }
        }
        assert(after =~= before);
    }
}

/// What has arrived of a message is among the arrivals.
proof fn lemma_arrived_is_arrival(arrivals: Seq<(int, int)>, i: int, j: int)
    requires
        arrived_of(arrivals, i).contains(j),
    ensures
        arrivals.contains((i, j)),
    decreases arrivals.len(),
{
    if arrivals.len() > 0 {
        let t = arrivals.drop_last();
        if arrivals.last() == (i, j) {
            assert(arrivals[arrivals.len() - 1] == (i, j));
        } else {
            let all = arrived_of(arrivals, i);
            let y = choose|y: int| 0 <= y < all.len() && all[y] == j;
            assert(arrived_of(t, i)[y] == j);
            lemma_arrived_is_arrival(t, i, j);
            let k = choose|k: int| 0 <= k < t.len() && t[k] == (i, j);
            assert(arrivals[k] == (i, j));
        }
    }
}

/// If no frame arrives more than once, nothing of a message arrives once all of it has.
pub proof fn law_frames_once_in_order(ms: Seq<Sent>, arrivals: Seq<(int, int)>)
    requires
        arrivals_known(ms, arrivals),
        arrivals.no_duplicates(),
    ensures
        none_after_all(ms, arrivals),
{
    assert forall|k: int| 0 <= k < arrivals.len() implies !all_arrived(
        ms,
        arrivals.take(k),
        (#[trigger] arrivals[k]).0,
    ) by {
        let (i, j) = arrivals[k];
        let t = arrivals.take(k);
        if all_arrived(ms, t, i) {
            assert(arrived_of(t, i).contains(j));
            lemma_arrived_is_arrival(t, i, j);
            let x = choose|x: int| 0 <= x < t.len() && t[x] == (i, j);
            assert(arrivals[x] == arrivals[k]);
        }
    }
}

/// The number of the message that is sent `n` messages after the one numbered `first`.
pub open spec fn number_after(first: u64, n: nat) -> u64
    decreases n,
{
    if n == 0 {
        first
    } else {
        next_number(number_after(first, (n - 1) as nat))
    }
}

/// Messages that are sent over one link have different numbers, until every number was used.
pub proof fn law_numbers_differ(first: u64, m: nat, n: nat)
    requires
        m < n,
        n - m <= u64::MAX,
    ensures
        number_after(first, m) != number_after(first, n),
{
    lemma_number_after(first, m, (n - m) as nat);
}

/// Numbers count upwards and start again after the last.
proof fn lemma_number_after(first: u64, m: nat, d: nat)
    requires
        d <= u64::MAX,
    ensures
        ({
            let from = number_after(first, m);
            number_after(first, m + d) == if from + d <= u64::MAX {
                from + d
            } else {
                from + d - u64::MAX - 1
            }
        }),
    decreases d,
{
    if d > 0 {
        lemma_number_after(first, m, (d - 1) as nat);
    }
}

} // verus!
