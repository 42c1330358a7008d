//! Which transport carries a message, how often sending is retried, and when a transport is
//! restarted.

use vstd::prelude::*;

#[allow(unused_imports)]
use crate::addresses::is_control;
use crate::error::{transport_error, PathweaveError};
#[allow(unused_imports)]
use crate::frame::message;
use crate::identity::PeerId;
use crate::transport::{PeerAnnouncement, TransportCost, TransportEvent, TransportKind};
#[allow(unused_imports)]
use crate::transport::{announcement_models, AddressModel, AnnouncementModel};
use crate::wire::u64_from_be;
#[allow(unused_imports)]
use crate::wire::{be_u64, from_be_u64};

verus! {

/// How often a send is attempted.
pub const MAX_SEND_ATTEMPTS: usize = 3;

/// How long to wait between two attempts, in milliseconds.
pub const RETRY_BACKOFF_MS: u64 = 1000;

/// How often the network interfaces are looked at, in milliseconds.
pub const NETWORK_POLL_INTERVAL_MS: u64 = 3000;

/// How long to wait for the receiver to confirm a delivery, in milliseconds.
pub const ACK_TIMEOUT_MS: u64 = 5000;

/// What the router knows of a transport at the moment.
#[derive(Clone, Copy, Debug)]
pub struct TransportStatus {
    pub kind: TransportKind,
    pub cost: TransportCost,
    pub available: bool,
}

/// Free transports come first, those of unknown cost last.
pub open spec fn cost_rank(cost: TransportCost) -> int {
    match cost {
        TransportCost::Free => 0,
        TransportCost::Metered => 1,
        TransportCost::Unknown => 2,
    }
}

/// A transport and an address, by their positions.
pub type Candidate = (usize, usize);

/// Transport `c.0` is available and dials addresses like `c.1`.
pub open spec fn matching(
    ts: Seq<TransportStatus>,
    anns: Seq<AnnouncementModel>,
    c: Candidate,
) -> bool {
    &&& c.0 < ts.len()
    &&& c.1 < anns.len()
    &&& ts[c.0 as int].available
    &&& ts[c.0 as int].kind == anns[c.1 as int].address.kind()
}

/// `c` is tried before `d`: by cost, then in order of registration, then in order of the
/// addresses.
pub open spec fn precedes(ts: Seq<TransportStatus>, c: Candidate, d: Candidate) -> bool {
    let (rc, rd) = (cost_rank(ts[c.0 as int].cost), cost_rank(ts[d.0 as int].cost));
    ||| rc < rd
    ||| rc == rd && c.0 < d.0
    ||| rc == rd && c.0 == d.0 && c.1 < d.1
}

/// `cs` lists the pairs that match, each once, in the order in which they are tried.
pub open spec fn candidate_list(
    ts: Seq<TransportStatus>,
    anns: Seq<AnnouncementModel>,
    cs: Seq<Candidate>,
) -> bool {
    &&& forall|i: int| 0 <= i < cs.len() ==> matching(ts, anns, #[trigger] cs[i])
    &&& forall|i: int, j: int|
        0 <= i < j < cs.len() ==> precedes(ts, #[trigger] cs[i], #[trigger] cs[j])
    &&& forall|c: Candidate| #[trigger] matching(ts, anns, c) ==> cs.contains(c)
}

/// There is only one list of candidates.
pub proof fn law_candidate_list_unique(
    ts: Seq<TransportStatus>,
    anns: Seq<AnnouncementModel>,
    a: Seq<Candidate>,
    b: Seq<Candidate>,
)
    requires
        candidate_list(ts, anns, a),
        candidate_list(ts, anns, b),
    ensures
        a == b,
{
    lemma_lists_agree(ts, anns, a, b, a.len() as int);
    lemma_lists_agree(ts, anns, b, a, b.len() as int);
    assert(a =~= b);
}

/// Up to `n`, the lists agree.
proof fn lemma_lists_agree(
    ts: Seq<TransportStatus>,
    anns: Seq<AnnouncementModel>,
    a: Seq<Candidate>,
    b: Seq<Candidate>,
    n: int,
)
    requires
        candidate_list(ts, anns, a),
        candidate_list(ts, anns, b),
        0 <= n <= a.len(),
    ensures
        n <= b.len(),
        forall|i: int| 0 <= i < n ==> a[i] == b[i],
    decreases n,
{
    if n > 0 {
        lemma_lists_agree(ts, anns, a, b, n - 1);
        let x = a[n - 1];
        assert(matching(ts, anns, x));
        assert(b.contains(x));
        let j = choose|j: int| 0 <= j < b.len() && b[j] == x;
        if j < n - 1 {
            assert(a[j] == x);
            assert(precedes(ts, a[j], a[n - 1]));
        }
        assert(n - 1 < b.len());
        let y = b[n - 1];
        assert(matching(ts, anns, y));
        assert(a.contains(y));
        let k = choose|k: int| 0 <= k < a.len() && a[k] == y;
        if k < n - 1 {
            assert(b[k] == y);
            assert(precedes(ts, b[k], b[n - 1]));
        }
        if j > n - 1 {
            assert(precedes(ts, b[n - 1], b[j]));
            if k > n - 1 {
                assert(precedes(ts, a[n - 1], a[k]));
            }
        }
    }
}

/// Whether `cost` stands at `rank` in the order of costs.
fn has_rank(cost: TransportCost, rank: u8) -> (r: bool)
    ensures
        r == (cost_rank(cost) == rank),
{
    match cost {
        TransportCost::Free => rank == 0,
        TransportCost::Metered => rank == 1,
        TransportCost::Unknown => rank == 2,
    }
}

/// Where the search for candidates has got to: everything before (rank, transport, address) has
/// been looked at.
spec fn looked_at(ts: Seq<TransportStatus>, c: Candidate, rank: int, t: int, a: int) -> bool {
    let r = cost_rank(ts[c.0 as int].cost);
    ||| r < rank
    ||| r == rank && c.0 < t
    ||| r == rank && c.0 == t && c.1 < a
}

/// `cs` is what the search has found so far.
spec fn found_so_far(
    ts: Seq<TransportStatus>,
    anns: Seq<AnnouncementModel>,
    cs: Seq<Candidate>,
    rank: int,
    t: int,
    a: int,
) -> bool {
    &&& forall|i: int|
        0 <= i < cs.len() ==> matching(ts, anns, #[trigger] cs[i]) && looked_at(
            ts,
            cs[i],
            rank,
            t,
            a,
        )
    &&& forall|i: int, j: int|
        0 <= i < j < cs.len() ==> precedes(ts, #[trigger] cs[i], #[trigger] cs[j])
    &&& forall|c: Candidate| #[trigger]
        matching(ts, anns, c) && looked_at(ts, c, rank, t, a) ==> cs.contains(c)
}

proof fn lemma_found_next(
    ts: Seq<TransportStatus>,
    anns: Seq<AnnouncementModel>,
    cs: Seq<Candidate>,
    rank: int,
    t: usize,
    a: usize,
)
    requires
        found_so_far(ts, anns, cs, rank, t as int, a as int),
        t < ts.len(),
        a < anns.len(),
        cost_rank(ts[t as int].cost) == rank,
    ensures
        matching(ts, anns, (t, a)) ==> found_so_far(
            ts,
            anns,
            cs.push((t, a)),
            rank,
            t as int,
            a + 1,
        ),
        !matching(ts, anns, (t, a)) ==> found_so_far(ts, anns, cs, rank, t as int, a + 1),
{
    if matching(ts, anns, (t, a)) {
        let ds = cs.push((t, a));
        assert forall|c: Candidate| #[trigger]
            matching(ts, anns, c) && looked_at(ts, c, rank, t as int, a + 1) implies ds.contains(
            c,
        ) by {
            if c == (t, a) {
                assert(ds[cs.len() as int] == c);
            } else {
                assert(looked_at(ts, c, rank, t as int, a as int));
                assert(cs.contains(c));
                let i = choose|i: int| 0 <= i < cs.len() && cs[i] == c;
                assert(ds[i] == c);
            }
        }
        assert forall|i: int, j: int| 0 <= i < j < ds.len() implies precedes(
            ts,
            #[trigger] ds[i],
            #[trigger] ds[j],
        ) by {
            if j == cs.len() {
                assert(looked_at(ts, cs[i], rank, t as int, a as int));
            } else {
                assert(precedes(ts, cs[i], cs[j]));
            }
        }
        assert forall|i: int| 0 <= i < ds.len() implies matching(ts, anns, #[trigger] ds[i])
            && looked_at(ts, ds[i], rank, t as int, a + 1) by {
            if i < cs.len() {
                assert(ds[i] == cs[i]);
            }
        }
    } else {
        assert forall|c: Candidate| #[trigger]
            matching(ts, anns, c) && looked_at(ts, c, rank, t as int, a + 1) implies cs.contains(
            c,
        ) by {
            assert(c != (t, a));
            assert(looked_at(ts, c, rank, t as int, a as int));
        }
    }
}

/// Pairs each available transport with each address it can dial, cheapest transport first.
pub fn candidates(ts: &Vec<TransportStatus>, anns: &Vec<PeerAnnouncement>) -> (cs: Vec<Candidate>)
    ensures
        candidate_list(ts@, announcement_models(anns@), cs@),
{
    let ghost models = announcement_models(anns@);
    let mut cs: Vec<Candidate> = Vec::new();
    let mut rank: u8 = 0;
    while rank < 3
        invariant
            rank <= 3,
            models == announcement_models(anns@),
            found_so_far(ts@, models, cs@, rank as int, 0, 0),
        decreases 3 - rank,
    {
        let mut t: usize = 0;
        while t < ts.len()
            invariant
                rank < 3,
                t <= ts@.len(),
                models == announcement_models(anns@),
                found_so_far(ts@, models, cs@, rank as int, t as int, 0),
            decreases ts@.len() - t,
        {
            if has_rank(ts[t].cost, rank) && ts[t].available {
                let mut a: usize = 0;
                while a < anns.len()
                    invariant
                        rank < 3,
                        t < ts@.len(),
                        a <= anns@.len(),
                        models == announcement_models(anns@),
                        cost_rank(ts@[t as int].cost) == rank,
                        ts@[t as int].available,
                        found_so_far(ts@, models, cs@, rank as int, t as int, a as int),
                    decreases anns@.len() - a,
                {
                    proof {
                        lemma_found_next(ts@, models, cs@, rank as int, t, a);
                        assert(models[a as int] == anns@[a as int]@);
                    }
                    if anns[a].address.kind() == ts[t].kind {
                        cs.push((t, a));
                    }
                    a = a + 1;
                }
            }
            assert(found_so_far(ts@, models, cs@, rank as int, t + 1, 0)) by {
                assert forall|c: Candidate| #[trigger]
                    matching(ts@, models, c) && looked_at(
                        ts@,
                        c,
                        rank as int,
                        t + 1,
                        0,
                    ) implies cs@.contains(c) by {
                    if c.0 == t && cost_rank(ts@[t as int].cost) == rank {
                        assert(looked_at(ts@, c, rank as int, t as int, models.len() as int));
                    } else {
                        assert(looked_at(ts@, c, rank as int, t as int, 0));
                    }
                }
            }
            t = t + 1;
        }
        assert(found_so_far(ts@, models, cs@, rank + 1, 0, 0)) by {
            assert forall|c: Candidate| #[trigger]
                matching(ts@, models, c) && looked_at(ts@, c, rank + 1, 0, 0) implies cs@.contains(
                c,
            ) by {
                assert(looked_at(ts@, c, rank as int, ts@.len() as int, 0));
            }
        }
        rank = rank + 1;
    }
    assert(candidate_list(ts@, models, cs@)) by {
        assert forall|c: Candidate| #[trigger] matching(ts@, models, c) implies cs@.contains(c) by {
            assert(looked_at(ts@, c, 3, 0, 0));
        }
    }
    cs
}

/// The first candidate is as cheap as any.
pub proof fn law_cheapest_first(
    ts: Seq<TransportStatus>,
    anns: Seq<AnnouncementModel>,
    cs: Seq<Candidate>,
    c: Candidate,
)
    requires
        candidate_list(ts, anns, cs),
        matching(ts, anns, c),
    ensures
        cs.len() > 0,
        cost_rank(ts[cs[0].0 as int].cost) <= cost_rank(ts[c.0 as int].cost),
{
    assert(cs.contains(c));
    let i = choose|i: int| 0 <= i < cs.len() && cs[i] == c;
    if i > 0 {
        assert(precedes(ts, cs[0], cs[i]));
    }
}

/// A candidate of a dearer transport is tried only after all candidates of the cheaper ones.
pub proof fn law_dearer_candidates_last(
    ts: Seq<TransportStatus>,
    anns: Seq<AnnouncementModel>,
    cs: Seq<Candidate>,
    i: int,
    j: int,
)
    requires
        candidate_list(ts, anns, cs),
        0 <= i < cs.len(),
        0 <= j < cs.len(),
        cost_rank(ts[cs[i].0 as int].cost) < cost_rank(ts[cs[j].0 as int].cost),
    ensures
        i < j,
{
    if j < i {
        assert(precedes(ts, cs[j], cs[i]));
    }
}

/// The transports that were registered, in order.
pub struct Router {
    transports: Vec<TransportStatus>,
}

impl View for Router {
    type V = Seq<TransportStatus>;

    closed spec fn view(&self) -> Seq<TransportStatus> {
        self.transports@
    }
}

impl Router {
    /// A router without transports.
    pub fn new() -> (r: Self)
        ensures
            r@ == Seq::<TransportStatus>::empty(),
    {
        Router { transports: Vec::new() }
    }

    /// Adds a transport. It is not available until it has started. Returns its position.
    pub fn register_transport(&mut self, kind: TransportKind, cost: TransportCost) -> (at: usize)
        ensures
            at == old(self)@.len(),
            final(self)@ == old(self)@.push(TransportStatus { kind, cost, available: false }),
    {
        let at: usize = self.transports.len();
        self.transports.push(TransportStatus { kind, cost, available: false });
        at
    }

    /// Records that a transport has started or stopped, and what using it costs.
    pub fn set_status(&mut self, at: usize, available: bool, cost: TransportCost)
        requires
            at < old(self)@.len(),
        ensures
            final(self)@ == old(self)@.update(
                at as int,
                (TransportStatus { kind: old(self)@[at as int].kind, cost, available }),
            ),
    {
        let kind = self.transports[at].kind;
        self.transports[at] = TransportStatus { kind, cost, available };
    }

    /// Begins to send to a peer with the given addresses.
    pub fn send(&self, anns: &Vec<PeerAnnouncement>) -> (run: SendRun)
        ensures
            run.well_formed(),
            run@.attempt == 0,
            run@.next == 0,
            candidate_list(self@, announcement_models(anns@), run@.candidates),
    {
        SendRun { attempt: 0, candidates: candidates(&self.transports, anns), next: 0 }
    }

    /// What is reported when the transport at this position has delivered a message to a peer.
    pub fn delivered(&self, transport: usize, peer_id: PeerId) -> (event: Option<TransportEvent>)
        ensures
            event == if transport < self@.len() {
                Some(
                    TransportEvent::MessageDelivered {
                        peer_id,
                        transport: self@[transport as int].kind,
                    },
                )
            } else {
                None
            },
    {
        if transport < self.transports.len() {
            let kind = self.transports[transport].kind;
            Some(TransportEvent::MessageDelivered { peer_id, transport: kind })
        } else {
            None
        }
    }

    /// Begins to look for a peer at the given addresses.
    pub fn connect(&self, anns: &Vec<PeerAnnouncement>) -> (run: ConnectRun)
        ensures
            run@.next == 0,
            candidate_list(self@, announcement_models(anns@), run@.candidates),
    {
        ConnectRun { candidates: candidates(&self.transports, anns), next: 0 }
    }
}

/// What to do next to get a message delivered.
#[derive(Clone, Copy, PartialEq, Eq, Structural, Debug)]
pub enum SendStep {
    /// Send over this transport to this address.
    Try { transport: usize, address: usize },
    /// Wait, then look for transports again.
    Backoff,
    /// Give up: no transport can reach the peer.
    NoTransport,
    /// Give up: every attempt has failed.
    Failed,
}

/// Where a send stands.
pub struct SendModel {
    pub attempt: int,
    pub candidates: Seq<Candidate>,
    pub next: int,
}

impl SendModel {
    /// What to do next.
    pub open spec fn step(self) -> SendStep {
        if self.candidates.len() == 0 {
            SendStep::NoTransport
        } else if self.next < self.candidates.len() {
            SendStep::Try {
                transport: self.candidates[self.next].0,
                address: self.candidates[self.next].1,
            }
        } else if self.attempt + 1 < MAX_SEND_ATTEMPTS {
            SendStep::Backoff
        } else {
            SendStep::Failed
        }
    }

    /// After the candidate that was tried has failed.
    pub open spec fn after_failure(self) -> SendModel {
        SendModel { next: self.next + 1, ..self }
    }

    /// After waiting, with the candidates there are then.
    pub open spec fn after_backoff(self, cs: Seq<Candidate>) -> SendModel {
        SendModel { attempt: self.attempt + 1, candidates: cs, next: 0 }
    }
}

/// A message on its way: which candidates there are, and which of them have been tried.
pub struct SendRun {
    attempt: usize,
    candidates: Vec<Candidate>,
    next: usize,
}

impl View for SendRun {
    type V = SendModel;

    closed spec fn view(&self) -> SendModel {
        SendModel {
            attempt: self.attempt as int,
            candidates: self.candidates@,
            next: self.next as int,
        }
    }
}

impl SendRun {
    /// No more attempts are made than allowed, and candidates are tried in order.
    pub open spec fn well_formed(&self) -> bool {
        0 <= self@.attempt < MAX_SEND_ATTEMPTS && 0 <= self@.next <= self@.candidates.len()
    }

    /// What to do next.
    pub fn step(&self) -> (step: SendStep)
        requires
            self.well_formed(),
        ensures
            step == self@.step(),
    {
        if self.candidates.len() == 0 {
            SendStep::NoTransport
        } else if self.next < self.candidates.len() {
            let c = self.candidates[self.next];
            SendStep::Try { transport: c.0, address: c.1 }
        } else if self.attempt + 1 < MAX_SEND_ATTEMPTS {
            SendStep::Backoff
        } else {
            SendStep::Failed
        }
    }

    /// The candidate that was tried has failed.
    pub fn failed(&mut self)
        requires
            old(self).well_formed(),
            old(self)@.step() is Try,
        ensures
            final(self).well_formed(),
            final(self)@ == old(self)@.after_failure(),
    {
        if self.next < self.candidates.len() {
            self.next = self.next + 1;
        }
    }

    /// The wait between two attempts is over.
    pub fn backed_off(&mut self, router: &Router, anns: &Vec<PeerAnnouncement>)
        requires
            old(self).well_formed(),
            old(self)@.step() is Backoff,
        ensures
            final(self).well_formed(),
            final(self)@ == old(self)@.after_backoff(final(self)@.candidates),
            candidate_list(router@, announcement_models(anns@), final(self)@.candidates),
    {
        self.attempt = self.attempt + 1;
        self.candidates = candidates(&router.transports, anns);
        self.next = 0;
    }
}

/// The error with which a send ends, when it does not end in a delivery.
pub fn send_error(step: SendStep) -> (e: Option<PathweaveError>)
    ensures
        e matches Some(PathweaveError::NoTransportAvailable) <==> step is NoTransport,
        e matches Some(PathweaveError::DeliveryFailed) <==> step is Failed,
        e is None <==> step is Try || step is Backoff,
{
    match step {
        SendStep::NoTransport => Some(PathweaveError::NoTransportAvailable),
        SendStep::Failed => Some(PathweaveError::DeliveryFailed),
        _ => None,
    }
}

/// The candidates that are tried from `m` on when every one of them fails and the list of
/// candidates stays the same.
pub open spec fn tries_when_failing(m: SendModel) -> Seq<Candidate>
    decreases MAX_SEND_ATTEMPTS - m.attempt, m.candidates.len() - m.next,
    when 0 <= m.attempt
{
    match m.step() {
        SendStep::Try { transport, address } => seq![(transport, address)] + tries_when_failing(
            m.after_failure(),
        ),
        SendStep::Backoff => tries_when_failing(m.after_backoff(m.candidates)),
        _ => Seq::empty(),
    }
}

/// The state in which a send ends when every candidate fails and the list stays the same.
pub open spec fn end_when_failing(m: SendModel) -> SendStep
    decreases MAX_SEND_ATTEMPTS - m.attempt, m.candidates.len() - m.next,
    when 0 <= m.attempt
{
    match m.step() {
        SendStep::Try { transport, address } => end_when_failing(m.after_failure()),
        SendStep::Backoff => end_when_failing(m.after_backoff(m.candidates)),
        other => other,
    }
}

/// Within one attempt, the candidates that are left are tried in order.
proof fn lemma_rest_of_attempt(m: SendModel)
    requires
        0 <= m.attempt < MAX_SEND_ATTEMPTS,
        0 <= m.next <= m.candidates.len(),
        m.candidates.len() > 0,
    ensures
        ({
            let end = SendModel { next: m.candidates.len() as int, ..m };
            &&& tries_when_failing(m) == m.candidates.skip(m.next) + tries_when_failing(end)
            &&& end_when_failing(m) == end_when_failing(end)
        }),
    decreases m.candidates.len() - m.next,
{
    let end = SendModel { next: m.candidates.len() as int, ..m };
    if m.next < m.candidates.len() {
        lemma_rest_of_attempt(m.after_failure());
        let c = m.candidates[m.next];
        assert(m.candidates.skip(m.next) =~= seq![c] + m.candidates.skip(m.next + 1));
        assert(tries_when_failing(m) =~= m.candidates.skip(m.next) + tries_when_failing(end));
    } else {
        assert(m == end);
        assert(m.candidates.skip(m.next) + tries_when_failing(end) =~= tries_when_failing(end));
    }
}

/// When every candidate fails, each is tried once per attempt, in order, and then the send
/// fails; when there is no candidate, nothing is tried.
pub proof fn law_each_candidate_tried_once_per_attempt(cs: Seq<Candidate>)
    ensures
        ({
            let m = SendModel { attempt: 0, candidates: cs, next: 0 };
            if cs.len() == 0 {
                tries_when_failing(m) == Seq::<Candidate>::empty() && end_when_failing(m)
                    == SendStep::NoTransport
            } else {
                tries_when_failing(m) == cs + cs + cs && end_when_failing(m) == SendStep::Failed
            }
        }),
{
    let n = cs.len() as int;
    let m0 = SendModel { attempt: 0, candidates: cs, next: 0 };
    if n > 0 {
        let m1 = SendModel { attempt: 1, candidates: cs, next: 0 };
        let m2 = SendModel { attempt: 2, candidates: cs, next: 0 };
        let e0 = SendModel { attempt: 0, candidates: cs, next: n };
        let e1 = SendModel { attempt: 1, candidates: cs, next: n };
        let e2 = SendModel { attempt: 2, candidates: cs, next: n };
        lemma_rest_of_attempt(m0);
        lemma_rest_of_attempt(m1);
        lemma_rest_of_attempt(m2);
        assert(cs.skip(0) =~= cs);
        assert(e0.step() is Backoff && e1.step() is Backoff && e2.step() is Failed);
        assert(e0.after_backoff(cs) == m1);
        assert(e1.after_backoff(cs) == m2);
        assert(tries_when_failing(e0) == tries_when_failing(m1));
        assert(tries_when_failing(e1) == tries_when_failing(m2));
        assert(tries_when_failing(e2) =~= Seq::<Candidate>::empty());
        assert(end_when_failing(e0) == end_when_failing(m1));
        assert(end_when_failing(e1) == end_when_failing(m2));
        assert(end_when_failing(e2) == SendStep::Failed);
        assert(tries_when_failing(m0) =~= cs + cs + cs);
    } else {
        assert(tries_when_failing(m0) =~= Seq::<Candidate>::empty());
    }
}

/// Where the search for a peer stands.
pub struct ConnectModel {
    pub candidates: Seq<Candidate>,
    pub next: int,
}

/// A search for a peer: candidates are dialled in order until one answers.
pub struct ConnectRun {
    candidates: Vec<Candidate>,
    next: usize,
}

impl View for ConnectRun {
    type V = ConnectModel;

    closed spec fn view(&self) -> ConnectModel {
        ConnectModel { candidates: self.candidates@, next: self.next as int }
    }
}

impl ConnectRun {
    /// The candidate to dial next. When all have been dialled, no transport can reach the peer.
    pub fn next_candidate(&mut self) -> (r: Result<Candidate, PathweaveError>)
        requires
            0 <= old(self)@.next <= old(self)@.candidates.len(),
        ensures
            final(self)@.candidates == old(self)@.candidates,
            old(self)@.next < old(self)@.candidates.len() ==> {
                &&& r == Ok::<Candidate, PathweaveError>(
                    old(self)@.candidates[old(self)@.next],
                )
                &&& final(self)@.next == old(self)@.next + 1
            },
            old(self)@.next == old(self)@.candidates.len() ==> {
                &&& r == Err::<Candidate, PathweaveError>(PathweaveError::NoTransportAvailable)
                &&& final(self)@.next == old(self)@.next
            },
    {
        if self.next < self.candidates.len() {
            let c = self.candidates[self.next];
            self.next = self.next + 1;
            Ok(c)
        } else {
            Err(PathweaveError::NoTransportAvailable)
        }
    }
}

/// How waiting for the receiver's confirmation ended: it came, the channel failed, or time ran
/// out.
pub enum AckWait {
    Confirmed,
    Broken(PathweaveError),
    TimedOut,
}

/// What a send reports after waiting for the receiver's confirmation.
pub fn ack_result(wait: AckWait) -> (r: Result<(), PathweaveError>)
    ensures
        r is Ok <==> wait is Confirmed,
        wait matches AckWait::Broken(e) ==> r == Err::<(), PathweaveError>(e),
        wait is TimedOut ==> (r matches Err(PathweaveError::Transport(m)) && m@
            == "delivery ACK timed out"@),
{
    match wait {
        AckWait::Confirmed => Ok(()),
        AckWait::Broken(e) => Err(e),
        AckWait::TimedOut => Err(transport_error("delivery ACK timed out")),
    }
}

/// The bit that tells a message identifier from a control frame.
pub const MESSAGE_ID_BIT: u64 = 0x8000_0000_0000_0000;

/// Calls `getrandom::getrandom` for eight bytes. Nothing is claimed of the bytes. Panics when
/// the system's entropy source fails.
#[verifier::external_body]
pub(crate) fn entropy() -> (bytes: [u8; 8])
{
    let mut bytes = [0u8; 8];
    getrandom::getrandom(&mut bytes).expect("system entropy unavailable");
    bytes
}

/// The message identifier made of eight random bytes: read as a number, with the bit set that
/// tells it from a control frame.
pub fn message_id_from(bytes: [u8; 8]) -> (id: u64)
    ensures
        id == from_be_u64(bytes@) | MESSAGE_ID_BIT,
        id >= MESSAGE_ID_BIT,
{
    let raw: u64 = u64_from_be(&bytes);
    assert((raw | 0x8000_0000_0000_0000u64) >= 0x8000_0000_0000_0000u64) by (bit_vector);
    raw | MESSAGE_ID_BIT
}

/// A fresh message identifier.
pub fn new_message_id() -> (id: u64)
    ensures
        id >= MESSAGE_ID_BIT,
{
    message_id_from(entropy())
}

/// A message is never taken for an address exchange: it does not start with a zero byte.
pub proof fn law_message_is_not_control(id: u64, body: Seq<u8>)
    requires
        id >= MESSAGE_ID_BIT,
    ensures
        message(id, body)[0] >= 0x80,
        !is_control(message(id, body)),
{
    assert(((id >> 56) as u8) >= 0x80u8) by (bit_vector)
        requires
            id >= 0x8000_0000_0000_0000u64,
    ;
    assert(message(id, body)[0] == (id >> 56) as u8);
}

/// What is known of an address of a network interface.
#[derive(Clone, Copy, Debug)]
pub struct InterfaceAddr {
    pub loopback: bool,
    /// The address as a number, if it is an IPv4 address.
    pub ipv4: Option<u32>,
}

/// Whether `ip` is an IPv4 address under which the machine is reachable.
pub open spec fn reachable_at(ifs: Seq<InterfaceAddr>, ip: u32) -> bool {
    exists|i: int| 0 <= i < ifs.len() && !(#[trigger] ifs[i]).loopback && ifs[i].ipv4 == Some(ip)
}

/// The IPv4 addresses under which the machine is reachable.
pub fn current_ipv4_addrs(ifs: &Vec<InterfaceAddr>) -> (addrs: Vec<u32>)
    ensures
        forall|ip: u32| #[trigger] addrs@.to_set().contains(ip) <==> reachable_at(ifs@, ip),
{
    let mut addrs: Vec<u32> = Vec::new();
    let mut i: usize = 0;
    while i < ifs.len()
        invariant
            i <= ifs@.len(),
            forall|ip: u32| #[trigger]
                addrs@.contains(ip) <==> reachable_at(ifs@.take(i as int), ip),
        decreases ifs@.len() - i,
    {
        let ghost before = addrs@;
        let ghost seen = ifs@.take(i as int);
        let ghost now = ifs@.take(i + 1);
        let f = ifs[i];
        match f.ipv4 {
            Some(ip) => {
                if !f.loopback {
                    addrs.push(ip);
                }
            },
            None => {},
        }
        proof {
            assert forall|ip: u32| #[trigger] addrs@.contains(ip) <==> reachable_at(now, ip) by {
                assert(before.contains(ip) <==> reachable_at(seen, ip));
                if reachable_at(now, ip) {
                    let k = choose|k: int|
                        0 <= k < now.len() && !(#[trigger] now[k]).loopback && now[k].ipv4 == Some(
                            ip,
                        );
                    if k < i {
                        assert(seen[k] == now[k]);
                        let j = choose|j: int| 0 <= j < before.len() && before[j] == ip;
                        assert(addrs@[j] == ip);
                    } else {
                        assert(addrs@[before.len() as int] == ip);
                    }
                }
                if addrs@.contains(ip) {
                    let j = choose|j: int| 0 <= j < addrs@.len() && addrs@[j] == ip;
                    if j < before.len() {
                        assert(before[j] == ip);
                        let k = choose|k: int|
                            0 <= k < seen.len() && !(#[trigger] seen[k]).loopback && seen[k].ipv4
                                == Some(ip);
                        assert(now[k] == seen[k]);
                    } else {
                        assert(now[i as int] == f);
                    }
                }
            }
        }
        i = i + 1;
    }
    assert(ifs@.take(i as int) =~= ifs@);
    addrs
}

/// Whether every number in `a` is in `b`.
fn all_in(a: &Vec<u32>, b: &Vec<u32>) -> (r: bool)
    ensures
        r == a@.to_set().subset_of(b@.to_set()),
{
    let mut i: usize = 0;
    while i < a.len()
        invariant
            i <= a@.len(),
            forall|k: int| 0 <= k < i ==> b@.contains(#[trigger] a@[k]),
        decreases a@.len() - i,
    {
        let x: u32 = a[i];
        let mut j: usize = 0;
        let mut found: bool = false;
        while j < b.len() && !found
            invariant
                j <= b@.len(),
                found ==> b@.contains(x),
                !found ==> forall|k: int| 0 <= k < j ==> b@[k] != x,
            decreases b@.len() - j + (if found { 0int } else { 1int }),
        {
            if b[j] == x {
                assert(b@[j as int] == x);
                found = true;
            } else {
                j = j + 1;
            }
        }
        if !found {
            assert(a@.to_set().contains(a@[i as int]));
            assert(!b@.to_set().contains(x));
            return false;
        }
        i = i + 1;
    }
    assert forall|x: u32| a@.to_set().contains(x) implies b@.to_set().contains(x) by {
        let k = choose|k: int| 0 <= k < a@.len() && a@[k] == x;
        assert(b@.contains(a@[k]));
    }
    true
}

/// Whether a transport runs, and on which addresses it was last started.
pub struct HealthModel {
    pub available: bool,
    pub in_recovery: bool,
    pub addrs: Set<u32>,
}

impl HealthModel {
    /// Whether the transport has to be restarted now that the machine is reachable at `curr`.
    /// A transport that failed to start is restarted whatever the addresses are.
    pub open spec fn must_restart(self, curr: Set<u32>) -> bool {
        self.in_recovery || curr != self.addrs
    }

    /// After the transport was restarted, successfully or not, while the machine was reachable
    /// at `curr`.
    pub open spec fn after_restart(self, curr: Set<u32>, ok: bool) -> HealthModel {
        if ok {
            HealthModel { available: true, in_recovery: false, addrs: curr }
        } else {
            HealthModel { available: false, in_recovery: true, addrs: self.addrs }
        }
    }
}

/// Watches over one transport.
pub struct HealthMonitor {
    kind: TransportKind,
    available: bool,
    in_recovery: bool,
    prev_addrs: Vec<u32>,
}

impl View for HealthMonitor {
    type V = HealthModel;

    closed spec fn view(&self) -> HealthModel {
        HealthModel {
            available: self.available,
            in_recovery: self.in_recovery,
            addrs: self.prev_addrs@.to_set(),
        }
    }
}

/// What is reported when a transport of this kind has started.
pub open spec fn started_event(kind: TransportKind, ok: bool) -> Option<TransportEvent> {
    if ok {
        Some(TransportEvent::TransportChanged { from: None, to: kind })
    } else {
        None
    }
}

impl HealthMonitor {
    /// The kind of the transport that is watched over.
    pub closed spec fn kind(&self) -> TransportKind {
        self.kind
    }

    /// The transport was started for the first time, successfully or not. A transport that did
    /// not start is in recovery.
    pub fn started(kind: TransportKind, addrs: Vec<u32>, ok: bool) -> (r: (
        HealthMonitor,
        Option<TransportEvent>,
    ))
        ensures
            r.0.kind() == kind,
            r.0@.available == ok,
            r.0@.in_recovery == !ok,
            r.0@.addrs == addrs@.to_set(),
            r.1 == started_event(kind, ok),
    {
        let event = if ok {
            Some(TransportEvent::TransportChanged { from: None, to: kind })
        } else {
            None
        };
        (HealthMonitor { kind, available: ok, in_recovery: !ok, prev_addrs: addrs }, event)
    }

    /// Whether the transport is to be used.
    pub fn is_available(&self) -> (r: bool)
        ensures
            r == self@.available,
    {
        self.available
    }

    /// Looks at the machine's addresses. If the transport has to be restarted, it is not
    /// available until `restarted` says that it runs again.
    pub fn tick(&mut self, curr: &Vec<u32>) -> (restart: bool)
        ensures
            restart == old(self)@.must_restart(curr@.to_set()),
            final(self).kind() == old(self).kind(),
            final(self)@.in_recovery == old(self)@.in_recovery,
            final(self)@.addrs == old(self)@.addrs,
            final(self)@.available == (old(self)@.available && !restart),
    {
        let same = all_in(curr, &self.prev_addrs) && all_in(&self.prev_addrs, curr);
        assert(same == (curr@.to_set() == self.prev_addrs@.to_set())) by {
            if same {
                assert(curr@.to_set() =~= self.prev_addrs@.to_set());
            }
        }
        if !self.in_recovery && same {
            false
        } else {
            self.available = false;
            true
        }
    }

    /// The transport was restarted, successfully or not. Only a success makes `curr` the
    /// addresses that later ones are compared to.
    pub fn restarted(&mut self, curr: Vec<u32>, ok: bool) -> (event: Option<TransportEvent>)
        ensures
            final(self)@ == old(self)@.after_restart(curr@.to_set(), ok),
            final(self).kind() == old(self).kind(),
            event == started_event(old(self).kind(), ok),
    {
        if ok {
            self.available = true;
            self.in_recovery = false;
            self.prev_addrs = curr;
            Some(TransportEvent::TransportChanged { from: None, to: self.kind })
        } else {
            self.available = false;
            self.in_recovery = true;
            None
        }
    }
}

/// A transport that failed to start is restarted at the next look, whether or not the addresses
/// have changed, and after a success it is left alone until they do.
pub proof fn law_recovery_ends_with_success(m: HealthModel, curr: Set<u32>, later: Set<u32>)
    ensures
        m.after_restart(curr, false).must_restart(later),
        m.after_restart(curr, false).addrs == m.addrs,
        m.after_restart(curr, true).must_restart(later) <==> later != curr,
{
}

/// Every pair of an available transport and an address of its kind is a candidate, wherever the two
/// stand in their lists, and there are no other candidates.
pub proof fn law_candidates_are_all_that_can_be_dialled(
    ts: Seq<TransportStatus>,
    anns: Seq<AnnouncementModel>,
    cs: Seq<Candidate>,
    t: usize,
    a: usize,
)
    requires
        candidate_list(ts, anns, cs),
    ensures
        cs.contains((t, a)) <==> {
            &&& t < ts.len()
            &&& a < anns.len()
            &&& ts[t as int].available
            &&& match anns[a as int].address {
                AddressModel::Quic(_) => ts[t as int].kind == TransportKind::Quic,
                AddressModel::Ble(_) => ts[t as int].kind == TransportKind::Ble,
                AddressModel::WifiDirect(_) => ts[t as int].kind == TransportKind::WifiDirect,
                AddressModel::BleAdvertising(_) => ts[t as int].kind
                    == TransportKind::BleAdvertising,
            }
        },
{
    if cs.contains((t, a)) {
        let i = choose|i: int| 0 <= i < cs.len() && cs[i] == (t, a);
        assert(matching(ts, anns, cs[i]));
    }
    if matching(ts, anns, (t, a)) {
        assert(cs.contains((t, a)));
    }
}

/// Of two candidates, the one on the cheaper transport comes first: free ones before metered ones
/// before those of unknown cost. At the same cost, the transport that was registered first comes
/// first, and on one transport the address that was listed first.
pub proof fn law_candidates_in_order(
    ts: Seq<TransportStatus>,
    anns: Seq<AnnouncementModel>,
    cs: Seq<Candidate>,
    i: int,
    j: int,
)
    requires
        candidate_list(ts, anns, cs),
        0 <= i < cs.len(),
        0 <= j < cs.len(),
        ({
            let (a, b) = (ts[cs[i].0 as int].cost, ts[cs[j].0 as int].cost);
            ||| a is Free && !(b is Free)
            ||| a is Metered && b is Unknown
            ||| a == b && cs[i].0 < cs[j].0
            ||| cs[i].0 == cs[j].0 && cs[i].1 < cs[j].1
        }),
    ensures
        i < j,
{
    if j < i {
        assert(precedes(ts, cs[j], cs[i]));
    }
    if i == j {
        assert(cs[i] == cs[j]);
    }
}

/// No candidate is listed twice.
pub proof fn law_candidates_listed_once(
    ts: Seq<TransportStatus>,
    anns: Seq<AnnouncementModel>,
    cs: Seq<Candidate>,
)
    requires
        candidate_list(ts, anns, cs),
    ensures
        cs.no_duplicates(),
{
    assert forall|i: int, j: int| 0 <= i < cs.len() && 0 <= j < cs.len() && i != j implies cs[i]
        != cs[j] by {
        if i < j {
            assert(precedes(ts, cs[i], cs[j]));
        } else {
            assert(precedes(ts, cs[j], cs[i]));
        }
    }
}

/// A send begins by giving up for want of a transport exactly if no available transport has the
/// kind of any of the peer's addresses; else it begins with a try.
pub proof fn law_send_gives_up_only_without_transport(
    ts: Seq<TransportStatus>,
    anns: Seq<AnnouncementModel>,
    cs: Seq<Candidate>,
)
    requires
        candidate_list(ts, anns, cs),
        ts.len() <= usize::MAX,
        anns.len() <= usize::MAX,
    ensures
        ({
            let step = SendModel { attempt: 0, candidates: cs, next: 0 }.step();
            let none = forall|t: int, a: int|
                0 <= t < ts.len() && 0 <= a < anns.len() && (#[trigger] ts[t]).available
                    ==> match (#[trigger] anns[a]).address {
                    AddressModel::Quic(_) => ts[t].kind != TransportKind::Quic,
                    AddressModel::Ble(_) => ts[t].kind != TransportKind::Ble,
                    AddressModel::WifiDirect(_) => ts[t].kind != TransportKind::WifiDirect,
                    AddressModel::BleAdvertising(_) => ts[t].kind != TransportKind::BleAdvertising,
                };
            &&& step is NoTransport <==> none
            &&& !none ==> step is Try
        }),
{
    if cs.len() > 0 {
        assert(matching(ts, anns, cs[0]));
        let c = cs[0];
        assert(ts[c.0 as int].available);
        assert(anns[c.1 as int].address.kind() == ts[c.0 as int].kind);
    } else {
        assert forall|t: int, a: int|
            0 <= t < ts.len() && 0 <= a < anns.len() && (
            #[trigger] ts[t]).available implies match (#[trigger] anns[a]).address {
            AddressModel::Quic(_) => ts[t].kind != TransportKind::Quic,
            AddressModel::Ble(_) => ts[t].kind != TransportKind::Ble,
            AddressModel::WifiDirect(_) => ts[t].kind != TransportKind::WifiDirect,
            AddressModel::BleAdvertising(_) => ts[t].kind != TransportKind::BleAdvertising,
        } by {
            let c: Candidate = (t as usize, a as usize);
            law_candidates_are_all_that_can_be_dialled(ts, anns, cs, c.0, c.1);
            assert(!cs.contains(c));
        }
    }
}

/// What a send does next: it gives up if there is no candidate; else it tries the candidates of
/// the list one after the other; then it waits, unless three attempts were made, in which case it
/// fails. A failure moves on to the next candidate of the same attempt, and a wait to the first of
/// the next attempt, with the candidates there are then.
pub proof fn law_send_goes_on(m: SendModel, later: Seq<Candidate>)
    ensures
        m.candidates.len() == 0 <==> m.step() is NoTransport,
        m.candidates.len() > 0 && m.next < m.candidates.len() ==> m.step() == (SendStep::Try {
            transport: m.candidates[m.next].0,
            address: m.candidates[m.next].1,
        }),
        m.candidates.len() > 0 && m.next >= m.candidates.len() && m.attempt < 2 ==> m.step()
            is Backoff,
        m.candidates.len() > 0 && m.next >= m.candidates.len() && m.attempt >= 2 ==> m.step()
            is Failed,
        m.after_failure().next == m.next + 1,
        m.after_failure().attempt == m.attempt,
        m.after_failure().candidates == m.candidates,
        m.after_backoff(later).next == 0,
        m.after_backoff(later).attempt == m.attempt + 1,
        m.after_backoff(later).candidates == later,
{
}

/// A transport that runs is restarted exactly if the machine's addresses are not the ones it was
/// last started on; one that does not run is restarted in any case. A restart that succeeds makes
/// the present addresses those that later ones are compared to; one that fails keeps the old ones.
pub proof fn law_restart_exactly_when_needed(m: HealthModel, curr: Set<u32>)
    ensures
        m.in_recovery ==> m.must_restart(curr),
        !m.in_recovery ==> (m.must_restart(curr) <==> exists|ip: u32|
            m.addrs.contains(ip) != #[trigger] curr.contains(ip)),
        m.after_restart(curr, true).available,
        !m.after_restart(curr, true).in_recovery,
        m.after_restart(curr, true).addrs == curr,
        !m.after_restart(curr, false).available,
        m.after_restart(curr, false).in_recovery,
        m.after_restart(curr, false).addrs == m.addrs,
{
    if forall|ip: u32| m.addrs.contains(ip) == #[trigger] curr.contains(ip) {
        assert(curr =~= m.addrs);
    }
}

/// A start is reported exactly if it succeeded, as a change to the transport that was started.
pub proof fn law_start_reported(kind: TransportKind)
    ensures
        started_event(kind, true) == Some(TransportEvent::TransportChanged { from: None, to: kind }),
        started_event(kind, false) is None,
{
}

/// The machine is reachable at the IPv4 addresses of all interfaces that are not loopbacks, and at
/// no others.
pub proof fn law_reachable_at_every_interface(ifs: Seq<InterfaceAddr>, i: int, ip: u32)
    requires
        0 <= i < ifs.len(),
    ensures
        !ifs[i].loopback && ifs[i].ipv4 == Some(ip) ==> reachable_at(ifs, ip),
        (forall|k: int| 0 <= k < ifs.len() ==> (#[trigger] ifs[k]).loopback || ifs[k].ipv4 != Some(
            ip,
        )) ==> !reachable_at(ifs, ip),
{
}

/// A message identifier has the high bit of its eight bytes set and is otherwise the number that
/// the bytes are.
pub proof fn law_message_id_keeps_the_other_bits(raw: u64)
    ensures
        raw | MESSAGE_ID_BIT == if raw >= 0x8000_0000_0000_0000 {
            raw as int
        } else {
            raw + 0x8000_0000_0000_0000
        },
{
    if raw >= 0x8000_0000_0000_0000 {
        assert(raw | 0x8000_0000_0000_0000u64 == raw) by (bit_vector)
            requires
                raw >= 0x8000_0000_0000_0000u64,
        ;
    } else {
        assert((raw | 0x8000_0000_0000_0000u64) - 0x8000_0000_0000_0000u64 == raw) by (bit_vector)
            requires
                raw < 0x8000_0000_0000_0000u64,
        ;
    }
}

/// How often a send is attempted, and how long is waited for what.
pub proof fn law_timings()
    ensures
        MAX_SEND_ATTEMPTS == 3,
        RETRY_BACKOFF_MS == 1000,
        NETWORK_POLL_INTERVAL_MS == 3000,
        ACK_TIMEOUT_MS == 5000,
{
}

} // verus!
