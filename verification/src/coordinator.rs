//! The download coordinator: which peer gets the next session, when to wait, when
//! to call the sessions off, and when the download is over. It decides; running
//! the sessions is left to its caller, who reports back what became of them.

use crate::error::{ApplicationError, Fault};
use crate::peer::{IpAddress, Peer};
use vstd::prelude::*;

verus! {

/// A peer of the roster.
#[derive(Debug, Clone, Copy, PartialEq, Eq)]
pub struct Slot {
    /// The peer.
    pub peer: Peer,
    /// Whether a session with the peer is running.
    pub busy: bool,
    /// Whether the peer was struck from the roster.
    pub gone: bool,
    /// The time before which no new session is started with the peer.
    pub retry_at: u64,
    /// Whether a session with the peer ended in a timeout before.
    pub timed_out: bool,
}

/// What the coordinator wants done next.
#[derive(Debug, Clone, Copy, PartialEq, Eq, Structural)]
pub enum Step {
    /// Start a session with the peer at this index of the roster.
    Spawn(usize),
    /// Wait until a session has ended.
    Wait,
    /// The download is done: tell the running sessions to cancel.
    Cancel,
    /// No peer is left: announce to the tracker again.
    Reannounce,
    /// The download is done and no session is running.
    Finish,
    /// No peer is left and the tracker has no new one.
    Exhausted,
}

impl Step {
    /// How the download ended, if this step ends it: well when the coordinator
    /// finishes, with an exhausted swarm when it gives up.
    pub open spec fn verdict(self) -> Option<Result<(), ApplicationError>> {
        match self {
            Step::Finish => Some(Ok(())),
            Step::Exhausted => Some(Err(ApplicationError::WorkerError(Fault::SwarmExhausted))),
            _ => None,
        }
    }

    /// Tells how the download ended, if this step ends it.
    pub fn outcome(&self) -> (r: Option<Result<(), ApplicationError>>)
        ensures
            r == self.verdict(),
    {
        match self {
            Step::Finish => Some(Ok(())),
            Step::Exhausted => Some(Err(ApplicationError::WorkerError(Fault::SwarmExhausted))),
            _ => None,
        }
    }
}

/// The state of the coordinator.
pub struct Coordinator {
    /// The roster.
    pub slots: Vec<Slot>,
    /// Where the search for the next peer starts.
    pub cursor: usize,
    /// How many sessions may run at once.
    pub permits: usize,
    /// How many sessions are running.
    pub live: usize,
    /// Whether the running sessions were told to cancel.
    pub cancelling: bool,
    /// Whether the last announce brought no new peer.
    pub exhausted: bool,
}

/// A [`Coordinator`] with a sequence in place of the vector.
pub struct CoordinatorView {
    pub slots: Seq<Slot>,
    pub cursor: usize,
    pub permits: usize,
    pub live: usize,
    pub cancelling: bool,
    pub exhausted: bool,
}

impl View for Coordinator {
    type V = CoordinatorView;

    open spec fn view(&self) -> CoordinatorView {
        CoordinatorView {
            slots: self.slots@,
            cursor: self.cursor,
            permits: self.permits,
            live: self.live,
            cancelling: self.cancelling,
            exhausted: self.exhausted,
        }
    }
}

/// The number of busy peers among the first `n` of the roster.
pub open spec fn busy_in(slots: Seq<Slot>, n: int) -> nat
    decreases n,
{
    if n <= 0 || n > slots.len() {
        0
    } else {
        busy_in(slots, n - 1) + if slots[n - 1].busy {
            1nat
        } else {
            0nat
        }
    }
}

/// Whether a session can be started with the peer at `now`: it is on the roster,
/// has no session, and does not rest after an earlier one.
pub open spec fn free(slot: Slot, now: u64) -> bool {
    !slot.busy && !slot.gone && slot.retry_at <= now
}

/// Whether the peer rests at `now` after a session: it will be free later.
pub open spec fn resting(slot: Slot, now: u64) -> bool {
    !slot.busy && !slot.gone && slot.retry_at > now
}

/// The first index from `from` up to `to` whose peer is free at `now`.
pub open spec fn first_free(slots: Seq<Slot>, from: int, to: int, now: u64) -> Option<int>
    decreases to - from,
{
    if from < 0 || from >= to || to > slots.len() {
        None
    } else if free(slots[from], now) {
        Some(from)
    } else {
        first_free(slots, from + 1, to, now)
    }
}

/// The time `backoff` after `now`, or the end of time where that is beyond it.
pub open spec fn later(now: u64, backoff: u64) -> u64 {
    if now + backoff > u64::MAX {
        u64::MAX
    } else {
        (now + backoff) as u64
    }
}

/// Whether `peer` is on the roster, struck or not.
pub open spec fn known(slots: Seq<Slot>, peer: Peer) -> bool {
    exists|i: int| 0 <= i < slots.len() && (#[trigger] slots[i]).peer == peer
}

/// The roster with the first `n` of `peers` taken in: each one that the roster does
/// not know by then is added at its end, free at once.
pub open spec fn with_peers(slots: Seq<Slot>, peers: Seq<Peer>, n: int) -> Seq<Slot>
    decreases n,
{
    if n <= 0 || n > peers.len() {
        slots
    } else {
        let before = with_peers(slots, peers, n - 1);
        if known(before, peers[n - 1]) {
            before
        } else {
            before.push(
                Slot { peer: peers[n - 1], busy: false, gone: false, retry_at: 0, timed_out: false },
            )
        }
    }
}

impl CoordinatorView {
    /// The invariant of the coordinator: it counts the running sessions, and they
    /// are no more than the permits.
    pub open spec fn wf(self) -> bool {
        &&& self.live == busy_in(self.slots, self.slots.len() as int)
        &&& self.live <= self.permits
        &&& self.cursor <= self.slots.len() <= usize::MAX
    }

    /// The peer that is next in turn at `now`: the first free one from the cursor
    /// on, and from the start of the roster if there is none.
    pub open spec fn next_peer(self, now: u64) -> Option<int> {
        match first_free(self.slots, self.cursor as int, self.slots.len() as int, now) {
            Some(i) => Some(i),
            None => first_free(self.slots, 0, self.cursor as int, now),
        }
    }

    /// Whether a peer rests at `now`.
    pub open spec fn any_resting(self, now: u64) -> bool {
        exists|i: int| 0 <= i < self.slots.len() && resting(#[trigger] self.slots[i], now)
    }

    /// What is to be done next at `now`, given whether the download is done.
    ///
    /// When it is done, the running sessions are called off once and then waited
    /// for, and the coordinator finishes when none is left. When it is not, the
    /// next free peer gets a session while a permit is free; else the coordinator
    /// waits while a session runs or a peer rests; and with neither it announces
    /// again, or gives up if the last announce brought nothing.
    pub open spec fn decision(self, done: bool, now: u64) -> Step {
        if done {
            if self.live == 0 {
                Step::Finish
            } else if !self.cancelling {
                Step::Cancel
            } else {
                Step::Wait
            }
        } else if self.live < self.permits && self.next_peer(now) is Some {
            Step::Spawn(self.next_peer(now).unwrap() as usize)
        } else if self.live > 0 || self.any_resting(now) {
            Step::Wait
        } else if self.exhausted {
            Step::Exhausted
        } else {
            Step::Reannounce
        }
    }

    /// The state after the decision: a peer that gets a session is busy and the
    /// cursor stands behind it; sessions that are called off are marked so.
    pub open spec fn decided(self, done: bool, now: u64) -> CoordinatorView {
        match self.decision(done, now) {
            Step::Spawn(i) => CoordinatorView {
                slots: self.slots.update(i as int, Slot { busy: true, ..self.slots[i as int] }),
                cursor: if i + 1 >= self.slots.len() {
                    0
                } else {
                    (i + 1) as usize
                },
                live: (self.live + 1) as usize,
                ..self
            },
            Step::Cancel => CoordinatorView { cancelling: true, ..self },
            _ => self,
        }
    }

    /// Whether the error of a session strikes its peer from the roster: a peer that
    /// sent what could not be parsed or broke the protocol is not tried again.
    pub open spec fn strikes(e: Option<ApplicationError>) -> bool {
        match e {
            Some(ApplicationError::ParserError(_)) => true,
            Some(ApplicationError::ProtocolError(_)) => true,
            _ => false,
        }
    }

    /// Whether the session ended in a timeout: the peer stalled or stayed silent. A
    /// peer is tried once more after its first timeout and struck after its second.
    pub open spec fn times_out(e: Option<ApplicationError>) -> bool {
        e == Some(ApplicationError::PeerError(Fault::PeerStalled)) || e == Some(
            ApplicationError::PeerError(Fault::PeerTimeout),
        )
    }

    /// The state after the session with the peer at `index` ended at `now` with
    /// `e`: the permit is free again, the peer is struck if the error asks for it or
    /// is its second timeout, and it rests for `backoff` otherwise. A report for a
    /// peer that has no session changes nothing.
    pub open spec fn ended(
        self,
        index: usize,
        e: Option<ApplicationError>,
        now: u64,
        backoff: u64,
    ) -> CoordinatorView {
        if index < self.slots.len() && self.slots[index as int].busy {
            CoordinatorView {
                slots: self.slots.update(
                    index as int,
                    Slot {
                        busy: false,
                        gone: self.slots[index as int].gone || Self::strikes(e) || (
                        Self::times_out(e) && self.slots[index as int].timed_out),
                        retry_at: later(now, backoff),
                        timed_out: self.slots[index as int].timed_out || Self::times_out(e),
                        ..self.slots[index as int]
                    },
                ),
                live: (self.live - 1) as usize,
                ..self
            }
        } else {
            self
        }
    }
}

/// Making one peer busy or idle changes the number of busy peers by one.
pub proof fn lemma_busy_update(slots: Seq<Slot>, i: int, slot: Slot, n: int)
    requires
        0 <= i < slots.len(),
        0 <= n <= slots.len(),
    ensures
        busy_in(slots.update(i, slot), n) + (if i < n && slots[i].busy {
            1nat
        } else {
            0nat
        }) == busy_in(slots, n) + (if i < n && slot.busy {
            1nat
        } else {
            0nat
        }),
    decreases n,
{
    if n > 0 {
        lemma_busy_update(slots, i, slot, n - 1);
    }
}

/// A peer that is busy is counted.
pub proof fn lemma_busy_counted(slots: Seq<Slot>, i: int, n: int)
    requires
        0 <= i < n <= slots.len(),
        slots[i].busy,
    ensures
        busy_in(slots, n) >= 1,
    decreases n,
{
    if i < n - 1 {
        lemma_busy_counted(slots, i, n - 1);
    }
}

/// With one peer more, as many are busy as before, or one more if the new one is.
pub proof fn lemma_busy_push(slots: Seq<Slot>, slot: Slot, n: int)
    requires
        0 <= n <= slots.len(),
    ensures
        busy_in(slots.push(slot), n) == busy_in(slots, n),
    decreases n,
{
    if n > 0 {
        lemma_busy_push(slots, slot, n - 1);
    }
}

/// What the first free index is: free, in range, and the first such.
pub proof fn lemma_first_free(slots: Seq<Slot>, from: int, to: int, now: u64)
    requires
        0 <= from <= to <= slots.len(),
    ensures
        match first_free(slots, from, to, now) {
            Some(i) => from <= i < to && free(slots[i], now) && forall|k: int|
                from <= k < i ==> !free(#[trigger] slots[k], now),
            None => forall|k: int| from <= k < to ==> !free(#[trigger] slots[k], now),
        },
    decreases to - from,
{
    if from < to && !free(slots[from], now) {
        lemma_first_free(slots, from + 1, to, now);
    }
}

impl Coordinator {
    /// A coordinator over the roster `peers` with `permits` sessions at once.
    pub fn new(peers: &Vec<Peer>, permits: usize) -> (c: Self)
        ensures
            c@.wf(),
            c@.slots.len() == peers@.len(),
            forall|i: int|
                0 <= i < peers@.len() ==> (#[trigger] c@.slots[i]) == (Slot {
                    peer: peers@[i],
                    busy: false,
                    gone: false,
                    retry_at: 0,
                    timed_out: false,
                }),
            c@.cursor == 0,
            c@.permits == permits,
            c@.live == 0,
            !c@.cancelling,
            !c@.exhausted,
    {
        let mut slots: Vec<Slot> = Vec::new();
        let mut i: usize = 0;
        while i < peers.len()
            invariant
                i <= peers@.len(),
                slots@.len() == i,
                busy_in(slots@, i as int) == 0,
                forall|k: int|
                    0 <= k < i ==> (#[trigger] slots@[k]) == (Slot {
                        peer: peers@[k],
                        busy: false,
                        gone: false,
                        retry_at: 0,
                        timed_out: false,
                    }),
            decreases peers@.len() - i,
        {
            let ghost before = slots@;
            let slot = Slot {
                peer: peers[i],
                busy: false,
                gone: false,
                retry_at: 0,
                timed_out: false,
            };
            slots.push(slot);
            proof {
                lemma_busy_push(before, slot, i as int);
            }
            i += 1;
        }
        Coordinator { slots, cursor: 0, permits, live: 0, cancelling: false, exhausted: false }
    }

    /// Finds the first peer from `from` up to `to` that is free at `now`.
    fn scan(&self, from: usize, to: usize, now: u64) -> (r: Option<usize>)
        requires
            from <= to <= self.slots@.len(),
        ensures
            match r {
                Some(i) => first_free(self.slots@, from as int, to as int, now) == Some(i as int)
                    && i < to,
                None => first_free(self.slots@, from as int, to as int, now) is None,
            },
    {
        let mut k: usize = from;
        while k < to
            invariant
                from <= k <= to <= self.slots@.len(),
                first_free(self.slots@, from as int, to as int, now) == first_free(
                    self.slots@,
                    k as int,
                    to as int,
                    now,
                ),
            decreases to - k,
        {
            if !self.slots[k].busy && !self.slots[k].gone && self.slots[k].retry_at <= now {
                return Some(k);
            }
            k += 1;
        }
        None
    }

    /// Whether a peer rests at `now`.
    fn any_resting(&self, now: u64) -> (b: bool)
        ensures
            b == self@.any_resting(now),
    {
        let mut k: usize = 0;
        while k < self.slots.len()
            invariant
                k <= self.slots@.len(),
                forall|i: int| 0 <= i < k ==> !resting(#[trigger] self@.slots[i], now),
            decreases self.slots@.len() - k,
        {
            if !self.slots[k].busy && !self.slots[k].gone && self.slots[k].retry_at > now {
                assert(resting(self@.slots[k as int], now));
                return true;
            }
            k += 1;
        }
        false
    }

    /// Decides what to do next at `now`, given whether the download is done.
    pub fn next_step(&mut self, done: bool, now: u64) -> (step: Step)
        requires
            old(self)@.wf(),
        ensures
            final(self)@.wf(),
            step == old(self)@.decision(done, now),
            final(self)@ == old(self)@.decided(done, now),
            step matches Step::Spawn(i) ==> i < old(self)@.slots.len() && free(
                old(self)@.slots[i as int],
                now,
            ),
    {
        if done {
            if self.live == 0 {
                return Step::Finish;
            }
            if !self.cancelling {
                self.cancelling = true;
                return Step::Cancel;
            }
            return Step::Wait;
        }
        if self.live < self.permits {
            let found = match self.scan(self.cursor, self.slots.len(), now) {
                Some(i) => Some(i),
                None => self.scan(0, self.cursor, now),
            };
            match found {
                Some(i) => {
                    proof {
                        lemma_first_free(
                            self.slots@,
                            self.cursor as int,
                            self.slots@.len() as int,
                            now,
                        );
                        lemma_first_free(self.slots@, 0, self.cursor as int, now);
                        lemma_busy_update(
                            self.slots@,
                            i as int,
                            Slot { busy: true, ..self.slots@[i as int] },
                            self.slots@.len() as int,
                        );
                    }
                    let slot = self.slots[i];
                    self.slots[i] = Slot {
                        peer: slot.peer,
                        busy: true,
                        gone: slot.gone,
                        retry_at: slot.retry_at,
                        timed_out: slot.timed_out,
                    };
                    self.cursor = if i + 1 >= self.slots.len() {
                        0
                    } else {
                        i + 1
                    };
                    self.live = self.live + 1;
                    return Step::Spawn(i);
                },
                None => {},
            }
        }
        if self.live > 0 || self.any_resting(now) {
            Step::Wait
        } else if self.exhausted {
            Step::Exhausted
        } else {
            Step::Reannounce
        }
    }

    /// Takes the report that the session with the peer at `index` ended at `now`,
    /// with `e` if it ended in an error. A peer that is not struck rests for
    /// `backoff` before it gets a new session.
    pub fn session_ended(
        &mut self,
        index: usize,
        e: Option<ApplicationError>,
        now: u64,
        backoff: u64,
    )
        requires
            old(self)@.wf(),
        ensures
            final(self)@.wf(),
            final(self)@ == old(self)@.ended(index, e, now, backoff),
    {
        if index < self.slots.len() && self.slots[index].busy {
            let slot = self.slots[index];
            let strikes = match e {
                Some(ApplicationError::ParserError(_)) => true,
                Some(ApplicationError::ProtocolError(_)) => true,
                _ => false,
            };
            let retry_at: u64 = if backoff > u64::MAX - now {
                u64::MAX
            } else {
                now + backoff
            };
            let times_out = match e {
                Some(ApplicationError::PeerError(Fault::PeerStalled)) => true,
                Some(ApplicationError::PeerError(Fault::PeerTimeout)) => true,
                _ => false,
            };
            let after = Slot {
                peer: slot.peer,
                busy: false,
                gone: slot.gone || strikes || (times_out && slot.timed_out),
                retry_at,
                timed_out: slot.timed_out || times_out,
            };
            proof {
                lemma_busy_counted(self.slots@, index as int, self.slots@.len() as int);
                lemma_busy_update(self.slots@, index as int, after, self.slots@.len() as int);
            }
            self.slots[index] = after;
            self.live = self.live - 1;
        }
    }

    /// Whether `peer` is on the roster, struck or not.
    pub fn knows(&self, peer: &Peer) -> (b: bool)
        ensures
            b == known(self.slots@, *peer),
    {
        let mut i: usize = 0;
        while i < self.slots.len()
            invariant
                i <= self.slots@.len(),
                forall|k: int| 0 <= k < i ==> (#[trigger] self.slots@[k]).peer != *peer,
            decreases self.slots@.len() - i,
        {
            if Self::same_peer(&self.slots[i].peer, peer) {
                return true;
            }
            i += 1;
        }
        false
    }

    /// Whether two peers are the same endpoint.
    fn same_peer(a: &Peer, b: &Peer) -> (r: bool)
        ensures
            r == (*a == *b),
    {
        if a.port != b.port {
            return false;
        }
        match (a.ip, b.ip) {
            (IpAddress::V4(x), IpAddress::V4(y)) => {
                let same = x[0] == y[0] && x[1] == y[1] && x[2] == y[2] && x[3] == y[3];
                assert(same == (x =~= y));
                same
            },
            (IpAddress::V6(x), IpAddress::V6(y)) => {
                let mut same = true;
                let mut k: usize = 0;
                while k < 16
                    invariant
                        k <= 16,
                        same == (forall|i: int| 0 <= i < k ==> x@[i] == y@[i]),
                    decreases 16 - k,
                {
                    if x[k] != y[k] {
                        same = false;
                    }
                    k += 1;
                }
                assert(same == (x =~= y));
                same
            },
            _ => false,
        }
    }

    /// Takes the peers of a new announce: those that the roster does not know are
    /// added to it, in their order. Returns how many were added; if none was, the
    /// swarm counts as exhausted until an announce brings a new peer.
    pub fn reannounced(&mut self, peers: &Vec<Peer>) -> (added: usize)
        requires
            old(self)@.wf(),
        ensures
            final(self)@.wf(),
            final(self)@ == (CoordinatorView {
                slots: with_peers(old(self)@.slots, peers@, peers@.len() as int),
                exhausted: added == 0,
                ..old(self)@
            }),
            added == final(self)@.slots.len() - old(self)@.slots.len(),
    {
        let ghost before = self@;
        let start = self.slots.len();
        let mut i: usize = 0;
        while i < peers.len()
            invariant
                i <= peers@.len(),
                before == old(self)@,
                before.wf(),
                start == before.slots.len(),
                self.slots@ == with_peers(before.slots, peers@, i as int),
                self.slots@.len() >= start,
                self.live == busy_in(self.slots@, self.slots@.len() as int),
                self.cursor == before.cursor,
                self.permits == before.permits,
                self.live == before.live,
                self.cancelling == before.cancelling,
                self.exhausted == before.exhausted,
            decreases peers@.len() - i,
        {
            let peer = peers[i];
            let ghost slots = self.slots@;
            if !self.knows(&peer) {
                let slot = Slot { peer, busy: false, gone: false, retry_at: 0, timed_out: false };
                self.slots.push(slot);
                proof {
                    lemma_busy_push(slots, slot, slots.len() as int);
                    assert(self.slots@ == slots.push(slot));
                    assert(busy_in(self.slots@, self.slots@.len() as int) == busy_in(
                        self.slots@,
                        slots.len() as int,
                    ));
                }
            }
            i += 1;
        }
        let added = self.slots.len() - start;
        self.exhausted = added == 0;
        added
    }
}

/// After an announce the roster knows every peer of the answer, keeps the peers
/// that it had in their places, and whoever is new is free.
pub proof fn lemma_with_peers(slots: Seq<Slot>, peers: Seq<Peer>, n: int)
    requires
        0 <= n <= peers.len(),
    ensures
        slots.len() <= with_peers(slots, peers, n).len(),
        with_peers(slots, peers, n).take(slots.len() as int) == slots,
        forall|k: int| 0 <= k < n ==> known(with_peers(slots, peers, n), #[trigger] peers[k]),
        forall|i: int|
            slots.len() <= i < with_peers(slots, peers, n).len() ==> {
                &&& free(#[trigger] with_peers(slots, peers, n)[i], 0)
                &&& !known(slots, with_peers(slots, peers, n)[i].peer)
            },
    decreases n,
{
    if n > 0 {
        lemma_with_peers(slots, peers, n - 1);
        let before = with_peers(slots, peers, n - 1);
        let now = with_peers(slots, peers, n);
        let peer = peers[n - 1];
        assert(before.take(slots.len() as int) == slots);
        assert(now.take(slots.len() as int) =~= slots) by {
            assert forall|i: int| 0 <= i < slots.len() implies now[i] == slots[i] by {
                assert(before.take(slots.len() as int)[i] == before[i]);
            }
        }
        assert forall|k: int| 0 <= k < n implies known(now, #[trigger] peers[k]) by {
            if k < n - 1 || known(before, peer) {
                let w = choose|w: int| 0 <= w < before.len() && (#[trigger] before[w]).peer == peers[k];
                assert(now[w].peer == peers[k]);
            } else {
                assert(now[before.len() as int].peer == peer);
            }
        }
        assert forall|i: int| slots.len() <= i < now.len() implies {
            &&& free(#[trigger] now[i], 0)
            &&& !known(slots, now[i].peer)
        } by {
            if i < before.len() {
                assert(now[i] == before[i]);
            } else {
                if known(slots, peer) {
                    let w = choose|w: int| 0 <= w < slots.len() && (#[trigger] slots[w]).peer == peer;
                    assert(before.take(slots.len() as int)[w] == before[w]);
                    assert(before[w].peer == peer);
                }
            }
        }
    } else {
        assert(with_peers(slots, peers, n).take(slots.len() as int) =~= slots);
    }
}

/// The coordinator finishes only when the download is done and no session runs;
/// it gives up only when no session runs, no peer rests, no session can be started
/// and the last announce brought no new peer; and it starts a session only with a
/// peer that is free, while the download is not done and a permit is left.
pub proof fn lemma_decisions(c: CoordinatorView, done: bool, now: u64)
    requires
        c.wf(),
    ensures
        c.decision(done, now) == Step::Finish <==> done && c.live == 0,
        c.decision(done, now) == Step::Exhausted ==> !done && c.live == 0 && c.exhausted
            && !c.any_resting(now) && (c.permits == 0 || c.next_peer(now) is None),
        c.decision(done, now) matches Step::Spawn(i) ==> !done && c.live < c.permits && i
            < c.slots.len() && free(c.slots[i as int], now),
{
    lemma_first_free(c.slots, c.cursor as int, c.slots.len() as int, now);
    lemma_first_free(c.slots, 0, c.cursor as int, now);
}

} // verus!
