//! Peers: the endpoints of the swarm, and the state of a session with one of them.

use crate::bitfield::{advertised, bitfield_pieces, in_range};
use crate::error::{ApplicationError, Fault};
use crate::manager::laws::lemma_open_members;
use crate::manager::{ManagerView, Outcome, PieceManager};
use crate::piece::laws::{lemma_layout_bounds, lemma_reserved_none};
use crate::piece::{first_n, BlockRef};
use crate::protocol::{
    decoded, frame_size, handshake_bytes, is_handshake, keep_alive_frame, lemma_payload_len,
    parse_frame, Handshake, Message, MessageView,
};
use vstd::slice::slice_subrange;
use std::collections::HashSet;
use vstd::prelude::*;
use vstd::seq_lib::lemma_seq_take_contains;

verus! {

broadcast use vstd::std_specs::hash::group_hash_axioms;

/// An IP address, as its bytes in network order.
#[derive(Debug, Clone, Copy, PartialEq, Eq, Hash)]
pub enum IpAddress {
    /// An IPv4 address.
    V4([u8; 4]),
    /// An IPv6 address.
    V6([u8; 16]),
}

/// A peer of the swarm: where to connect to.
#[derive(Debug, Clone, Copy, PartialEq, Eq, Hash)]
pub struct Peer {
    /// Address of the peer.
    pub ip: IpAddress,
    /// TCP port of the peer.
    pub port: u16,
}

/// A [`Peer`] with its address as a sequence of bytes: four for IPv4, sixteen for
/// IPv6.
pub struct PeerView {
    pub ip: Seq<u8>,
    pub port: u16,
}

impl View for Peer {
    type V = PeerView;

    open spec fn view(&self) -> PeerView {
        PeerView {
            ip: match self.ip {
                IpAddress::V4(a) => a@,
                IpAddress::V6(a) => a@,
            },
            port: self.port,
        }
    }
}

/// The peers as views.
pub open spec fn peer_views(peers: Seq<Peer>) -> Seq<PeerView> {
    Seq::new(peers.len(), |i: int| peers[i]@)
}

/// Where a session stands.
#[derive(Debug, Clone, Copy, PartialEq, Eq, Structural)]
pub enum SessionState {
    /// The connection is made and no handshake has arrived.
    Connected,
    /// The peer's handshake names our torrent.
    Handshook,
    /// We told the peer that we are interested.
    Interested,
    /// The peer unchoked us: requests may be sent.
    Active,
    /// The peer choked us after having unchoked us.
    Choked,
    /// The session is over.
    Terminated,
}

/// A request that was sent and is not answered.
#[derive(Debug, Clone, Copy, PartialEq, Eq)]
pub struct Pending {
    /// The block that was asked for.
    pub block: BlockRef,
    /// When the request was sent last.
    pub issued: u64,
    /// Whether the request was sent a second time.
    pub retried: bool,
}

/// The periods of a session, in the unit of its clock.
#[derive(Debug, Clone, Copy, PartialEq, Eq, Structural)]
pub struct Timeouts {
    /// How long a request may stay unanswered.
    pub request: u64,
    /// How long the peer may stay silent.
    pub idle: u64,
    /// After how much silence of our own a keep-alive is sent.
    pub keep_alive: u64,
}

/// What a message led to.
#[derive(Debug, Clone, Copy, PartialEq, Eq, Structural)]
pub enum Reaction {
    /// The state of the session was brought up to date.
    Noted,
    /// A block was handed to the piece manager.
    Delivered(Outcome),
}

/// The state of a session with one peer.
pub struct PeerConnection {
    /// The peer at the other end.
    pub peer: Peer,
    /// The name under which the session reserves blocks.
    pub owner: usize,
    /// The torrent that the session is about.
    pub info_hash: [u8; 20],
    /// Number of pieces of the torrent.
    pub piece_count: usize,
    /// Where the session stands.
    pub state: SessionState,
    /// Whether the peer chokes us.
    pub choked: bool,
    /// Whether we told the peer that we are interested.
    pub interested: bool,
    /// Whether we choke the peer: always, as this client serves no blocks.
    pub peer_choked: bool,
    /// Whether the peer is interested in us.
    pub peer_interested: bool,
    /// Whether no message has arrived since the handshake.
    pub fresh: bool,
    /// The pieces that the peer advertises.
    pub available_pieces: HashSet<usize>,
    /// The requests in flight.
    pub pending: Vec<Pending>,
    /// How many requests may be in flight.
    pub window: usize,
    /// When the peer was heard last.
    pub last_heard: u64,
    /// When we sent something last.
    pub last_sent: u64,
}

/// A [`PeerConnection`] with a set and a sequence in place of the collections.
pub struct SessionView {
    pub owner: usize,
    pub info_hash: Seq<u8>,
    pub piece_count: usize,
    pub state: SessionState,
    pub choked: bool,
    pub interested: bool,
    pub peer_choked: bool,
    pub peer_interested: bool,
    pub fresh: bool,
    pub available: Set<usize>,
    pub pending: Seq<Pending>,
    pub window: usize,
    pub last_heard: u64,
    pub last_sent: u64,
}

impl View for PeerConnection {
    type V = SessionView;

    open spec fn view(&self) -> SessionView {
        SessionView {
            owner: self.owner,
            info_hash: self.info_hash@,
            piece_count: self.piece_count,
            state: self.state,
            choked: self.choked,
            interested: self.interested,
            peer_choked: self.peer_choked,
            peer_interested: self.peer_interested,
            fresh: self.fresh,
            available: self.available_pieces@,
            pending: self.pending@,
            window: self.window,
            last_heard: self.last_heard,
            last_sent: self.last_sent,
        }
    }
}

/// The index of the first pending request from index `k` on that asks for `length`
/// bytes of piece `piece` at `offset`.
pub open spec fn find_pending(
    pending: Seq<Pending>,
    piece: usize,
    offset: usize,
    length: usize,
    k: int,
) -> Option<int>
    decreases pending.len() - k,
{
    if k < 0 || k >= pending.len() {
        None
    } else if pending[k].block == (BlockRef { piece, offset, length }) {
        Some(k)
    } else {
        find_pending(pending, piece, offset, length, k + 1)
    }
}

impl SessionView {
    /// The session once a message of the peer was heard at `now`.
    pub open spec fn heard(self, now: u64) -> SessionView {
        SessionView { fresh: false, last_heard: now, ..self }
    }

    /// The session once it is over: nothing is pending any more.
    pub open spec fn ended(self) -> SessionView {
        SessionView { state: SessionState::Terminated, pending: Seq::empty(), ..self }
    }

    /// The session after the peer choked us: the requests in flight count as
    /// withdrawn, and an active session is choked.
    pub open spec fn after_choke(self) -> SessionView {
        SessionView {
            choked: true,
            pending: Seq::empty(),
            state: if self.state == SessionState::Active {
                SessionState::Choked
            } else {
                self.state
            },
            ..self
        }
    }

    /// The session after the peer unchoked us: an interested or choked session is
    /// active.
    pub open spec fn after_unchoke(self) -> SessionView {
        SessionView {
            choked: false,
            state: if self.state == SessionState::Interested || self.state
                == SessionState::Choked {
                SessionState::Active
            } else {
                self.state
            },
            ..self
        }
    }
}

impl PeerConnection {
    /// The state of a session on a connection that was just made: the peer chokes
    /// us, we are not interested, nothing is known of the peer's pieces.
    pub fn new(
        peer: Peer,
        owner: usize,
        info_hash: [u8; 20],
        piece_count: usize,
        window: usize,
        now: u64,
    ) -> (c: Self)
        ensures
            c.peer == peer,
            c@ == (SessionView {
                owner,
                info_hash: info_hash@,
                piece_count,
                state: SessionState::Connected,
                choked: true,
                interested: false,
                peer_choked: true,
                peer_interested: false,
                fresh: true,
                available: Set::empty(),
                pending: Seq::empty(),
                window,
                last_heard: now,
                last_sent: now,
            }),
    {
        PeerConnection {
            peer,
            owner,
            info_hash,
            piece_count,
            state: SessionState::Connected,
            choked: true,
            interested: false,
            peer_choked: true,
            peer_interested: false,
            fresh: true,
            available_pieces: HashSet::new(),
            pending: Vec::new(),
            window,
            last_heard: now,
            last_sent: now,
        }
    }

    /// The pieces that the peer advertises.
    pub fn available_pieces(&self) -> (set: &HashSet<usize>)
        ensures
            set@ == self@.available,
    {
        &self.available_pieces
    }

    /// The handshake to send to the peer, for a client that calls itself `peer_id`.
    pub fn handshake(&self, peer_id: [u8; 20]) -> (buf: [u8; 68])
        ensures
            buf@ == handshake_bytes(self.info_hash@, peer_id@),
    {
        Handshake::new(self.info_hash, peer_id).encode()
    }

    /// Takes the handshake of the peer. It is accepted if the session awaits one, it
    /// is a handshake, and it names our torrent: the session has then shaken hands.
    /// Otherwise the session is over.
    pub fn accept_handshake(&mut self, buf: &[u8], now: u64) -> (r: Result<
        [u8; 20],
        ApplicationError,
    >)
        ensures
            match r {
                Ok(peer_id) => {
                    &&& old(self)@.state == SessionState::Connected
                    &&& is_handshake(buf@)
                    &&& buf@.subrange(28, 48) == old(self)@.info_hash
                    &&& peer_id@ == buf@.subrange(48, 68)
                    &&& final(self)@ == (SessionView {
                        state: SessionState::Handshook,
                        last_heard: now,
                        ..old(self)@
                    })
                },
                Err(e) => {
                    &&& final(self)@ == old(self)@.ended()
                    &&& e == (if old(self)@.state != SessionState::Connected {
                        ApplicationError::ProtocolError(Fault::ProtocolViolation)
                    } else if !is_handshake(buf@) {
                        ApplicationError::ParserError(Fault::HandshakeMalformed)
                    } else {
                        ApplicationError::ProtocolError(Fault::InfoHashMismatch)
                    })
                    &&& !(old(self)@.state == SessionState::Connected && is_handshake(buf@)
                        && buf@.subrange(28, 48) == old(self)@.info_hash)
                },
            },
            final(self).peer == old(self).peer,
    {
        if self.state != SessionState::Connected {
            self.state = SessionState::Terminated;
            self.pending = Vec::new();
            return Err(ApplicationError::ProtocolError(Fault::ProtocolViolation));
        }
        let handshake = match Handshake::decode(buf) {
            Ok(h) => h,
            Err(e) => {
                self.state = SessionState::Terminated;
                self.pending = Vec::new();
                return Err(e);
            },
        };
        let mut same = true;
        let mut k: usize = 0;
        while k < 20
            invariant
                k <= 20,
                same == (forall|i: int| 0 <= i < k ==> handshake.info_hash@[i] == self.info_hash@[i]),
            decreases 20 - k,
        {
            if handshake.info_hash[k] != self.info_hash[k] {
                same = false;
            }
            k += 1;
        }
        assert(same == (handshake.info_hash@ =~= self.info_hash@));
        if !same {
            self.state = SessionState::Terminated;
            self.pending = Vec::new();
            return Err(ApplicationError::ProtocolError(Fault::InfoHashMismatch));
        }
        self.state = SessionState::Handshook;
        self.last_heard = now;
        Ok(handshake.peer_id)
    }

    /// Tells the peer that we are interested: returns the frame to send. A session
    /// that has shaken hands is interested from then on.
    pub fn send_interested(&mut self, now: u64) -> (frame: Vec<u8>)
        ensures
            frame@ == MessageView::Interested.frame(),
            final(self)@ == (SessionView {
                interested: true,
                last_sent: now,
                state: if old(self)@.state == SessionState::Handshook {
                    SessionState::Interested
                } else {
                    old(self)@.state
                },
                ..old(self)@
            }),
            final(self).peer == old(self).peer,
    {
        self.interested = true;
        self.last_sent = now;
        if self.state == SessionState::Handshook {
            self.state = SessionState::Interested;
        }
        Message::Interested.encode()
    }

    /// Ends the session: its reservations are given back, and nothing is pending.
    pub fn terminate(&mut self, manager: &mut PieceManager)
        requires
            old(manager)@.wf(),
        ensures
            final(manager)@.wf(),
            final(manager)@ == old(manager)@.released(old(self)@.owner),
            final(self)@ == old(self)@.ended(),
            final(self).peer == old(self).peer,
    {
        manager.abandon(self.owner);
        self.state = SessionState::Terminated;
        self.pending = Vec::new();
    }
}

impl SessionView {
    /// Whether the session may hear messages: it has shaken hands and is not over.
    pub open spec fn listening(self) -> bool {
        self.state == SessionState::Handshook || self.state == SessionState::Interested
            || self.state == SessionState::Active || self.state == SessionState::Choked
    }

    /// Why `msg` ends the session, if it does: a message before the handshake or
    /// after the end, a bitfield that is not the first message or sets a bit beyond
    /// the last piece, a block that was not asked for, or one that the piece manager
    /// refuses.
    pub open spec fn refusal(self, msg: MessageView, manager: ManagerView) -> Option<
        ApplicationError,
    > {
        if !self.listening() {
            Some(ApplicationError::ProtocolError(Fault::ProtocolViolation))
        } else {
            match msg {
                MessageView::Bitfield(bits) => if !self.fresh {
                    Some(ApplicationError::ProtocolError(Fault::ProtocolViolation))
                } else if !in_range(bits, self.piece_count as int) {
                    Some(ApplicationError::ParserError(Fault::BitfieldOutOfRange))
                } else {
                    None
                },
                MessageView::Piece { index, begin, block } => if block.len() > usize::MAX
                    || find_pending(
                    self.pending,
                    index as usize,
                    begin as usize,
                    block.len() as usize,
                    0,
                ) is None {
                    Some(ApplicationError::ProtocolError(Fault::UnexpectedPiece))
                } else {
                    match manager.delivery_fault(
                        index as usize,
                        begin as usize,
                        block.len() as int,
                    ) {
                        Some(f) => Some(ApplicationError::ProtocolError(f)),
                        None => None,
                    }
                },
                _ => None,
            }
        }
    }

    /// The session after a message that does not end it was heard at `now`.
    pub open spec fn after_message(self, msg: MessageView, now: u64) -> SessionView {
        let heard = self.heard(now);
        match msg {
            MessageView::Choke => heard.after_choke(),
            MessageView::Unchoke => heard.after_unchoke(),
            MessageView::Interested => SessionView { peer_interested: true, ..heard },
            MessageView::NotInterested => SessionView { peer_interested: false, ..heard },
            MessageView::Have(index) => SessionView {
                available: heard.available.insert(index as usize),
                ..heard
            },
            MessageView::Bitfield(bits) => SessionView { available: advertised(bits), ..heard },
            MessageView::Piece { index, begin, block } => SessionView {
                pending: heard.pending.remove(
                    find_pending(
                        heard.pending,
                        index as usize,
                        begin as usize,
                        block.len() as usize,
                        0,
                    ).unwrap(),
                ),
                ..heard
            },
            MessageView::Request { .. } | MessageView::Cancel { .. } => heard,
        }
    }

    /// The state of the pieces after a message that does not end the session: a
    /// choke gives the session's reservations back, a block is delivered, and
    /// nothing else touches the pieces.
    pub open spec fn pieces_after(self, msg: MessageView, manager: ManagerView) -> ManagerView {
        match msg {
            MessageView::Choke => manager.released(self.owner),
            MessageView::Piece { index, begin, block } => manager.delivered(
                index as usize,
                begin as usize,
                block,
            ),
            _ => manager,
        }
    }

    /// What a message that does not end the session leads to.
    pub open spec fn reaction(self, msg: MessageView, manager: ManagerView) -> Reaction {
        match msg {
            MessageView::Piece { index, begin, block } => Reaction::Delivered(
                manager.outcome(index as usize, begin as usize, block),
            ),
            _ => Reaction::Noted,
        }
    }
}

/// The requests for the blocks of `batch`.
pub open spec fn requests_for(batch: Seq<BlockRef>) -> Seq<MessageView> {
    Seq::new(
        batch.len(),
        |i: int|
            MessageView::Request {
                index: batch[i].piece as u32,
                begin: batch[i].offset as u32,
                length: batch[i].length as u32,
            },
    )
}

/// The withdrawals of the requests `pending`.
pub open spec fn cancels_for(pending: Seq<Pending>) -> Seq<MessageView> {
    Seq::new(
        pending.len(),
        |i: int|
            MessageView::Cancel {
                index: pending[i].block.piece as u32,
                begin: pending[i].block.offset as u32,
                length: pending[i].block.length as u32,
            },
    )
}

/// The requests `batch` as they are pending once sent at `now`.
pub open spec fn pending_for(batch: Seq<BlockRef>, now: u64) -> Seq<Pending> {
    Seq::new(batch.len(), |i: int| Pending { block: batch[i], issued: now, retried: false })
}

/// The messages as views.
pub open spec fn message_views(messages: Seq<Message>) -> Seq<MessageView> {
    Seq::new(messages.len(), |i: int| messages[i]@)
}

impl PeerConnection {
    /// Finds the pending request for `length` bytes of piece `piece` at `offset`.
    fn find_request(&self, piece: usize, offset: usize, length: usize) -> (r: Option<usize>)
        ensures
            match r {
                Some(k) => find_pending(self.pending@, piece, offset, length, 0) == Some(k as int)
                    && k < self.pending@.len(),
                None => find_pending(self.pending@, piece, offset, length, 0) is None,
            },
    {
        let mut k: usize = 0;
        while k < self.pending.len()
            invariant
                k <= self.pending@.len(),
                find_pending(self.pending@, piece, offset, length, 0) == find_pending(
                    self.pending@,
                    piece,
                    offset,
                    length,
                    k as int,
                ),
            decreases self.pending@.len() - k,
        {
            let b = self.pending[k].block;
            if b.piece == piece && b.offset == offset && b.length == length {
                return Some(k);
            }
            k += 1;
        }
        None
    }

    /// Takes a message of the peer, heard at `now`.
    ///
    /// A message that the protocol does not allow ends the session: its
    /// reservations are given back and the error says why. Otherwise the state of
    /// the session follows the message: a choke withdraws what is in flight and
    /// gives the reservations back, an unchoke makes the session active, a bitfield
    /// replaces and a have extends what the peer advertises, and a block that was
    /// asked for is handed to the piece manager.
    pub fn receive(&mut self, manager: &mut PieceManager, msg: Message, now: u64) -> (r: Result<
        Reaction,
        ApplicationError,
    >)
        requires
            old(manager)@.wf(),
        ensures
            final(manager)@.wf(),
            final(self).peer == old(self).peer,
            match r {
                Ok(reaction) => {
                    &&& old(self)@.refusal(msg@, old(manager)@) is None
                    &&& final(self)@ == old(self)@.after_message(msg@, now)
                    &&& final(manager)@ == old(self)@.pieces_after(msg@, old(manager)@)
                    &&& reaction == old(self)@.reaction(msg@, old(manager)@)
                },
                Err(e) => {
                    &&& old(self)@.refusal(msg@, old(manager)@) == Some(e)
                    &&& final(self)@ == old(self)@.heard(now).ended()
                    &&& final(manager)@ == old(manager)@.released(old(self)@.owner)
                },
            },
    {
        let listening = self.state == SessionState::Handshook || self.state
            == SessionState::Interested || self.state == SessionState::Active || self.state
            == SessionState::Choked;
        let fresh = self.fresh;
        self.fresh = false;
        self.last_heard = now;
        if !listening {
            self.terminate(manager);
            return Err(ApplicationError::ProtocolError(Fault::ProtocolViolation));
        }
        match msg {
            Message::Choke => {
                self.choked = true;
                self.pending = Vec::new();
                if self.state == SessionState::Active {
                    self.state = SessionState::Choked;
                }
                manager.abandon(self.owner);
                Ok(Reaction::Noted)
            },
            Message::Unchoke => {
                self.choked = false;
                if self.state == SessionState::Interested || self.state == SessionState::Choked {
                    self.state = SessionState::Active;
                }
                Ok(Reaction::Noted)
            },
            Message::Interested => {
                self.peer_interested = true;
                Ok(Reaction::Noted)
            },
            Message::NotInterested => {
                self.peer_interested = false;
                Ok(Reaction::Noted)
            },
            Message::Have(index) => {
                self.available_pieces.insert(index as usize);
                Ok(Reaction::Noted)
            },
            Message::Bitfield(bits) => {
                if !fresh {
                    self.terminate(manager);
                    return Err(ApplicationError::ProtocolError(Fault::ProtocolViolation));
                }
                match bitfield_pieces(bits.as_slice(), self.piece_count) {
                    Ok(set) => {
                        self.available_pieces = set;
                        Ok(Reaction::Noted)
                    },
                    Err(e) => {
                        self.terminate(manager);
                        Err(e)
                    },
                }
            },
            Message::Piece { index, begin, block } => {
                let found = self.find_request(index as usize, begin as usize, block.len());
                let k = match found {
                    Some(k) => k,
                    None => {
                        self.terminate(manager);
                        return Err(ApplicationError::ProtocolError(Fault::UnexpectedPiece));
                    },
                };
                match manager.deliver(index as usize, begin as usize, block.as_slice()) {
                    Ok(outcome) => {
                        self.pending.remove(k);
                        Ok(Reaction::Delivered(outcome))
                    },
                    Err(e) => {
                        self.terminate(manager);
                        Err(e)
                    },
                }
            },
            Message::Request { .. } => Ok(Reaction::Noted),
            Message::Cancel { .. } => Ok(Reaction::Noted),
        }
    }

    /// Fills the window of an active session: reserves as many free blocks of the
    /// pieces that the peer advertises as the window has room for, and returns the
    /// requests to send for them.
    ///
    /// A session that is not active, or whose window is full, asks for nothing. A
    /// session that finds nothing to ask for, has nothing in flight, and faces a
    /// download that is not done, ends for want of mutual work.
    pub fn next_requests(&mut self, manager: &mut PieceManager, now: u64) -> (r: Result<
        Vec<Message>,
        ApplicationError,
    >)
        requires
            old(manager)@.wf(),
            old(manager)@.fits_wire(),
        ensures
            final(manager)@.wf(),
            final(self).peer == old(self).peer,
            ({
                let s = old(self)@;
                let m = old(manager)@;
                let batch = first_n(m.open(s.available), s.window - s.pending.len());
                if s.state != SessionState::Active || s.pending.len() >= s.window {
                    &&& r matches Ok(requests) && requests@.len() == 0
                    &&& final(self)@ == s
                    &&& final(manager)@ == m
                } else if batch.len() == 0 && s.pending.len() == 0 && !m.all_complete() {
                    &&& r matches Err(e) && e == ApplicationError::PeerError(Fault::NoMutualWork)
                    &&& final(self)@ == s.ended()
                    &&& final(manager)@ == m.released(s.owner)
                } else {
                    &&& r matches Ok(requests) && message_views(requests@) == requests_for(batch)
                    &&& final(self)@ == (SessionView {
                        pending: s.pending + pending_for(batch, now),
                        last_sent: if batch.len() > 0 {
                            now
                        } else {
                            s.last_sent
                        },
                        ..s
                    })
                    &&& final(manager)@ == m.reserved(batch, s.owner)
                }
            }),
    {
        let mut requests: Vec<Message> = Vec::new();
        if self.state != SessionState::Active || self.pending.len() >= self.window {
            return Ok(requests);
        }
        let ghost before = manager@;
        let ghost start = self.pending@;
        let room: usize = self.window - self.pending.len();
        let done = manager.is_done();
        let batch = manager.reserve_batch(room, &self.available_pieces, self.owner);
        if batch.len() == 0 && self.pending.len() == 0 && !done {
            proof {
                assert(before.reserved(batch@, self.owner).pieces =~= before.pieces) by {
                    assert forall|i: int| 0 <= i < before.pieces.len() implies before.pieces[i].reserved(
                        batch@,
                        self.owner,
                    ) == before.pieces[i] by {
                        lemma_reserved_none(before.pieces[i], batch@, self.owner);
                    }
                }
            }
            self.terminate(manager);
            return Err(ApplicationError::PeerError(Fault::NoMutualWork));
        }
        proof {
            let all = before.open(self.available_pieces@);
            lemma_open_members(before, self.available_pieces@, before.pieces.len() as int);
            assert forall|r: BlockRef| #[trigger] batch@.contains(r) implies before.is_open(r) by {
                if batch@ != all {
                    lemma_seq_take_contains(all, room as int, r);
                }
                assert(all.contains(r));
            }
        }
        let mut i: usize = 0;
        while i < batch.len()
            invariant
                i <= batch@.len(),
                before.wf(),
                before.fits_wire(),
                forall|r: BlockRef| #[trigger] batch@.contains(r) ==> before.is_open(r),
                requests@.len() == i,
                forall|k: int| 0 <= k < i ==> (#[trigger] requests@[k])@ == requests_for(batch@)[k],
                self.pending@ == start + pending_for(batch@, now).take(i as int),
                self@ == (SessionView { pending: self.pending@, ..old(self)@ }),
                self.peer == old(self).peer,
            decreases batch@.len() - i,
        {
            let b = batch[i];
            proof {
                assert(batch@.contains(b));
                assert(before.is_open(b));
                let j = choose|j: int|
                    0 <= b.piece < before.pieces.len() && 0 <= j
                        < before.pieces[b.piece as int].blocks.len() && (
                    #[trigger] before.pieces[b.piece as int].blocks[j]).coords() == b;
                assert(before.piece_ok(b.piece as int));
                lemma_layout_bounds(
                    before.pieces[b.piece as int],
                    before.size_of(b.piece as int),
                    before.block_size as int,
                    j,
                );
            }
            requests.push(
                Message::Request {
                    index: b.piece as u32,
                    begin: b.offset as u32,
                    length: b.length as u32,
                },
            );
            self.pending.push(Pending { block: b, issued: now, retried: false });
            assert(self.pending@ =~= start + pending_for(batch@, now).take(i + 1));
            i += 1;
        }
        assert(pending_for(batch@, now).take(i as int) =~= pending_for(batch@, now));
        assert(message_views(requests@) =~= requests_for(batch@));
        if batch.len() > 0 {
            self.last_sent = now;
        }
        Ok(requests)
    }

    /// Withdraws every request in flight, as when the download is done or called
    /// off: returns the withdrawals to send, and gives the session's reservations
    /// back.
    pub fn cancel(&mut self, manager: &mut PieceManager, now: u64) -> (cancels: Vec<Message>)
        requires
            old(manager)@.wf(),
        ensures
            final(manager)@.wf(),
            final(manager)@ == old(manager)@.released(old(self)@.owner),
            message_views(cancels@) == cancels_for(old(self)@.pending),
            final(self)@ == (SessionView {
                pending: Seq::empty(),
                last_sent: if old(self)@.pending.len() > 0 {
                    now
                } else {
                    old(self)@.last_sent
                },
                ..old(self)@
            }),
            final(self).peer == old(self).peer,
    {
        let mut cancels: Vec<Message> = Vec::new();
        let mut i: usize = 0;
        while i < self.pending.len()
            invariant
                i <= self.pending@.len(),
                cancels@.len() == i,
                forall|k: int|
                    0 <= k < i ==> (#[trigger] cancels@[k])@ == cancels_for(self.pending@)[k],
            decreases self.pending@.len() - i,
        {
            let b = self.pending[i].block;
            cancels.push(
                Message::Cancel {
                    index: #[verifier::truncate]
                    (b.piece as u32),
                    begin: #[verifier::truncate]
                    (b.offset as u32),
                    length: #[verifier::truncate]
                    (b.length as u32),
                },
            );
            i += 1;
        }
        assert(message_views(cancels@) =~= cancels_for(self.pending@));
        if self.pending.len() > 0 {
            self.last_sent = now;
        }
        self.pending = Vec::new();
        manager.abandon(self.owner);
        cancels
    }
}

/// The time from `since` to `now`; none where the clock has not moved on.
pub open spec fn elapsed(now: u64, since: u64) -> int {
    if now >= since {
        now - since
    } else {
        0
    }
}

/// Whether the request has waited for an answer as long as a request may.
pub open spec fn overdue(p: Pending, now: u64, limits: Timeouts) -> bool {
    elapsed(now, p.issued) >= limits.request
}

/// The request as it is pending after a look at the clock: sent again at `now` if
/// it was overdue.
pub open spec fn looked_at(p: Pending, now: u64, limits: Timeouts) -> Pending {
    if overdue(p, now, limits) {
        Pending { issued: now, retried: true, ..p }
    } else {
        p
    }
}

/// The frames of the requests among the first `n` pending ones that are overdue.
pub open spec fn reissues(pending: Seq<Pending>, now: u64, limits: Timeouts, n: int) -> Seq<
    Seq<u8>,
>
    decreases n,
{
    if n <= 0 || n > pending.len() {
        Seq::empty()
    } else if overdue(pending[n - 1], now, limits) {
        reissues(pending, now, limits, n - 1).push(
            (MessageView::Request {
                index: pending[n - 1].block.piece as u32,
                begin: pending[n - 1].block.offset as u32,
                length: pending[n - 1].block.length as u32,
            }).frame(),
        )
    } else {
        reissues(pending, now, limits, n - 1)
    }
}

/// The frames as sequences of bytes.
pub open spec fn frame_views(frames: Seq<Vec<u8>>) -> Seq<Seq<u8>> {
    Seq::new(frames.len(), |i: int| frames[i]@)
}

impl SessionView {
    /// Whether a request that was already sent twice is overdue again.
    pub open spec fn stalled(self, now: u64, limits: Timeouts) -> bool {
        exists|k: int|
            0 <= k < self.pending.len() && (#[trigger] self.pending[k]).retried && overdue(
                self.pending[k],
                now,
                limits,
            )
    }

    /// What a look at the clock ends the session with, if it does: a timeout where
    /// the peer was silent for the idle period, a stall where a request that was
    /// sent twice is overdue.
    pub open spec fn expiry(self, now: u64, limits: Timeouts) -> Option<ApplicationError> {
        if self.state == SessionState::Terminated {
            None
        } else if elapsed(now, self.last_heard) >= limits.idle {
            Some(ApplicationError::PeerError(Fault::PeerTimeout))
        } else if self.stalled(now, limits) {
            Some(ApplicationError::PeerError(Fault::PeerStalled))
        } else {
            None
        }
    }

    /// The frames to send after a look at the clock that does not end the session:
    /// the overdue requests once more, or a keep-alive where there is none and we
    /// were silent for the keep-alive period.
    pub open spec fn due_frames(self, now: u64, limits: Timeouts) -> Seq<Seq<u8>> {
        let again = reissues(self.pending, now, limits, self.pending.len() as int);
        if self.state == SessionState::Terminated {
            Seq::empty()
        } else if again.len() > 0 {
            again
        } else if elapsed(now, self.last_sent) >= limits.keep_alive {
            seq![keep_alive_frame()]
        } else {
            Seq::empty()
        }
    }

    /// The session after a look at the clock that does not end it.
    pub open spec fn after_tick(self, now: u64, limits: Timeouts) -> SessionView {
        if self.state == SessionState::Terminated {
            self
        } else {
            SessionView {
                pending: Seq::new(
                    self.pending.len(),
                    |i: int| looked_at(self.pending[i], now, limits),
                ),
                last_sent: if self.due_frames(now, limits).len() > 0 {
                    now
                } else {
                    self.last_sent
                },
                ..self
            }
        }
    }
}

impl PeerConnection {
    /// The time from `since` to `now`.
    fn waited(now: u64, since: u64) -> (t: u64)
        ensures
            t == elapsed(now, since),
    {
        if now >= since {
            now - since
        } else {
            0
        }
    }

    /// Looks at the clock.
    ///
    /// A peer that was silent for the idle period, and a request that is overdue
    /// after it was sent a second time, end the session: its reservations are given
    /// back. Otherwise every overdue request is sent once more, and a keep-alive is
    /// sent where nothing else is and we were silent for the keep-alive period.
    /// Returns the frames to send.
    pub fn tick(&mut self, manager: &mut PieceManager, now: u64, limits: Timeouts) -> (r: Result<
        Vec<Vec<u8>>,
        ApplicationError,
    >)
        requires
            old(manager)@.wf(),
        ensures
            final(manager)@.wf(),
            final(self).peer == old(self).peer,
            match r {
                Ok(frames) => {
                    &&& old(self)@.expiry(now, limits) is None
                    &&& frame_views(frames@) == old(self)@.due_frames(now, limits)
                    &&& final(self)@ == old(self)@.after_tick(now, limits)
                    &&& final(manager)@ == old(manager)@
                },
                Err(e) => {
                    &&& old(self)@.expiry(now, limits) == Some(e)
                    &&& final(self)@ == old(self)@.ended()
                    &&& final(manager)@ == old(manager)@.released(old(self)@.owner)
                },
            },
    {
        let mut frames: Vec<Vec<u8>> = Vec::new();
        let ghost before = self@;
        if self.state == SessionState::Terminated {
            assert(frame_views(frames@) =~= Seq::<Seq<u8>>::empty());
            return Ok(frames);
        }
        if Self::waited(now, self.last_heard) >= limits.idle {
            self.terminate(manager);
            return Err(ApplicationError::PeerError(Fault::PeerTimeout));
        }
        let mut k: usize = 0;
        while k < self.pending.len()
            invariant
                k <= self.pending@.len(),
                self.pending@ == before.pending,
                self@ == before,
                before == old(self)@,
                before.state != SessionState::Terminated,
                elapsed(now, before.last_heard) < limits.idle,
                self.peer == old(self).peer,
                manager@ == old(manager)@,
                manager@.wf(),
                forall|i: int|
                    0 <= i < k ==> !((#[trigger] before.pending[i]).retried && overdue(
                        before.pending[i],
                        now,
                        limits,
                    )),
            decreases self.pending@.len() - k,
        {
            let p = self.pending[k];
            if p.retried && Self::waited(now, p.issued) >= limits.request {
                assert(before.pending[k as int].retried && overdue(
                    before.pending[k as int],
                    now,
                    limits,
                ));
                self.terminate(manager);
                return Err(ApplicationError::PeerError(Fault::PeerStalled));
            }
            k += 1;
        }
        let count = self.pending.len();
        let mut i: usize = 0;
        assert(frame_views(frames@) =~= reissues(before.pending, now, limits, 0));
        while i < count
            invariant
                i <= count,
                count == before.pending.len(),
                self.pending@.len() == count,
                !before.stalled(now, limits),
                frame_views(frames@) == reissues(before.pending, now, limits, i as int),
                forall|j: int|
                    0 <= j < i ==> #[trigger] self.pending@[j] == looked_at(
                        before.pending[j],
                        now,
                        limits,
                    ),
                forall|j: int| i <= j < count ==> #[trigger] self.pending@[j] == before.pending[j],
                self@ == (SessionView { pending: self.pending@, ..before }),
                self.peer == old(self).peer,
                manager@ == old(manager)@,
                manager@.wf(),
            decreases count - i,
        {
            let p = self.pending[i];
            if Self::waited(now, p.issued) >= limits.request {
                let request = Message::Request {
                    index: #[verifier::truncate]
                    (p.block.piece as u32),
                    begin: #[verifier::truncate]
                    (p.block.offset as u32),
                    length: #[verifier::truncate]
                    (p.block.length as u32),
                };
                proof {
                    lemma_payload_len(request@);
                }
                let ghost sent = frame_views(frames@);
                let frame = request.encode();
                frames.push(frame);
                assert(frame_views(frames@) =~= sent.push(frame@));
                self.pending[i] = Pending { block: p.block, issued: now, retried: true };
            }
            i += 1;
        }
        if frames.len() == 0 && Self::waited(now, self.last_sent) >= limits.keep_alive {
            let frame = Message::keep_alive();
            frames.push(frame);
            assert(frame_views(frames@) =~= seq![keep_alive_frame()]);
        }
        if frames.len() > 0 {
            self.last_sent = now;
        }
        assert(self@.pending =~= before.after_tick(now, limits).pending);
        Ok(frames)
    }
}

/// What became of the frames of a buffer.
pub struct Heard {
    /// The session after the frames.
    pub session: SessionView,
    /// The pieces after the frames.
    pub pieces: ManagerView,
    /// How many bytes of the buffer the frames took.
    pub used: int,
    /// What the messages led to, one entry for each message.
    pub reactions: Seq<Reaction>,
    /// Why the session ended, if a frame ended it.
    pub error: Option<ApplicationError>,
}

impl Heard {
    /// The same, with `first` before the reactions.
    pub open spec fn after(self, first: Seq<Reaction>) -> Heard {
        Heard { reactions: first + self.reactions, ..self }
    }
}

/// What becomes of the frames that `buf` holds in full from `pos` on, heard at `now`
/// by the session `s` over the pieces `m`: each frame is read and taken in its turn,
/// a keep-alive only as a sign of life; a frame that is refused, by the wire format
/// or by the session, ends the session and is the last one looked at.
pub open spec fn hear_from(s: SessionView, m: ManagerView, buf: Seq<u8>, pos: int, now: u64) -> Heard
    decreases buf.len() - pos,
{
    let rest = buf.subrange(pos, buf.len() as int);
    if pos < 0 || pos > buf.len() || frame_size(rest) is None || frame_size(rest).unwrap() < 4 {
        Heard { session: s, pieces: m, used: pos, reactions: Seq::empty(), error: None }
    } else {
        let next = pos + frame_size(rest).unwrap();
        match parse_frame(rest) {
            Err(f) => Heard {
                session: s.heard(now).ended(),
                pieces: m.released(s.owner),
                used: next,
                reactions: Seq::empty(),
                error: Some(ApplicationError::ParserError(f)),
            },
            Ok(None) => hear_from(SessionView { last_heard: now, ..s }, m, buf, next, now),
            Ok(Some(msg)) => match s.refusal(msg, m) {
                Some(e) => Heard {
                    session: s.heard(now).ended(),
                    pieces: m.released(s.owner),
                    used: next,
                    reactions: Seq::empty(),
                    error: Some(e),
                },
                None => hear_from(
                    s.after_message(msg, now),
                    s.pieces_after(msg, m),
                    buf,
                    next,
                    now,
                ).after(seq![s.reaction(msg, m)]),
            },
        }
    }
}

impl PeerConnection {
    /// Takes the frames that `buf` holds in full, one after the other, as they were
    /// heard at `now`. Returns how many bytes they took, with what each message led
    /// to; the bytes after them are the start of a frame that has not arrived in full.
    /// A frame that is refused ends the session, as in [`PeerConnection::receive`].
    pub fn read_messages(&mut self, manager: &mut PieceManager, buf: &[u8], now: u64) -> (r: Result<
        (usize, Vec<Reaction>),
        ApplicationError,
    >)
        requires
            old(manager)@.wf(),
        ensures
            final(manager)@.wf(),
            final(self).peer == old(self).peer,
            ({
                let heard = hear_from(old(self)@, old(manager)@, buf@, 0, now);
                &&& final(self)@ == heard.session
                &&& final(manager)@ == heard.pieces
                &&& match r {
                    Ok((used, reactions)) => heard.error is None && used == heard.used
                        && reactions@ == heard.reactions && used <= buf@.len(),
                    Err(e) => heard.error == Some(e),
                }
            }),
    {
        let ghost whole = hear_from(self@, manager@, buf@, 0, now);
        let mut reactions: Vec<Reaction> = Vec::new();
        let mut pos: usize = 0;
        loop
            invariant
                pos <= buf@.len(),
                manager@.wf(),
                self.peer == old(self).peer,
                whole == hear_from(old(self)@, old(manager)@, buf@, 0, now),
                whole == hear_from(self@, manager@, buf@, pos as int, now).after(reactions@),
            decreases buf@.len() - pos,
        {
            let rest = slice_subrange(buf, pos, buf.len());
            let ghost here = hear_from(self@, manager@, buf@, pos as int, now);
            let size = match Message::frame_size(rest) {
                Some(size) => size,
                None => {
                    assert(reactions@ + Seq::<Reaction>::empty() =~= reactions@);
                    return Ok((pos, reactions));
                },
            };
            let message = match Message::decode(rest) {
                Ok(message) => message,
                Err(e) => {
                    self.fresh = false;
                    self.last_heard = now;
                    self.terminate(manager);
                    return Err(e);
                },
            };
            match message {
                None => {
                    self.last_heard = now;
                },
                Some(msg) => {
                    let ghost before = reactions@;
                    let ghost m = msg@;
                    let ghost session = self@;
                    let ghost stock = manager@;
                    match self.receive(manager, msg, now) {
                        Ok(reaction) => {
                            reactions.push(reaction);
                            proof {
                                let later = hear_from(
                                    self@,
                                    manager@,
                                    buf@,
                                    pos + size,
                                    now,
                                );
                                assert(here == later.after(seq![session.reaction(m, stock)]));
                                assert(before + (seq![reaction] + later.reactions)
                                    =~= reactions@ + later.reactions);
                            }
                        },
                        Err(e) => {
                            return Err(e);
                        },
                    }
                },
            }
            pos = pos + size;
        }
    }
}

} // verus!
