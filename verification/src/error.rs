use vstd::prelude::*;

verus! {

/// The precise condition behind an [`ApplicationError`].
#[derive(Debug, Clone, Copy, PartialEq, Eq, Structural)]
pub enum Fault {
    /// The bytes are not one canonical bencoded value.
    MalformedBencode,
    /// A required key is absent or holds a value of another kind.
    MissingField,
    /// The piece table and the file lengths do not describe the same content.
    InconsistentLength,
    /// The handshake does not start with the protocol header.
    HandshakeMalformed,
    /// A frame is shorter than its length prefix or than its message kind needs.
    MessageMalformed,
    /// The message id is not one of the nine known ones.
    UnknownMessageId,
    /// A bitfield has the wrong size or advertises a piece that does not exist.
    BitfieldOutOfRange,
    /// The peer answered for another torrent.
    InfoHashMismatch,
    /// A message arrived in a state that does not allow it.
    ProtocolViolation,
    /// A block arrived that was not asked for.
    UnexpectedPiece,
    /// A block does not lie on a block boundary of its piece.
    BlockOutOfBounds,
    /// The peer has nothing that is still needed.
    NoMutualWork,
    /// A request stayed unanswered twice.
    PeerStalled,
    /// The connection was silent for too long.
    PeerTimeout,
    /// The connection could not be made or broke.
    Transport,
    /// A piece kept failing its hash.
    SwarmCorrupt,
    /// No peer is left and the tracker offers no new one.
    SwarmExhausted,
    /// The tracker could not be reached, or its address is not a URL.
    TrackerUnreachable,
    /// The tracker's answer is not an announce response.
    TrackerMalformed,
    /// The tracker refused the announce.
    TrackerFailure,
}

/// An error of the client, by the part that raised it.
#[derive(Debug, Clone, Copy, PartialEq, Eq, Structural)]
pub enum ApplicationError {
    ParserError(Fault),
    TrackerError(Fault),
    ProtocolError(Fault),
    PeerError(Fault),
    WorkerError(Fault),
}

impl ApplicationError {
    /// The condition that this error reports.
    pub open spec fn fault(self) -> Fault {
        match self {
            ApplicationError::ParserError(f) => f,
            ApplicationError::TrackerError(f) => f,
            ApplicationError::ProtocolError(f) => f,
            ApplicationError::PeerError(f) => f,
            ApplicationError::WorkerError(f) => f,
        }
    }

    /// Returns the condition that this error reports.
    pub fn reason(&self) -> (f: Fault)
        ensures
            f == self.fault(),
    {
        match self {
            ApplicationError::ParserError(f) => *f,
            ApplicationError::TrackerError(f) => *f,
            ApplicationError::ProtocolError(f) => *f,
            ApplicationError::PeerError(f) => *f,
            ApplicationError::WorkerError(f) => *f,
        }
    }
}

} // verus!
