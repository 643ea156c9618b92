//! The peer wire protocol: the 68-byte handshake and the length-prefixed messages.

use crate::endian::{
    be_bytes, be_u32, lemma_be_bytes_then_u32, lemma_be_u32_range, read_be_u32, write_be_u32,
};
use crate::error::{ApplicationError, Fault};
use vstd::prelude::*;
use vstd::slice::{slice_subrange, slice_to_vec};

verus! {

/// Length of the handshake in bytes.
pub const HANDSHAKE_LEN: usize = 68;

/// The protocol name, "BitTorrent protocol", as the handshake carries it.
pub const PROTOCOL: [u8; 19] = [
    0x42, 0x69, 0x74, 0x54, 0x6f, 0x72, 0x72, 0x65, 0x6e, 0x74, 0x20, 0x70, 0x72, 0x6f, 0x74,
    0x6f, 0x63, 0x6f, 0x6c,
];

/// The bytes of the protocol name.
pub open spec fn protocol_name() -> Seq<u8> {
    seq![
        0x42u8, 0x69u8, 0x74u8, 0x54u8, 0x6fu8, 0x72u8, 0x72u8, 0x65u8, 0x6eu8, 0x74u8, 0x20u8,
        0x70u8, 0x72u8, 0x6fu8, 0x74u8, 0x6fu8, 0x63u8, 0x6fu8, 0x6cu8,
    ]
}

/// The 68 bytes of a handshake for the given torrent and client: the length of the
/// protocol name, the name, eight zero bytes, the info-hash and the peer id.
pub open spec fn handshake_bytes(info_hash: Seq<u8>, peer_id: Seq<u8>) -> Seq<u8> {
    seq![19u8] + protocol_name() + Seq::new(8, |i: int| 0u8) + info_hash + peer_id
}

/// Whether `s` has the size of a handshake and starts with the protocol header. The
/// eight reserved bytes are not looked at.
pub open spec fn is_handshake(s: Seq<u8>) -> bool {
    &&& s.len() == 68
    &&& s[0] == 19
    &&& s.subrange(1, 20) == protocol_name()
}

/// The first message on a connection: it names the torrent and the client.
#[derive(Debug, Clone, Copy, PartialEq, Eq)]
pub struct Handshake {
    /// SHA-1 of the metainfo's `info` dictionary.
    pub info_hash: [u8; 20],
    /// The 20 bytes by which the client calls itself.
    pub peer_id: [u8; 20],
}

impl Handshake {
    /// A handshake for the given torrent and client.
    pub fn new(info_hash: [u8; 20], peer_id: [u8; 20]) -> (h: Self)
        ensures
            h.info_hash == info_hash,
            h.peer_id == peer_id,
    {
        Self { info_hash, peer_id }
    }

    /// The 68 bytes to send.
    pub fn encode(&self) -> (buf: [u8; 68])
        ensures
            buf@ == handshake_bytes(self.info_hash@, self.peer_id@),
    {
        let mut buf: [u8; 68] = [0u8; 68];
        buf[0] = 19;
        let mut i: usize = 0;
        while i < 19
            invariant
                i <= 19,
                buf@[0] == 19,
                forall|k: int| 0 <= k < i ==> buf@[1 + k] == PROTOCOL@[k],
                forall|k: int| 20 <= k < 68 ==> buf@[k] == 0,
            decreases 19 - i,
        {
            buf[1 + i] = PROTOCOL[i];
            i += 1;
        }
        let mut j: usize = 0;
        while j < 20
            invariant
                j <= 20,
                buf@[0] == 19,
                forall|k: int| 0 <= k < 19 ==> buf@[1 + k] == PROTOCOL@[k],
                forall|k: int| 20 <= k < 28 ==> buf@[k] == 0,
                forall|k: int| 0 <= k < j ==> buf@[28 + k] == self.info_hash@[k],
                forall|k: int| 0 <= k < j ==> buf@[48 + k] == self.peer_id@[k],
            decreases 20 - j,
        {
            buf[28 + j] = self.info_hash[j];
            buf[48 + j] = self.peer_id[j];
            j += 1;
        }
        proof {
            let want = handshake_bytes(self.info_hash@, self.peer_id@);
            assert(want.len() == 68);
            assert forall|k: int| 0 <= k < 68 implies buf@[k] == want[k] by {
                if 1 <= k < 20 {
                    assert(buf@[1 + (k - 1)] == PROTOCOL@[k - 1]);
                } else if 28 <= k < 48 {
                    assert(buf@[28 + (k - 28)] == self.info_hash@[k - 28]);
                } else if 48 <= k {
                    assert(buf@[48 + (k - 48)] == self.peer_id@[k - 48]);
                }
            }
            assert(buf@ =~= want);
        }
        buf
    }

    /// Reads a handshake. It is accepted exactly when it has 68 bytes, its first byte
    /// is 19 and the protocol name follows; the info-hash and the peer id are then
    /// bytes 28..48 and 48..68.
    pub fn decode(buf: &[u8]) -> (r: Result<Self, ApplicationError>)
        ensures
            match r {
                Ok(h) => {
                    &&& is_handshake(buf@)
                    &&& h.info_hash@ == buf@.subrange(28, 48)
                    &&& h.peer_id@ == buf@.subrange(48, 68)
                },
                Err(e) => {
                    &&& !is_handshake(buf@)
                    &&& e == ApplicationError::ParserError(Fault::HandshakeMalformed)
                },
            },
    {
        if buf.len() != HANDSHAKE_LEN {
            return Err(ApplicationError::ParserError(Fault::HandshakeMalformed));
        }
        if buf[0] != 19 {
            return Err(ApplicationError::ParserError(Fault::HandshakeMalformed));
        }
        let mut i: usize = 0;
        while i < 19
            invariant
                i <= 19,
                buf@.len() == 68,
                forall|k: int| 0 <= k < i ==> buf@[1 + k] == PROTOCOL@[k],
            decreases 19 - i,
        {
            if buf[1 + i] != PROTOCOL[i] {
                proof {
                    assert(buf@.subrange(1, 20)[i as int] == buf@[1 + i]);
                }
                return Err(ApplicationError::ParserError(Fault::HandshakeMalformed));
            }
            i += 1;
        }
        let mut info_hash: [u8; 20] = [0u8; 20];
        let mut peer_id: [u8; 20] = [0u8; 20];
        let mut j: usize = 0;
        while j < 20
            invariant
                j <= 20,
                buf@.len() == 68,
                forall|k: int| 0 <= k < j ==> info_hash@[k] == buf@[28 + k],
                forall|k: int| 0 <= k < j ==> peer_id@[k] == buf@[48 + k],
            decreases 20 - j,
        {
            info_hash[j] = buf[28 + j];
            peer_id[j] = buf[48 + j];
            j += 1;
        }
        proof {
            assert(buf@.subrange(1, 20) =~= protocol_name()) by {
                assert forall|k: int| 0 <= k < 19 implies buf@.subrange(1, 20)[k]
                    == protocol_name()[k] by {
                    assert(buf@[1 + k] == PROTOCOL@[k]);
                }
            }
            assert(info_hash@ =~= buf@.subrange(28, 48));
            assert(peer_id@ =~= buf@.subrange(48, 68));
        }
        Ok(Self { info_hash, peer_id })
    }
}

/// A handshake that was encoded is read back as it was.
pub proof fn lemma_handshake_round_trip(info_hash: Seq<u8>, peer_id: Seq<u8>)
    requires
        info_hash.len() == 20,
        peer_id.len() == 20,
    ensures
        is_handshake(handshake_bytes(info_hash, peer_id)),
        handshake_bytes(info_hash, peer_id).subrange(28, 48) == info_hash,
        handshake_bytes(info_hash, peer_id).subrange(48, 68) == peer_id,
{
    let b = handshake_bytes(info_hash, peer_id);
    assert(b.subrange(1, 20) =~= protocol_name());
    assert(b.subrange(28, 48) =~= info_hash);
    assert(b.subrange(48, 68) =~= peer_id);
}

/// A message of the peer wire protocol, after the handshake.
#[derive(Debug, Clone, PartialEq, Eq)]
pub enum Message {
    /// The sender will not answer requests.
    Choke,
    /// The sender will answer requests.
    Unchoke,
    /// The sender wants pieces of the receiver.
    Interested,
    /// The sender wants nothing of the receiver.
    NotInterested,
    /// The sender has this piece.
    Have(u32),
    /// The pieces that the sender has, one bit each.
    Bitfield(Vec<u8>),
    /// Asks for `length` bytes of piece `index`, from offset `begin`.
    Request { index: u32, begin: u32, length: u32 },
    /// The bytes of piece `index` from offset `begin`.
    Piece { index: u32, begin: u32, block: Vec<u8> },
    /// Withdraws a request.
    Cancel { index: u32, begin: u32, length: u32 },
}

/// What a [`Message`] says, with its payload as a sequence.
pub enum MessageView {
    Choke,
    Unchoke,
    Interested,
    NotInterested,
    Have(u32),
    Bitfield(Seq<u8>),
    Request { index: u32, begin: u32, length: u32 },
    Piece { index: u32, begin: u32, block: Seq<u8> },
    Cancel { index: u32, begin: u32, length: u32 },
}

impl View for Message {
    type V = MessageView;

    open spec fn view(&self) -> MessageView {
        match *self {
            Message::Choke => MessageView::Choke,
            Message::Unchoke => MessageView::Unchoke,
            Message::Interested => MessageView::Interested,
            Message::NotInterested => MessageView::NotInterested,
            Message::Have(index) => MessageView::Have(index),
            Message::Bitfield(bits) => MessageView::Bitfield(bits@),
            Message::Request { index, begin, length } => MessageView::Request {
                index,
                begin,
                length,
            },
            Message::Piece { index, begin, block } => MessageView::Piece {
                index,
                begin,
                block: block@,
            },
            Message::Cancel { index, begin, length } => MessageView::Cancel {
                index,
                begin,
                length,
            },
        }
    }
}

impl MessageView {
    /// The type id that follows the length prefix.
    pub open spec fn id(self) -> u8 {
        match self {
            MessageView::Choke => 0,
            MessageView::Unchoke => 1,
            MessageView::Interested => 2,
            MessageView::NotInterested => 3,
            MessageView::Have(_) => 4,
            MessageView::Bitfield(_) => 5,
            MessageView::Request { .. } => 6,
            MessageView::Piece { .. } => 7,
            MessageView::Cancel { .. } => 8,
        }
    }

    /// The bytes that follow the type id.
    pub open spec fn payload(self) -> Seq<u8> {
        match self {
            MessageView::Choke
            | MessageView::Unchoke
            | MessageView::Interested
            | MessageView::NotInterested => Seq::empty(),
            MessageView::Have(index) => be_bytes(index),
            MessageView::Bitfield(bits) => bits,
            MessageView::Request { index, begin, length } => be_bytes(index) + be_bytes(begin)
                + be_bytes(length),
            MessageView::Piece { index, begin, block } => be_bytes(index) + be_bytes(begin) + block,
            MessageView::Cancel { index, begin, length } => be_bytes(index) + be_bytes(begin)
                + be_bytes(length),
        }
    }

    /// Whether the type id and the payload together fit the 32-bit length prefix.
    pub open spec fn fits(self) -> bool {
        1 + self.payload().len() <= u32::MAX
    }

    /// The frame of the message: the length of what follows in four bytes, the type
    /// id, the payload.
    pub open spec fn frame(self) -> Seq<u8> {
        be_bytes((1 + self.payload().len()) as u32) + seq![self.id()] + self.payload()
    }
}

/// The frame of a keep-alive: a length prefix of zero and nothing else.
pub open spec fn keep_alive_frame() -> Seq<u8> {
    be_bytes(0)
}

/// What the bytes `body`, which follow the type id `id`, say.
pub open spec fn parse_body(id: u8, body: Seq<u8>) -> Result<MessageView, Fault> {
    if id == 0 {
        Ok(MessageView::Choke)
    } else if id == 1 {
        Ok(MessageView::Unchoke)
    } else if id == 2 {
        Ok(MessageView::Interested)
    } else if id == 3 {
        Ok(MessageView::NotInterested)
    } else if id == 4 {
        if body.len() != 4 {
            Err(Fault::MessageMalformed)
        } else {
            Ok(MessageView::Have(be_u32(body) as u32))
        }
    } else if id == 5 {
        Ok(MessageView::Bitfield(body))
    } else if id == 6 || id == 8 {
        if body.len() != 12 {
            Err(Fault::MessageMalformed)
        } else {
            let index = be_u32(body.subrange(0, 4)) as u32;
            let begin = be_u32(body.subrange(4, 8)) as u32;
            let length = be_u32(body.subrange(8, 12)) as u32;
            if id == 6 {
                Ok(MessageView::Request { index, begin, length })
            } else {
                Ok(MessageView::Cancel { index, begin, length })
            }
        }
    } else if id == 7 {
        if body.len() < 8 {
            Err(Fault::MessageMalformed)
        } else {
            Ok(
                MessageView::Piece {
                    index: be_u32(body.subrange(0, 4)) as u32,
                    begin: be_u32(body.subrange(4, 8)) as u32,
                    block: body.subrange(8, body.len() as int),
                },
            )
        }
    } else {
        Err(Fault::UnknownMessageId)
    }
}

/// What a buffer that starts with one frame says: `Ok(None)` for a keep-alive,
/// `Ok(Some(..))` for a message, and the fault otherwise. Bytes after the frame are
/// not looked at, and the messages without a payload are accepted with one.
pub open spec fn parse_frame(s: Seq<u8>) -> Result<Option<MessageView>, Fault> {
    if s.len() < 4 {
        Err(Fault::MessageMalformed)
    } else {
        let len = be_u32(s.subrange(0, 4));
        if len == 0 {
            Ok(None)
        } else if s.len() - 4 < len {
            Err(Fault::MessageMalformed)
        } else {
            match parse_body(s[4], s.subrange(5, 4 + len)) {
                Ok(m) => Ok(Some(m)),
                Err(f) => Err(f),
            }
        }
    }
}

/// The size of the frame at the start of `s`, prefix included, if `s` holds it in
/// full.
pub open spec fn frame_size(s: Seq<u8>) -> Option<int> {
    if s.len() >= 4 && s.len() - 4 >= be_u32(s.subrange(0, 4)) {
        Some(4 + be_u32(s.subrange(0, 4)))
    } else {
        None
    }
}

/// What the result of [`Message::decode`] says, for comparison with [`parse_frame`].
pub open spec fn decoded(r: Result<Option<Message>, ApplicationError>) -> Result<
    Option<MessageView>,
    Fault,
> {
    match r {
        Ok(Some(m)) => Ok(Some(m@)),
        Ok(None) => Ok(None),
        Err(e) => Err(e.fault()),
    }
}

impl Message {
    /// Whether the message can be framed: its payload must fit the length prefix.
    pub fn fits(&self) -> (b: bool)
        ensures
            b == self@.fits(),
    {
        proof {
            lemma_payload_len(self@);
        }
        match self {
            Message::Bitfield(bits) => bits.len() < 0xffff_ffff,
            Message::Piece { block, .. } => block.len() < 0xffff_ffff - 8,
            _ => true,
        }
    }

    /// The frame of the message, ready to send.
    pub fn encode(&self) -> (buf: Vec<u8>)
        requires
            self@.fits(),
        ensures
            buf@ == self@.frame(),
    {
        proof {
            lemma_payload_len(self@);
        }
        let mut buf: Vec<u8> = Vec::new();
        match self {
            Message::Choke => {
                write_be_u32(&mut buf, 1);
                buf.push(0);
            },
            Message::Unchoke => {
                write_be_u32(&mut buf, 1);
                buf.push(1);
            },
            Message::Interested => {
                write_be_u32(&mut buf, 1);
                buf.push(2);
            },
            Message::NotInterested => {
                write_be_u32(&mut buf, 1);
                buf.push(3);
            },
            Message::Have(index) => {
                write_be_u32(&mut buf, 5);
                buf.push(4);
                write_be_u32(&mut buf, *index);
            },
            Message::Bitfield(bits) => {
                write_be_u32(&mut buf, (1 + bits.len()) as u32);
                buf.push(5);
                buf.extend_from_slice(bits.as_slice());
            },
            Message::Request { index, begin, length } => {
                write_be_u32(&mut buf, 13);
                buf.push(6);
                write_be_u32(&mut buf, *index);
                write_be_u32(&mut buf, *begin);
                write_be_u32(&mut buf, *length);
            },
            Message::Piece { index, begin, block } => {
                write_be_u32(&mut buf, (9 + block.len()) as u32);
                buf.push(7);
                write_be_u32(&mut buf, *index);
                write_be_u32(&mut buf, *begin);
                buf.extend_from_slice(block.as_slice());
            },
            Message::Cancel { index, begin, length } => {
                write_be_u32(&mut buf, 13);
                buf.push(8);
                write_be_u32(&mut buf, *index);
                write_be_u32(&mut buf, *begin);
                write_be_u32(&mut buf, *length);
            },
        }
        assert(buf@ =~= self@.frame());
        buf
    }

    /// The frame of a keep-alive.
    pub fn keep_alive() -> (buf: Vec<u8>)
        ensures
            buf@ == keep_alive_frame(),
    {
        let mut buf: Vec<u8> = Vec::new();
        write_be_u32(&mut buf, 0);
        assert(buf@ =~= keep_alive_frame());
        buf
    }

    /// The number of bytes that follow a length prefix.
    pub fn frame_len(prefix: &[u8; 4]) -> (n: u32)
        ensures
            n == be_u32(prefix@),
    {
        proof {
            lemma_be_u32_range(prefix@);
            assert(prefix@.subrange(0, 4) =~= prefix@);
        }
        match read_be_u32(prefix.as_slice(), 0) {
            Some(n) => n,
            None => 0,
        }
    }

    /// The size of the frame at the start of `buf`, prefix included, if `buf` holds
    /// it in full: the bytes of a stream are cut into frames by it.
    pub fn frame_size(buf: &[u8]) -> (r: Option<usize>)
        ensures
            match r {
                Some(n) => frame_size(buf@) == Some(n as int) && 4 <= n <= buf@.len(),
                None => frame_size(buf@) is None,
            },
    {
        if buf.len() < 4 {
            return None;
        }
        proof {
            lemma_be_u32_range(buf@.subrange(0, 4));
        }
        match read_be_u32(buf, 0) {
            Some(len) => if buf.len() - 4 >= len as usize {
                Some(4 + len as usize)
            } else {
                None
            },
            None => None,
        }
    }

    /// Reads the frame at the start of `buf`.
    ///
    /// Returns `Ok(None)` for a keep-alive. The frame is refused as malformed when
    /// the buffer is shorter than the length prefix announces, or when the payload
    /// has not the size that its type id asks for, and as unknown when the type id is
    /// above 8.
    pub fn decode(buf: &[u8]) -> (r: Result<Option<Self>, ApplicationError>)
        ensures
            decoded(r) == parse_frame(buf@),
            r matches Err(e) ==> e is ParserError,
    {
        let malformed = ApplicationError::ParserError(Fault::MessageMalformed);
        if buf.len() < 4 {
            return Err(malformed);
        }
        proof {
            lemma_be_u32_range(buf@.subrange(0, 4));
        }
        let len: u32 = match read_be_u32(buf, 0) {
            Some(n) => n,
            None => {
                return Err(malformed);
            },
        };
        if len == 0 {
            return Ok(None);
        }
        if buf.len() - 4 < len as usize {
            return Err(malformed);
        }
        let id: u8 = buf[4];
        let payload_len: usize = len as usize - 1;
        let end: usize = 5 + payload_len;
        let ghost body = buf@.subrange(5, 4 + len);
        assert(body.len() == payload_len);
        if id == 0 {
            Ok(Some(Message::Choke))
        } else if id == 1 {
            Ok(Some(Message::Unchoke))
        } else if id == 2 {
            Ok(Some(Message::Interested))
        } else if id == 3 {
            Ok(Some(Message::NotInterested))
        } else if id == 4 {
            if payload_len != 4 {
                return Err(malformed);
            }
            proof {
                lemma_be_u32_range(body);
                assert(buf@.subrange(5, 9) =~= body);
            }
            match read_be_u32(buf, 5) {
                Some(index) => Ok(Some(Message::Have(index))),
                None => Err(malformed),
            }
        } else if id == 5 {
            let bits = slice_to_vec(slice_subrange(buf, 5, end));
            Ok(Some(Message::Bitfield(bits)))
        } else if id == 6 || id == 8 {
            if payload_len != 12 {
                return Err(malformed);
            }
            proof {
                lemma_be_u32_range(body.subrange(0, 4));
                lemma_be_u32_range(body.subrange(4, 8));
                lemma_be_u32_range(body.subrange(8, 12));
                assert(buf@.subrange(5, 9) =~= body.subrange(0, 4));
                assert(buf@.subrange(9, 13) =~= body.subrange(4, 8));
                assert(buf@.subrange(13, 17) =~= body.subrange(8, 12));
            }
            match (read_be_u32(buf, 5), read_be_u32(buf, 9), read_be_u32(buf, 13)) {
                (Some(index), Some(begin), Some(length)) => {
                    if id == 6 {
                        Ok(Some(Message::Request { index, begin, length }))
                    } else {
                        Ok(Some(Message::Cancel { index, begin, length }))
                    }
                },
                _ => Err(malformed),
            }
        } else if id == 7 {
            if payload_len < 8 {
                return Err(malformed);
            }
            proof {
                lemma_be_u32_range(body.subrange(0, 4));
                lemma_be_u32_range(body.subrange(4, 8));
                assert(buf@.subrange(5, 9) =~= body.subrange(0, 4));
                assert(buf@.subrange(9, 13) =~= body.subrange(4, 8));
                assert(buf@.subrange(13, end as int) =~= body.subrange(8, body.len() as int));
            }
            match (read_be_u32(buf, 5), read_be_u32(buf, 9)) {
                (Some(index), Some(begin)) => {
                    let block = slice_to_vec(slice_subrange(buf, 13, end));
                    Ok(Some(Message::Piece { index, begin, block }))
                },
                _ => Err(malformed),
            }
        } else {
            Err(ApplicationError::ParserError(Fault::UnknownMessageId))
        }
    }
}

/// The payload of a message has the size that the protocol's table gives.
pub proof fn lemma_payload_len(m: MessageView)
    ensures
        m.payload().len() == match m {
            MessageView::Choke
            | MessageView::Unchoke
            | MessageView::Interested
            | MessageView::NotInterested => 0,
            MessageView::Have(_) => 4,
            MessageView::Bitfield(bits) => bits.len(),
            MessageView::Request { .. } | MessageView::Cancel { .. } => 12,
            MessageView::Piece { block, .. } => 8 + block.len(),
        },
{
}

/// A frame starts with the length of what follows: one byte for the type id and the
/// payload. The prefix of a keep-alive is zero.
pub proof fn lemma_length_prefix(m: MessageView)
    requires
        m.fits(),
    ensures
        m.frame().len() == 5 + m.payload().len(),
        be_u32(m.frame().subrange(0, 4)) == 1 + m.payload().len(),
        keep_alive_frame().len() == 4,
        be_u32(keep_alive_frame()) == 0,
{
    let n = (1 + m.payload().len()) as u32;
    lemma_be_bytes_then_u32(n);
    lemma_be_bytes_then_u32(0);
    assert(m.frame().subrange(0, 4) =~= be_bytes(n));
}

/// Where the frame of a message stands at the start of a buffer, reading the buffer
/// comes down to reading the payload under the type id of the message.
pub proof fn lemma_frame_parts(m: MessageView, rest: Seq<u8>)
    requires
        m.fits(),
    ensures
        parse_frame(m.frame() + rest) == match parse_body(m.id(), m.payload()) {
            Ok(read) => Ok::<Option<MessageView>, Fault>(Some(read)),
            Err(f) => Err::<Option<MessageView>, Fault>(f),
        },
{
    lemma_length_prefix(m);
    let s = m.frame() + rest;
    let n = (1 + m.payload().len()) as u32;
    assert(s.subrange(0, 4) =~= m.frame().subrange(0, 4));
    assert(s[4] == m.id());
    assert(s.subrange(5, 4 + n) =~= m.payload());
}

/// The payload of a have is read back as the piece index.
pub proof fn lemma_have_round_trip(index: u32)
    ensures
        parse_body(4, be_bytes(index)) == Ok::<MessageView, Fault>(MessageView::Have(index)),
{
    lemma_be_bytes_then_u32(index);
}

/// The payload of a request or a cancel is read back as its three numbers.
pub proof fn lemma_triple_round_trip(index: u32, begin: u32, length: u32)
    ensures
        parse_body(6, be_bytes(index) + be_bytes(begin) + be_bytes(length)) == Ok::<
            MessageView,
            Fault,
        >(MessageView::Request { index, begin, length }),
        parse_body(8, be_bytes(index) + be_bytes(begin) + be_bytes(length)) == Ok::<
            MessageView,
            Fault,
        >(MessageView::Cancel { index, begin, length }),
{
    let body = be_bytes(index) + be_bytes(begin) + be_bytes(length);
    lemma_be_bytes_then_u32(index);
    lemma_be_bytes_then_u32(begin);
    lemma_be_bytes_then_u32(length);
    assert(body.subrange(0, 4) =~= be_bytes(index));
    assert(body.subrange(4, 8) =~= be_bytes(begin));
    assert(body.subrange(8, 12) =~= be_bytes(length));
}

/// The payload of a piece is read back as its two numbers and its block.
pub proof fn lemma_piece_round_trip(index: u32, begin: u32, block: Seq<u8>)
    ensures
        parse_body(7, be_bytes(index) + be_bytes(begin) + block) == Ok::<MessageView, Fault>(
            MessageView::Piece { index, begin, block },
        ),
{
    let body = be_bytes(index) + be_bytes(begin) + block;
    lemma_be_bytes_then_u32(index);
    lemma_be_bytes_then_u32(begin);
    assert(body.subrange(0, 4) =~= be_bytes(index));
    assert(body.subrange(4, 8) =~= be_bytes(begin));
    assert(body.subrange(8, body.len() as int) =~= block);
}

/// The payload of every message is read back, under its type id, as the message.
pub proof fn lemma_body_round_trip(m: MessageView)
    ensures
        parse_body(m.id(), m.payload()) == Ok::<MessageView, Fault>(m),
{
    match m {
        MessageView::Have(index) => {
            lemma_have_round_trip(index);
        },
        MessageView::Request { index, begin, length } => {
            lemma_triple_round_trip(index, begin, length);
        },
        MessageView::Cancel { index, begin, length } => {
            lemma_triple_round_trip(index, begin, length);
        },
        MessageView::Piece { index, begin, block } => {
            lemma_piece_round_trip(index, begin, block);
        },
        _ => {},
    }
}

/// A keep-alive is read back as none, whatever follows it.
pub proof fn lemma_keep_alive_round_trip(rest: Seq<u8>)
    ensures
        parse_frame(keep_alive_frame() + rest) == Ok::<Option<MessageView>, Fault>(None),
{
    lemma_be_bytes_then_u32(0);
    assert((keep_alive_frame() + rest).subrange(0, 4) =~= be_bytes(0));
}

/// Every message that fits its length prefix is read back from its frame as it was,
/// whatever follows the frame; a keep-alive is read back as none.
pub proof fn lemma_message_round_trip(m: MessageView, rest: Seq<u8>)
    requires
        m.fits(),
    ensures
        parse_frame(m.frame() + rest) == Ok::<Option<MessageView>, Fault>(Some(m)),
        parse_frame(keep_alive_frame() + rest) == Ok::<Option<MessageView>, Fault>(None),
{
    lemma_frame_parts(m, rest);
    lemma_body_round_trip(m);
    lemma_keep_alive_round_trip(rest);
}

/// A frame that a buffer holds in full is not refused for want of bytes: it is a
/// keep-alive, a message, or refused for what it holds; and what follows it in the
/// buffer does not matter.
pub proof fn lemma_whole_frame(s: Seq<u8>)
    requires
        frame_size(s) is Some,
    ensures
        parse_frame(s) == parse_frame(s.subrange(0, frame_size(s).unwrap())),
        4 <= frame_size(s).unwrap() <= s.len(),
        frame_size(s.subrange(0, frame_size(s).unwrap())) == frame_size(s),
{
    let n = frame_size(s).unwrap();
    let f = s.subrange(0, n);
    lemma_be_u32_range(s.subrange(0, 4));
    assert(f.subrange(0, 4) =~= s.subrange(0, 4));
    let len = be_u32(s.subrange(0, 4));
    if len > 0 {
        assert(f[4] == s[4]);
        assert(f.subrange(5, 4 + len) =~= s.subrange(5, 4 + len));
    }
}

} // verus!
