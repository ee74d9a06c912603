//! Messages exchanged between peers, and their framing on the wire.
//!
//! A frame is a four-byte big-endian length, one tag byte and the payload; the
//! length counts the tag byte and the payload. A length of zero is a
//! keep-alive and carries nothing.

use vstd::prelude::*;
use vstd::arithmetic::div_mod::lemma_fundamental_div_mod_converse;
use vstd::slice::{slice_subrange, slice_to_vec};
use bytes::BytesMut;
use crate::net::buffer::{
    buffer_advance, buffer_bytes, buffer_extend, buffer_put_u8, buffer_reserve, buffer_slice,
};

verus! {

/// Ceiling on the length a frame may declare and on the payload a message may
/// carry, in bytes.
pub const MAX_MESSAGE_LENGTH: usize = 65536;

/// Represents the different types of messages exchanged between peers.
#[derive(Debug, Clone, Copy, PartialEq, Eq, Structural)]
pub enum MessageTag {
    /// No payload. Indicates that the sender will not send any more data.
    Choke,
    /// No payload. Indicates that the sender is ready to send data.
    UnChoke,
    /// No payload. Indicates that the sender is interested in receiving data.
    Interested,
    /// No payload. Indicates that the sender is not interested in receiving data.
    NotInterested,
    /// The payload is a single number, the index of the piece which the sender
    /// just completed and checked the hash of.
    Have,
    /// Only ever sent as the first message. The payload is a bitfield with each
    /// index the sender has set to one and the rest set to zero.
    Bitfield,
    /// The payload is an index, a begin offset and a length.
    Request,
    /// The payload is an index, a begin offset and the raw block.
    Piece,
    /// Same payload as a request; withdraws it.
    Cancel,
}

/// What went wrong when a byte could not be read as a tag, a frame could not
/// be read, or a message could not be written.
#[derive(Debug, Clone, Copy, PartialEq, Eq, Structural)]
pub enum FrameError {
    /// A frame declares a length above the ceiling.
    FrameTooLarge { length: usize },
    /// A message carries a payload longer than the ceiling.
    PayloadTooLarge { length: usize },
    /// The tag byte names no message type.
    UnknownTag { value: u8 },
}

/// The byte that stands for a tag on the wire.
pub open spec fn tag_code(tag: MessageTag) -> u8 {
    match tag {
        MessageTag::Choke => 0,
        MessageTag::UnChoke => 1,
        MessageTag::Interested => 2,
        MessageTag::NotInterested => 3,
        MessageTag::Have => 4,
        MessageTag::Bitfield => 5,
        MessageTag::Request => 6,
        MessageTag::Piece => 7,
        MessageTag::Cancel => 8,
    }
}

/// The tag a byte stands for, if any.
pub open spec fn tag_of_code(code: u8) -> Option<MessageTag> {
    if code == 0 {
        Some(MessageTag::Choke)
    } else if code == 1 {
        Some(MessageTag::UnChoke)
    } else if code == 2 {
        Some(MessageTag::Interested)
    } else if code == 3 {
        Some(MessageTag::NotInterested)
    } else if code == 4 {
        Some(MessageTag::Have)
    } else if code == 5 {
        Some(MessageTag::Bitfield)
    } else if code == 6 {
        Some(MessageTag::Request)
    } else if code == 7 {
        Some(MessageTag::Piece)
    } else if code == 8 {
        Some(MessageTag::Cancel)
    } else {
        None
    }
}

/// Whether messages of this tag carry no payload.
pub open spec fn tag_is_bare(tag: MessageTag) -> bool {
    tag is Choke || tag is UnChoke || tag is Interested || tag is NotInterested
}

impl MessageTag {
    /// The byte that stands for this tag on the wire.
    pub fn code(&self) -> (code: u8)
        ensures
            code == tag_code(*self),
    {
        match self {
            MessageTag::Choke => 0,
            MessageTag::UnChoke => 1,
            MessageTag::Interested => 2,
            MessageTag::NotInterested => 3,
            MessageTag::Have => 4,
            MessageTag::Bitfield => 5,
            MessageTag::Request => 6,
            MessageTag::Piece => 7,
            MessageTag::Cancel => 8,
        }
    }

    /// Whether messages of this tag carry no payload.
    pub fn is_bare(&self) -> (bare: bool)
        ensures
            bare == tag_is_bare(*self),
    {
        match self {
            MessageTag::Choke
            | MessageTag::UnChoke
            | MessageTag::Interested
            | MessageTag::NotInterested => true,
            _ => false,
        }
    }
}

impl vstd::std_specs::convert::TryFromSpecImpl<u8> for MessageTag {
    open spec fn obeys_try_from_spec() -> bool {
        true
    }

    open spec fn try_from_spec(value: u8) -> Result<Self, FrameError> {
        match tag_of_code(value) {
            Some(tag) => Ok(tag),
            None => Err(FrameError::UnknownTag { value }),
        }
    }
}

impl TryFrom<u8> for MessageTag {
    type Error = FrameError;

    /// Reads a tag byte. Bytes 0 to 8 name a tag; every other byte is an
    /// `UnknownTag` error that carries the byte.
    fn try_from(value: u8) -> (tag: Result<Self, Self::Error>)
        ensures
            match tag {
                Ok(t) => tag_of_code(value) == Some(t),
                Err(e) => tag_of_code(value) is None && e == (FrameError::UnknownTag { value }),
            },
    {
        match value {
            0 => Ok(MessageTag::Choke),
            1 => Ok(MessageTag::UnChoke),
            2 => Ok(MessageTag::Interested),
            3 => Ok(MessageTag::NotInterested),
            4 => Ok(MessageTag::Have),
            5 => Ok(MessageTag::Bitfield),
            6 => Ok(MessageTag::Request),
            7 => Ok(MessageTag::Piece),
            8 => Ok(MessageTag::Cancel),
            _ => Err(FrameError::UnknownTag { value }),
        }
    }
}

/// Reading the byte of a tag gives the tag back.
pub proof fn lemma_tag_code_round_trip(tag: MessageTag)
    ensures
        tag_of_code(tag_code(tag)) == Some(tag),
{
}

/// What went wrong when a message could not be built.
#[derive(Debug, Clone, Copy, PartialEq, Eq, Structural)]
pub enum MessageError {
    /// A payload was given for a tag that carries none.
    UnexpectedPayload { tag: MessageTag },
    /// The payload does not have the number of bytes that the tag asks
    /// for.
    WrongPayloadLength { tag: MessageTag, length: usize },
    /// No payload was given for a tag that carries one.
    MissingPayload { tag: MessageTag },
}

/// Whether a payload of `length` bytes has the shape that a tag asks for:
/// none for the four bare tags, four bytes for `Have` (a piece index),
/// twelve for `Request` and `Cancel` (index, begin, length), eight or more
/// for `Piece` (index, begin, then the block), anything for `Bitfield`.
pub open spec fn payload_suits(tag: MessageTag, length: int) -> bool {
    match tag {
        MessageTag::Choke
        | MessageTag::UnChoke
        | MessageTag::Interested
        | MessageTag::NotInterested => length == 0,
        MessageTag::Have => length == 4,
        MessageTag::Bitfield => true,
        MessageTag::Request | MessageTag::Cancel => length == 12,
        MessageTag::Piece => length >= 8,
    }
}

/// Structured message exchanged between peers.
#[derive(Debug, Clone, PartialEq, Eq)]
pub struct Message {
    tag: MessageTag,
    payload: Vec<u8>,
}

/// A message as a mathematical value: its tag and the bytes of its payload.
pub struct MessageView {
    pub tag: MessageTag,
    pub payload: Seq<u8>,
}

impl View for Message {
    type V = MessageView;

    closed spec fn view(&self) -> MessageView {
        MessageView { tag: self.tag, payload: self.payload@ }
    }
}

impl Message {
    /// Creates a new message from message tag and payload.
    ///
    /// # Errors
    ///
    /// A payload that does not suit its tag is refused. The messages that do
    /// not require a payload are `Choke`, `UnChoke`, `Interested`, and
    /// `NotInterested`; a payload for one of them is the error
    /// `UnexpectedPayload`. `Have` takes four bytes, `Request` and `Cancel`
    /// twelve, `Piece` eight or more; any other number of bytes is the error
    /// `WrongPayloadLength`. `Bitfield` takes any payload.
    pub fn new(tag: MessageTag, payload: Vec<u8>) -> (message: Result<Self, MessageError>)
        ensures
            message is Ok <==> payload_suits(tag, payload@.len() as int),
            message matches Ok(m) ==> m@ == (MessageView { tag, payload: payload@ }),
            message matches Err(e) ==> e == if tag_is_bare(tag) {
                MessageError::UnexpectedPayload { tag }
            } else {
                MessageError::WrongPayloadLength { tag, length: payload@.len() as usize }
            },
    {
        let length = payload.len();
        let suits = match tag {
            MessageTag::Choke
            | MessageTag::UnChoke
            | MessageTag::Interested
            | MessageTag::NotInterested => {
                if length != 0 {
                    return Err(MessageError::UnexpectedPayload { tag });
                }
                true
            },
            MessageTag::Have => length == 4,
            MessageTag::Bitfield => true,
            MessageTag::Request | MessageTag::Cancel => length == 12,
            MessageTag::Piece => length >= 8,
        };
        if suits {
            Ok(Message { tag, payload })
        } else {
            Err(MessageError::WrongPayloadLength { tag, length })
        }
    }

    /// Puts together a message whose payload is known to suit its tag.
    pub(crate) fn assemble(tag: MessageTag, payload: Vec<u8>) -> (message: Self)
        requires
            payload_suits(tag, payload@.len() as int),
        ensures
            message@ == (MessageView { tag, payload: payload@ }),
    {
        Message { tag, payload }
    }

    /// Creates a new message from message tag, without payload.
    ///
    /// # Errors
    ///
    /// If the message tag requires a payload, an error is returned.
    pub fn without_payload(tag: MessageTag) -> (message: Result<Self, MessageError>)
        ensures
            message is Ok <==> tag_is_bare(tag),
            message matches Ok(m) ==> m@ == (MessageView { tag, payload: Seq::<u8>::empty() }),
            message matches Err(e) ==> e == (MessageError::MissingPayload { tag }),
    {
        if tag.is_bare() {
            Ok(Message { tag, payload: Vec::new() })
        } else {
            Err(MessageError::MissingPayload { tag })
        }
    }

    /// Returns the tag of the message.
    pub fn tag(&self) -> (tag: &MessageTag)
        ensures
            *tag == self@.tag,
    {
        &self.tag
    }

    /// Returns the payload of the message.
    pub fn payload(&self) -> (payload: &[u8])
        ensures
            payload@ == self@.payload,
    {
        self.payload.as_slice()
    }
}

/// The number that four bytes spell in big-endian order.
pub open spec fn be32_value(b: Seq<u8>) -> int
    recommends
        b.len() == 4,
{
    b[0] * 16777216 + b[1] * 65536 + b[2] * 256 + b[3]
}

/// The four bytes that spell a number below 2^32 in big-endian order.
pub open spec fn be32_bytes(x: int) -> Seq<u8>
    recommends
        0 <= x < 4294967296,
{
    seq![
        (x / 16777216) as u8,
        ((x / 65536) % 256) as u8,
        ((x / 256) % 256) as u8,
        (x % 256) as u8,
    ]
}

/// Spelling a number and reading the spelling gives the number back.
pub proof fn lemma_be32_value_of_bytes(x: int)
    requires
        0 <= x < 4294967296,
    ensures
        be32_bytes(x).len() == 4,
        be32_value(be32_bytes(x)) == x,
{
    let b0 = x / 16777216;
    let b1 = (x / 65536) % 256;
    let b2 = (x / 256) % 256;
    let b3 = x % 256;
    assert(x == (x / 256) * 256 + b3);
    assert(x / 256 == (x / 65536) * 256 + b2);
    assert(x / 65536 == b0 * 256 + b1);
    assert(0 <= b0 < 256);
}

/// Reading four bytes and spelling the number gives the bytes back.
pub proof fn lemma_be32_bytes_of_value(b: Seq<u8>)
    requires
        b.len() == 4,
    ensures
        0 <= be32_value(b) < 4294967296,
        be32_bytes(be32_value(b)) == b,
{
    let b0 = b[0] as int;
    let b1 = b[1] as int;
    let b2 = b[2] as int;
    let b3 = b[3] as int;
    let x = be32_value(b);
    lemma_fundamental_div_mod_converse(x, 256, b0 * 65536 + b1 * 256 + b2, b3);
    lemma_fundamental_div_mod_converse(x / 256, 256, b0 * 256 + b1, b2);
    lemma_fundamental_div_mod_converse(x, 65536, b0 * 256 + b1, b2 * 256 + b3);
    lemma_fundamental_div_mod_converse(x / 65536, 256, b0, b1);
    lemma_fundamental_div_mod_converse(x, 16777216, b0, b1 * 65536 + b2 * 256 + b3);
    assert(be32_bytes(x) =~= b);
}

/// Reads a big-endian number from the first four bytes of a slice.
pub fn read_be32(bytes: &[u8]) -> (x: u32)
    requires
        bytes@.len() >= 4,
    ensures
        x == be32_value(bytes@.take(4)),
{
    let b0: u32 = bytes[0] as u32;
    let b1: u32 = bytes[1] as u32;
    let b2: u32 = bytes[2] as u32;
    let b3: u32 = bytes[3] as u32;
    b0 * 16777216 + b1 * 65536 + b2 * 256 + b3
}

/// Spells a number as four bytes in big-endian order.
pub fn write_be32(x: u32) -> (bytes: [u8; 4])
    ensures
        bytes@ == be32_bytes(x as int),
{
    let bytes: [u8; 4] = [
        (x / 16777216) as u8,
        ((x / 65536) % 256) as u8,
        ((x / 256) % 256) as u8,
        (x % 256) as u8,
    ];
    assert(bytes@ =~= be32_bytes(x as int));
    bytes
}

/// The bytes of the frame that carries a message: the length of tag and
/// payload, the tag byte, the payload.
pub open spec fn frame_bytes(m: MessageView) -> Seq<u8> {
    be32_bytes(1 + m.payload.len() as int) + seq![tag_code(m.tag)] + m.payload
}

/// What the head of a buffer amounts to.
pub enum Decoded {
    /// No complete frame has arrived yet.
    NeedMore,
    /// A complete frame that carries this message.
    Frame(MessageView),
    /// The buffer cannot be the start of any frame.
    Failed(FrameError),
}

/// A buffer without the keep-alive frames at its head.
pub open spec fn strip_keep_alives(buf: Seq<u8>) -> Seq<u8>
    decreases buf.len(),
{
    if buf.len() >= 4 && be32_value(buf.take(4)) == 0 {
        strip_keep_alives(buf.skip(4))
    } else {
        buf
    }
}

/// What a buffer that does not begin with a keep-alive amounts to.
///
/// With fewer than four bytes nothing is decided. As soon as the four bytes
/// of the length are there, a declared length above the ceiling is an
/// error, whatever follows. A frame that has not fully arrived is waited
/// for. A complete frame is a message if its tag byte names a tag, and an
/// error if not.
pub open spec fn head_frame(buf: Seq<u8>) -> Decoded {
    if buf.len() < 4 {
        Decoded::NeedMore
    } else {
        let length = be32_value(buf.take(4));
        if length > MAX_MESSAGE_LENGTH {
            Decoded::Failed(FrameError::FrameTooLarge { length: length as usize })
        } else if buf.len() < 4 + length {
            Decoded::NeedMore
        } else {
            match tag_of_code(buf[4]) {
                Some(tag) => Decoded::Frame(
                    MessageView { tag, payload: buf.subrange(5, 4 + length) },
                ),
                None => Decoded::Failed(FrameError::UnknownTag { value: buf[4] }),
            }
        }
    }
}

/// Reads and writes frames.
pub struct MessageFramer;

impl MessageFramer {
    /// Takes the next message off the front of `src`.
    ///
    /// Keep-alive frames at the front are dropped first. Then, if a whole
    /// frame has arrived, it is removed from the buffer and its message
    /// returned. If not, `Ok(None)` asks for more bytes and the rest of the
    /// buffer stays as it is. An error leaves the rest of the buffer
    /// untouched as well.
    ///
    /// The payload is handed out as it came: whether it suits the tag is for
    /// whoever reads the message to say.
    ///
    /// # Errors
    ///
    /// A declared length above the ceiling fails as soon as the four bytes
    /// of the length are there. A complete frame whose tag byte names no tag
    /// fails as well.
    pub fn decode(&mut self, src: &mut BytesMut) -> (item: Result<Option<Message>, FrameError>)
        ensures
            ({
                let head = strip_keep_alives(buffer_bytes(*old(src)));
                match item {
                    Ok(None) => head_frame(head) is NeedMore && buffer_bytes(*final(src)) == head,
                    Ok(Some(m)) => head_frame(head) == Decoded::Frame(m@) && buffer_bytes(
                        *final(src),
                    ) == head.skip(5 + m@.payload.len() as int),
                    Err(e) => head_frame(head) == Decoded::Failed(e) && buffer_bytes(*final(src))
                        == head,
                }
            }),
    {
        loop
            invariant
                strip_keep_alives(buffer_bytes(*src)) == strip_keep_alives(
                    buffer_bytes(*old(src)),
                ),
            decreases buffer_bytes(*src).len(),
        {
            let bytes = buffer_slice(src);
            let available = bytes.len();
            if available < 4 {
                // Not enough bytes to read the length marker.
                return Ok(None);
            }
            let length = read_be32(bytes) as usize;
            if length == 0 {
                // A keep-alive: drop it and look at what follows.
                buffer_advance(src, 4);
                continue;
            }
            // A peer must not make us reserve more than the ceiling.
            if length > MAX_MESSAGE_LENGTH {
                return Err(FrameError::FrameTooLarge { length });
            }
            if available < 4 + length {
                // The full frame has not yet arrived: make room for it.
                buffer_reserve(src, 4 + length - available);
                return Ok(None);
            }
            let tag = match MessageTag::try_from(bytes[4]) {
                Ok(tag) => tag,
                Err(e) => {
                    return Err(e);
                },
            };
            let payload = slice_to_vec(slice_subrange(bytes, 5, 4 + length));
            buffer_advance(src, 4 + length);
            return Ok(Some(Message { tag, payload }));
        }
    }

    /// Appends the frame of `item` to `dst`.
    ///
    /// # Errors
    ///
    /// A payload longer than the ceiling is refused, and `dst` stays as it is.
    pub fn encode(&mut self, item: Message, dst: &mut BytesMut) -> (done: Result<(), FrameError>)
        requires
            item@.payload.len() <= MAX_MESSAGE_LENGTH ==> buffer_bytes(*old(dst)).len() + 5
                + item@.payload.len() <= isize::MAX,
        ensures
            done is Ok <==> item@.payload.len() <= MAX_MESSAGE_LENGTH,
            done is Ok ==> buffer_bytes(*final(dst)) == buffer_bytes(*old(dst)) + frame_bytes(
                item@,
            ),
            done matches Err(e) ==> e == (FrameError::PayloadTooLarge {
                length: item@.payload.len() as usize,
            }) && buffer_bytes(*final(dst)) == buffer_bytes(*old(dst)),
    {
        let size = item.payload.len();
        // Don't send too long a message.
        if size > MAX_MESSAGE_LENGTH {
            return Err(FrameError::PayloadTooLarge { length: size });
        }
        let length_bytes = write_be32(size as u32 + 1);
        buffer_reserve(dst, 4 + 1 + size);
        buffer_extend(dst, length_bytes.as_slice());
        buffer_put_u8(dst, item.tag.code());
        buffer_extend(dst, item.payload.as_slice());
        assert(buffer_bytes(*dst) =~= buffer_bytes(*old(dst)) + frame_bytes(item@));
        Ok(())
    }
}

/// Decoding undoes encoding: a buffer that begins with the frame of a message
/// whose frame length is within the ceiling decodes to that message, and
/// exactly the bytes behind the frame are left.
pub proof fn lemma_decode_inverts_encode(m: MessageView, rest: Seq<u8>)
    requires
        m.payload.len() < MAX_MESSAGE_LENGTH,
    ensures
        strip_keep_alives(frame_bytes(m) + rest) == frame_bytes(m) + rest,
        head_frame(frame_bytes(m) + rest) == Decoded::Frame(m),
        (frame_bytes(m) + rest).skip(5 + m.payload.len() as int) == rest,
{
    let length = 1 + m.payload.len() as int;
    let buf = frame_bytes(m) + rest;
    lemma_be32_value_of_bytes(length);
    lemma_tag_code_round_trip(m.tag);
    assert(buf.take(4) =~= be32_bytes(length));
    assert(buf[4] == tag_code(m.tag));
    assert(buf.subrange(5, 4 + length) =~= m.payload);
    assert(buf.skip(5 + m.payload.len() as int) =~= rest);
}

/// Dropping keep-alives never makes a buffer longer, and keeps it as it is
/// exactly when it does not begin with one.
pub proof fn lemma_strip_keep_alives(buf: Seq<u8>)
    ensures
        strip_keep_alives(buf).len() <= buf.len(),
        strip_keep_alives(buf) == buf <==> !(buf.len() >= 4 && be32_value(buf.take(4)) == 0),
        strip_keep_alives(strip_keep_alives(buf)) == strip_keep_alives(buf),
    decreases buf.len(),
{
    if buf.len() >= 4 && be32_value(buf.take(4)) == 0 {
        lemma_strip_keep_alives(buf.skip(4));
    }
}

/// Encoding undoes decoding: the message that a buffer without keep-alives
/// at its head decodes to has as its frame the very bytes that were taken
/// off the buffer.
pub proof fn lemma_encode_inverts_decode(buf: Seq<u8>, m: MessageView)
    requires
        strip_keep_alives(buf) == buf,
        head_frame(buf) == Decoded::Frame(m),
    ensures
        5 + m.payload.len() <= buf.len(),
        frame_bytes(m) == buf.take(5 + m.payload.len() as int),
{
    let length = be32_value(buf.take(4));
    lemma_strip_keep_alives(buf);
    lemma_be32_bytes_of_value(buf.take(4));
    assert(tag_code(m.tag) == buf[4]);
    assert(frame_bytes(m) =~= buf.take(5 + m.payload.len() as int));
}

/// A buffer whose first four bytes spell a length above the ceiling is an
/// error as it stands, however few or many bytes follow.
pub proof fn lemma_oversized_frame_fails(buf: Seq<u8>)
    requires
        buf.len() >= 4,
        be32_value(buf.take(4)) > MAX_MESSAGE_LENGTH,
    ensures
        strip_keep_alives(buf) == buf,
        head_frame(buf) == Decoded::Failed(
            FrameError::FrameTooLarge { length: be32_value(buf.take(4)) as usize },
        ),
{
}

/// A buffer too short for a length, or shorter than the frame that its
/// length declares within the ceiling, asks for more bytes as it stands.
pub proof fn lemma_short_buffer_needs_more(buf: Seq<u8>)
    requires
        buf.len() < 4 || (0 < be32_value(buf.take(4)) <= MAX_MESSAGE_LENGTH && buf.len() < 4
            + be32_value(buf.take(4))),
    ensures
        strip_keep_alives(buf) == buf,
        head_frame(buf) is NeedMore,
{
}

/// Every proper prefix of the frame of a message asks for more bytes as it
/// stands, so that nothing is lost before the frame is complete.
pub proof fn lemma_frame_prefix_needs_more(m: MessageView, k: int)
    requires
        m.payload.len() < MAX_MESSAGE_LENGTH,
        0 <= k < frame_bytes(m).len(),
    ensures
        strip_keep_alives(frame_bytes(m).take(k)) == frame_bytes(m).take(k),
        head_frame(frame_bytes(m).take(k)) is NeedMore,
{
    let length = 1 + m.payload.len() as int;
    let prefix = frame_bytes(m).take(k);
    lemma_be32_value_of_bytes(length);
    if k >= 4 {
        assert(prefix.take(4) =~= be32_bytes(length));
    }
}

} // verus!
