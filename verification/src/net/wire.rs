//! Messages by what they say.
//!
//! A `Message` is a tag and raw payload bytes. A `WireMessage` is the same
//! message with its payload read: the numbers are big-endian, four bytes
//! each, and a block or a bitfield takes whatever bytes follow them.

use vstd::prelude::*;
use vstd::slice::{slice_subrange, slice_to_vec};
use crate::net::message::{
    be32_bytes, be32_value, lemma_be32_bytes_of_value, lemma_be32_value_of_bytes, payload_suits,
    read_be32,
    write_be32, Message, MessageTag, MessageView,
};

verus! {

/// A message of the peer protocol with its payload read.
#[derive(Debug, Clone, PartialEq, Eq)]
pub enum WireMessage {
    /// The sender will not answer requests.
    Choke,
    /// The sender will answer requests.
    Unchoke,
    /// The sender wants pieces of the receiver.
    Interested,
    /// The sender wants nothing of the receiver.
    NotInterested,
    /// The sender has completed and checked a piece.
    Have { piece_index: u32 },
    /// The pieces the sender has, one bit each.
    Bitfield { payload: Vec<u8> },
    /// Asks for `length` bytes of a piece from offset `begin` on.
    Request { piece_index: u32, begin: u32, length: u32 },
    /// The bytes of a piece from offset `begin` on.
    Piece { piece_index: u32, begin: u32, block: Vec<u8> },
    /// Withdraws the request with the same three numbers.
    Cancel { piece_index: u32, begin: u32, length: u32 },
}

/// A read message as a mathematical value.
pub enum WireMessageView {
    Choke,
    Unchoke,
    Interested,
    NotInterested,
    Have { piece_index: u32 },
    Bitfield { payload: Seq<u8> },
    Request { piece_index: u32, begin: u32, length: u32 },
    Piece { piece_index: u32, begin: u32, block: Seq<u8> },
    Cancel { piece_index: u32, begin: u32, length: u32 },
}

impl View for WireMessage {
    type V = WireMessageView;

    open spec fn view(&self) -> WireMessageView {
        match self {
            WireMessage::Choke => WireMessageView::Choke,
            WireMessage::Unchoke => WireMessageView::Unchoke,
            WireMessage::Interested => WireMessageView::Interested,
            WireMessage::NotInterested => WireMessageView::NotInterested,
            WireMessage::Have { piece_index } => WireMessageView::Have {
                piece_index: *piece_index,
            },
            WireMessage::Bitfield { payload } => WireMessageView::Bitfield { payload: payload@ },
            WireMessage::Request { piece_index, begin, length } => WireMessageView::Request {
                piece_index: *piece_index,
                begin: *begin,
                length: *length,
            },
            WireMessage::Piece { piece_index, begin, block } => WireMessageView::Piece {
                piece_index: *piece_index,
                begin: *begin,
                block: block@,
            },
            WireMessage::Cancel { piece_index, begin, length } => WireMessageView::Cancel {
                piece_index: *piece_index,
                begin: *begin,
                length: *length,
            },
        }
    }
}

/// The payload of a request or a cancel: index, begin, length.
pub open spec fn triple_bytes(piece_index: u32, begin: u32, length: u32) -> Seq<u8> {
    be32_bytes(piece_index as int) + be32_bytes(begin as int) + be32_bytes(length as int)
}

/// The tag and payload that spell a read message.
pub open spec fn message_of(w: WireMessageView) -> MessageView {
    match w {
        WireMessageView::Choke => MessageView { tag: MessageTag::Choke, payload: seq![] },
        WireMessageView::Unchoke => MessageView { tag: MessageTag::UnChoke, payload: seq![] },
        WireMessageView::Interested => MessageView {
            tag: MessageTag::Interested,
            payload: seq![],
        },
        WireMessageView::NotInterested => MessageView {
            tag: MessageTag::NotInterested,
            payload: seq![],
        },
        WireMessageView::Have { piece_index } => MessageView {
            tag: MessageTag::Have,
            payload: be32_bytes(piece_index as int),
        },
        WireMessageView::Bitfield { payload } => MessageView { tag: MessageTag::Bitfield, payload },
        WireMessageView::Request { piece_index, begin, length } => MessageView {
            tag: MessageTag::Request,
            payload: triple_bytes(piece_index, begin, length),
        },
        WireMessageView::Piece { piece_index, begin, block } => MessageView {
            tag: MessageTag::Piece,
            payload: be32_bytes(piece_index as int) + be32_bytes(begin as int) + block,
        },
        WireMessageView::Cancel { piece_index, begin, length } => MessageView {
            tag: MessageTag::Cancel,
            payload: triple_bytes(piece_index, begin, length),
        },
    }
}

/// The number spelled by the four bytes of a payload from `at` on.
pub open spec fn number_at(payload: Seq<u8>, at: int) -> u32 {
    be32_value(payload.subrange(at, at + 4)) as u32
}

/// What a message says, if its payload has the shape that its tag asks for:
/// none for the four bare tags, four bytes for `Have`, twelve for `Request`
/// and `Cancel`, eight or more for `Piece`, anything for `Bitfield`.
pub open spec fn wire_of(m: MessageView) -> Option<WireMessageView> {
    let p = m.payload;
    match m.tag {
        MessageTag::Choke => if p.len() == 0 {
            Some(WireMessageView::Choke)
        } else {
            None
        },
        MessageTag::UnChoke => if p.len() == 0 {
            Some(WireMessageView::Unchoke)
        } else {
            None
        },
        MessageTag::Interested => if p.len() == 0 {
            Some(WireMessageView::Interested)
        } else {
            None
        },
        MessageTag::NotInterested => if p.len() == 0 {
            Some(WireMessageView::NotInterested)
        } else {
            None
        },
        MessageTag::Have => if p.len() == 4 {
            Some(WireMessageView::Have { piece_index: number_at(p, 0) })
        } else {
            None
        },
        MessageTag::Bitfield => Some(WireMessageView::Bitfield { payload: p }),
        MessageTag::Request => if p.len() == 12 {
            Some(
                WireMessageView::Request {
                    piece_index: number_at(p, 0),
                    begin: number_at(p, 4),
                    length: number_at(p, 8),
                },
            )
        } else {
            None
        },
        MessageTag::Piece => if p.len() >= 8 {
            Some(
                WireMessageView::Piece {
                    piece_index: number_at(p, 0),
                    begin: number_at(p, 4),
                    block: p.skip(8),
                },
            )
        } else {
            None
        },
        MessageTag::Cancel => if p.len() == 12 {
            Some(
                WireMessageView::Cancel {
                    piece_index: number_at(p, 0),
                    begin: number_at(p, 4),
                    length: number_at(p, 8),
                },
            )
        } else {
            None
        },
    }
}

/// A message can be read exactly when its payload has the shape that its
/// tag asks for.
pub proof fn lemma_wire_of_suits(m: MessageView)
    ensures
        wire_of(m) is Some <==> payload_suits(m.tag, m.payload.len() as int),
{
}

/// Reading what was spelled gives the message back.
pub proof fn lemma_wire_of_message_of(w: WireMessageView)
    ensures
        wire_of(message_of(w)) == Some(w),
{
    let p = message_of(w).payload;
    match w {
        WireMessageView::Have { piece_index } => {
            lemma_be32_value_of_bytes(piece_index as int);
            assert(p.subrange(0, 4) =~= be32_bytes(piece_index as int));
        },
        WireMessageView::Request { piece_index, begin, length } => {
            lemma_triple(piece_index, begin, length, seq![]);
            assert(p =~= triple_bytes(piece_index, begin, length) + seq![]);
        },
        WireMessageView::Cancel { piece_index, begin, length } => {
            lemma_triple(piece_index, begin, length, seq![]);
            assert(p =~= triple_bytes(piece_index, begin, length) + seq![]);
        },
        WireMessageView::Piece { piece_index, begin, block } => {
            lemma_be32_value_of_bytes(piece_index as int);
            lemma_be32_value_of_bytes(begin as int);
            assert(p.subrange(0, 4) =~= be32_bytes(piece_index as int));
            assert(p.subrange(4, 8) =~= be32_bytes(begin as int));
            assert(p.skip(8) =~= block);
        },
        _ => {},
    }
}

/// Three numbers spelled one after the other are read back one by one,
/// whatever follows them.
proof fn lemma_triple(a: u32, b: u32, c: u32, rest: Seq<u8>)
    ensures
        (triple_bytes(a, b, c) + rest).len() == 12 + rest.len(),
        number_at(triple_bytes(a, b, c) + rest, 0) == a,
        number_at(triple_bytes(a, b, c) + rest, 4) == b,
        number_at(triple_bytes(a, b, c) + rest, 8) == c,
{
    let p = triple_bytes(a, b, c) + rest;
    lemma_be32_value_of_bytes(a as int);
    lemma_be32_value_of_bytes(b as int);
    lemma_be32_value_of_bytes(c as int);
    assert(p.subrange(0, 4) =~= be32_bytes(a as int));
    assert(p.subrange(4, 8) =~= be32_bytes(b as int));
    assert(p.subrange(8, 12) =~= be32_bytes(c as int));
}

/// Spelling what was read gives the message back.
pub proof fn lemma_message_of_wire_of(m: MessageView)
    requires
        wire_of(m) is Some,
    ensures
        message_of(wire_of(m).unwrap()) == m,
{
    let p = m.payload;
    let back = message_of(wire_of(m).unwrap());
    if p.len() >= 4 {
        lemma_be32_bytes_of_value(p.subrange(0, 4));
    }
    if p.len() >= 8 {
        lemma_be32_bytes_of_value(p.subrange(4, 8));
    }
    if p.len() >= 12 {
        lemma_be32_bytes_of_value(p.subrange(8, 12));
    }
    match m.tag {
        MessageTag::Have => {
            assert(back.payload =~= p);
        },
        MessageTag::Request => {
            assert(back.payload =~= p);
        },
        MessageTag::Cancel => {
            assert(back.payload =~= p);
        },
        MessageTag::Piece => {
            assert(back.payload =~= p);
        },
        MessageTag::Bitfield => {},
        _ => {
            assert(back.payload =~= p);
        },
    }
}

/// Appends the four bytes that spell `x` in big-endian order.
fn push_be32(bytes: &mut Vec<u8>, x: u32)
    ensures
        final(bytes)@ == old(bytes)@ + be32_bytes(x as int),
{
    let spelled = write_be32(x);
    bytes.push(spelled[0]);
    bytes.push(spelled[1]);
    bytes.push(spelled[2]);
    bytes.push(spelled[3]);
    assert(bytes@ =~= old(bytes)@ + be32_bytes(x as int));
}

/// Appends a copy of `extra`.
fn push_all(bytes: &mut Vec<u8>, extra: &[u8])
    ensures
        final(bytes)@ == old(bytes)@ + extra@,
{
    let count = extra.len();
    let mut i: usize = 0;
    while i < count
        invariant
            i <= count,
            count == extra@.len(),
            bytes@ == old(bytes)@ + extra@.take(i as int),
        decreases count - i,
    {
        bytes.push(extra[i]);
        i += 1;
        assert(bytes@ =~= old(bytes)@ + extra@.take(i as int));
    }
    assert(extra@.take(count as int) =~= extra@);
}

/// Reads the number spelled by four bytes of a payload.
fn read_number(payload: &[u8], at: usize) -> (x: u32)
    requires
        at + 4 <= payload@.len(),
    ensures
        x == number_at(payload@, at as int),
{
    let size = payload.len();
    let part = slice_subrange(payload, at, at + 4);
    assert(part@.take(4) =~= payload@.subrange(at as int, at + 4));
    read_be32(part)
}

impl WireMessage {
    /// Spells this message as a tag and a payload.
    pub fn to_message(&self) -> (message: Message)
        ensures
            message@ == message_of(self@),
    {
        let mut payload: Vec<u8> = Vec::new();
        let tag = match self {
            WireMessage::Choke => MessageTag::Choke,
            WireMessage::Unchoke => MessageTag::UnChoke,
            WireMessage::Interested => MessageTag::Interested,
            WireMessage::NotInterested => MessageTag::NotInterested,
            WireMessage::Have { piece_index } => {
                push_be32(&mut payload, *piece_index);
                MessageTag::Have
            },
            WireMessage::Bitfield { payload: bits } => {
                push_all(&mut payload, bits.as_slice());
                MessageTag::Bitfield
            },
            WireMessage::Request { piece_index, begin, length } => {
                push_be32(&mut payload, *piece_index);
                push_be32(&mut payload, *begin);
                push_be32(&mut payload, *length);
                MessageTag::Request
            },
            WireMessage::Piece { piece_index, begin, block } => {
                push_be32(&mut payload, *piece_index);
                push_be32(&mut payload, *begin);
                push_all(&mut payload, block.as_slice());
                MessageTag::Piece
            },
            WireMessage::Cancel { piece_index, begin, length } => {
                push_be32(&mut payload, *piece_index);
                push_be32(&mut payload, *begin);
                push_be32(&mut payload, *length);
                MessageTag::Cancel
            },
        };
        assert(payload@ =~= message_of(self@).payload);
        Message::assemble(tag, payload)
    }

    /// Reads the payload of a message. `None` means that the payload does not
    /// have the shape that the tag asks for.
    pub fn from_message(message: &Message) -> (wire: Option<Self>)
        ensures
            match wire {
                Some(w) => wire_of(message@) == Some(w@),
                None => wire_of(message@) is None,
            },
    {
        let payload = message.payload();
        let size = payload.len();
        match message.tag() {
            MessageTag::Choke => if size == 0 {
                Some(WireMessage::Choke)
            } else {
                None
            },
            MessageTag::UnChoke => if size == 0 {
                Some(WireMessage::Unchoke)
            } else {
                None
            },
            MessageTag::Interested => if size == 0 {
                Some(WireMessage::Interested)
            } else {
                None
            },
            MessageTag::NotInterested => if size == 0 {
                Some(WireMessage::NotInterested)
            } else {
                None
            },
            MessageTag::Have => if size == 4 {
                Some(WireMessage::Have { piece_index: read_number(payload, 0) })
            } else {
                None
            },
            MessageTag::Bitfield => Some(WireMessage::Bitfield { payload: slice_to_vec(payload) }),
            MessageTag::Request => if size == 12 {
                Some(
                    WireMessage::Request {
                        piece_index: read_number(payload, 0),
                        begin: read_number(payload, 4),
                        length: read_number(payload, 8),
                    },
                )
            } else {
                None
            },
            MessageTag::Piece => if size >= 8 {
                let block = slice_to_vec(slice_subrange(payload, 8, size));
                assert(block@ =~= payload@.skip(8));
                Some(
                    WireMessage::Piece {
                        piece_index: read_number(payload, 0),
                        begin: read_number(payload, 4),
                        block,
                    },
                )
            } else {
                None
            },
            MessageTag::Cancel => if size == 12 {
                Some(
                    WireMessage::Cancel {
                        piece_index: read_number(payload, 0),
                        begin: read_number(payload, 4),
                        length: read_number(payload, 8),
                    },
                )
            } else {
                None
            },
        }
    }
}

} // verus!
