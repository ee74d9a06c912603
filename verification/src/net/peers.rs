//! The connection to one peer: the handshake that opens it, and what each
//! message that follows does to it.
//!
//! Both sides send one record of 68 bytes before anything else: the length of
//! the protocol name, the name, eight reserved bytes, the info hash of the
//! torrent and the identifier of the sender. The first message after that
//! tells which pieces the peer has. From then on the connection keeps track
//! of who chokes whom and who is interested in whom.
//!
//! Nothing here reads or writes a socket. Whoever owns the socket hands in
//! what arrived and asks what may go out.

use vstd::prelude::*;
use vstd::slice::{slice_subrange, slice_to_vec};
use crate::net::bitfield::{payload_has_piece, payload_with_piece, BitField};
use crate::net::message::{Message, MessageTag, MessageView};
use crate::net::wire::{wire_of, WireMessage, WireMessageView};

verus! {

/// The number of bytes of a handshake record.
pub const HANDSHAKE_LENGTH: usize = 68;

/// The protocol name, `BitTorrent protocol`, as bytes.
pub const PROTOCOL_NAME: [u8; 19] = [
    66, 105, 116, 84, 111, 114, 114, 101, 110, 116, 32, 112, 114, 111, 116, 111, 99, 111, 108,
];

/// The bytes of the handshake record with these fields, in the order in which
/// they go over the wire.
pub open spec fn handshake_bytes(
    length: u8,
    protocol: Seq<u8>,
    reserved: Seq<u8>,
    info_hash: Seq<u8>,
    peer_id: Seq<u8>,
) -> Seq<u8> {
    seq![length] + protocol + reserved + info_hash + peer_id
}

/// It represents the handshake message that is exchanged between peers.
///
/// The handshake message requires:
/// * length: 1 byte, which is always 19.
/// * protocol: 19 bytes, which is always "BitTorrent protocol".
/// * reserved: 8 bytes, which is always 0.
/// * info hash: 20 bytes, which is the SHA1 hash of the info dictionary in the torrent file.
/// * peer ID: 20 bytes, which is the peer ID of the client.
pub struct HandShakeMessage {
    pub length: u8,
    pub protocol: [u8; 19],
    pub reserved: [u8; 8],
    pub info_hash: [u8; 20],
    pub peer_id: [u8; 20],
}

/// Why a handshake record that a peer sent is not accepted.
#[derive(Debug, Clone, Copy, PartialEq, Eq, Structural)]
pub enum HandshakeError {
    /// The peer sent fewer or more than 68 bytes.
    WrongLength { length: usize },
    /// The protocol name is not `BitTorrent protocol`.
    ProtocolMismatch,
    /// The info hash is not that of the local torrent.
    InfoHashMismatch,
}

/// Copies `count` bytes of `src`, from `from` on, into `dst`, from `at` on.
fn copy_into(dst: &mut [u8; 68], at: usize, src: &[u8], from: usize, count: usize)
    requires
        at + count <= 68,
        from + count <= src@.len(),
    ensures
        final(dst)@ == old(dst)@.take(at as int) + src@.subrange(from as int, from + count)
            + old(dst)@.skip(at + count),
{
    let available = src.len();
    let mut i: usize = 0;
    while i < count
        invariant
            i <= count,
            at + count <= 68,
            available == src@.len(),
            from + count <= available,
            dst@ == old(dst)@.take(at as int) + src@.subrange(from as int, from + i) + old(
                dst,
            )@.skip(at + i),
        decreases count - i,
    {
        dst[at + i] = src[from + i];
        i += 1;
        assert(dst@ =~= old(dst)@.take(at as int) + src@.subrange(from as int, from + i) + old(
            dst,
        )@.skip(at + i));
    }
    assert(dst@ =~= old(dst)@.take(at as int) + src@.subrange(from as int, from + count) + old(
        dst,
    )@.skip(at + count));
}

impl HandShakeMessage {
    /// The bytes of this record on the wire.
    pub open spec fn wire(&self) -> Seq<u8> {
        handshake_bytes(
            self.length,
            self.protocol@,
            self.reserved@,
            self.info_hash@,
            self.peer_id@,
        )
    }

    /// Creates a new handshake from the SHA1 hash of the info dictionary in
    /// the torrent file and the peer ID.
    pub fn new(info_hash: [u8; 20], peer_id: [u8; 20]) -> (handshake: Self)
        ensures
            handshake.length == 19,
            handshake.protocol@ == PROTOCOL_NAME@,
            handshake.reserved@ == Seq::new(8, |i: int| 0u8),
            handshake.info_hash == info_hash,
            handshake.peer_id == peer_id,
    {
        let handshake = Self {
            length: 19,
            protocol: PROTOCOL_NAME,
            reserved: [0;8],
            info_hash,
            peer_id,
        };
        assert(handshake.reserved@ =~= Seq::new(8, |i: int| 0u8));
        handshake
    }

    /// Returns the handshake as a byte array, fields in wire order.
    pub fn to_bytes(&self) -> (bytes: [u8; 68])
        ensures
            bytes@ == self.wire(),
    {
        let mut bytes: [u8; 68] = [0;68];
        bytes[0] = self.length;
        copy_into(&mut bytes, 1, self.protocol.as_slice(), 0, 19);
        copy_into(&mut bytes, 20, self.reserved.as_slice(), 0, 8);
        copy_into(&mut bytes, 28, self.info_hash.as_slice(), 0, 20);
        copy_into(&mut bytes, 48, self.peer_id.as_slice(), 0, 20);
        assert(bytes@ =~= self.wire());
        bytes
    }
}

/// Whether two slices hold the same bytes.
fn same_bytes(a: &[u8], b: &[u8]) -> (same: bool)
    ensures
        same == (a@ == b@),
{
    if a.len() != b.len() {
        return false;
    }
    let count = a.len();
    let mut i: usize = 0;
    while i < count
        invariant
            i <= count,
            count == a@.len(),
            count == b@.len(),
            a@.take(i as int) == b@.take(i as int),
        decreases count - i,
    {
        if a[i] != b[i] {
            return false;
        }
        i += 1;
        assert(a@.take(i as int) =~= a@.take(i - 1).push(a@[i - 1]));
        assert(b@.take(i as int) =~= b@.take(i - 1).push(b@[i - 1]));
    }
    assert(a@ =~= a@.take(count as int));
    assert(b@ =~= b@.take(count as int));
    true
}

/// Copies 20 bytes of a slice, from `from` on, into an array.
fn take_20(src: &[u8], from: usize) -> (bytes: [u8; 20])
    requires
        from + 20 <= src@.len(),
    ensures
        bytes@ == src@.subrange(from as int, from + 20),
{
    let available = src.len();
    let mut bytes: [u8; 20] = [0;20];
    let mut i: usize = 0;
    while i < 20
        invariant
            i <= 20,
            available == src@.len(),
            from + 20 <= available,
            forall|j: int| 0 <= j < i ==> bytes@[j] == src@[from + j],
        decreases 20 - i,
    {
        bytes[i] = src[from + i];
        i += 1;
    }
    assert(bytes@ =~= src@.subrange(from as int, from + 20));
    bytes
}

/// What a handshake record that a peer sent amounts to, held against the
/// info hash of the local torrent: the identifier of the peer, or the
/// reason why the record is not accepted. The length is looked at first,
/// then the protocol name (bytes 1 to 19), then the info hash (bytes 28 to
/// 47); the identifier is the last 20 bytes.
pub open spec fn handshake_reply(reply: Seq<u8>, info_hash: Seq<u8>) -> Result<
    Seq<u8>,
    HandshakeError,
> {
    if reply.len() != 68 {
        Err(HandshakeError::WrongLength { length: reply.len() as usize })
    } else if reply.subrange(1, 20) != PROTOCOL_NAME@ {
        Err(HandshakeError::ProtocolMismatch)
    } else if reply.subrange(28, 48) != info_hash {
        Err(HandshakeError::InfoHashMismatch)
    } else {
        Ok(reply.subrange(48, 68))
    }
}

/// Holds a handshake record that a peer sent against the info hash of the
/// local torrent and, if it is accepted, returns the identifier of the peer.
pub fn check_handshake(reply: &[u8], info_hash: &[u8; 20]) -> (peer_id: Result<
    [u8; 20],
    HandshakeError,
>)
    ensures
        match peer_id {
            Ok(id) => handshake_reply(reply@, info_hash@) == Ok::<Seq<u8>, HandshakeError>(id@),
            Err(e) => handshake_reply(reply@, info_hash@) == Err::<Seq<u8>, HandshakeError>(e),
        },
{
    let length = reply.len();
    if length != HANDSHAKE_LENGTH {
        return Err(HandshakeError::WrongLength { length });
    }
    if !same_bytes(slice_subrange(reply, 1, 20), PROTOCOL_NAME.as_slice()) {
        return Err(HandshakeError::ProtocolMismatch);
    }
    if !same_bytes(slice_subrange(reply, 28, 48), info_hash.as_slice()) {
        return Err(HandshakeError::InfoHashMismatch);
    }
    Ok(take_20(reply, 48))
}

/// A handshake that the other side answers with the same info hash is
/// accepted, and the identifier captured is the one the other side sent.
pub proof fn lemma_own_handshake_accepted(record: HandShakeMessage, info_hash: Seq<u8>)
    requires
        record.protocol@ == PROTOCOL_NAME@,
        record.info_hash@ == info_hash,
    ensures
        handshake_reply(record.wire(), info_hash) == Ok::<Seq<u8>, HandshakeError>(
            record.peer_id@,
        ),
{
    let wire = record.wire();
    assert(wire.len() == 68);
    assert(wire.subrange(1, 20) =~= record.protocol@);
    assert(wire.subrange(28, 48) =~= record.info_hash@);
    assert(wire.subrange(48, 68) =~= record.peer_id@);
}

/// Where a peer can be reached: an IPv4 address and a port.
#[derive(Debug, Clone, Copy, PartialEq, Eq)]
pub struct PeerAddress {
    pub ip: [u8; 4],
    pub port: u16,
}

/// How far a connection to a peer has come.
#[derive(Debug, Clone, Copy, PartialEq, Eq, Structural)]
pub enum LinkState {
    /// The handshake of the peer has not arrived yet.
    AwaitingHandshake,
    /// The handshake is done; the first message, which tells what the peer
    /// has, has not arrived yet.
    AwaitingBitfield,
    /// Messages flow. `choked`: the peer refuses to serve us. `interested`:
    /// we told the peer that we want pieces. `peer_choked`: we refuse to
    /// serve the peer. `peer_interested`: the peer wants pieces of us.
    Established { choked: bool, interested: bool, peer_choked: bool, peer_interested: bool },
    /// The connection has ended.
    Closed,
}

/// Why a connection was ended, or a message was not let through.
#[derive(Debug, Clone, Copy, PartialEq, Eq, Structural)]
pub enum LinkError {
    /// The handshake of the peer was not accepted.
    Handshake { reason: HandshakeError },
    /// The connection is not in a state for this.
    NotReady,
    /// The first message after the handshake was not a bitfield.
    ExpectedBitfield { tag: MessageTag },
    /// A bitfield arrived that was not the first message.
    UnexpectedBitfield,
    /// The payload does not have the shape that the tag asks for.
    Malformed { tag: MessageTag },
    /// A request was to be sent to a peer that refuses to serve us.
    Choked,
}

/// What a message from the peer means to whoever runs the download.
#[derive(Debug, Clone, PartialEq, Eq)]
pub enum LinkEvent {
    /// Nothing to act on.
    Nothing,
    /// The peer told what it has.
    Inventory,
    /// The peer has one more piece.
    Have { piece: u32 },
    /// The peer refuses to serve us from now on.
    Choked,
    /// The peer serves us from now on.
    Unchoked,
    /// The peer wants pieces of us.
    PeerInterested,
    /// The peer wants nothing of us.
    PeerNotInterested,
    /// The peer sent a block.
    Block { piece: u32, begin: u32, block: Vec<u8> },
    /// The peer asks for a block.
    Requested { piece: u32, begin: u32, length: u32 },
    /// The peer withdraws a request.
    Cancelled { piece: u32, begin: u32, length: u32 },
}

/// An event as a mathematical value.
pub enum LinkEventView {
    Nothing,
    Inventory,
    Have { piece: u32 },
    Choked,
    Unchoked,
    PeerInterested,
    PeerNotInterested,
    Block { piece: u32, begin: u32, block: Seq<u8> },
    Requested { piece: u32, begin: u32, length: u32 },
    Cancelled { piece: u32, begin: u32, length: u32 },
}

impl View for LinkEvent {
    type V = LinkEventView;

    open spec fn view(&self) -> LinkEventView {
        match self {
            LinkEvent::Nothing => LinkEventView::Nothing,
            LinkEvent::Inventory => LinkEventView::Inventory,
            LinkEvent::Have { piece } => LinkEventView::Have { piece: *piece },
            LinkEvent::Choked => LinkEventView::Choked,
            LinkEvent::Unchoked => LinkEventView::Unchoked,
            LinkEvent::PeerInterested => LinkEventView::PeerInterested,
            LinkEvent::PeerNotInterested => LinkEventView::PeerNotInterested,
            LinkEvent::Block { piece, begin, block } => LinkEventView::Block {
                piece: *piece,
                begin: *begin,
                block: block@,
            },
            LinkEvent::Requested { piece, begin, length } => LinkEventView::Requested {
                piece: *piece,
                begin: *begin,
                length: *length,
            },
            LinkEvent::Cancelled { piece, begin, length } => LinkEventView::Cancelled {
                piece: *piece,
                begin: *begin,
                length: *length,
            },
        }
    }
}

/// Represents a peer connection in the BitTorrent network.
///
/// It holds what is known of the peer: where it is, its identifier once the
/// handshake is done, the pieces it has, and how far the connection has come.
/// The bytes themselves are moved by whoever owns the socket and handed to
/// this type message by message.
pub struct Peer {
    address: PeerAddress,
    info_hash: [u8; 20],
    n_pieces: usize,
    peer_id: [u8; 20],
    bitfield: BitField,
    state: LinkState,
}

/// A peer connection as a mathematical value.
pub struct PeerView {
    /// The info hash of the local torrent.
    pub info_hash: Seq<u8>,
    /// The number of pieces of the torrent.
    pub n_pieces: nat,
    /// The identifier the peer gave in its handshake.
    pub peer_id: Seq<u8>,
    /// The bitfield of the peer, as payload bytes.
    pub bits: Seq<u8>,
    /// How far the connection has come.
    pub state: LinkState,
}

/// The state of a connection right after the first message: both sides
/// choke, neither side is interested.
pub open spec fn established() -> LinkState {
    LinkState::Established {
        choked: true,
        interested: false,
        peer_choked: true,
        peer_interested: false,
    }
}

impl PeerView {
    /// Whether the peer has the piece `index` of the torrent. Bits at or
    /// beyond the number of pieces do not count.
    pub open spec fn has_piece(self, index: int) -> bool {
        index < self.n_pieces && payload_has_piece(self.bits, index)
    }

    /// The connection ended.
    pub open spec fn closed(self) -> PeerView {
        PeerView { state: LinkState::Closed, ..self }
    }

    /// The connection in another state.
    pub open spec fn in_state(self, state: LinkState) -> PeerView {
        PeerView { state, ..self }
    }

    /// The connection after the handshake record `reply` arrived.
    pub open spec fn after_handshake(self, reply: Seq<u8>) -> PeerView {
        if self.state is AwaitingHandshake {
            match handshake_reply(reply, self.info_hash) {
                Ok(id) => PeerView { peer_id: id, state: LinkState::AwaitingBitfield, ..self },
                Err(_) => self.closed(),
            }
        } else {
            self.closed()
        }
    }

    /// What the arrival of the handshake record `reply` is answered with.
    pub open spec fn handshake_outcome(self, reply: Seq<u8>) -> Result<(), LinkError> {
        if self.state is AwaitingHandshake {
            match handshake_reply(reply, self.info_hash) {
                Ok(_) => Ok(()),
                Err(reason) => Err(LinkError::Handshake { reason }),
            }
        } else {
            Err(LinkError::NotReady)
        }
    }

    /// What the message `m` from the peer means, or why it ends the
    /// connection.
    ///
    /// Before the handshake and after the end nothing is accepted. The first
    /// message after the handshake has to be a bitfield. After that a
    /// bitfield is an error, as is any payload that does not suit its tag.
    pub open spec fn outcome(self, m: MessageView) -> Result<LinkEventView, LinkError> {
        match self.state {
            LinkState::AwaitingHandshake | LinkState::Closed => Err(LinkError::NotReady),
            LinkState::AwaitingBitfield => if m.tag is Bitfield {
                Ok(LinkEventView::Inventory)
            } else {
                Err(LinkError::ExpectedBitfield { tag: m.tag })
            },
            LinkState::Established { .. } => match wire_of(m) {
                None => Err(LinkError::Malformed { tag: m.tag }),
                Some(WireMessageView::Bitfield { .. }) => Err(LinkError::UnexpectedBitfield),
                Some(WireMessageView::Choke) => Ok(LinkEventView::Choked),
                Some(WireMessageView::Unchoke) => Ok(LinkEventView::Unchoked),
                Some(WireMessageView::Interested) => Ok(LinkEventView::PeerInterested),
                Some(WireMessageView::NotInterested) => Ok(LinkEventView::PeerNotInterested),
                Some(WireMessageView::Have { piece_index }) => if piece_index < self.n_pieces {
                    Ok(LinkEventView::Have { piece: piece_index })
                } else {
                    Ok(LinkEventView::Nothing)
                },
                Some(WireMessageView::Piece { piece_index, begin, block }) => Ok(
                    LinkEventView::Block { piece: piece_index, begin, block },
                ),
                Some(WireMessageView::Request { piece_index, begin, length }) => Ok(
                    LinkEventView::Requested { piece: piece_index, begin, length },
                ),
                Some(WireMessageView::Cancel { piece_index, begin, length }) => Ok(
                    LinkEventView::Cancelled { piece: piece_index, begin, length },
                ),
            },
        }
    }

    /// The connection after the message `m` from the peer.
    ///
    /// An error ends the connection. The first bitfield is stored as it
    /// came. A `Have` for a piece of the torrent sets the bit of that piece;
    /// one for an index beyond the torrent changes nothing. `Choke` and
    /// `Unchoke`, `Interested` and `NotInterested` set their flag.
    pub open spec fn after_message(self, m: MessageView) -> PeerView {
        match self.outcome(m) {
            Err(_) => self.closed(),
            Ok(event) => match (self.state, event) {
                (_, LinkEventView::Inventory) => PeerView {
                    bits: m.payload,
                    state: established(),
                    ..self
                },
                (_, LinkEventView::Have { piece }) => PeerView {
                    bits: payload_with_piece(self.bits, piece as int),
                    ..self
                },
                (
                    LinkState::Established { choked, interested, peer_choked, peer_interested },
                    LinkEventView::Choked,
                ) => self.in_state(
                    LinkState::Established {
                        choked: true,
                        interested,
                        peer_choked,
                        peer_interested,
                    },
                ),
                (
                    LinkState::Established { choked, interested, peer_choked, peer_interested },
                    LinkEventView::Unchoked,
                ) => self.in_state(
                    LinkState::Established {
                        choked: false,
                        interested,
                        peer_choked,
                        peer_interested,
                    },
                ),
                (
                    LinkState::Established { choked, interested, peer_choked, peer_interested },
                    LinkEventView::PeerInterested,
                ) => self.in_state(
                    LinkState::Established {
                        choked,
                        interested,
                        peer_choked,
                        peer_interested: true,
                    },
                ),
                (
                    LinkState::Established { choked, interested, peer_choked, peer_interested },
                    LinkEventView::PeerNotInterested,
                ) => self.in_state(
                    LinkState::Established {
                        choked,
                        interested,
                        peer_choked,
                        peer_interested: false,
                    },
                ),
                _ => self,
            },
        }
    }

    /// Whether the message `w` may be sent to the peer now.
    ///
    /// Nothing is sent before the connection is established, and no request
    /// goes to a peer that refuses to serve us.
    pub open spec fn may_send(self, w: WireMessageView) -> Result<(), LinkError> {
        match self.state {
            LinkState::Established { choked, .. } => if w is Request && choked {
                Err(LinkError::Choked)
            } else {
                Ok(())
            },
            _ => Err(LinkError::NotReady),
        }
    }

    /// The connection after the message `w` was handed over for sending.
    /// Our own `Interested`, `NotInterested`, `Choke` and `Unchoke` set their
    /// flag; a message that may not be sent changes nothing.
    pub open spec fn after_sending(self, w: WireMessageView) -> PeerView {
        match (self.may_send(w), self.state) {
            (
                Ok(_),
                LinkState::Established { choked, interested, peer_choked, peer_interested },
            ) => match w {
                WireMessageView::Interested => self.in_state(
                    LinkState::Established {
                        choked,
                        interested: true,
                        peer_choked,
                        peer_interested,
                    },
                ),
                WireMessageView::NotInterested => self.in_state(
                    LinkState::Established {
                        choked,
                        interested: false,
                        peer_choked,
                        peer_interested,
                    },
                ),
                WireMessageView::Choke => self.in_state(
                    LinkState::Established {
                        choked,
                        interested,
                        peer_choked: true,
                        peer_interested,
                    },
                ),
                WireMessageView::Unchoke => self.in_state(
                    LinkState::Established {
                        choked,
                        interested,
                        peer_choked: false,
                        peer_interested,
                    },
                ),
                _ => self,
            },
            _ => self,
        }
    }
}

impl View for Peer {
    type V = PeerView;

    closed spec fn view(&self) -> PeerView {
        PeerView {
            info_hash: self.info_hash@,
            n_pieces: self.n_pieces as nat,
            peer_id: self.peer_id@,
            bits: self.bitfield.payload@,
            state: self.state,
        }
    }
}

impl Peer {
    /// Where the peer can be reached.
    pub closed spec fn location(&self) -> PeerAddress {
        self.address
    }

    /// Where the peer can be reached.
    pub fn address(&self) -> (address: PeerAddress)
        ensures
            address == self.location(),
    {
        self.address
    }

    /// The identifier that the peer gave in its handshake; twenty zero
    /// bytes before that.
    pub fn peer_id(&self) -> (id: &[u8; 20])
        ensures
            id@ == self@.peer_id,
    {
        &self.peer_id
    }

    /// How far the connection has come.
    pub fn state(&self) -> (state: LinkState)
        ensures
            state == self@.state,
    {
        self.state
    }

    /// The pieces that the peer said it has, as it said it: bits beyond the
    /// torrent are still in it.
    pub fn bitfield(&self) -> (bitfield: &BitField)
        ensures
            bitfield.payload@ == self@.bits,
    {
        &self.bitfield
    }

    /// What to tell the peer about our interest, given whether we want
    /// something of it: `Interested` once we do and have not said so,
    /// `NotInterested` once we do not and have said that we do, nothing
    /// while what we said still holds or the connection is not established.
    pub fn interest_update(&self, wanted: bool) -> (message: Option<WireMessage>)
        ensures
            message matches Some(m) ==> self@.may_send(m@) is Ok,
            match self@.state {
                LinkState::Established { interested, .. } => if wanted == interested {
                    message is None
                } else if wanted {
                    message matches Some(m) && m@ is Interested
                } else {
                    message matches Some(m) && m@ is NotInterested
                },
                _ => message is None,
            },
    {
        match self.state {
            LinkState::Established { interested, .. } => {
                if wanted == interested {
                    None
                } else if wanted {
                    Some(WireMessage::Interested)
                } else {
                    Some(WireMessage::NotInterested)
                }
            },
            _ => None,
        }
    }

    /// Whether the peer has the piece `piece_i` of the torrent.
    pub fn has_piece(&self, piece_i: usize) -> (present: bool)
        ensures
            present == self@.has_piece(piece_i as int),
    {
        piece_i < self.n_pieces && self.bitfield.contains_piece(piece_i)
    }

    /// Takes in the handshake record that the peer sent.
    ///
    /// # Errors
    ///
    /// A record that is not accepted, and a record that arrives at any time
    /// but first, end the connection.
    pub fn receive_handshake(&mut self, reply: &[u8]) -> (done: Result<(), LinkError>)
        ensures
            final(self)@ == old(self)@.after_handshake(reply@),
            done == old(self)@.handshake_outcome(reply@),
            final(self).location() == old(self).location(),
    {
        match self.state {
            LinkState::AwaitingHandshake => match check_handshake(reply, &self.info_hash) {
                Ok(id) => {
                    self.peer_id = id;
                    self.state = LinkState::AwaitingBitfield;
                    Ok(())
                },
                Err(reason) => {
                    self.state = LinkState::Closed;
                    Err(LinkError::Handshake { reason })
                },
            },
            _ => {
                self.state = LinkState::Closed;
                Err(LinkError::NotReady)
            },
        }
    }

    /// Goes on without the bitfield of a peer that sent none: the peer is
    /// taken to have no pieces. In any state but `AwaitingBitfield` nothing
    /// changes and `false` is returned.
    pub fn assume_no_pieces(&mut self) -> (done: bool)
        ensures
            done == (old(self)@.state is AwaitingBitfield),
            final(self)@ == if done {
                PeerView { bits: Seq::<u8>::empty(), state: established(), ..old(self)@ }
            } else {
                old(self)@
            },
            final(self).location() == old(self).location(),
    {
        match self.state {
            LinkState::AwaitingBitfield => {
                self.bitfield = BitField::from_payload(Vec::new());
                self.state = LinkState::Established {
                    choked: true,
                    interested: false,
                    peer_choked: true,
                    peer_interested: false,
                };
                true
            },
            _ => false,
        }
    }

    /// Takes in a message that the peer sent and says what it means.
    ///
    /// # Errors
    ///
    /// Every error ends the connection: a message before the handshake or
    /// after the end, a first message that is no bitfield, a later bitfield,
    /// a payload that does not suit its tag.
    pub fn receive(&mut self, message: &Message) -> (event: Result<LinkEvent, LinkError>)
        ensures
            final(self)@ == old(self)@.after_message(message@),
            match event {
                Ok(e) => old(self)@.outcome(message@) == Ok::<LinkEventView, LinkError>(e@),
                Err(e) => old(self)@.outcome(message@) == Err::<LinkEventView, LinkError>(e),
            },
            final(self).location() == old(self).location(),
    {
        match self.state {
            LinkState::AwaitingHandshake | LinkState::Closed => {
                self.state = LinkState::Closed;
                Err(LinkError::NotReady)
            },
            LinkState::AwaitingBitfield => match message.tag() {
                MessageTag::Bitfield => {
                    self.bitfield = BitField::from_payload(slice_to_vec(message.payload()));
                    self.state = LinkState::Established {
                        choked: true,
                        interested: false,
                        peer_choked: true,
                        peer_interested: false,
                    };
                    Ok(LinkEvent::Inventory)
                },
                tag => {
                    self.state = LinkState::Closed;
                    Err(LinkError::ExpectedBitfield { tag: *tag })
                },
            },
            LinkState::Established { choked, interested, peer_choked, peer_interested } => {
                match WireMessage::from_message(message) {
                    None => {
                        self.state = LinkState::Closed;
                        Err(LinkError::Malformed { tag: *message.tag() })
                    },
                    Some(WireMessage::Bitfield { .. }) => {
                        self.state = LinkState::Closed;
                        Err(LinkError::UnexpectedBitfield)
                    },
                    Some(WireMessage::Choke) => {
                        self.state = LinkState::Established {
                            choked: true,
                            interested,
                            peer_choked,
                            peer_interested,
                        };
                        Ok(LinkEvent::Choked)
                    },
                    Some(WireMessage::Unchoke) => {
                        self.state = LinkState::Established {
                            choked: false,
                            interested,
                            peer_choked,
                            peer_interested,
                        };
                        Ok(LinkEvent::Unchoked)
                    },
                    Some(WireMessage::Interested) => {
                        self.state = LinkState::Established {
                            choked,
                            interested,
                            peer_choked,
                            peer_interested: true,
                        };
                        Ok(LinkEvent::PeerInterested)
                    },
                    Some(WireMessage::NotInterested) => {
                        self.state = LinkState::Established {
                            choked,
                            interested,
                            peer_choked,
                            peer_interested: false,
                        };
                        Ok(LinkEvent::PeerNotInterested)
                    },
                    Some(WireMessage::Have { piece_index }) => {
                        if (piece_index as usize) < self.n_pieces {
                            self.bitfield.add_piece(piece_index as usize);
                            Ok(LinkEvent::Have { piece: piece_index })
                        } else {
                            Ok(LinkEvent::Nothing)
                        }
                    },
                    Some(WireMessage::Piece { piece_index, begin, block }) => Ok(
                        LinkEvent::Block { piece: piece_index, begin, block },
                    ),
                    Some(WireMessage::Request { piece_index, begin, length }) => Ok(
                        LinkEvent::Requested { piece: piece_index, begin, length },
                    ),
                    Some(WireMessage::Cancel { piece_index, begin, length }) => Ok(
                        LinkEvent::Cancelled { piece: piece_index, begin, length },
                    ),
                }
            },
        }
    }

    /// Asks whether a message may go out to the peer, and keeps track of
    /// what we told the peer about choking and interest.
    ///
    /// # Errors
    ///
    /// `NotReady` unless the connection is established; `Choked` for a
    /// request while the peer refuses to serve us. Nothing changes then.
    pub fn send(&mut self, message: &WireMessage) -> (done: Result<(), LinkError>)
        ensures
            done == old(self)@.may_send(message@),
            final(self)@ == old(self)@.after_sending(message@),
            final(self).location() == old(self).location(),
    {
        match self.state {
            LinkState::Established { choked, interested, peer_choked, peer_interested } => {
                match message {
                    WireMessage::Request { .. } => {
                        if choked {
                            return Err(LinkError::Choked);
                        }
                    },
                    WireMessage::Interested => {
                        self.state = LinkState::Established {
                            choked,
                            interested: true,
                            peer_choked,
                            peer_interested,
                        };
                    },
                    WireMessage::NotInterested => {
                        self.state = LinkState::Established {
                            choked,
                            interested: false,
                            peer_choked,
                            peer_interested,
                        };
                    },
                    WireMessage::Choke => {
                        self.state = LinkState::Established {
                            choked,
                            interested,
                            peer_choked: true,
                            peer_interested,
                        };
                    },
                    WireMessage::Unchoke => {
                        self.state = LinkState::Established {
                            choked,
                            interested,
                            peer_choked: false,
                            peer_interested,
                        };
                    },
                    _ => {},
                }
                Ok(())
            },
            _ => Err(LinkError::NotReady),
        }
    }
}

/// A builder for the `Peer` struct.
pub struct PeerConnectionBuilder {
    address: PeerAddress,
    info_hash: [u8; 20],
    peer_id: [u8; 20],
    n_pieces: usize,
}

impl PeerConnectionBuilder {
    /// Creates a new `PeerConnectionBuilder` for the peer at `address`, the
    /// torrent with this info hash and number of pieces, and our own
    /// identifier.
    pub fn new(address: PeerAddress, info_hash: [u8; 20], peer_id: [u8; 20], n_pieces: usize) -> (builder:
        Self)
        ensures
            builder.handshake_record() == handshake_bytes(
                19,
                PROTOCOL_NAME@,
                Seq::new(8, |i: int| 0u8),
                info_hash@,
                peer_id@,
            ),
            builder.fresh_peer() == (PeerView {
                info_hash: info_hash@,
                n_pieces: n_pieces as nat,
                peer_id: Seq::new(20, |i: int| 0u8),
                bits: Seq::<u8>::empty(),
                state: LinkState::AwaitingHandshake,
            }),
            builder.location() == address,
    {
        Self { address, info_hash, peer_id, n_pieces }
    }

    /// The bytes of our own handshake record.
    pub closed spec fn handshake_record(&self) -> Seq<u8> {
        handshake_bytes(
            19,
            PROTOCOL_NAME@,
            Seq::new(8, |i: int| 0u8),
            self.info_hash@,
            self.peer_id@,
        )
    }

    /// The connection before anything has arrived.
    pub closed spec fn fresh_peer(&self) -> PeerView {
        PeerView {
            info_hash: self.info_hash@,
            n_pieces: self.n_pieces as nat,
            peer_id: Seq::new(20, |i: int| 0u8),
            bits: Seq::<u8>::empty(),
            state: LinkState::AwaitingHandshake,
        }
    }

    /// Where the peer can be reached.
    pub closed spec fn location(&self) -> PeerAddress {
        self.address
    }

    /// Where to connect to.
    pub fn address(&self) -> (address: PeerAddress)
        ensures
            address == self.location(),
    {
        self.address
    }

    /// The handshake record to send to the peer first.
    pub fn handshake(&self) -> (bytes: [u8; 68])
        ensures
            bytes@ == self.handshake_record(),
    {
        HandShakeMessage::new(self.info_hash, self.peer_id).to_bytes()
    }

    /// Holds the handshake record that the peer sent against the info hash
    /// of the torrent and, if it is accepted, returns the identifier of the
    /// peer.
    pub fn check_reply(&self, reply: &[u8]) -> (peer_id: Result<[u8; 20], HandshakeError>)
        ensures
            match peer_id {
                Ok(id) => self.fresh_peer().handshake_outcome(reply@) is Ok
                    && self.fresh_peer().after_handshake(reply@).peer_id == id@,
                Err(reason) => self.fresh_peer().handshake_outcome(reply@) == Err::<(), LinkError>(
                    LinkError::Handshake { reason },
                ),
            },
    {
        check_handshake(reply, &self.info_hash)
    }

    /// Creates a new peer connection, in the state `AwaitingHandshake`: the
    /// handshake record is to be sent, and the record of the peer and then
    /// its messages are to be handed to the connection as they arrive.
    pub fn start(&self) -> (peer: Peer)
        ensures
            peer@ == self.fresh_peer(),
            peer.location() == self.location(),
    {
        let peer = Peer {
            address: self.address,
            info_hash: self.info_hash,
            n_pieces: self.n_pieces,
            peer_id: [0;20],
            bitfield: BitField::from_payload(Vec::new()),
            state: LinkState::AwaitingHandshake,
        };
        assert(peer.peer_id@ =~= Seq::new(20, |i: int| 0u8));
        peer
    }

    /// Creates a new peer connection from what the peer sent first: its
    /// handshake record `reply` and, if any arrived, its first message.
    ///
    /// If the handshake is accepted and the first message is a bitfield, the
    /// connection is established and knows the pieces that the peer has. A
    /// peer that sent no message at all is taken to have no pieces.
    ///
    /// # Errors
    ///
    /// The handshake of the peer is not accepted, or its first message is
    /// not a bitfield.
    pub fn build(&self, reply: &[u8], first: Option<&Message>) -> (peer: Result<Peer, LinkError>)
        ensures
            match peer {
                Ok(p) => built(
                    self.fresh_peer(),
                    reply@,
                    match first {
                        Some(m) => Some(m@),
                        None => None,
                    },
                ) == Ok::<PeerView, LinkError>(p@) && p.location() == self.location(),
                Err(e) => built(
                    self.fresh_peer(),
                    reply@,
                    match first {
                        Some(m) => Some(m@),
                        None => None,
                    },
                ) == Err::<PeerView, LinkError>(e),
            },
    {
        let mut peer = self.start();
        match peer.receive_handshake(reply) {
            Ok(()) => {},
            Err(e) => {
                return Err(e);
            },
        }
        match first {
            Some(message) => match peer.receive(message) {
                Ok(_) => {},
                Err(e) => {
                    return Err(e);
                },
            },
            None => {
                peer.assume_no_pieces();
            },
        }
        Ok(peer)
    }
}

/// The connection that comes of a fresh one when the peer sent the
/// handshake record `reply` and then the message `first`, or no message:
/// established, with the identifier of the peer and its pieces, or the
/// reason why there is no connection.
pub open spec fn built(fresh: PeerView, reply: Seq<u8>, first: Option<MessageView>) -> Result<
    PeerView,
    LinkError,
> {
    match fresh.handshake_outcome(reply) {
        Err(e) => Err(e),
        Ok(_) => {
            let greeted = fresh.after_handshake(reply);
            match first {
                None => Ok(
                    PeerView { bits: Seq::<u8>::empty(), state: established(), ..greeted },
                ),
                Some(m) => match greeted.outcome(m) {
                    Err(e) => Err(e),
                    Ok(_) => Ok(greeted.after_message(m)),
                },
            }
        },
    }
}

} // verus!
