//! The engine that decides which block to ask of which peer.
//!
//! It keeps, for one torrent, who holds which piece, which blocks have
//! arrived and which requests are under way, and it is told of what happens
//! on the connections: a peer joins, announces a piece, chokes, sends a
//! block, goes away. It answers with what to do next. It never touches a
//! connection itself.

use vstd::prelude::*;
use crate::digest::{digest_matches, verify_digest};
use crate::net::bitfield::BitField;
use crate::net::wire::{WireMessage, WireMessageView};
use crate::piece::{comes_before, lemma_with_peer, lemma_without_peer, PieceView};
use crate::progress::{block_length, bytes_of, PieceProgress, ProgressView};
use crate::rarity::{fresh_piece, index_wf, PieceRarityIndex};
use crate::torrent::{piece_size, Torrent};

verus! {

/// The number of bytes of a block, by convention.
pub const BLOCK_SIZE: usize = 16384;

/// What a download is run with.
#[derive(Debug, Clone, Copy, PartialEq, Eq, Structural)]
pub struct Settings {
    /// The number of bytes of each block but the last of a piece.
    pub block_size: usize,
    /// How many requests may be under way with one peer at a time.
    pub pipeline_depth: usize,
    /// How many bad pieces a peer may have had a part in before it is no
    /// longer asked while another holder is there.
    pub failure_limit: usize,
    /// How many requests in a row a peer may leave unanswered before it is
    /// to be disconnected.
    pub timeout_limit: usize,
}

impl Settings {
    /// Settings with blocks of the conventional size.
    pub fn new(pipeline_depth: usize, failure_limit: usize, timeout_limit: usize) -> (settings:
        Self)
        ensures
            settings == (Settings {
                block_size: BLOCK_SIZE,
                pipeline_depth,
                failure_limit,
                timeout_limit,
            }),
    {
        Settings { block_size: BLOCK_SIZE, pipeline_depth, failure_limit, timeout_limit }
    }
}

/// A request that is under way: which block of which piece was asked of
/// which peer, and when.
#[derive(Debug, Clone, Copy, PartialEq, Eq, Structural)]
pub struct InFlight {
    pub piece: usize,
    pub block: usize,
    pub peer: usize,
    pub issued_at: u64,
}

/// What is known of a peer.
#[derive(Debug, Clone, Copy, PartialEq, Eq, Structural)]
pub struct PeerStatus {
    /// Whether the connection to the peer stands.
    pub connected: bool,
    /// Whether the peer refuses to serve us.
    pub choking: bool,
    /// The number of bad pieces the peer had a part in.
    pub failures: usize,
    /// The number of requests that the peer left unanswered since it last
    /// sent a block.
    pub timeouts: usize,
}

/// A request to send, or to withdraw: `length` bytes of `piece` from offset
/// `begin` on, of `peer`.
#[derive(Debug, Clone, Copy, PartialEq, Eq, Structural)]
pub struct BlockRequest {
    pub peer: usize,
    pub piece: usize,
    pub begin: usize,
    pub length: usize,
}

impl BlockRequest {
    /// Whether the three numbers of the request fit the four bytes that
    /// each of them has on the wire.
    pub open spec fn fits_wire(self) -> bool {
        self.piece <= u32::MAX && self.begin <= u32::MAX && self.length <= u32::MAX
    }

    /// The message that makes this request, unless a number of the request
    /// does not fit the wire.
    pub fn request_message(&self) -> (message: Option<WireMessage>)
        ensures
            message is Some <==> self.fits_wire(),
            message matches Some(m) ==> m@ == (WireMessageView::Request {
                piece_index: self.piece as u32,
                begin: self.begin as u32,
                length: self.length as u32,
            }),
    {
        if self.piece <= u32::MAX as usize && self.begin <= u32::MAX as usize && self.length
            <= u32::MAX as usize {
            Some(
                WireMessage::Request {
                    piece_index: self.piece as u32,
                    begin: self.begin as u32,
                    length: self.length as u32,
                },
            )
        } else {
            None
        }
    }

    /// The message that withdraws this request, unless a number of the
    /// request does not fit the wire.
    pub fn cancel_message(&self) -> (message: Option<WireMessage>)
        ensures
            message is Some <==> self.fits_wire(),
            message matches Some(m) ==> m@ == (WireMessageView::Cancel {
                piece_index: self.piece as u32,
                begin: self.begin as u32,
                length: self.length as u32,
            }),
    {
        if self.piece <= u32::MAX as usize && self.begin <= u32::MAX as usize && self.length
            <= u32::MAX as usize {
            Some(
                WireMessage::Cancel {
                    piece_index: self.piece as u32,
                    begin: self.begin as u32,
                    length: self.length as u32,
                },
            )
        } else {
            None
        }
    }
}

/// The message that announces the piece `piece`, unless its index does not
/// fit the wire.
pub fn have_message(piece: usize) -> (message: Option<WireMessage>)
    ensures
        message is Some <==> piece <= u32::MAX,
        message matches Some(m) ==> m@ == (WireMessageView::Have { piece_index: piece as u32 }),
{
    if piece <= u32::MAX as usize {
        Some(WireMessage::Have { piece_index: piece as u32 })
    } else {
        None
    }
}

/// A pattern for requests under way: each field that is given has to be
/// met.
#[derive(Debug, Clone, Copy, PartialEq, Eq, Structural)]
pub struct Probe {
    /// The piece that is asked for.
    pub piece: Option<usize>,
    /// The block that is asked for.
    pub block: Option<usize>,
    /// The peer that is asked.
    pub peer: Option<usize>,
    /// A time that the request was made before.
    pub before: Option<u64>,
}

impl Probe {
    /// Whether a request meets the pattern.
    pub open spec fn matches(self, e: InFlight) -> bool {
        &&& self.piece matches Some(piece) ==> e.piece == piece
        &&& self.block matches Some(block) ==> e.block == block
        &&& self.peer matches Some(peer) ==> e.peer == peer
        &&& self.before matches Some(time) ==> e.issued_at < time
    }

    /// Whether a request meets the pattern.
    pub fn is_met_by(&self, e: &InFlight) -> (met: bool)
        ensures
            met == self.matches(*e),
    {
        let piece_met = match self.piece {
            Some(piece) => e.piece == piece,
            None => true,
        };
        let block_met = match self.block {
            Some(block) => e.block == block,
            None => true,
        };
        let peer_met = match self.peer {
            Some(peer) => e.peer == peer,
            None => true,
        };
        let time_met = match self.before {
            Some(time) => e.issued_at < time,
            None => true,
        };
        piece_met && block_met && peer_met && time_met
    }
}

/// The pattern of all requests made of `peer`.
pub open spec fn of_peer(peer: usize) -> Probe {
    Probe { piece: None, block: None, peer: Some(peer), before: None }
}

/// The pattern of all requests for blocks of `piece`.
pub open spec fn of_piece(piece: usize) -> Probe {
    Probe { piece: Some(piece), block: None, peer: None, before: None }
}

/// The pattern of all requests for one block.
pub open spec fn of_block(piece: usize, block: usize) -> Probe {
    Probe { piece: Some(piece), block: Some(block), peer: None, before: None }
}

/// The pattern of all requests made of `peer` before the time `cutoff`.
pub open spec fn overdue_of(peer: usize, cutoff: u64) -> Probe {
    Probe { piece: None, block: None, peer: Some(peer), before: Some(cutoff) }
}

/// The pattern of all requests made before the time `cutoff`.
pub open spec fn overdue(cutoff: u64) -> Probe {
    Probe { piece: None, block: None, peer: None, before: Some(cutoff) }
}

/// The pattern of the request for one block made of one peer.
pub open spec fn of_request(piece: usize, block: usize, peer: usize) -> Probe {
    Probe { piece: Some(piece), block: Some(block), peer: Some(peer), before: None }
}

/// The number of requests in a table that meet a pattern.
pub open spec fn count(table: Seq<InFlight>, probe: Probe) -> nat
    decreases table.len(),
{
    if table.len() == 0 {
        0
    } else {
        count(table.drop_last(), probe) + if probe.matches(table.last()) {
            1nat
        } else {
            0nat
        }
    }
}

/// The requests of a table that meet a pattern, in the order of the table.
pub open spec fn only(table: Seq<InFlight>, probe: Probe) -> Seq<InFlight>
    decreases table.len(),
{
    if table.len() == 0 {
        Seq::empty()
    } else if probe.matches(table.last()) {
        only(table.drop_last(), probe).push(table.last())
    } else {
        only(table.drop_last(), probe)
    }
}

/// The requests of a table that do not meet a pattern, in the order of the
/// table.
pub open spec fn without(table: Seq<InFlight>, probe: Probe) -> Seq<InFlight>
    decreases table.len(),
{
    if table.len() == 0 {
        Seq::empty()
    } else if probe.matches(table.last()) {
        without(table.drop_last(), probe)
    } else {
        without(table.drop_last(), probe).push(table.last())
    }
}

/// Whether two requests ask the same block of the same peer.
pub open spec fn same_request(a: InFlight, b: InFlight) -> bool {
    a.piece == b.piece && a.block == b.block && a.peer == b.peer
}

/// Whether no block is asked twice of the same peer.
pub open spec fn distinct(table: Seq<InFlight>) -> bool {
    forall|i: int, j: int|
        0 <= i < j < table.len() ==> !same_request(#[trigger] table[i], #[trigger] table[j])
}

/// A pattern is met by some request of a table exactly when the count is
/// not zero, and the count never exceeds the size of the table.
pub proof fn lemma_count(table: Seq<InFlight>, probe: Probe)
    ensures
        count(table, probe) <= table.len(),
        count(table, probe) > 0 <==> exists|i: int|
            0 <= i < table.len() && probe.matches(#[trigger] table[i]),
    decreases table.len(),
{
    if table.len() > 0 {
        let front = table.drop_last();
        lemma_count(front, probe);
        if count(front, probe) > 0 {
            let i = choose|i: int| 0 <= i < front.len() && probe.matches(#[trigger] front[i]);
            assert(probe.matches(table[i]));
        }
        if exists|i: int| 0 <= i < table.len() && probe.matches(#[trigger] table[i]) {
            let i = choose|i: int| 0 <= i < table.len() && probe.matches(#[trigger] table[i]);
            if i < front.len() {
                assert(probe.matches(front[i]));
            }
        }
    }
}

/// Splitting a table by a pattern loses nothing and adds nothing: the two
/// parts have the sizes that the count gives, each request of the table is
/// in exactly one part, and each part holds only requests of the table.
pub proof fn lemma_split(table: Seq<InFlight>, probe: Probe)
    ensures
        only(table, probe).len() == count(table, probe),
        without(table, probe).len() + count(table, probe) == table.len(),
        forall|e: InFlight|
            #[trigger] only(table, probe).contains(e) <==> table.contains(e) && probe.matches(e),
        forall|e: InFlight|
            #[trigger] without(table, probe).contains(e) <==> table.contains(e) && !probe.matches(
                e,
            ),
    decreases table.len(),
{
    if table.len() > 0 {
        let front = table.drop_last();
        let last = table.last();
        lemma_split(front, probe);
        assert forall|e: InFlight|
            #[trigger] only(table, probe).contains(e) <==> table.contains(e) && probe.matches(
                e,
            ) by {
            lemma_member_of_push(only(front, probe), last, e);
            lemma_member_of_push(front, last, e);
            assert(table =~= front.push(last));
        }
        assert forall|e: InFlight|
            #[trigger] without(table, probe).contains(e) <==> table.contains(e) && !probe.matches(
                e,
            ) by {
            lemma_member_of_push(without(front, probe), last, e);
            lemma_member_of_push(front, last, e);
            assert(table =~= front.push(last));
        }
    } else {
        assert forall|e: InFlight| !table.contains(e) by {}
    }
}

/// A sequence with one more entry holds that entry and those it held.
proof fn lemma_member_of_push(s: Seq<InFlight>, last: InFlight, e: InFlight)
    ensures
        s.push(last).contains(e) <==> s.contains(e) || e == last,
{
    let grown = s.push(last);
    if s.contains(e) {
        let i = choose|i: int| 0 <= i < s.len() && s[i] == e;
        assert(grown[i] == e);
    }
    if e == last {
        assert(grown[s.len() as int] == e);
    }
    if grown.contains(e) {
        let i = choose|i: int| 0 <= i < grown.len() && grown[i] == e;
        if i < s.len() {
            assert(s[i] == e);
        }
    }
}

/// Taking requests out of a table leaves no more requests that meet a
/// pattern than there were.
pub proof fn lemma_count_without(table: Seq<InFlight>, probe: Probe, other: Probe)
    ensures
        count(without(table, probe), other) <= count(table, other),
    decreases table.len(),
{
    if table.len() > 0 {
        lemma_count_without(table.drop_last(), probe, other);
        if !probe.matches(table.last()) {
            assert(without(table, probe).drop_last() =~= without(table.drop_last(), probe));
        }
    }
}

/// Taking requests out of a table in which no block is asked twice of the
/// same peer leaves such a table.
pub proof fn lemma_without_distinct(table: Seq<InFlight>, probe: Probe)
    requires
        distinct(table),
    ensures
        distinct(without(table, probe)),
        distinct(only(table, probe)),
    decreases table.len(),
{
    if table.len() > 0 {
        let front = table.drop_last();
        let last = table.last();
        assert(distinct(front)) by {
            assert forall|i: int, j: int| 0 <= i < j < front.len() implies !same_request(
                #[trigger] front[i],
                #[trigger] front[j],
            ) by {
                assert(front[i] == table[i] && front[j] == table[j]);
            }
        }
        lemma_without_distinct(front, probe);
        lemma_split(front, probe);
        let kept = if probe.matches(last) {
            only(front, probe)
        } else {
            without(front, probe)
        };
        assert forall|i: int| 0 <= i < kept.len() implies !same_request(
            #[trigger] kept[i],
            last,
        ) by {
            assert(kept.contains(kept[i]));
            assert(front.contains(kept[i]));
            let k = choose|k: int| 0 <= k < front.len() && front[k] == kept[i];
            assert(!same_request(table[k], table[table.len() - 1]));
        }
    }
}

/// The engine as a mathematical value.
pub struct SchedulerView {
    /// What the download is run with.
    pub settings: Settings,
    /// The pieces of the torrent, each with the peers that hold it.
    pub pieces: Seq<PieceView>,
    /// For each piece whether it has arrived and its hash was right.
    pub verified: Seq<bool>,
    /// For each piece the blocks that have arrived.
    pub progress: Seq<ProgressView>,
    /// The peers in the order in which they joined; the place of a peer is
    /// its key.
    pub peers: Seq<PeerStatus>,
    /// The requests that are under way, oldest first.
    pub in_flight: Seq<InFlight>,
}

impl SchedulerView {
    /// Whether the piece `p` is still to be had.
    pub open spec fn pending(self, p: int) -> bool {
        0 <= p < self.pieces.len() && !self.verified[p]
    }

    /// Whether the block `b` of the piece `p` is still to be had.
    pub open spec fn missing(self, p: int, b: int) -> bool {
        self.pending(p) && self.progress[p].missing(b)
    }

    /// Whether a request is in order: it asks for a block that is still to
    /// be had, of a peer that is connected, serves us and holds the piece.
    pub open spec fn entry_ok(self, e: InFlight) -> bool {
        &&& self.missing(e.piece as int, e.block as int)
        &&& e.peer < self.peers.len()
        &&& self.peers[e.peer as int].connected
        &&& !self.peers[e.peer as int].choking
        &&& self.pieces[e.piece as int].peers.contains(e.peer)
    }

    /// Whether the engine is in order.
    pub open spec fn wf(self) -> bool {
        &&& index_wf(self.pieces)
        &&& self.settings.block_size > 0
        &&& self.verified.len() == self.pieces.len()
        &&& self.progress.len() == self.pieces.len()
        &&& forall|p: int|
            0 <= p < self.pieces.len() ==> {
                &&& (#[trigger] self.progress[p]).wf()
                &&& self.progress[p].block_size == self.settings.block_size
                &&& self.progress[p].length == self.pieces[p].length
            }
        &&& forall|i: int| 0 <= i < self.in_flight.len() ==> self.entry_ok(#[trigger] self.in_flight[i])
        &&& distinct(self.in_flight)
        &&& forall|x: usize| #[trigger]
            count(self.in_flight, of_peer(x)) <= self.settings.pipeline_depth
    }

    /// Whether the block `b` of the piece `p` is in the pool of blocks that
    /// wait to be asked for: still to be had, and asked of nobody.
    pub open spec fn in_pool(self, p: int, b: int) -> bool {
        self.missing(p, b) && count(self.in_flight, of_block(p as usize, b as usize)) == 0
    }

    /// Whether the end of the download is near: something is still to be
    /// had, and of each piece still to be had some block is asked for.
    pub open spec fn endgame(self) -> bool {
        &&& exists|p: int| #[trigger] self.pending(p)
        &&& forall|p: int| #[trigger]
            self.pending(p) ==> count(self.in_flight, of_piece(p as usize)) > 0
    }

    /// Whether a peer has had a part in so many bad pieces that it is no
    /// longer trusted.
    pub open spec fn flagged(self, x: int) -> bool {
        0 <= x < self.peers.len() && self.peers[x].failures >= self.settings.failure_limit
    }

    /// Whether a peer can take one more request: it is connected, it serves
    /// us, and fewer requests are under way with it than the pipeline takes.
    pub open spec fn ready(self, x: int) -> bool {
        &&& 0 <= x < self.peers.len()
        &&& self.peers[x].connected
        &&& !self.peers[x].choking
        &&& count(self.in_flight, of_peer(x as usize)) < self.settings.pipeline_depth
    }

    /// Whether the piece `p` has a holder that is trusted.
    pub open spec fn has_trusted_holder(self, p: int) -> bool {
        exists|k: int|
            0 <= k < self.pieces[p].peers.len() && !self.flagged(
                #[trigger] self.pieces[p].peers[k] as int,
            )
    }

    /// Whether the block `b` of the piece `p` can be asked of the peer `x`
    /// now.
    ///
    /// The block is still to be had, the peer holds the piece and can take
    /// one more request, and the block is not asked of that peer already.
    /// A peer that is no longer trusted is asked only where the piece has
    /// no holder that is. And a block that is asked of another peer already
    /// is asked again only when the end of the download is near.
    pub open spec fn candidate(self, p: int, b: int, x: int) -> bool {
        &&& self.missing(p, b)
        &&& self.pieces[p].peers.contains(x as usize)
        &&& self.ready(x)
        &&& !self.flagged(x) || !self.has_trusted_holder(p)
        &&& count(self.in_flight, of_request(p as usize, b as usize, x as usize)) == 0
        &&& self.endgame() || count(self.in_flight, of_block(p as usize, b as usize)) == 0
    }

    /// Whether to ask the block `b` of the piece `p` of the peer `x` is
    /// what comes next: it can be asked, and of all that can be asked it is
    /// the first, pieces taken in the order in which they are pursued,
    /// blocks of a piece from the front, peers by their key.
    pub open spec fn is_next(self, p: int, b: int, x: int) -> bool {
        &&& self.candidate(p, b, x)
        &&& forall|p2: int, b2: int, x2: int| #[trigger]
            self.candidate(p2, b2, x2) ==> if p2 != p {
                comes_before(self.pieces[p], self.pieces[p2])
            } else if b2 != b {
                b < b2
            } else {
                x <= x2
            }
    }

    /// Whether nothing can be asked of anybody now.
    pub open spec fn idle(self) -> bool {
        forall|p: int, b: int, x: int| !#[trigger] self.candidate(p, b, x)
    }

    /// Whether we want something of the peer `x`: it holds a piece that is
    /// still to be had.
    pub open spec fn interested_in(self, x: int) -> bool {
        exists|p: int| #[trigger] self.pending(p) && self.pieces[p].peers.contains(x as usize)
    }

    /// The engine after a peer with these pieces joined. The peer gets the
    /// next free key, is taken to refuse to serve us until it says
    /// otherwise, and becomes a holder of each piece of the torrent whose
    /// bit is set.
    pub open spec fn joined(self, bitfield: BitField) -> SchedulerView {
        let key = self.peers.len() as usize;
        SchedulerView {
            peers: self.peers.push(PeerStatus { connected: true, choking: true, failures: 0, timeouts: 0 }),
            pieces: Seq::new(
                self.pieces.len(),
                |i: int|
                    if bitfield.has(i) {
                        self.pieces[i].held_by(key)
                    } else {
                        self.pieces[i]
                    },
            ),
            ..self
        }
    }

    /// The engine after the peer `x` announced the piece `p`. A peer that
    /// is not connected and a piece beyond the torrent change nothing.
    pub open spec fn announced(self, x: int, p: int) -> SchedulerView {
        if 0 <= x < self.peers.len() && self.peers[x].connected && 0 <= p < self.pieces.len() {
            SchedulerView { pieces: self.pieces.update(p, self.pieces[p].held_by(x as usize)), ..self }
        } else {
            self
        }
    }

    /// The engine with the requests that meet a pattern taken out.
    pub open spec fn released(self, probe: Probe) -> SchedulerView {
        SchedulerView { in_flight: without(self.in_flight, probe), ..self }
    }

    /// The engine after the peer `x` began or ceased to refuse to serve us.
    /// A key that no peer has changes nothing.
    pub open spec fn choked(self, x: int, choking: bool) -> SchedulerView {
        if 0 <= x < self.peers.len() {
            SchedulerView {
                peers: self.peers.update(x, PeerStatus { choking, ..self.peers[x] }),
                ..self
            }
        } else {
            self
        }
    }

    /// The engine after the peer `x` went away: it is no longer connected,
    /// it holds nothing, and nothing is asked of it.
    pub open spec fn dropped(self, x: int) -> SchedulerView {
        SchedulerView {
            peers: if 0 <= x < self.peers.len() {
                self.peers.update(x, PeerStatus { connected: false, ..self.peers[x] })
            } else {
                self.peers
            },
            pieces: Seq::new(self.pieces.len(), |i: int| self.pieces[i].lost_by(x as usize)),
            in_flight: without(self.in_flight, of_peer(x as usize)),
            ..self
        }
    }

    /// Whether a block of `size` bytes of the piece `piece` from offset
    /// `begin` on is expected of the peer `peer`: the piece is still to be
    /// had, the offset and the size are those of a block that is missing,
    /// and that block was asked of that peer.
    pub open spec fn expects(self, peer: int, piece: int, begin: int, size: int) -> bool {
        &&& self.pending(piece)
        &&& self.progress[piece].wants(begin, size)
        &&& count(
            self.in_flight,
            of_request(
                piece as usize,
                (begin / (self.settings.block_size as int)) as usize,
                peer as usize,
            ),
        ) > 0
    }

    /// The engine after a block that was expected arrived: the block is
    /// stored, nothing is asked for it of anybody any more, and the peer
    /// that sent it has no unanswered requests to its name.
    pub open spec fn received(self, peer: int, piece: int, begin: int, data: Seq<u8>) -> SchedulerView {
        let b = begin / (self.settings.block_size as int);
        SchedulerView {
            progress: self.progress.update(
                piece,
                self.progress[piece].stored(b, peer as usize, data),
            ),
            in_flight: without(self.in_flight, of_block(piece as usize, b as usize)),
            peers: if 0 <= peer < self.peers.len() {
                self.peers.update(peer, PeerStatus { timeouts: 0, ..self.peers[peer] })
            } else {
                self.peers
            },
            ..self
        }
    }

    /// The peers after each request made before the time `cutoff` was
    /// counted against the peer it was made of.
    pub open spec fn timed(self, cutoff: u64) -> Seq<PeerStatus> {
        Seq::new(
            self.peers.len(),
            |x: int|
                {
                    let late = count(self.in_flight, overdue_of(x as usize, cutoff));
                    PeerStatus {
                        timeouts: if self.peers[x].timeouts + late <= usize::MAX {
                            (self.peers[x].timeouts + late) as usize
                        } else {
                            usize::MAX
                        },
                        ..self.peers[x]
                    }
                },
        )
    }

    /// The engine after the requests made before the time `cutoff` were
    /// given up: they leave the table, and each counts against its peer.
    pub open spec fn expired(self, cutoff: u64) -> SchedulerView {
        SchedulerView {
            peers: self.timed(cutoff),
            in_flight: without(self.in_flight, overdue(cutoff)),
            ..self
        }
    }

    /// For each key whether the peer is connected and, once the requests
    /// made before the time `cutoff` are given up, has left more requests
    /// in a row unanswered than is put up with.
    pub open spec fn stalled_flags(self, cutoff: u64) -> Seq<bool> {
        Seq::new(
            self.peers.len(),
            |x: int|
                self.peers[x].connected && self.timed(cutoff)[x].timeouts
                    > self.settings.timeout_limit,
        )
    }

    /// The peers after each peer that sent a block of the piece `piece` got
    /// one more failure to its name.
    pub open spec fn blamed(self, piece: int) -> Seq<PeerStatus> {
        Seq::new(
            self.peers.len(),
            |x: int|
                if self.progress[piece].supplied_by(x as usize) {
                    PeerStatus {
                        failures: if self.peers[x].failures < usize::MAX {
                            (self.peers[x].failures + 1) as usize
                        } else {
                            self.peers[x].failures
                        },
                        ..self.peers[x]
                    }
                } else {
                    self.peers[x]
                },
        )
    }

    /// The engine after the bytes of the piece `piece` were held against
    /// its hash. A good piece is done with. A bad piece is to be had anew:
    /// all its blocks are thrown away, and who sent one is blamed.
    pub open spec fn settled(self, piece: int, good: bool) -> SchedulerView {
        if good {
            SchedulerView {
                verified: self.verified.update(piece, true),
                progress: self.progress.update(piece, self.progress[piece].emptied()),
                ..self
            }
        } else {
            SchedulerView {
                peers: self.blamed(piece),
                progress: self.progress.update(piece, self.progress[piece].emptied()),
                ..self
            }
        }
    }

    /// For each key whether the peer is connected.
    pub open spec fn connected_flags(self) -> Seq<bool> {
        Seq::new(self.peers.len(), |x: int| self.peers[x].connected)
    }

    /// For each key whether the peer is connected, sent a block of the
    /// piece `piece`, and with one more failure is no longer trusted.
    pub open spec fn suspect_flags(self, piece: int) -> Seq<bool> {
        Seq::new(
            self.peers.len(),
            |x: int|
                self.peers[x].connected && self.progress[piece].supplied_by(x as usize)
                    && self.settled(piece, false).flagged(x),
        )
    }
}

/// The places of a list at which the flag is set, in ascending order.
pub open spec fn keys_where(flags: Seq<bool>) -> Seq<usize>
    decreases flags.len(),
{
    if flags.len() == 0 {
        Seq::empty()
    } else if flags.last() {
        keys_where(flags.drop_last()).push((flags.len() - 1) as usize)
    } else {
        keys_where(flags.drop_last())
    }
}

/// The requests to withdraw when a block arrived from `sender`: one for
/// each other peer that the block was asked of, oldest first.
pub open spec fn cancels_for(
    table: Seq<InFlight>,
    piece: usize,
    block: usize,
    sender: usize,
    begin: usize,
    length: usize,
) -> Seq<BlockRequest>
    decreases table.len(),
{
    if table.len() == 0 {
        Seq::empty()
    } else {
        let rest = cancels_for(table.drop_last(), piece, block, sender, begin, length);
        let e = table.last();
        if e.piece == piece && e.block == block && e.peer != sender {
            rest.push(BlockRequest { peer: e.peer, piece, begin, length })
        } else {
            rest
        }
    }
}

/// What became of a block that arrived.
#[derive(Debug, PartialEq, Eq)]
pub struct Receipt {
    /// Whether the block was expected, and is stored now.
    pub accepted: bool,
    /// Whether the piece has all its blocks now.
    pub complete: bool,
    /// The requests to withdraw: the same block, asked of other peers.
    pub cancels: Vec<BlockRequest>,
}

/// What became of the requests that were left unanswered for too long.
#[derive(Debug, PartialEq, Eq)]
pub struct Expired {
    /// The requests that were given up, oldest first. Their blocks can be
    /// asked of others.
    pub released: Vec<InFlight>,
    /// The peers to disconnect: they left too many requests in a row
    /// unanswered.
    pub disconnect: Vec<usize>,
}

/// What became of a piece whose blocks had all arrived.
#[derive(Debug, PartialEq, Eq)]
pub enum Settled {
    /// The hash was right. The piece is to be announced to these peers.
    Verified { announce: Vec<usize> },
    /// The hash was wrong. These peers are to be disconnected.
    Rejected { disconnect: Vec<usize> },
}

/// The progress of each piece of a list.
pub open spec fn progress_views(progress: Seq<PieceProgress>) -> Seq<ProgressView> {
    progress.map_values(|p: PieceProgress| p@)
}

/// The engine that decides which block to ask of which peer.
pub struct PieceScheduler {
    settings: Settings,
    index: PieceRarityIndex,
    verified: Vec<bool>,
    progress: Vec<PieceProgress>,
    peers: Vec<PeerStatus>,
    in_flight: Vec<InFlight>,
}

impl View for PieceScheduler {
    type V = SchedulerView;

    closed spec fn view(&self) -> SchedulerView {
        SchedulerView {
            settings: self.settings,
            pieces: self.index@,
            verified: self.verified@,
            progress: progress_views(self.progress@),
            peers: self.peers@,
            in_flight: self.in_flight@,
        }
    }
}

impl PieceScheduler {
    /// Sets up the engine for a torrent: nothing has arrived, nobody is
    /// connected, nothing is asked for. `seeds[i]` is the tie-breaking value
    /// of piece `i`.
    ///
    /// There is no engine for a block size of zero, for a list of values
    /// that is not as long as the torrent has pieces, or for a torrent whose
    /// pieces do not add up to its length.
    pub fn new(torrent: &Torrent, seeds: &[u64], settings: Settings) -> (engine: Option<Self>)
        ensures
            engine is Some <==> {
                &&& settings.block_size > 0
                &&& seeds@.len() == torrent@.pieces.len()
                &&& forall|i: int|
                    0 <= i < torrent@.pieces.len() ==> #[trigger] piece_size(torrent@, i) is Some
            },
            engine matches Some(e) ==> {
                &&& e@.wf()
                &&& e@.settings == settings
                &&& e@.pieces.len() == torrent@.pieces.len()
                &&& forall|i: int|
                    0 <= i < e@.pieces.len() ==> #[trigger] e@.pieces[i] == fresh_piece(
                        torrent@,
                        i,
                        seeds@[i],
                    )
                &&& forall|i: int| 0 <= i < e@.pieces.len() ==> !#[trigger] e@.verified[i]
                &&& forall|i: int, b: int|
                    0 <= i < e@.pieces.len() && 0 <= b < e@.progress[i].blocks.len()
                        ==> #[trigger] e@.progress[i].missing(b)
                &&& e@.peers.len() == 0
                &&& e@.in_flight.len() == 0
            },
    {
        if settings.block_size == 0 {
            return None;
        }
        let index = match PieceRarityIndex::new(torrent, seeds) {
            Some(index) => index,
            None => {
                return None;
            },
        };
        let count = index.len();
        let mut verified: Vec<bool> = Vec::new();
        let mut progress: Vec<PieceProgress> = Vec::new();
        let mut i: usize = 0;
        while i < count
            invariant
                i <= count,
                count == index@.len(),
                settings.block_size > 0,
                verified@.len() == i,
                progress@.len() == i,
                forall|j: int| 0 <= j < i ==> !#[trigger] verified@[j],
                forall|j: int|
                    0 <= j < i ==> {
                        &&& (#[trigger] progress@[j])@.wf()
                        &&& progress@[j]@.block_size == settings.block_size
                        &&& progress@[j]@.length == index@[j].length
                        &&& forall|b: int|
                            0 <= b < progress@[j]@.blocks.len() ==> progress@[j]@.missing(b)
                    },
            decreases count - i,
        {
            verified.push(false);
            progress.push(PieceProgress::new(index.piece(i).length(), settings.block_size));
            i += 1;
        }
        let engine = PieceScheduler {
            settings,
            index,
            verified,
            progress,
            peers: Vec::new(),
            in_flight: Vec::new(),
        };
        proof {
            assert forall|p: int| 0 <= p < engine@.pieces.len() implies {
                &&& (#[trigger] engine@.progress[p]).wf()
                &&& engine@.progress[p].block_size == engine@.settings.block_size
                &&& engine@.progress[p].length == engine@.pieces[p].length
            } by {
                assert(engine@.progress[p] == engine.progress@[p]@);
            }
            assert forall|p: int, b: int|
                0 <= p < engine@.pieces.len() && 0 <= b < engine@.progress[p].blocks.len()
                    implies #[trigger] engine@.progress[p].missing(b) by {
                assert(engine@.progress[p] == engine.progress@[p]@);
            }
        }
        Some(engine)
    }

    /// What the download is run with.
    pub fn settings(&self) -> (settings: Settings)
        ensures
            settings == self@.settings,
    {
        self.settings
    }

    /// The number of pieces of the torrent.
    pub fn n_pieces(&self) -> (count: usize)
        ensures
            count == self@.pieces.len(),
    {
        self.index.len()
    }

    /// The number of peers that have joined so far, gone ones too.
    pub fn n_peers(&self) -> (count: usize)
        ensures
            count == self@.peers.len(),
    {
        self.peers.len()
    }

    /// The number of requests under way that meet a pattern.
    pub fn count_in_flight(&self, probe: Probe) -> (found: usize)
        ensures
            found == count(self@.in_flight, probe),
    {
        let total = self.in_flight.len();
        let mut found: usize = 0;
        let mut i: usize = 0;
        assert(self.in_flight@.take(0) =~= Seq::<InFlight>::empty());
        while i < total
            invariant
                i <= total,
                total == self.in_flight@.len(),
                found <= i,
                found == count(self.in_flight@.take(i as int), probe),
            decreases total - i,
        {
            proof {
                assert(self.in_flight@.take(i + 1).drop_last() =~= self.in_flight@.take(i as int));
            }
            if probe.is_met_by(&self.in_flight[i]) {
                found += 1;
            }
            i += 1;
        }
        assert(self.in_flight@.take(total as int) =~= self.in_flight@);
        found
    }

    /// Takes in a peer that joined and told what it has. Returns the key
    /// by which the peer is known from now on.
    pub fn add_peer(&mut self, bitfield: &BitField) -> (key: usize)
        requires
            old(self)@.wf(),
        ensures
            key == old(self)@.peers.len(),
            final(self)@ == old(self)@.joined(*bitfield),
            final(self)@.wf(),
    {
        let key = self.peers.len();
        self.peers.push(PeerStatus { connected: true, choking: true, failures: 0, timeouts: 0 });
        self.index.record_bitfield(key, bitfield);
        proof {
            let before = old(self)@;
            let after = self@;
            assert(after.pieces =~= before.joined(*bitfield).pieces);
            assert forall|k: int| 0 <= k < after.in_flight.len() implies after.entry_ok(
                #[trigger] after.in_flight[k],
            ) by {
                let e = after.in_flight[k];
                assert(before.entry_ok(before.in_flight[k]));
                lemma_with_peer(before.pieces[e.piece as int].peers, key);
            }
        }
        key
    }

    /// Takes in that the peer `peer` announced the piece `piece`.
    pub fn peer_has(&mut self, peer: usize, piece: usize)
        requires
            old(self)@.wf(),
        ensures
            final(self)@ == old(self)@.announced(peer as int, piece as int),
            final(self)@.wf(),
    {
        if peer < self.peers.len() && self.peers[peer].connected {
            self.index.record_have(peer, piece);
            proof {
                let before = old(self)@;
                let after = self@;
                assert forall|k: int| 0 <= k < after.in_flight.len() implies after.entry_ok(
                    #[trigger] after.in_flight[k],
                ) by {
                    let e = after.in_flight[k];
                    assert(before.entry_ok(before.in_flight[k]));
                    lemma_with_peer(before.pieces[e.piece as int].peers, peer);
                }
            }
        }
    }

    /// Takes the requests that meet a pattern out of the table and returns
    /// them, oldest first.
    fn release(&mut self, probe: Probe) -> (released: Vec<InFlight>)
        requires
            old(self)@.wf(),
        ensures
            final(self)@ == old(self)@.released(probe),
            released@ == only(old(self)@.in_flight, probe),
            final(self)@.wf(),
            forall|k: int|
                0 <= k < final(self)@.in_flight.len() ==> !probe.matches(
                    #[trigger] final(self)@.in_flight[k],
                ),
    {
        let total = self.in_flight.len();
        let mut kept: Vec<InFlight> = Vec::new();
        let mut released: Vec<InFlight> = Vec::new();
        let mut i: usize = 0;
        assert(self.in_flight@.take(0) =~= Seq::<InFlight>::empty());
        while i < total
            invariant
                i <= total,
                total == self.in_flight@.len(),
                kept@ == without(self.in_flight@.take(i as int), probe),
                released@ == only(self.in_flight@.take(i as int), probe),
            decreases total - i,
        {
            proof {
                assert(self.in_flight@.take(i + 1).drop_last() =~= self.in_flight@.take(i as int));
            }
            let entry = self.in_flight[i];
            if probe.is_met_by(&entry) {
                released.push(entry);
            } else {
                kept.push(entry);
            }
            i += 1;
        }
        assert(self.in_flight@.take(total as int) =~= self.in_flight@);
        self.in_flight = kept;
        proof {
            let before = old(self)@;
            let after = self@;
            lemma_split(before.in_flight, probe);
            lemma_without_distinct(before.in_flight, probe);
            assert forall|x: usize| #[trigger]
                count(after.in_flight, of_peer(x)) <= after.settings.pipeline_depth by {
                lemma_count_without(before.in_flight, probe, of_peer(x));
            }
            assert forall|k: int| 0 <= k < after.in_flight.len() implies after.entry_ok(
                #[trigger] after.in_flight[k],
            ) && !probe.matches(after.in_flight[k]) by {
                let e = after.in_flight[k];
                assert(without(before.in_flight, probe).contains(e));
                let j = choose|j: int| 0 <= j < before.in_flight.len() && before.in_flight[j] == e;
                assert(before.entry_ok(before.in_flight[j]));
            }
        }
        released
    }

    /// Takes in that the peer `peer` ceased to refuse to serve us.
    pub fn peer_unchoked(&mut self, peer: usize)
        requires
            old(self)@.wf(),
        ensures
            final(self)@ == old(self)@.choked(peer as int, false),
            final(self)@.wf(),
    {
        if peer < self.peers.len() {
            let status = self.peers[peer];
            self.peers[peer] = PeerStatus { choking: false, ..status };
        }
    }

    /// Takes in that the peer `peer` began to refuse to serve us. What was
    /// asked of it counts as withdrawn: those requests leave the table, so
    /// that their blocks can be asked of others, and are returned, oldest
    /// first.
    pub fn peer_choked(&mut self, peer: usize) -> (released: Vec<InFlight>)
        requires
            old(self)@.wf(),
        ensures
            final(self)@ == old(self)@.choked(peer as int, true).released(of_peer(peer)),
            released@ == only(old(self)@.in_flight, of_peer(peer)),
            final(self)@.wf(),
    {
        let released = self.release(
            Probe { piece: None, block: None, peer: Some(peer), before: None },
        );
        if peer < self.peers.len() {
            let status = self.peers[peer];
            self.peers[peer] = PeerStatus { choking: true, ..status };
        }
        released
    }

    /// Takes in that the peer `peer` went away. It holds nothing any more,
    /// and what was asked of it leaves the table, so that those blocks can
    /// be asked of others. The requests are returned, oldest first.
    pub fn drop_peer(&mut self, peer: usize) -> (released: Vec<InFlight>)
        requires
            old(self)@.wf(),
        ensures
            final(self)@ == old(self)@.dropped(peer as int),
            released@ == only(old(self)@.in_flight, of_peer(peer)),
            final(self)@.wf(),
    {
        let released = self.release(
            Probe { piece: None, block: None, peer: Some(peer), before: None },
        );
        let ghost middle = self@;
        if peer < self.peers.len() {
            let status = self.peers[peer];
            self.peers[peer] = PeerStatus { connected: false, ..status };
        }
        self.index.forget_peer(peer);
        proof {
            let after = self@;
            assert(after.pieces =~= old(self)@.dropped(peer as int).pieces);
            assert forall|k: int| 0 <= k < after.in_flight.len() implies after.entry_ok(
                #[trigger] after.in_flight[k],
            ) by {
                let e = after.in_flight[k];
                assert(middle.entry_ok(middle.in_flight[k]));
                assert(!of_peer(peer).matches(middle.in_flight[k]));
                lemma_without_peer(middle.pieces[e.piece as int].peers, peer);
            }
        }
        released
    }

    /// Whether the end of the download is near: something is still to be
    /// had, and of each piece still to be had some block is asked for.
    pub fn is_endgame(&self) -> (near: bool)
        requires
            self@.wf(),
        ensures
            near == self@.endgame(),
    {
        let total = self.verified.len();
        let mut any_pending = false;
        let mut p: usize = 0;
        while p < total
            invariant
                p <= total,
                self@.wf(),
                total == self@.pieces.len(),
                any_pending == exists|q: int| 0 <= q < p && #[trigger] self@.pending(q),
                forall|q: int|
                    0 <= q < p && #[trigger] self@.pending(q) ==> count(
                        self@.in_flight,
                        of_piece(q as usize),
                    ) > 0,
            decreases total - p,
        {
            if !self.verified[p] {
                assert(self@.pending(p as int));
                if self.count_in_flight(Probe { piece: Some(p), block: None, peer: None, before: None }) == 0 {
                    return false;
                }
                any_pending = true;
            }
            p += 1;
        }
        any_pending
    }

    /// Whether a peer has had a part in so many bad pieces that it is no
    /// longer trusted.
    pub fn is_flagged(&self, peer: usize) -> (flagged: bool)
        ensures
            flagged == self@.flagged(peer as int),
    {
        peer < self.peers.len() && self.peers[peer].failures >= self.settings.failure_limit
    }

    /// Whether a peer can take one more request.
    pub fn is_ready(&self, peer: usize) -> (ready: bool)
        ensures
            ready == self@.ready(peer as int),
    {
        peer < self.peers.len() && self.peers[peer].connected && !self.peers[peer].choking
            && self.count_in_flight(Probe { piece: None, block: None, peer: Some(peer), before: None })
            < self.settings.pipeline_depth
    }

    /// Whether the piece `piece` has a holder that is trusted.
    pub fn has_trusted_holder(&self, piece: usize) -> (found: bool)
        requires
            piece < self@.pieces.len(),
        ensures
            found == self@.has_trusted_holder(piece as int),
    {
        let holders = self.index.piece(piece).peers();
        let count = holders.len();
        let mut k: usize = 0;
        while k < count
            invariant
                k <= count,
                count == holders@.len(),
                holders@ == self@.pieces[piece as int].peers,
                forall|j: int| 0 <= j < k ==> self@.flagged(#[trigger] holders@[j] as int),
            decreases count - k,
        {
            if !self.is_flagged(holders[k]) {
                return true;
            }
            k += 1;
        }
        false
    }

    /// The first request that can be made for the piece `piece`: the first
    /// block that can be asked of anybody, and the peer with the least key
    /// that it can be asked of. `None` means that nothing of the piece can
    /// be asked of anybody now.
    pub fn first_candidate(&self, piece: usize) -> (found: Option<(usize, usize)>)
        requires
            self@.wf(),
            piece < self@.pieces.len(),
        ensures
            match found {
                Some((b, x)) => {
                    &&& self@.candidate(piece as int, b as int, x as int)
                    &&& forall|b2: int, x2: int| #[trigger]
                        self@.candidate(piece as int, b2, x2) ==> b < b2 || (b == b2 && x <= x2)
                },
                None => forall|b2: int, x2: int| !#[trigger] self@.candidate(piece as int, b2, x2),
            },
    {
        if self.verified[piece] {
            return None;
        }
        let n_peers = self.peers.len();
        let endgame = self.is_endgame();
        let trusted = self.has_trusted_holder(piece);
        let holders = self.index.piece(piece).peers();
        let n_holders = holders.len();
        assert(self@.progress[piece as int] == self.progress@[piece as int]@);
        let n_blocks = self.progress[piece].n_blocks();
        let mut b: usize = 0;
        while b < n_blocks
            invariant
                b <= n_blocks,
                self@.wf(),
                n_peers == self@.peers.len(),
                piece < self@.pieces.len(),
                self@.pending(piece as int),
                endgame == self@.endgame(),
                trusted == self@.has_trusted_holder(piece as int),
                holders@ == self@.pieces[piece as int].peers,
                n_holders == holders@.len(),
                n_blocks == self@.progress[piece as int].blocks.len(),
                self@.progress[piece as int] == self.progress@[piece as int]@,
                forall|b2: int, x2: int|
                    b2 < b ==> !#[trigger] self@.candidate(piece as int, b2, x2),
            decreases n_blocks - b,
        {
            let open = self.progress[piece].is_missing(b) && (endgame || self.count_in_flight(
                Probe { piece: Some(piece), block: Some(b), peer: None, before: None },
            ) == 0);
            if open {
                let mut k: usize = 0;
                while k < n_holders
                    invariant
                        k <= n_holders,
                        b < n_blocks,
                        self@.wf(),
                        piece < self@.pieces.len(),
                        self@.pending(piece as int),
                        self@.missing(piece as int, b as int),
                        endgame == self@.endgame(),
                        endgame || count(self@.in_flight, of_block(piece, b)) == 0,
                        trusted == self@.has_trusted_holder(piece as int),
                        holders@ == self@.pieces[piece as int].peers,
                        n_holders == holders@.len(),
                        forall|b2: int, x2: int|
                            b2 < b ==> !#[trigger] self@.candidate(piece as int, b2, x2),
                        forall|j: int|
                            0 <= j < k ==> !self@.candidate(
                                piece as int,
                                b as int,
                                #[trigger] holders@[j] as int,
                            ),
                    decreases n_holders - k,
                {
                    let x = holders[k];
                    if self.is_ready(x) && (!self.is_flagged(x) || !trusted)
                        && self.count_in_flight(
                        Probe { piece: Some(piece), block: Some(b), peer: Some(x), before: None },
                    ) == 0 {
                        proof {
                            assert(holders@.contains(x));
                            assert forall|b2: int, x2: int| #[trigger]
                                self@.candidate(piece as int, b2, x2) implies b < b2 || (b == b2
                                && x <= x2) by {
                                if b2 == b && x2 < x {
                                    assert(self@.ready(x2));
                                    assert(0 <= x2 < self.peers@.len());
                                    let j = choose|j: int|
                                        0 <= j < holders@.len() && holders@[j] == x2 as usize;
                                    assert(holders@[j] as int == x2);
                                    assert(self@.pieces[piece as int].wf());
                                    if j >= k {
                                        assert(j == k || holders@[k as int] < holders@[j]);
                                    }
                                }
                            }
                        }
                        return Some((b, x));
                    }
                    k += 1;
                }
                proof {
                    assert forall|x2: int| !#[trigger] self@.candidate(
                        piece as int,
                        b as int,
                        x2,
                    ) by {
                        if self@.candidate(piece as int, b as int, x2) {
                            assert(self@.ready(x2));
                            assert(0 <= x2 < n_peers);
                            let j = choose|j: int|
                                0 <= j < holders@.len() && holders@[j] == x2 as usize;
                            assert(holders@[j] as int == x2);
                            assert(!self@.candidate(piece as int, b as int, holders@[j] as int));
                        }
                    }
                }
            }
            b += 1;
        }
        None
    }

    /// Decides what to ask for next, and of whom, and enters the request in
    /// the table as made at the time `now`.
    ///
    /// Of all that can be asked the piece that comes first in the order of
    /// pieces is taken, of that piece the first block, and for that block
    /// the peer with the least key. `None` means that nothing can be asked
    /// of anybody now, and that nothing has changed.
    pub fn next_request(&mut self, now: u64) -> (request: Option<BlockRequest>)
        requires
            old(self)@.wf(),
        ensures
            final(self)@.wf(),
            match request {
                Some(r) => {
                    let b = r.begin as int / old(self)@.settings.block_size as int;
                    &&& old(self)@.is_next(r.piece as int, b, r.peer as int)
                    &&& r.begin == b * old(self)@.settings.block_size
                    &&& r.length == block_length(
                        old(self)@.pieces[r.piece as int].length as int,
                        old(self)@.settings.block_size as int,
                        b,
                    )
                    &&& final(self)@ == (SchedulerView {
                        in_flight: old(self)@.in_flight.push(
                            InFlight {
                                piece: r.piece,
                                block: b as usize,
                                peer: r.peer,
                                issued_at: now,
                            },
                        ),
                        ..old(self)@
                    })
                },
                None => old(self)@.idle() && final(self)@ == old(self)@,
            },
    {
        let total = self.index.len();
        let mut open: Vec<bool> = Vec::new();
        let mut p: usize = 0;
        while p < total
            invariant
                p <= total,
                self@.wf(),
                total == self@.pieces.len(),
                open@.len() == p,
                forall|q: int|
                    0 <= q < p ==> (#[trigger] open@[q] <==> exists|b: int, x: int| #[trigger]
                        self@.candidate(q, b, x)),
            decreases total - p,
        {
            let found = self.first_candidate(p);
            open.push(found.is_some());
            p += 1;
        }
        let piece = match self.index.select(open.as_slice()) {
            Some(piece) => piece,
            None => {
                proof {
                    assert forall|p2: int, b2: int, x2: int| !#[trigger] self@.candidate(
                        p2,
                        b2,
                        x2,
                    ) by {
                        if self@.candidate(p2, b2, x2) {
                            assert(open@[p2]);
                        }
                    }
                }
                return None;
            },
        };
        let (block, peer) = match self.first_candidate(piece) {
            Some(found) => found,
            None => {
                return None;
            },
        };
        assert(self@.progress[piece as int] == self.progress@[piece as int]@);
        let begin = self.progress[piece].block_begin(block);
        let length = self.progress[piece].block_length(block);
        proof {
            let v = self@;
            let size = v.settings.block_size as int;
            assert(begin as int / size == block as int) by (nonlinear_arith)
                requires
                    begin == block * size,
                    size > 0,
            ;
            assert forall|p2: int, b2: int, x2: int| #[trigger]
                v.candidate(p2, b2, x2) implies if p2 != piece {
                comes_before(v.pieces[piece as int], v.pieces[p2])
            } else if b2 != block {
                block < b2
            } else {
                peer <= x2
            } by {
                if p2 != piece {
                    assert(open@[p2]);
                }
            }
            lemma_count(v.in_flight, of_request(piece, block, peer));
            let entry = InFlight { piece, block, peer, issued_at: now };
            assert(v.in_flight.push(entry).drop_last() =~= v.in_flight);
            assert forall|x: usize| #[trigger]
                count(v.in_flight.push(entry), of_peer(x)) <= v.settings.pipeline_depth by {
                assert(v.ready(peer as int));
                assert(count(v.in_flight, of_peer(x)) <= v.settings.pipeline_depth);
                assert(v.in_flight.push(entry).last() == entry);
            }
        }
        self.in_flight.push(InFlight { piece, block, peer, issued_at: now });
        Some(BlockRequest { peer, piece, begin, length })
    }

    /// The keys at which a flag is set, in ascending order.
    fn keys_of(flags: &Vec<bool>) -> (keys: Vec<usize>)
        ensures
            keys@ == keys_where(flags@),
    {
        let total = flags.len();
        let mut keys: Vec<usize> = Vec::new();
        let mut x: usize = 0;
        assert(flags@.take(0) =~= Seq::<bool>::empty());
        while x < total
            invariant
                x <= total,
                total == flags@.len(),
                keys@ == keys_where(flags@.take(x as int)),
            decreases total - x,
        {
            proof {
                assert(flags@.take(x + 1).drop_last() =~= flags@.take(x as int));
            }
            if flags[x] {
                keys.push(x);
            }
            x += 1;
        }
        assert(flags@.take(total as int) =~= flags@);
        keys
    }

    /// Whether we want something of the peer `peer`: it holds a piece that
    /// is still to be had. As long as this holds the peer is to be told
    /// that we are interested, and that we are not as soon as it does not.
    pub fn interested_in(&self, peer: usize) -> (interested: bool)
        requires
            self@.wf(),
        ensures
            interested == self@.interested_in(peer as int),
    {
        let total = self.verified.len();
        let mut p: usize = 0;
        while p < total
            invariant
                p <= total,
                self@.wf(),
                total == self@.pieces.len(),
                forall|q: int|
                    0 <= q < p ==> !(#[trigger] self@.pending(q) && self@.pieces[q].peers.contains(
                        peer,
                    )),
            decreases total - p,
        {
            if !self.verified[p] && self.index.holds(peer, p) {
                assert(self@.pending(p as int));
                return true;
            }
            p += 1;
        }
        false
    }

    /// Takes in a block that the peer `peer` sent: `data`, the bytes of the
    /// piece `piece` from offset `begin` on.
    ///
    /// A block that was not asked of that peer, or is not missing, or does
    /// not have the offset and size of a block, is passed over, and nothing
    /// changes. A block that was expected is stored, and the requests for
    /// it leave the table; those made of other peers are returned, to be
    /// withdrawn.
    pub fn block_received(&mut self, peer: usize, piece: usize, begin: usize, data: Vec<u8>) -> (receipt:
        Receipt)
        requires
            old(self)@.wf(),
        ensures
            final(self)@.wf(),
            receipt.accepted == old(self)@.expects(
                peer as int,
                piece as int,
                begin as int,
                data@.len() as int,
            ),
            receipt.accepted ==> {
                &&& final(self)@ == old(self)@.received(
                    peer as int,
                    piece as int,
                    begin as int,
                    data@,
                )
                &&& receipt.complete == final(self)@.progress[piece as int].complete()
                &&& receipt.cancels@ == cancels_for(
                    old(self)@.in_flight,
                    piece,
                    (begin as int / old(self)@.settings.block_size as int) as usize,
                    peer,
                    begin,
                    data@.len() as usize,
                )
            },
            !receipt.accepted ==> {
                &&& final(self)@ == old(self)@
                &&& !receipt.complete
                &&& receipt.cancels@.len() == 0
            },
    {
        let size = data.len();
        if piece >= self.verified.len() || self.verified[piece] {
            return Receipt { accepted: false, complete: false, cancels: Vec::new() };
        }
        assert(self@.pending(piece as int));
        assert(self@.progress[piece as int] == self.progress@[piece as int]@);
        let block = match self.progress[piece].wanted_block(begin, size) {
            Some(block) => block,
            None => {
                return Receipt { accepted: false, complete: false, cancels: Vec::new() };
            },
        };
        if self.count_in_flight(Probe { piece: Some(piece), block: Some(block), peer: Some(peer), before: None })
            == 0 {
            return Receipt { accepted: false, complete: false, cancels: Vec::new() };
        }
        let total = self.in_flight.len();
        let mut cancels: Vec<BlockRequest> = Vec::new();
        let mut i: usize = 0;
        assert(self.in_flight@.take(0) =~= Seq::<InFlight>::empty());
        while i < total
            invariant
                i <= total,
                total == self.in_flight@.len(),
                cancels@ == cancels_for(
                    self.in_flight@.take(i as int),
                    piece,
                    block,
                    peer,
                    begin,
                    size,
                ),
            decreases total - i,
        {
            proof {
                assert(self.in_flight@.take(i + 1).drop_last() =~= self.in_flight@.take(i as int));
            }
            let e = self.in_flight[i];
            if e.piece == piece && e.block == block && e.peer != peer {
                cancels.push(BlockRequest { peer: e.peer, piece, begin, length: size });
            }
            i += 1;
        }
        assert(self.in_flight@.take(total as int) =~= self.in_flight@);
        self.release(Probe { piece: Some(piece), block: Some(block), peer: None, before: None });
        if peer < self.peers.len() {
            let status = self.peers[peer];
            self.peers[peer] = PeerStatus { timeouts: 0, ..status };
        }
        let ghost middle = self@;
        assert(self@.progress[piece as int] == self.progress@[piece as int]@);
        self.progress[piece].store(block, peer, data);
        proof {
            let before = old(self)@;
            let after = self@;
            assert(after.progress =~= before.progress.update(
                piece as int,
                before.progress[piece as int].stored(block as int, peer, data@),
            ));
            lemma_split(before.in_flight, of_block(piece, block));
            assert forall|k: int| 0 <= k < after.in_flight.len() implies after.entry_ok(
                #[trigger] after.in_flight[k],
            ) by {
                let e = after.in_flight[k];
                assert(middle.entry_ok(middle.in_flight[k]));
                assert(without(before.in_flight, of_block(piece, block)).contains(e));
                assert(!of_block(piece, block).matches(e));
            }
            assert forall|q: int| 0 <= q < after.pieces.len() implies {
                &&& (#[trigger] after.progress[q]).wf()
                &&& after.progress[q].block_size == after.settings.block_size
                &&& after.progress[q].length == after.pieces[q].length
            } by {
                if q != piece {
                    assert(after.progress[q] == middle.progress[q]);
                }
            }
        }
        let complete = self.progress[piece].is_complete();
        assert(self@.progress[piece as int] == self.progress@[piece as int]@);
        Receipt { accepted: true, complete, cancels }
    }

    /// Closes the books on the piece `piece`, all of whose blocks have
    /// arrived, given whether its bytes hash to what they must.
    ///
    /// A good piece is done with, and is to be announced to every peer that
    /// is connected. A bad piece is to be had anew: every block of it is
    /// thrown away, each peer that sent one has one more failure to its
    /// name, and those of them that are connected and no longer trusted are
    /// to be disconnected.
    pub fn settle(&mut self, piece: usize, good: bool) -> (settled: Settled)
        requires
            old(self)@.wf(),
            old(self)@.pending(piece as int),
            old(self)@.progress[piece as int].complete(),
        ensures
            final(self)@.wf(),
            final(self)@ == old(self)@.settled(piece as int, good),
            match settled {
                Settled::Verified { announce } => good && announce@ == keys_where(
                    old(self)@.connected_flags(),
                ),
                Settled::Rejected { disconnect } => !good && disconnect@ == keys_where(
                    old(self)@.suspect_flags(piece as int),
                ),
            },
    {
        let n_peers = self.peers.len();
        let mut flags: Vec<bool> = Vec::new();
        assert(self@.progress[piece as int] == self.progress@[piece as int]@);
        proof {
            // Nothing is asked for a piece that has all its blocks.
            assert forall|k: int| 0 <= k < self@.in_flight.len() implies (
            #[trigger] self@.in_flight[k]).piece != piece by {
                let e = self@.in_flight[k];
                assert(self@.entry_ok(e));
                if e.piece == piece {
                    assert(self@.progress[piece as int].blocks[e.block as int] is Some);
                }
            }
        }
        if good {
            let mut x: usize = 0;
            while x < n_peers
                invariant
                    x <= n_peers,
                    n_peers == self.peers@.len(),
                    flags@ == self@.connected_flags().take(x as int),
                decreases n_peers - x,
            {
                flags.push(self.peers[x].connected);
                x += 1;
                assert(flags@ =~= self@.connected_flags().take(x as int));
            }
            assert(flags@ =~= self@.connected_flags());
            self.verified[piece] = true;
            self.progress[piece].reset();
            proof {
                let before = old(self)@;
                let after = self@;
                assert(after.progress =~= before.progress.update(
                    piece as int,
                    before.progress[piece as int].emptied(),
                ));
                assert(after.verified =~= before.verified.update(piece as int, true));
                assert forall|q: int| 0 <= q < after.pieces.len() implies {
                    &&& (#[trigger] after.progress[q]).wf()
                    &&& after.progress[q].block_size == after.settings.block_size
                    &&& after.progress[q].length == after.pieces[q].length
                } by {
                    if q != piece {
                        assert(after.progress[q] == before.progress[q]);
                    }
                }
                assert forall|k: int| 0 <= k < after.in_flight.len() implies after.entry_ok(
                    #[trigger] after.in_flight[k],
                ) by {
                    assert(before.entry_ok(before.in_flight[k]));
                }
            }
            Settled::Verified { announce: Self::keys_of(&flags) }
        } else {
            let limit = self.settings.failure_limit;
            let mut x: usize = 0;
            while x < n_peers
                invariant
                    x <= n_peers,
                    n_peers == self.peers@.len(),
                    n_peers == old(self)@.peers.len(),
                    limit == old(self)@.settings.failure_limit,
                    piece < self.progress@.len(),
                    self.progress@[piece as int]@ == old(self)@.progress[piece as int],
                    self@.progress == old(self)@.progress,
                    self@.pieces == old(self)@.pieces,
                    self@.verified == old(self)@.verified,
                    self@.in_flight == old(self)@.in_flight,
                    self@.settings == old(self)@.settings,
                    flags@ == old(self)@.suspect_flags(piece as int).take(x as int),
                    forall|j: int| 0 <= j < x ==> self.peers@[j] == old(self)@.blamed(piece as int)[j],
                    forall|j: int| x <= j < n_peers ==> self.peers@[j] == old(self)@.peers[j],
                decreases n_peers - x,
            {
                let status = self.peers[x];
                if self.progress[piece].supplied_by(x) {
                    let failures = if status.failures < usize::MAX {
                        status.failures + 1
                    } else {
                        status.failures
                    };
                    self.peers[x] = PeerStatus { failures, ..status };
                    flags.push(status.connected && failures >= limit);
                } else {
                    flags.push(false);
                }
                x += 1;
                assert(flags@ =~= old(self)@.suspect_flags(piece as int).take(x as int));
            }
            assert(flags@ =~= old(self)@.suspect_flags(piece as int));
            assert(self.peers@ =~= old(self)@.blamed(piece as int));
            self.progress[piece].reset();
            proof {
                let before = old(self)@;
                let after = self@;
                assert(after.progress =~= before.progress.update(
                    piece as int,
                    before.progress[piece as int].emptied(),
                ));
                assert forall|q: int| 0 <= q < after.pieces.len() implies {
                    &&& (#[trigger] after.progress[q]).wf()
                    &&& after.progress[q].block_size == after.settings.block_size
                    &&& after.progress[q].length == after.pieces[q].length
                } by {
                    if q != piece {
                        assert(after.progress[q] == before.progress[q]);
                    }
                }
                assert forall|k: int| 0 <= k < after.in_flight.len() implies after.entry_ok(
                    #[trigger] after.in_flight[k],
                ) by {
                    assert(before.entry_ok(before.in_flight[k]));
                }
            }
            Settled::Rejected { disconnect: Self::keys_of(&flags) }
        }
    }

    /// Gives up the requests that were made more than `deadline` ago and
    /// are still unanswered at the time `now`.
    ///
    /// They leave the table as if their peers had choked, but the
    /// connections stay. Each counts against its peer; a peer that is
    /// connected and has left more requests in a row unanswered than is put
    /// up with is to be disconnected.
    pub fn expire(&mut self, now: u64, deadline: u64) -> (expired: Expired)
        requires
            old(self)@.wf(),
        ensures
            final(self)@.wf(),
            ({
                let cutoff = if now >= deadline {
                    (now - deadline) as u64
                } else {
                    0u64
                };
                &&& final(self)@ == old(self)@.expired(cutoff)
                &&& expired.released@ == only(old(self)@.in_flight, overdue(cutoff))
                &&& expired.disconnect@ == keys_where(old(self)@.stalled_flags(cutoff))
            }),
    {
        let cutoff: u64 = if now >= deadline {
            now - deadline
        } else {
            0
        };
        let n_peers = self.peers.len();
        let limit = self.settings.timeout_limit;
        let mut flags: Vec<bool> = Vec::new();
        let mut x: usize = 0;
        while x < n_peers
            invariant
                x <= n_peers,
                n_peers == self.peers@.len(),
                n_peers == old(self)@.peers.len(),
                limit == old(self)@.settings.timeout_limit,
                self@.progress == old(self)@.progress,
                self@.pieces == old(self)@.pieces,
                self@.verified == old(self)@.verified,
                self@.in_flight == old(self)@.in_flight,
                self@.settings == old(self)@.settings,
                flags@ == old(self)@.stalled_flags(cutoff).take(x as int),
                forall|j: int| 0 <= j < x ==> self.peers@[j] == old(self)@.timed(cutoff)[j],
                forall|j: int| x <= j < n_peers ==> self.peers@[j] == old(self)@.peers[j],
            decreases n_peers - x,
        {
            let status = self.peers[x];
            let late = self.count_in_flight(
                Probe { piece: None, block: None, peer: Some(x), before: Some(cutoff) },
            );
            let timeouts = if late <= usize::MAX - status.timeouts {
                status.timeouts + late
            } else {
                usize::MAX
            };
            self.peers[x] = PeerStatus { timeouts, ..status };
            flags.push(status.connected && timeouts > limit);
            x += 1;
            assert(flags@ =~= old(self)@.stalled_flags(cutoff).take(x as int));
        }
        assert(flags@ =~= old(self)@.stalled_flags(cutoff));
        assert(self.peers@ =~= old(self)@.timed(cutoff));
        let released = self.release(
            Probe { piece: None, block: None, peer: None, before: Some(cutoff) },
        );
        Expired { released, disconnect: Self::keys_of(&flags) }
    }

    /// Puts the piece `piece` together, holds its bytes against its hash,
    /// and closes the books on it. Returns the bytes and what became of the
    /// piece. `None` means that the piece is not one that is still to be
    /// had with all its blocks arrived; nothing changes then.
    pub fn complete_piece(&mut self, piece: usize) -> (done: Option<(Vec<u8>, Settled)>)
        requires
            old(self)@.wf(),
        ensures
            final(self)@.wf(),
            done is Some <==> old(self)@.pending(piece as int) && old(self)@.progress[piece as int].complete(),
            done is None ==> final(self)@ == old(self)@,
            done matches Some((bytes, settled)) ==> {
                let good = digest_matches(bytes@, old(self)@.pieces[piece as int].hash);
                &&& bytes@ == bytes_of(old(self)@.progress[piece as int].blocks)
                &&& final(self)@ == old(self)@.settled(piece as int, good)
                &&& match settled {
                    Settled::Verified { announce } => good && announce@ == keys_where(
                        old(self)@.connected_flags(),
                    ),
                    Settled::Rejected { disconnect } => !good && disconnect@ == keys_where(
                        old(self)@.suspect_flags(piece as int),
                    ),
                }
            },
    {
        if piece >= self.verified.len() || self.verified[piece] {
            return None;
        }
        assert(self@.progress[piece as int] == self.progress@[piece as int]@);
        if !self.progress[piece].is_complete() {
            return None;
        }
        let bytes = self.progress[piece].assemble();
        let good = verify_digest(bytes.as_slice(), self.index.piece(piece).hash());
        let settled = self.settle(piece, good);
        Some((bytes, settled))
    }
}

} // verus!
