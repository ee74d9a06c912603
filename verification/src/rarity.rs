//! Which peers hold which piece, gathered from all connected peers.

use vstd::prelude::*;
use crate::net::bitfield::BitField;
use crate::piece::{comes_before, Piece, PieceView};
use crate::torrent::{piece_size, Torrent};

verus! {

/// For each piece of a torrent the peers known to hold it.
pub struct PieceRarityIndex {
    pieces: Vec<Piece>,
}

impl View for PieceRarityIndex {
    type V = Seq<PieceView>;

    closed spec fn view(&self) -> Seq<PieceView> {
        self.pieces@.map_values(|p: Piece| p@)
    }
}

/// Whether an index is in order: the piece at each place has that place as
/// its index, and its holders listed in ascending order.
pub open spec fn index_wf(pieces: Seq<PieceView>) -> bool {
    forall|i: int| 0 <= i < pieces.len() ==> (#[trigger] pieces[i]).wf() && pieces[i].piece_i == i
}

/// The description of the piece `i` of a torrent before any peer is known.
pub open spec fn fresh_piece(torrent: crate::torrent::TorrentView, i: int, seed: u64) -> PieceView {
    PieceView {
        peers: Seq::empty(),
        piece_i: i as usize,
        length: piece_size(torrent, i).unwrap(),
        hash: torrent.pieces[i]@,
        seed,
    }
}

/// Whether the piece `p` is the one to pursue among the pieces marked in
/// `eligible`: it is marked, and it comes before every other marked piece.
pub open spec fn is_first_choice(pieces: Seq<PieceView>, eligible: Seq<bool>, p: int) -> bool {
    &&& 0 <= p < pieces.len()
    &&& p < eligible.len()
    &&& eligible[p]
    &&& forall|q: int|
        0 <= q < pieces.len() && q < eligible.len() && q != p && #[trigger] eligible[q]
            ==> comes_before(pieces[p], pieces[q])
}

impl PieceRarityIndex {
    /// Sets up the index for a torrent, with nobody holding anything, and
    /// `seeds[i]` as the tie-breaking value of piece `i`. There is no index
    /// unless there is one value for each piece and the pieces of the torrent
    /// add up to its length.
    pub fn new(torrent: &Torrent, seeds: &[u64]) -> (index: Option<Self>)
        ensures
            index is Some <==> {
                &&& seeds@.len() == torrent@.pieces.len()
                &&& forall|i: int|
                    0 <= i < torrent@.pieces.len() ==> #[trigger] piece_size(torrent@, i) is Some
            },
            index matches Some(ix) ==> {
                &&& ix@.len() == torrent@.pieces.len()
                &&& forall|i: int|
                    0 <= i < ix@.len() ==> #[trigger] ix@[i] == fresh_piece(torrent@, i, seeds@[i])
                &&& index_wf(ix@)
            },
    {
        let count = torrent.n_pieces();
        if seeds.len() != count {
            return None;
        }
        let mut pieces: Vec<Piece> = Vec::new();
        let mut i: usize = 0;
        while i < count
            invariant
                i <= count,
                count == torrent@.pieces.len(),
                count == seeds@.len(),
                pieces@.len() == i,
                forall|j: int| 0 <= j < i ==> #[trigger] piece_size(torrent@, j) is Some,
                forall|j: int|
                    0 <= j < i ==> (#[trigger] pieces@[j])@ == fresh_piece(torrent@, j, seeds@[j]),
            decreases count - i,
        {
            match Piece::new(i, torrent, seeds[i]) {
                Some(piece) => {
                    pieces.push(piece);
                },
                None => {
                    return None;
                },
            }
            i += 1;
        }
        let index = PieceRarityIndex { pieces };
        proof {
            assert forall|j: int| 0 <= j < index@.len() implies #[trigger] index@[j] == fresh_piece(
                torrent@,
                j,
                seeds@[j],
            ) by {
                assert(index@[j] == index.pieces@[j]@);
            }
        }
        Some(index)
    }

    /// The number of pieces.
    pub fn len(&self) -> (count: usize)
        ensures
            count == self@.len(),
    {
        self.pieces.len()
    }

    /// The description of the piece `piece_i`.
    pub fn piece(&self, piece_i: usize) -> (piece: &Piece)
        requires
            piece_i < self@.len(),
        ensures
            piece@ == self@[piece_i as int],
    {
        &self.pieces[piece_i]
    }

    /// The number of peers known to hold the piece `piece_i`; none for an
    /// index beyond the torrent.
    pub fn rarity(&self, piece_i: usize) -> (rarity: usize)
        ensures
            rarity == if piece_i < self@.len() {
                self@[piece_i as int].rarity()
            } else {
                0
            },
    {
        if piece_i < self.pieces.len() {
            self.pieces[piece_i].rarity()
        } else {
            0
        }
    }

    /// Whether `peer` is known to hold the piece `piece_i`.
    pub fn holds(&self, peer: usize, piece_i: usize) -> (held: bool)
        requires
            index_wf(self@),
        ensures
            held == (piece_i < self@.len() && self@[piece_i as int].peers.contains(peer)),
    {
        if piece_i < self.pieces.len() {
            assert(self@[piece_i as int] == self.pieces@[piece_i as int]@);
            self.pieces[piece_i].holds(peer)
        } else {
            false
        }
    }

    /// Picks the piece to pursue among those marked in `eligible`: the one
    /// that comes before all the others. `None` means that none is marked.
    pub fn select(&self, eligible: &[bool]) -> (choice: Option<usize>)
        requires
            index_wf(self@),
        ensures
            match choice {
                Some(p) => is_first_choice(self@, eligible@, p as int),
                None => forall|q: int|
                    0 <= q < self@.len() && q < eligible@.len() ==> !#[trigger] eligible@[q],
            },
    {
        let count = if self.pieces.len() < eligible.len() {
            self.pieces.len()
        } else {
            eligible.len()
        };
        let mut best: Option<usize> = None;
        let mut i: usize = 0;
        while i < count
            invariant
                i <= count,
                count <= self.pieces@.len(),
                count <= eligible@.len(),
                count == self@.len() || count == eligible@.len(),
                index_wf(self@),
                match best {
                    Some(p) => {
                        &&& p < i
                        &&& eligible@[p as int]
                        &&& forall|q: int|
                            0 <= q < i && q != p && #[trigger] eligible@[q] ==> comes_before(
                                self@[p as int],
                                self@[q],
                            )
                    },
                    None => forall|q: int| 0 <= q < i ==> !#[trigger] eligible@[q],
                },
            decreases count - i,
        {
            if eligible[i] {
                assert(self@[i as int] == self.pieces@[i as int]@);
                match best {
                    None => {
                        best = Some(i);
                    },
                    Some(p) => {
                        assert(self@[p as int] == self.pieces@[p as int]@);
                        proof {
                            crate::piece::lemma_order_total(self@[i as int], self@[p as int]);
                        }
                        if self.pieces[i].precedes(&self.pieces[p]) {
                            proof {
                                assert forall|q: int|
                                    0 <= q < i + 1 && q != i && #[trigger] eligible@[q]
                                        implies comes_before(self@[i as int], self@[q]) by {
                                    if q != p {
                                        crate::piece::lemma_order_transitive(
                                            self@[i as int],
                                            self@[p as int],
                                            self@[q],
                                        );
                                    }
                                }
                            }
                            best = Some(i);
                        }
                    },
                }
            }
            i += 1;
        }
        best
    }

    /// Records that `peer` holds the piece `piece_i`. An index beyond the
    /// torrent is passed over. Returns whether anything changed.
    pub fn record_have(&mut self, peer: usize, piece_i: usize) -> (changed: bool)
        requires
            index_wf(old(self)@),
        ensures
            index_wf(final(self)@),
            final(self)@ == if piece_i < old(self)@.len() {
                old(self)@.update(piece_i as int, old(self)@[piece_i as int].held_by(peer))
            } else {
                old(self)@
            },
            changed == (piece_i < old(self)@.len() && !old(self)@[piece_i as int].peers.contains(
                peer,
            )),
    {
        if piece_i < self.pieces.len() {
            assert(self@[piece_i as int] == self.pieces@[piece_i as int]@);
            let changed = self.pieces[piece_i].add_peer(peer);
            assert(self@ =~= old(self)@.update(
                piece_i as int,
                old(self)@[piece_i as int].held_by(peer),
            ));
            changed
        } else {
            false
        }
    }

    /// Records what a peer has: `peer` becomes a holder of each piece of the
    /// torrent whose bit is set in `bitfield`. Bits beyond the torrent are
    /// passed over.
    pub fn record_bitfield(&mut self, peer: usize, bitfield: &BitField)
        requires
            index_wf(old(self)@),
        ensures
            index_wf(final(self)@),
            final(self)@.len() == old(self)@.len(),
            forall|i: int|
                0 <= i < old(self)@.len() ==> #[trigger] final(self)@[i] == if bitfield.has(i) {
                    old(self)@[i].held_by(peer)
                } else {
                    old(self)@[i]
                },
    {
        let count = self.pieces.len();
        let mut i: usize = 0;
        while i < count
            invariant
                i <= count,
                count == old(self)@.len(),
                self@.len() == count,
                index_wf(self@),
                forall|j: int|
                    0 <= j < i ==> #[trigger] self@[j] == if bitfield.has(j) {
                        old(self)@[j].held_by(peer)
                    } else {
                        old(self)@[j]
                    },
                forall|j: int| i <= j < count ==> #[trigger] self@[j] == old(self)@[j],
            decreases count - i,
        {
            if bitfield.contains_piece(i) {
                self.record_have(peer, i);
            }
            i += 1;
        }
    }

    /// Forgets a peer: it is no longer a holder of any piece.
    pub fn forget_peer(&mut self, peer: usize)
        requires
            index_wf(old(self)@),
        ensures
            index_wf(final(self)@),
            final(self)@.len() == old(self)@.len(),
            forall|i: int|
                0 <= i < old(self)@.len() ==> #[trigger] final(self)@[i] == old(self)@[i].lost_by(
                    peer,
                ),
    {
        let count = self.pieces.len();
        let mut i: usize = 0;
        while i < count
            invariant
                i <= count,
                count == old(self)@.len(),
                self@.len() == count,
                self.pieces@.len() == count,
                index_wf(self@),
                forall|j: int| 0 <= j < i ==> #[trigger] self@[j] == old(self)@[j].lost_by(peer),
                forall|j: int| i <= j < count ==> #[trigger] self@[j] == old(self)@[j],
            decreases count - i,
        {
            let ghost before = self@;
            assert(self@[i as int] == self.pieces@[i as int]@);
            self.pieces[i].remove_peer(peer);
            assert(self@ =~= before.update(i as int, before[i as int].lost_by(peer)));
            i += 1;
        }
    }
}

} // verus!
