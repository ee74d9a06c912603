//! The description of one piece, and the order in which pieces are pursued.
//!
//! The piece held by the fewest peers comes first. Ties are broken by a
//! value given to each piece when a download starts, then by the hash of the
//! piece, then by the peers that hold it, then by its index.

use vstd::prelude::*;
use std::cmp::Ordering;
use crate::torrent::{piece_size, Torrent};

verus! {

/// One piece of a torrent: who holds it, where it stands in the torrent, how
/// long it is, what it hashes to, and its tie-breaking value.
#[derive(Debug, PartialEq, Eq)]
pub struct Piece {
    peers: Vec<usize>,
    piece_i: usize,
    length: usize,
    hash: [u8; 20],
    seed: u64,
}

/// A piece as a mathematical value.
pub struct PieceView {
    /// The peers known to hold the piece, in ascending order.
    pub peers: Seq<usize>,
    /// The index of the piece in the torrent.
    pub piece_i: usize,
    /// The number of bytes of the piece.
    pub length: usize,
    /// The SHA1 hash that the bytes of the piece must have.
    pub hash: Seq<u8>,
    /// The tie-breaking value of the piece.
    pub seed: u64,
}

impl View for Piece {
    type V = PieceView;

    closed spec fn view(&self) -> PieceView {
        PieceView {
            peers: self.peers@,
            piece_i: self.piece_i,
            length: self.length,
            hash: self.hash@,
            seed: self.seed,
        }
    }
}

/// Whether `a` comes before `b` in the order of a dictionary: at the first
/// place where they differ `a` has the smaller number, or `a` ends there.
pub open spec fn lex_less(a: Seq<int>, b: Seq<int>) -> bool
    decreases a.len(),
{
    if a.len() == 0 {
        b.len() > 0
    } else if b.len() == 0 {
        false
    } else if a[0] != b[0] {
        a[0] < b[0]
    } else {
        lex_less(a.skip(1), b.skip(1))
    }
}

/// The bytes of a hash as numbers.
pub open spec fn hash_numbers(hash: Seq<u8>) -> Seq<int> {
    Seq::new(hash.len(), |i: int| hash[i] as int)
}

/// The keys of peers as numbers.
pub open spec fn peer_numbers(peers: Seq<usize>) -> Seq<int> {
    Seq::new(peers.len(), |i: int| peers[i] as int)
}

/// Whether the piece `p` is pursued before the piece `q`: fewer holders
/// first, then the smaller tie-breaking value, then the smaller hash, then
/// the smaller list of holders, then the smaller index.
pub open spec fn comes_before(p: PieceView, q: PieceView) -> bool {
    if p.peers.len() != q.peers.len() {
        p.peers.len() < q.peers.len()
    } else if p.seed != q.seed {
        p.seed < q.seed
    } else if p.hash != q.hash {
        lex_less(hash_numbers(p.hash), hash_numbers(q.hash))
    } else if p.peers != q.peers {
        lex_less(peer_numbers(p.peers), peer_numbers(q.peers))
    } else {
        p.piece_i < q.piece_i
    }
}

/// Whether the order cannot tell two pieces apart: same holders, same
/// tie-breaking value, same hash, same index.
pub open spec fn same_rank(p: PieceView, q: PieceView) -> bool {
    p.peers == q.peers && p.seed == q.seed && p.hash == q.hash && p.piece_i == q.piece_i
}

/// No sequence comes before itself.
pub proof fn lemma_lex_irreflexive(a: Seq<int>)
    ensures
        !lex_less(a, a),
    decreases a.len(),
{
    if a.len() > 0 {
        lemma_lex_irreflexive(a.skip(1));
    }
}

/// Of two different sequences exactly one comes before the other.
pub proof fn lemma_lex_total(a: Seq<int>, b: Seq<int>)
    ensures
        a != b ==> (lex_less(a, b) <==> !lex_less(b, a)),
        a == b ==> !lex_less(a, b) && !lex_less(b, a),
    decreases a.len(),
{
    if a == b {
        lemma_lex_irreflexive(a);
    } else if a.len() == 0 || b.len() == 0 {
        if a.len() == 0 && b.len() == 0 {
            assert(a =~= b);
        }
    } else if a[0] == b[0] {
        if a.skip(1) == b.skip(1) {
            assert(a =~= seq![a[0]] + a.skip(1));
            assert(b =~= seq![b[0]] + b.skip(1));
        }
        lemma_lex_total(a.skip(1), b.skip(1));
    }
}

/// What comes before something that comes before a third comes before the
/// third.
pub proof fn lemma_lex_transitive(a: Seq<int>, b: Seq<int>, c: Seq<int>)
    requires
        lex_less(a, b),
        lex_less(b, c),
    ensures
        lex_less(a, c),
    decreases a.len(),
{
    if a.len() > 0 && b.len() > 0 && c.len() > 0 && a[0] == b[0] && b[0] == c[0] {
        lemma_lex_transitive(a.skip(1), b.skip(1), c.skip(1));
    }
}

/// Different hashes are different sequences of numbers, and so are
/// different lists of peers.
proof fn lemma_numbers_differ(p: PieceView, q: PieceView)
    ensures
        p.hash != q.hash ==> hash_numbers(p.hash) != hash_numbers(q.hash),
        p.peers != q.peers ==> peer_numbers(p.peers) != peer_numbers(q.peers),
{
    if hash_numbers(p.hash) == hash_numbers(q.hash) {
        assert(p.hash.len() == hash_numbers(p.hash).len());
        assert(q.hash.len() == hash_numbers(q.hash).len());
        assert forall|i: int| 0 <= i < p.hash.len() implies p.hash[i] == q.hash[i] by {
            assert(hash_numbers(p.hash)[i] == hash_numbers(q.hash)[i]);
        }
        assert(p.hash =~= q.hash);
    }
    if peer_numbers(p.peers) == peer_numbers(q.peers) {
        assert(p.peers.len() == peer_numbers(p.peers).len());
        assert(q.peers.len() == peer_numbers(q.peers).len());
        assert forall|i: int| 0 <= i < p.peers.len() implies p.peers[i] == q.peers[i] by {
            assert(peer_numbers(p.peers)[i] == peer_numbers(q.peers)[i]);
        }
        assert(p.peers =~= q.peers);
    }
}

/// The order of pieces is strict: no piece comes before itself, nor before
/// one that the order cannot tell from it.
pub proof fn lemma_order_irreflexive(p: PieceView, q: PieceView)
    requires
        same_rank(p, q),
    ensures
        !comes_before(p, q),
{
}

/// The order of pieces is total: of two pieces that the order can tell
/// apart exactly one comes before the other.
pub proof fn lemma_order_total(p: PieceView, q: PieceView)
    requires
        !same_rank(p, q),
    ensures
        comes_before(p, q) <==> !comes_before(q, p),
{
    lemma_numbers_differ(p, q);
    lemma_lex_total(hash_numbers(p.hash), hash_numbers(q.hash));
    lemma_lex_total(peer_numbers(p.peers), peer_numbers(q.peers));
}

/// The order of pieces is transitive.
pub proof fn lemma_order_transitive(p: PieceView, q: PieceView, r: PieceView)
    requires
        comes_before(p, q),
        comes_before(q, r),
    ensures
        comes_before(p, r),
{
    lemma_numbers_differ(p, q);
    lemma_numbers_differ(q, r);
    lemma_numbers_differ(p, r);
    let (hp, hq, hr) = (hash_numbers(p.hash), hash_numbers(q.hash), hash_numbers(r.hash));
    let (pp, pq, pr) = (peer_numbers(p.peers), peer_numbers(q.peers), peer_numbers(r.peers));
    lemma_lex_irreflexive(hp);
    lemma_lex_irreflexive(pp);
    if p.peers.len() == q.peers.len() && q.peers.len() == r.peers.len() && p.seed == q.seed
        && q.seed == r.seed {
        if p.hash != q.hash && q.hash != r.hash {
            lemma_lex_transitive(hp, hq, hr);
        } else if p.hash == q.hash && q.hash == r.hash {
            if p.peers != q.peers && q.peers != r.peers {
                lemma_lex_transitive(pp, pq, pr);
            }
        }
    }
}

/// Whether each number of a list is greater than the one before it.
pub open spec fn ascending(peers: Seq<usize>) -> bool {
    forall|i: int, j: int| 0 <= i < j < peers.len() ==> peers[i] < peers[j]
}

/// The place of `peer` in an ascending list: the number of entries at the
/// front that are smaller.
pub open spec fn slot(peers: Seq<usize>, peer: usize) -> int
    decreases peers.len(),
{
    if peers.len() == 0 || peers[0] >= peer {
        0
    } else {
        1 + slot(peers.skip(1), peer)
    }
}

/// An ascending list with `peer` in it: as it is where it holds the peer,
/// else with the peer put in at its place.
pub open spec fn with_peer(peers: Seq<usize>, peer: usize) -> Seq<usize> {
    let k = slot(peers, peer);
    if k < peers.len() && peers[k] == peer {
        peers
    } else {
        peers.insert(k, peer)
    }
}

/// An ascending list without `peer`.
pub open spec fn without_peer(peers: Seq<usize>, peer: usize) -> Seq<usize> {
    let k = slot(peers, peer);
    if k < peers.len() && peers[k] == peer {
        peers.remove(k)
    } else {
        peers
    }
}

/// The place of a peer is the first index whose entry is not smaller.
pub proof fn lemma_slot(peers: Seq<usize>, peer: usize, k: int)
    requires
        0 <= k <= peers.len(),
        forall|j: int| 0 <= j < k ==> peers[j] < peer,
        k < peers.len() ==> peers[k] >= peer,
    ensures
        slot(peers, peer) == k,
    decreases k,
{
    if k > 0 {
        lemma_slot(peers.skip(1), peer, k - 1);
    }
}

/// The place of a peer lies within the list, with smaller entries before it
/// and none after it.
pub proof fn lemma_slot_bounds(peers: Seq<usize>, peer: usize)
    requires
        ascending(peers),
    ensures
        0 <= slot(peers, peer) <= peers.len(),
        forall|j: int| 0 <= j < slot(peers, peer) ==> peers[j] < peer,
        forall|j: int| slot(peers, peer) <= j < peers.len() ==> peers[j] >= peer,
    decreases peers.len(),
{
    if peers.len() > 0 && peers[0] < peer {
        let rest = peers.skip(1);
        assert(ascending(rest)) by {
            assert forall|i: int, j: int| 0 <= i < j < rest.len() implies rest[i] < rest[j] by {
                assert(rest[i] == peers[i + 1] && rest[j] == peers[j + 1]);
            }
        }
        lemma_slot_bounds(rest, peer);
        assert forall|j: int| 0 <= j < slot(peers, peer) implies peers[j] < peer by {
            if j > 0 {
                assert(peers[j] == rest[j - 1]);
            }
        }
        assert forall|j: int| slot(peers, peer) <= j < peers.len() implies peers[j] >= peer by {
            assert(peers[j] == rest[j - 1]);
        }
    }
}

/// A peer that an ascending list holds stands at its place, and a peer at
/// its place is held.
pub proof fn lemma_slot_of_member(peers: Seq<usize>, peer: usize)
    requires
        ascending(peers),
    ensures
        peers.contains(peer) <==> slot(peers, peer) < peers.len() && peers[slot(peers, peer)]
            == peer,
{
    lemma_slot_bounds(peers, peer);
    let k = slot(peers, peer);
    if peers.contains(peer) {
        let i = choose|i: int| 0 <= i < peers.len() && peers[i] == peer;
        if k < i {
            assert(peers[k] < peers[i]);
        }
    }
}

/// Putting a peer into an ascending list keeps the list ascending, and the
/// list then holds that peer and those it held before.
pub proof fn lemma_with_peer(peers: Seq<usize>, peer: usize)
    requires
        ascending(peers),
    ensures
        ascending(with_peer(peers, peer)),
        forall|x: usize| with_peer(peers, peer).contains(x) <==> peers.contains(x) || x == peer,
{
    lemma_slot_bounds(peers, peer);
    let k = slot(peers, peer);
    let grown = with_peer(peers, peer);
    if k < peers.len() && peers[k] == peer {
        assert(peers.contains(peer));
    } else {
        assert forall|x: usize| grown.contains(x) <==> peers.contains(x) || x == peer by {
            if grown.contains(x) {
                let i = choose|i: int| 0 <= i < grown.len() && grown[i] == x;
                if i < k {
                    assert(peers[i] == x);
                } else if i > k {
                    assert(peers[i - 1] == x);
                }
            }
            if peers.contains(x) {
                let i = choose|i: int| 0 <= i < peers.len() && peers[i] == x;
                if i < k {
                    assert(grown[i] == x);
                } else {
                    assert(grown[i + 1] == x);
                }
            }
            if x == peer {
                assert(grown[k] == x);
            }
        }
    }
}

/// Taking a peer out of an ascending list keeps the list ascending, and the
/// list then holds those it held before but that peer.
pub proof fn lemma_without_peer(peers: Seq<usize>, peer: usize)
    requires
        ascending(peers),
    ensures
        ascending(without_peer(peers, peer)),
        forall|x: usize| without_peer(peers, peer).contains(x) <==> peers.contains(x) && x != peer,
{
    lemma_slot_bounds(peers, peer);
    let k = slot(peers, peer);
    let less = without_peer(peers, peer);
    if k < peers.len() && peers[k] == peer {
        assert forall|x: usize| less.contains(x) <==> peers.contains(x) && x != peer by {
            if less.contains(x) {
                let i = choose|i: int| 0 <= i < less.len() && less[i] == x;
                if i < k {
                    assert(peers[i] == x);
                } else {
                    assert(peers[i + 1] == x);
                }
            }
            if peers.contains(x) && x != peer {
                let i = choose|i: int| 0 <= i < peers.len() && peers[i] == x;
                if i < k {
                    assert(less[i] == x);
                } else {
                    assert(less[i - 1] == x);
                }
            }
        }
    } else {
        assert forall|x: usize| peers.contains(x) implies x != peer by {
            let i = choose|i: int| 0 <= i < peers.len() && peers[i] == x;
        }
    }
}

/// How the piece `p` stands to the piece `q` in the order in which pieces
/// are pursued: `Less` where it comes first, `Greater` where the other
/// does, `Equal` where the order cannot tell them apart.
pub open spec fn order_of(p: PieceView, q: PieceView) -> Ordering {
    if comes_before(p, q) {
        Ordering::Less
    } else if comes_before(q, p) {
        Ordering::Greater
    } else {
        Ordering::Equal
    }
}

impl vstd::std_specs::cmp::PartialOrdSpecImpl for Piece {
    open spec fn obeys_partial_cmp_spec() -> bool {
        true
    }

    open spec fn partial_cmp_spec(&self, other: &Piece) -> Option<Ordering> {
        Some(order_of(self@, other@))
    }
}

impl PartialOrd for Piece {
    /// Holds this piece against `other` in the order in which pieces are
    /// pursued. Any two pieces can be held against each other.
    fn partial_cmp(&self, other: &Self) -> (order: Option<Ordering>)
        ensures
            order == Some(order_of(self@, other@)),
    {
        Some(self.cmp(other))
    }
}

/// How two sequences stand to each other.
enum Standing {
    Before,
    Same,
    After,
}

/// Holds two hashes against each other in the order of a dictionary.
fn compare_hashes(a: &[u8; 20], b: &[u8; 20]) -> (standing: Standing)
    ensures
        standing is Before <==> lex_less(hash_numbers(a@), hash_numbers(b@)),
        standing is Same <==> a@ == b@,
{
    let ghost na = hash_numbers(a@);
    let ghost nb = hash_numbers(b@);
    let mut i: usize = 0;
    assert(na.skip(0) =~= na && nb.skip(0) =~= nb);
    while i < 20
        invariant
            i <= 20,
            na == hash_numbers(a@),
            nb == hash_numbers(b@),
            forall|j: int| 0 <= j < i ==> a@[j] == b@[j],
            lex_less(na, nb) == lex_less(na.skip(i as int), nb.skip(i as int)),
        decreases 20 - i,
    {
        proof {
            assert(na.skip(i as int).skip(1) =~= na.skip(i + 1));
            assert(nb.skip(i as int).skip(1) =~= nb.skip(i + 1));
            assert(na.skip(i as int)[0] == a@[i as int]);
            assert(nb.skip(i as int)[0] == b@[i as int]);
        }
        if a[i] != b[i] {
            return if a[i] < b[i] {
                Standing::Before
            } else {
                Standing::After
            };
        }
        i += 1;
    }
    assert(a@ =~= b@);
    Standing::Same
}

/// Holds two lists of peers against each other in the order of a
/// dictionary.
fn compare_peers(a: &Vec<usize>, b: &Vec<usize>) -> (standing: Standing)
    ensures
        standing is Before <==> lex_less(peer_numbers(a@), peer_numbers(b@)),
        standing is Same <==> a@ == b@,
{
    let ghost na = peer_numbers(a@);
    let ghost nb = peer_numbers(b@);
    let a_len = a.len();
    let b_len = b.len();
    let mut i: usize = 0;
    assert(na.skip(0) =~= na && nb.skip(0) =~= nb);
    while i < a_len && i < b_len
        invariant
            i <= a_len,
            i <= b_len,
            a_len == a@.len(),
            b_len == b@.len(),
            na == peer_numbers(a@),
            nb == peer_numbers(b@),
            forall|j: int| 0 <= j < i ==> a@[j] == b@[j],
            lex_less(na, nb) == lex_less(na.skip(i as int), nb.skip(i as int)),
        decreases a_len - i,
    {
        proof {
            assert(na.skip(i as int).skip(1) =~= na.skip(i + 1));
            assert(nb.skip(i as int).skip(1) =~= nb.skip(i + 1));
            assert(na.skip(i as int)[0] == a@[i as int]);
            assert(nb.skip(i as int)[0] == b@[i as int]);
        }
        if a[i] != b[i] {
            return if a[i] < b[i] {
                Standing::Before
            } else {
                Standing::After
            };
        }
        i += 1;
    }
    if a_len == b_len {
        assert(a@ =~= b@);
        Standing::Same
    } else if a_len < b_len {
        Standing::Before
    } else {
        Standing::After
    }
}

impl PieceView {
    /// Whether the description is in order: the holders are listed in
    /// ascending order, each once.
    pub open spec fn wf(self) -> bool {
        ascending(self.peers)
    }

    /// The number of peers known to hold the piece.
    pub open spec fn rarity(self) -> nat {
        self.peers.len()
    }

    /// The piece with `peer` among its holders.
    pub open spec fn held_by(self, peer: usize) -> PieceView {
        PieceView { peers: with_peer(self.peers, peer), ..self }
    }

    /// The piece without `peer` among its holders.
    pub open spec fn lost_by(self, peer: usize) -> PieceView {
        PieceView { peers: without_peer(self.peers, peer), ..self }
    }
}

impl Piece {
    /// Describes the piece `piece_i` of a torrent, held by nobody yet, with
    /// `seed` as its tie-breaking value. There is no description where the
    /// torrent has no such piece or its pieces do not add up to its length.
    pub fn new(piece_i: usize, torrent: &Torrent, seed: u64) -> (piece: Option<Self>)
        ensures
            piece is Some <==> piece_size(torrent@, piece_i as int) is Some,
            piece matches Some(p) ==> p@ == (PieceView {
                peers: Seq::<usize>::empty(),
                piece_i,
                length: piece_size(torrent@, piece_i as int).unwrap(),
                hash: torrent@.pieces[piece_i as int]@,
                seed,
            }) && p@.wf(),
    {
        let length = match torrent.piece_size(piece_i) {
            Some(length) => length,
            None => {
                return None;
            },
        };
        let hash = match torrent.get_piece_hash(piece_i) {
            Ok(hash) => *hash,
            Err(_) => {
                return None;
            },
        };
        Some(Piece { peers: Vec::new(), piece_i, length, hash, seed })
    }

    /// The peers known to hold the piece, in ascending order.
    pub fn peers(&self) -> (peers: &Vec<usize>)
        ensures
            peers@ == self@.peers,
    {
        &self.peers
    }

    /// The index of the piece in the torrent.
    pub fn piece_i(&self) -> (piece_i: usize)
        ensures
            piece_i == self@.piece_i,
    {
        self.piece_i
    }

    /// The number of bytes of the piece.
    pub fn length(&self) -> (length: usize)
        ensures
            length == self@.length,
    {
        self.length
    }

    /// The SHA1 hash that the bytes of the piece must have.
    pub fn hash(&self) -> (hash: &[u8; 20])
        ensures
            hash@ == self@.hash,
    {
        &self.hash
    }

    /// The tie-breaking value of the piece.
    pub fn seed(&self) -> (seed: u64)
        ensures
            seed == self@.seed,
    {
        self.seed
    }

    /// The number of peers known to hold the piece.
    pub fn rarity(&self) -> (rarity: usize)
        ensures
            rarity == self@.rarity(),
    {
        self.peers.len()
    }

    /// Whether this piece is pursued before `other`.
    pub fn precedes(&self, other: &Piece) -> (before: bool)
        ensures
            before == comes_before(self@, other@),
    {
        if self.peers.len() != other.peers.len() {
            return self.peers.len() < other.peers.len();
        }
        if self.seed != other.seed {
            return self.seed < other.seed;
        }
        match compare_hashes(&self.hash, &other.hash) {
            Standing::Before => true,
            Standing::After => false,
            Standing::Same => match compare_peers(&self.peers, &other.peers) {
                Standing::Before => true,
                Standing::After => false,
                Standing::Same => self.piece_i < other.piece_i,
            },
        }
    }

    /// Holds this piece against `other` in the order in which pieces are
    /// pursued: `Less` where this one comes first, `Greater` where the other
    /// does, `Equal` where the order cannot tell them apart.
    pub fn cmp(&self, other: &Piece) -> (order: Ordering)
        ensures
            order == order_of(self@, other@),
            order == Ordering::Less <==> comes_before(self@, other@),
            order == Ordering::Greater <==> comes_before(other@, self@),
            order == Ordering::Equal <==> same_rank(self@, other@),
    {
        proof {
            if same_rank(self@, other@) {
                lemma_order_irreflexive(self@, other@);
                lemma_order_irreflexive(other@, self@);
            } else {
                lemma_order_total(self@, other@);
            }
        }
        if self.precedes(other) {
            Ordering::Less
        } else if other.precedes(self) {
            Ordering::Greater
        } else {
            Ordering::Equal
        }
    }

    /// The place of `peer` among the holders.
    fn find(&self, peer: usize) -> (k: usize)
        requires
            self@.wf(),
        ensures
            k == slot(self@.peers, peer),
            k <= self@.peers.len(),
    {
        let count = self.peers.len();
        let mut k: usize = 0;
        while k < count && self.peers[k] < peer
            invariant
                k <= count,
                count == self.peers@.len(),
                forall|j: int| 0 <= j < k ==> self.peers@[j] < peer,
            decreases count - k,
        {
            k += 1;
        }
        proof {
            lemma_slot(self.peers@, peer, k as int);
        }
        k
    }

    /// Whether `peer` is known to hold the piece.
    pub fn holds(&self, peer: usize) -> (held: bool)
        requires
            self@.wf(),
        ensures
            held == self@.peers.contains(peer),
    {
        let k = self.find(peer);
        proof {
            lemma_slot_bounds(self@.peers, peer);
            lemma_slot_of_member(self@.peers, peer);
        }
        k < self.peers.len() && self.peers[k] == peer
    }

    /// Records that `peer` holds the piece. Returns whether that is news.
    pub fn add_peer(&mut self, peer: usize) -> (added: bool)
        requires
            old(self)@.wf(),
        ensures
            final(self)@ == old(self)@.held_by(peer),
            final(self)@.wf(),
            added == !old(self)@.peers.contains(peer),
    {
        let k = self.find(peer);
        proof {
            lemma_slot_bounds(self@.peers, peer);
            lemma_with_peer(self@.peers, peer);
            lemma_slot_of_member(self@.peers, peer);
        }
        if k < self.peers.len() && self.peers[k] == peer {
            false
        } else {
            self.peers.insert(k, peer);
            true
        }
    }

    /// Records that `peer` no longer holds the piece, or is gone. Returns
    /// whether the peer was among the holders.
    pub fn remove_peer(&mut self, peer: usize) -> (removed: bool)
        requires
            old(self)@.wf(),
        ensures
            final(self)@ == old(self)@.lost_by(peer),
            final(self)@.wf(),
            removed == old(self)@.peers.contains(peer),
    {
        let k = self.find(peer);
        proof {
            lemma_slot_bounds(self@.peers, peer);
            lemma_without_peer(self@.peers, peer);
            lemma_slot_of_member(self@.peers, peer);
        }
        if k < self.peers.len() && self.peers[k] == peer {
            self.peers.remove(k);
            true
        } else {
            false
        }
    }
}

} // verus!
