use std::cmp::Ordering;

use ltorrent::net::bitfield::BitField;
use ltorrent::piece::Piece;
use ltorrent::progress::PieceProgress;
use ltorrent::rarity::PieceRarityIndex;
use ltorrent::torrent::{Hashes, Keys, Torrent};

fn torrent_of(hashes: Vec<[u8; 20]>, piece_length: usize, length: usize) -> Torrent {
    Torrent::new(
        "http://tracker.example.org/announce".to_string(),
        "data.bin".to_string(),
        piece_length,
        Hashes(hashes),
        Keys::SingleFile { length },
    )
    .unwrap()
}

fn four_pieces() -> Torrent {
    torrent_of(vec![[4; 20], [3; 20], [2; 20], [1; 20]], 8, 27)
}

fn piece(torrent: &Torrent, index: usize, seed: u64, holders: &[usize]) -> Piece {
    let mut piece = Piece::new(index, torrent, seed).unwrap();
    for holder in holders {
        piece.add_peer(*holder);
    }
    piece
}

#[test]
fn a_new_piece_describes_its_place_in_the_torrent() {
    let torrent = four_pieces();
    let first = Piece::new(0, &torrent, 11).unwrap();
    assert_eq!(first.piece_i(), 0);
    assert_eq!(first.length(), 8);
    assert_eq!(first.hash(), &[4; 20]);
    assert_eq!(first.seed(), 11);
    assert_eq!(first.rarity(), 0);
    assert!(first.peers().is_empty());
    let last = Piece::new(3, &torrent, 0).unwrap();
    assert_eq!(last.length(), 3);
    assert_eq!(last.hash(), &[1; 20]);
    assert!(Piece::new(4, &torrent, 0).is_none());
    assert!(Piece::new(0, &torrent_of(vec![[0; 20]], 0, 5), 0).is_none());
    assert!(Piece::new(0, &torrent_of(vec![[0; 20]; 2], 8, 8), 0).is_none());
}

#[test]
fn holders_are_kept_in_ascending_order_each_once() {
    let torrent = four_pieces();
    let mut piece = Piece::new(1, &torrent, 0).unwrap();
    assert!(piece.add_peer(5));
    assert!(piece.add_peer(2));
    assert!(piece.add_peer(9));
    assert!(!piece.add_peer(5));
    assert!(piece.add_peer(0));
    assert_eq!(piece.peers(), &vec![0, 2, 5, 9]);
    assert_eq!(piece.rarity(), 4);
    assert!(piece.holds(5));
    assert!(!piece.holds(4));
    assert!(piece.remove_peer(2));
    assert!(!piece.remove_peer(2));
    assert!(!piece.remove_peer(100));
    assert_eq!(piece.peers(), &vec![0, 5, 9]);
    assert!(piece.remove_peer(9));
    assert!(piece.remove_peer(0));
    assert!(piece.remove_peer(5));
    assert_eq!(piece.rarity(), 0);
    assert!(!piece.holds(5));
}

#[test]
fn the_rarer_piece_comes_first() {
    let torrent = four_pieces();
    let rare = piece(&torrent, 3, 99, &[7]);
    let common = piece(&torrent, 0, 0, &[1, 2]);
    assert!(rare.precedes(&common));
    assert!(!common.precedes(&rare));
    assert_eq!(rare.cmp(&common), Ordering::Less);
    assert_eq!(common.cmp(&rare), Ordering::Greater);
}

#[test]
fn ties_are_broken_by_seed_then_hash_then_holders_then_index() {
    let torrent = four_pieces();
    // Same rarity: the smaller seed decides, whatever hash and index say.
    let a = piece(&torrent, 3, 1, &[9]);
    let b = piece(&torrent, 0, 2, &[0]);
    assert!(a.precedes(&b));
    assert!(!b.precedes(&a));
    // Same rarity and seed: the smaller hash decides.
    let c = piece(&torrent, 0, 5, &[0]);
    let d = piece(&torrent, 1, 5, &[9]);
    assert!(d.precedes(&c));
    assert!(!c.precedes(&d));
    // Same rarity, seed and hash: the smaller list of holders decides.
    let same_hash = torrent_of(vec![[6; 20], [6; 20], [6; 20]], 8, 24);
    let e = piece(&same_hash, 2, 5, &[1, 4]);
    let f = piece(&same_hash, 0, 5, &[1, 5]);
    assert!(e.precedes(&f));
    assert!(!f.precedes(&e));
    // All the same but the index: the smaller index decides.
    let g = piece(&same_hash, 1, 5, &[1, 4]);
    assert!(g.precedes(&e));
    assert!(!e.precedes(&g));
    assert_eq!(g.cmp(&e), Ordering::Less);
    assert_eq!(e.cmp(&g), Ordering::Greater);
}

#[test]
fn pieces_are_held_against_each_other_with_the_usual_signs() {
    let torrent = four_pieces();
    let rare = piece(&torrent, 3, 99, &[7]);
    let common = piece(&torrent, 0, 0, &[1, 2]);
    assert_eq!(rare.partial_cmp(&common), Some(Ordering::Less));
    assert_eq!(common.partial_cmp(&rare), Some(Ordering::Greater));
    assert_eq!(rare.partial_cmp(&rare), Some(Ordering::Equal));
    assert!(rare < common);
    assert!(rare <= common);
    assert!(common > rare);
    assert!(common >= rare);
    assert!(!(common < rare));
    assert!(rare <= rare && rare >= rare);
    assert!(!(rare < rare));
}

#[test]
fn a_piece_does_not_come_before_itself() {
    let torrent = four_pieces();
    let a = piece(&torrent, 2, 5, &[1, 4]);
    let b = piece(&torrent, 2, 5, &[4, 1]);
    assert!(!a.precedes(&a));
    assert!(!a.precedes(&b));
    assert_eq!(a.cmp(&b), Ordering::Equal);
    assert_eq!(a, b);
}

#[test]
fn hashes_are_ordered_byte_by_byte() {
    let mut low = [9u8; 20];
    low[19] = 8;
    let mut high = [9u8; 20];
    high[0] = 10;
    high[19] = 0;
    let torrent = torrent_of(vec![[9; 20], low, high], 8, 24);
    let nine = piece(&torrent, 0, 0, &[]);
    let low = piece(&torrent, 1, 0, &[]);
    let high = piece(&torrent, 2, 0, &[]);
    assert!(low.precedes(&nine));
    assert!(nine.precedes(&high));
    assert!(low.precedes(&high));
    assert!(!high.precedes(&low));
}

#[test]
fn the_order_is_total_on_a_sample() {
    let torrent = torrent_of(vec![[2; 20], [1; 20], [2; 20], [1; 20]], 8, 32);
    let mut pieces = Vec::new();
    for index in 0..4usize {
        for seed in 0..2u64 {
            for holders in [&[][..], &[1][..], &[2][..], &[1, 2][..]] {
                pieces.push(piece(&torrent, index, seed, holders));
            }
        }
    }
    for a in &pieces {
        for b in &pieces {
            let same = std::ptr::eq(a, b);
            assert_eq!(a.precedes(b) || b.precedes(a), !same);
            assert!(!(a.precedes(b) && b.precedes(a)));
            for c in &pieces {
                if a.precedes(b) && b.precedes(c) {
                    assert!(a.precedes(c));
                }
            }
        }
    }
}

#[test]
fn rarity_counts_the_holders_of_each_piece() {
    let torrent = four_pieces();
    let mut index = PieceRarityIndex::new(&torrent, &[0, 0, 0, 0]).unwrap();
    assert_eq!(index.len(), 4);
    // Peer 1 has the pieces 1 and 3, peer 2 has the pieces 2 and 3.
    index.record_bitfield(1, &BitField::from_payload(vec![0b01010000]));
    index.record_bitfield(2, &BitField::from_payload(vec![0b00110000]));
    assert_eq!(index.rarity(0), 0);
    assert_eq!(index.rarity(1), 1);
    assert_eq!(index.rarity(2), 1);
    assert_eq!(index.rarity(3), 2);
    assert_eq!(index.rarity(4), 0);
    assert_eq!(index.piece(3).peers(), &vec![1, 2]);
    assert!(index.holds(1, 1));
    assert!(!index.holds(2, 1));
    assert!(index.holds(2, 3));
    assert!(!index.holds(1, 4));
}

#[test]
fn the_rarest_piece_is_selected_with_a_fixed_tie_break() {
    let torrent = four_pieces();
    // Piece 1 has the greater seed: piece 2 wins the tie.
    let mut index = PieceRarityIndex::new(&torrent, &[0, 5, 3, 0]).unwrap();
    index.record_bitfield(1, &BitField::from_payload(vec![0b01010000]));
    index.record_bitfield(2, &BitField::from_payload(vec![0b00110000]));
    assert_eq!(index.select(&[false, true, true, true]), Some(2));
    assert_eq!(index.select(&[false, true, false, true]), Some(1));
    assert_eq!(index.select(&[false, false, false, true]), Some(3));
    assert_eq!(index.select(&[false, false, false, false]), None);
    assert_eq!(index.select(&[]), None);
    // With equal seeds the hash decides: piece 2 has the smaller one.
    let mut index = PieceRarityIndex::new(&torrent, &[7, 7, 7, 7]).unwrap();
    index.record_bitfield(1, &BitField::from_payload(vec![0b01010000]));
    index.record_bitfield(2, &BitField::from_payload(vec![0b00110000]));
    assert_eq!(index.select(&[false, true, true, true]), Some(2));
    // Selecting is repeatable.
    assert_eq!(index.select(&[false, true, true, true]), Some(2));
}

#[test]
fn the_index_follows_announcements_and_departures() {
    let torrent = four_pieces();
    let mut index = PieceRarityIndex::new(&torrent, &[0, 0, 0, 0]).unwrap();
    assert!(index.record_have(3, 0));
    assert!(!index.record_have(3, 0));
    assert!(index.record_have(1, 0));
    assert!(!index.record_have(1, 4));
    assert!(!index.record_have(1, usize::MAX));
    assert_eq!(index.piece(0).peers(), &vec![1, 3]);
    index.record_bitfield(3, &BitField::from_payload(vec![0xff, 0xff]));
    for piece in 0..4usize {
        assert!(index.holds(3, piece));
    }
    assert_eq!(index.rarity(0), 2);
    index.forget_peer(3);
    assert_eq!(index.rarity(0), 1);
    for piece in 1..4usize {
        assert_eq!(index.rarity(piece), 0);
    }
    index.forget_peer(3);
    assert_eq!(index.piece(0).peers(), &vec![1]);
}

#[test]
fn there_is_no_index_without_a_seed_for_each_piece() {
    let torrent = four_pieces();
    assert!(PieceRarityIndex::new(&torrent, &[0, 0, 0]).is_none());
    assert!(PieceRarityIndex::new(&torrent, &[0, 0, 0, 0, 0]).is_none());
    assert!(PieceRarityIndex::new(&torrent_of(vec![[0; 20]; 2], 8, 8), &[0, 0]).is_none());
    let empty = PieceRarityIndex::new(&torrent_of(Vec::new(), 8, 0), &[]).unwrap();
    assert_eq!(empty.len(), 0);
    assert_eq!(empty.select(&[true]), None);
    let index = PieceRarityIndex::new(&torrent, &[4, 3, 2, 1]).unwrap();
    for piece in 0..4usize {
        assert_eq!(index.piece(piece).piece_i(), piece);
        assert_eq!(index.piece(piece).seed(), 4 - piece as u64);
        assert_eq!(index.piece(piece).rarity(), 0);
    }
}

#[test]
fn a_piece_is_cut_into_blocks() {
    let progress = PieceProgress::new(40000, 16384);
    assert_eq!(progress.length(), 40000);
    assert_eq!(progress.n_blocks(), 3);
    assert_eq!(progress.block_begin(0), 0);
    assert_eq!(progress.block_begin(1), 16384);
    assert_eq!(progress.block_begin(2), 32768);
    assert_eq!(progress.block_length(0), 16384);
    assert_eq!(progress.block_length(1), 16384);
    assert_eq!(progress.block_length(2), 40000 - 32768);
    assert_eq!(PieceProgress::new(32768, 16384).n_blocks(), 2);
    assert_eq!(PieceProgress::new(32768, 16384).block_length(1), 16384);
    assert_eq!(PieceProgress::new(1, 16384).n_blocks(), 1);
    assert_eq!(PieceProgress::new(1, 16384).block_length(0), 1);
    assert_eq!(PieceProgress::new(0, 16384).n_blocks(), 0);
    assert_eq!(PieceProgress::new(5, 1).n_blocks(), 5);
}

#[test]
fn blocks_arrive_in_any_order_and_are_put_together_in_order() {
    let mut progress = PieceProgress::new(10, 4);
    assert!(!progress.is_complete());
    assert_eq!(progress.wanted_block(8, 2), Some(2));
    assert_eq!(progress.wanted_block(8, 4), None);
    assert_eq!(progress.wanted_block(8, 1), None);
    assert_eq!(progress.wanted_block(2, 4), None);
    assert_eq!(progress.wanted_block(12, 4), None);
    assert_eq!(progress.wanted_block(0, 4), Some(0));
    progress.store(2, 7, vec![8, 9]);
    assert!(!progress.is_missing(2));
    assert!(progress.is_missing(0));
    assert!(!progress.is_missing(3));
    assert_eq!(progress.wanted_block(8, 2), None);
    progress.store(0, 5, vec![0, 1, 2, 3]);
    assert!(!progress.is_complete());
    progress.store(1, 7, vec![4, 5, 6, 7]);
    assert!(progress.is_complete());
    assert_eq!(progress.assemble(), vec![0, 1, 2, 3, 4, 5, 6, 7, 8, 9]);
    assert!(progress.supplied_by(5));
    assert!(progress.supplied_by(7));
    assert!(!progress.supplied_by(6));
    progress.reset();
    assert!(!progress.is_complete());
    for block in 0..3usize {
        assert!(progress.is_missing(block));
    }
    assert!(!progress.supplied_by(5));
    assert_eq!(progress.wanted_block(8, 2), Some(2));
}
