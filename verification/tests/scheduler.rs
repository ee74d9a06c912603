use ltorrent::net::bitfield::BitField;
use ltorrent::net::wire::WireMessage;
use ltorrent::scheduler::{
    have_message, BlockRequest, Expired, InFlight, PieceScheduler, Probe, Receipt, Settings,
    Settled, BLOCK_SIZE,
};
use ltorrent::torrent::{info_hash, Hashes, Keys, Torrent};

const ANY: Probe = Probe { piece: None, block: None, peer: None, before: None };

fn of_peer(peer: usize) -> Probe {
    Probe { peer: Some(peer), ..ANY }
}

fn of_block(piece: usize, block: usize) -> Probe {
    Probe { piece: Some(piece), block: Some(block), ..ANY }
}

fn settings(depth: usize) -> Settings {
    Settings { block_size: 4, pipeline_depth: depth, failure_limit: 2, timeout_limit: 2 }
}

/// The bytes of the torrent: piece `p` holds the bytes `8 p .. 8 p + 8`.
fn content(length: usize) -> Vec<u8> {
    (0..length).map(|i| i as u8).collect()
}

fn torrent(n_pieces: usize, length: usize) -> Torrent {
    let data = content(length);
    let hashes = (0..n_pieces)
        .map(|p| info_hash(&data[p * 8..(p * 8 + 8).min(length)]))
        .collect();
    Torrent::new(
        "http://tracker.example.org/announce".to_string(),
        "data.bin".to_string(),
        8,
        Hashes(hashes),
        Keys::SingleFile { length },
    )
    .unwrap()
}

fn engine(n_pieces: usize, length: usize, seeds: &[u64], depth: usize) -> PieceScheduler {
    PieceScheduler::new(&torrent(n_pieces, length), seeds, settings(depth)).unwrap()
}

fn join(engine: &mut PieceScheduler, bits: u8) -> usize {
    let key = engine.add_peer(&BitField::from_payload(vec![bits]));
    engine.peer_unchoked(key);
    key
}

fn request(peer: usize, piece: usize, begin: usize, length: usize) -> BlockRequest {
    BlockRequest { peer, piece, begin, length }
}

fn block_of(piece: usize, begin: usize, length: usize) -> Vec<u8> {
    content(piece * 8 + begin + length)[piece * 8 + begin..].to_vec()
}

fn answer(engine: &mut PieceScheduler, r: BlockRequest) -> Receipt {
    engine.block_received(r.peer, r.piece, r.begin, block_of(r.piece, r.begin, r.length))
}

#[test]
fn the_block_size_is_sixteen_kib() {
    assert_eq!(BLOCK_SIZE, 16384);
    assert_eq!(
        Settings::new(5, 3, 4),
        Settings { block_size: 16384, pipeline_depth: 5, failure_limit: 3, timeout_limit: 4 }
    );
}

#[test]
fn a_piece_of_conventional_blocks_is_asked_for_block_by_block() {
    let data: Vec<u8> = (0..40000usize).map(|i| (i % 251) as u8).collect();
    let torrent = Torrent::new(
        String::new(),
        String::new(),
        40000,
        Hashes(vec![info_hash(&data)]),
        Keys::SingleFile { length: 40000 },
    )
    .unwrap();
    let mut engine = PieceScheduler::new(&torrent, &[0], Settings::new(2, 3, 3)).unwrap();
    let peer = join(&mut engine, 0b10000000);
    assert_eq!(engine.next_request(0), Some(request(peer, 0, 0, 16384)));
    assert_eq!(engine.next_request(0), Some(request(peer, 0, 16384, 16384)));
    assert_eq!(engine.next_request(0), None);
    assert!(engine.block_received(peer, 0, 0, data[..16384].to_vec()).accepted);
    assert_eq!(engine.next_request(0), Some(request(peer, 0, 32768, 40000 - 32768)));
    assert!(engine.block_received(peer, 0, 32768, data[32768..].to_vec()).accepted);
    let last = engine.block_received(peer, 0, 16384, data[16384..32768].to_vec());
    assert!(last.accepted && last.complete);
    let (bytes, settled) = engine.complete_piece(0).unwrap();
    assert_eq!(bytes, data);
    assert_eq!(settled, Settled::Verified { announce: vec![peer] });
}

#[test]
fn a_new_engine_has_nothing_to_ask() {
    let mut engine = engine(4, 27, &[0; 4], 5);
    assert_eq!(engine.n_pieces(), 4);
    assert_eq!(engine.n_peers(), 0);
    assert_eq!(engine.settings(), settings(5));
    assert_eq!(engine.count_in_flight(ANY), 0);
    assert!(!engine.is_endgame());
    assert_eq!(engine.next_request(0), None);
}

#[test]
fn there_is_no_engine_for_bad_settings_or_a_bad_torrent() {
    let good = torrent(4, 27);
    assert!(PieceScheduler::new(&good, &[0; 4], settings(5)).is_some());
    assert!(PieceScheduler::new(&good, &[0; 3], settings(5)).is_none());
    let no_blocks = Settings { block_size: 0, ..settings(5) };
    assert!(PieceScheduler::new(&good, &[0; 4], no_blocks).is_none());
    let bad = Torrent::new(
        String::new(),
        String::new(),
        8,
        Hashes(vec![[0; 20]; 4]),
        Keys::SingleFile { length: 8 },
    )
    .unwrap();
    assert!(PieceScheduler::new(&bad, &[0; 4], settings(5)).is_none());
}

#[test]
fn peers_get_keys_in_the_order_in_which_they_join() {
    let mut engine = engine(4, 27, &[0; 4], 5);
    assert_eq!(engine.add_peer(&BitField::from_payload(vec![0b01010000])), 0);
    assert_eq!(engine.add_peer(&BitField::from_payload(vec![])), 1);
    assert_eq!(engine.add_peer(&BitField::from_payload(vec![0xff, 0xff])), 2);
    assert_eq!(engine.n_peers(), 3);
    assert!(engine.interested_in(0));
    assert!(!engine.interested_in(1));
    assert!(engine.interested_in(2));
    assert!(!engine.interested_in(3));
}

#[test]
fn nothing_is_asked_of_a_peer_that_chokes() {
    let mut engine = engine(4, 27, &[0; 4], 5);
    let key = engine.add_peer(&BitField::from_payload(vec![0xf0]));
    assert!(!engine.is_ready(key));
    assert_eq!(engine.next_request(0), None);
    engine.peer_unchoked(key);
    assert!(engine.is_ready(key));
    assert!(engine.next_request(0).is_some());
}

#[test]
fn the_rarest_piece_is_asked_for_first() {
    // One peer has the pieces 1 and 3, the other the pieces 2 and 3; piece 2
    // has the smaller seed.
    let mut engine = engine(4, 27, &[0, 5, 3, 0], 10);
    let one = join(&mut engine, 0b01010000);
    let other = join(&mut engine, 0b00110000);
    let mut asked = Vec::new();
    while let Some(r) = engine.next_request(7) {
        asked.push(r);
    }
    assert_eq!(
        asked,
        vec![
            request(other, 2, 0, 4),
            request(other, 2, 4, 4),
            request(one, 1, 0, 4),
            request(one, 1, 4, 4),
            request(one, 3, 0, 3),
        ]
    );
    assert_eq!(engine.count_in_flight(ANY), 5);
    assert_eq!(engine.count_in_flight(of_peer(one)), 3);
    assert_eq!(engine.count_in_flight(of_peer(other)), 2);
}

#[test]
fn the_tie_between_equally_rare_pieces_is_broken_the_same_way_each_time() {
    for _ in 0..3 {
        let mut engine = engine(4, 27, &[0, 3, 5, 0], 10);
        let one = join(&mut engine, 0b01010000);
        join(&mut engine, 0b00110000);
        assert_eq!(engine.next_request(0), Some(request(one, 1, 0, 4)));
    }
}

#[test]
fn the_pipeline_takes_no_more_than_its_depth() {
    let mut engine = engine(4, 27, &[0; 4], 2);
    let key = join(&mut engine, 0xf0);
    assert!(engine.next_request(0).is_some());
    assert!(engine.next_request(0).is_some());
    assert!(!engine.is_ready(key));
    assert_eq!(engine.next_request(0), None);
    assert_eq!(engine.count_in_flight(of_peer(key)), 2);
}

#[test]
fn a_block_is_asked_of_one_peer_only_until_the_end_is_near() {
    let mut engine = engine(4, 27, &[0; 4], 10);
    join(&mut engine, 0b10000000);
    join(&mut engine, 0b10000000);
    assert_eq!(engine.next_request(0), Some(request(0, 0, 0, 4)));
    assert!(engine.is_endgame() == false);
    assert_eq!(engine.next_request(0), Some(request(0, 0, 4, 4)));
    assert_eq!(engine.next_request(0), None);
    assert_eq!(engine.count_in_flight(of_block(0, 0)), 1);
}

#[test]
fn near_the_end_a_block_is_asked_of_a_second_peer_and_receipt_cancels_the_other() {
    let mut engine = engine(1, 8, &[0], 10);
    join(&mut engine, 0b10000000);
    join(&mut engine, 0b10000000);
    assert!(!engine.is_endgame());
    assert_eq!(engine.next_request(0), Some(request(0, 0, 0, 4)));
    assert!(engine.is_endgame());
    assert_eq!(engine.next_request(1), Some(request(1, 0, 0, 4)));
    assert_eq!(engine.next_request(2), Some(request(0, 0, 4, 4)));
    assert_eq!(engine.next_request(3), Some(request(1, 0, 4, 4)));
    assert_eq!(engine.next_request(4), None);
    assert_eq!(engine.count_in_flight(of_block(0, 0)), 2);
    // The second peer answers first: the request at the first is withdrawn.
    let receipt = answer(&mut engine, request(1, 0, 0, 4));
    assert_eq!(
        receipt,
        Receipt { accepted: true, complete: false, cancels: vec![request(0, 0, 0, 4)] }
    );
    assert_eq!(engine.count_in_flight(of_block(0, 0)), 0);
    // The first peer answers the other block: the request at the second is withdrawn.
    let receipt = answer(&mut engine, request(0, 0, 4, 4));
    assert_eq!(
        receipt,
        Receipt { accepted: true, complete: true, cancels: vec![request(1, 0, 4, 4)] }
    );
    assert_eq!(engine.count_in_flight(ANY), 0);
}

#[test]
fn a_good_piece_is_verified_and_announced() {
    let mut engine = engine(2, 11, &[0, 0], 10);
    let a = join(&mut engine, 0b11000000);
    let b = engine.add_peer(&BitField::from_payload(vec![]));
    let gone = join(&mut engine, 0);
    engine.drop_peer(gone);
    let mut asked = Vec::new();
    while let Some(r) = engine.next_request(0) {
        asked.push(r);
    }
    assert_eq!(asked.len(), 3);
    assert_eq!(engine.complete_piece(0), None);
    for r in asked {
        assert!(answer(&mut engine, r).accepted);
    }
    let (bytes, settled) = engine.complete_piece(1).unwrap();
    assert_eq!(bytes, vec![8, 9, 10]);
    assert_eq!(settled, Settled::Verified { announce: vec![a, b] });
    assert!(engine.interested_in(a));
    let (bytes, settled) = engine.complete_piece(0).unwrap();
    assert_eq!(bytes, vec![0, 1, 2, 3, 4, 5, 6, 7]);
    assert_eq!(settled, Settled::Verified { announce: vec![a, b] });
    assert!(!engine.interested_in(a));
    assert_eq!(engine.complete_piece(0), None);
    assert_eq!(engine.complete_piece(2), None);
    assert_eq!(engine.next_request(0), None);
    assert!(!engine.is_endgame());
}

#[test]
fn a_bad_piece_is_asked_for_anew_from_nothing() {
    let mut engine = engine(1, 8, &[0], 10);
    let liar = join(&mut engine, 0b10000000);
    let first = engine.next_request(0).unwrap();
    let second = engine.next_request(0).unwrap();
    assert!(engine.block_received(liar, 0, first.begin, vec![9, 9, 9, 9]).accepted);
    let receipt = answer(&mut engine, second);
    assert!(receipt.accepted && receipt.complete);
    let (bytes, settled) = engine.complete_piece(0).unwrap();
    assert_eq!(bytes, vec![9, 9, 9, 9, 4, 5, 6, 7]);
    assert_eq!(settled, Settled::Rejected { disconnect: vec![] });
    assert_eq!(engine.complete_piece(0), None);
    assert!(engine.interested_in(liar));
    assert!(!engine.is_flagged(liar));
    // Every block is missing again and is asked for again.
    assert_eq!(engine.next_request(1), Some(request(liar, 0, 0, 4)));
    assert_eq!(engine.next_request(1), Some(request(liar, 0, 4, 4)));
    assert_eq!(engine.next_request(1), None);
}

#[test]
fn a_peer_with_repeated_failures_is_passed_over_while_another_holder_is_there() {
    let mut engine = engine(1, 8, &[0], 10);
    let liar = join(&mut engine, 0b10000000);
    // Two bad pieces from the only holder.
    for round in 0..2 {
        let first = engine.next_request(0).unwrap();
        let second = engine.next_request(0).unwrap();
        assert_eq!((first.peer, second.peer), (liar, liar));
        engine.block_received(liar, 0, first.begin, vec![0; 4]);
        engine.block_received(liar, 0, second.begin, vec![0; 4]);
        let (_, settled) = engine.complete_piece(0).unwrap();
        let expected = if round == 0 { vec![] } else { vec![liar] };
        assert_eq!(settled, Settled::Rejected { disconnect: expected });
    }
    assert!(engine.is_flagged(liar));
    assert!(!engine.has_trusted_holder(0));
    // As long as it is the only holder it is asked all the same.
    assert_eq!(engine.first_candidate(0), Some((0, liar)));
    // Once a trusted holder is there the flagged one is passed over,
    // although it has the smaller key.
    let honest = join(&mut engine, 0b10000000);
    assert!(engine.has_trusted_holder(0));
    assert_eq!(engine.next_request(0), Some(request(honest, 0, 0, 4)));
    assert_eq!(engine.next_request(0), Some(request(honest, 0, 4, 4)));
    assert_eq!(engine.next_request(0), None);
    assert!(answer(&mut engine, request(honest, 0, 0, 4)).accepted);
    assert!(answer(&mut engine, request(honest, 0, 4, 4)).complete);
    let (bytes, settled) = engine.complete_piece(0).unwrap();
    assert_eq!(bytes, content(8));
    assert_eq!(settled, Settled::Verified { announce: vec![liar, honest] });
}

#[test]
fn only_the_peers_that_sent_a_block_of_the_bad_piece_are_blamed() {
    let limit_one = Settings { failure_limit: 1, ..settings(1) };
    let mut engine = PieceScheduler::new(&torrent(1, 8), &[0], limit_one).unwrap();
    let honest = join(&mut engine, 0b10000000);
    let liar = join(&mut engine, 0b10000000);
    assert_eq!(engine.next_request(0), Some(request(honest, 0, 0, 4)));
    assert_eq!(engine.next_request(0), Some(request(liar, 0, 0, 4)));
    assert!(answer(&mut engine, request(honest, 0, 0, 4)).accepted);
    assert_eq!(engine.next_request(0), Some(request(honest, 0, 4, 4)));
    assert_eq!(engine.next_request(0), Some(request(liar, 0, 4, 4)));
    assert!(engine.block_received(liar, 0, 4, vec![1; 4]).complete);
    let bystander = join(&mut engine, 0b10000000);
    let (_, settled) = engine.complete_piece(0).unwrap();
    assert_eq!(settled, Settled::Rejected { disconnect: vec![honest, liar] });
    assert!(engine.is_flagged(honest));
    assert!(engine.is_flagged(liar));
    assert!(!engine.is_flagged(bystander));
    assert_eq!(engine.next_request(0), Some(request(bystander, 0, 0, 4)));
}

#[test]
fn dropping_a_peer_returns_what_was_asked_of_it() {
    let mut engine = engine(4, 27, &[0, 1, 2, 3], 3);
    let leaving = join(&mut engine, 0b11110000);
    let staying = join(&mut engine, 0b11110000);
    let mut asked = Vec::new();
    while let Some(r) = engine.next_request(9) {
        asked.push(r);
    }
    assert_eq!(
        asked,
        vec![
            request(leaving, 0, 0, 4),
            request(leaving, 0, 4, 4),
            request(leaving, 1, 0, 4),
            request(staying, 1, 4, 4),
            request(staying, 2, 0, 4),
            request(staying, 2, 4, 4),
        ]
    );
    let released = engine.drop_peer(leaving);
    assert_eq!(
        released,
        vec![
            InFlight { piece: 0, block: 0, peer: leaving, issued_at: 9 },
            InFlight { piece: 0, block: 1, peer: leaving, issued_at: 9 },
            InFlight { piece: 1, block: 0, peer: leaving, issued_at: 9 },
        ]
    );
    assert_eq!(engine.count_in_flight(of_peer(leaving)), 0);
    assert_eq!(engine.count_in_flight(of_peer(staying)), 3);
    assert_eq!(engine.count_in_flight(ANY), 3);
    assert!(!engine.interested_in(leaving));
    assert!(!engine.is_ready(leaving));
    assert!(engine.drop_peer(leaving).is_empty());
    // The blocks that came back go to the peer that stayed, one for each
    // answer that makes room.
    assert_eq!(engine.next_request(10), None);
    assert!(answer(&mut engine, request(staying, 1, 4, 4)).accepted);
    assert_eq!(engine.next_request(10), Some(request(staying, 0, 0, 4)));
    assert!(answer(&mut engine, request(staying, 2, 0, 4)).accepted);
    assert_eq!(engine.next_request(10), Some(request(staying, 0, 4, 4)));
    assert!(answer(&mut engine, request(staying, 2, 4, 4)).complete);
    assert_eq!(engine.next_request(10), Some(request(staying, 1, 0, 4)));
    assert_eq!(engine.count_in_flight(of_block(0, 0)), 1);
    assert_eq!(engine.count_in_flight(of_block(0, 1)), 1);
    assert_eq!(engine.count_in_flight(of_block(1, 0)), 1);
}

#[test]
fn a_choke_returns_what_was_asked_of_the_peer_and_keeps_the_peer() {
    let mut engine = engine(4, 27, &[0, 1, 2, 3], 2);
    let key = join(&mut engine, 0b11110000);
    assert!(engine.next_request(1).is_some());
    assert!(engine.next_request(2).is_some());
    let released = engine.peer_choked(key);
    assert_eq!(
        released,
        vec![
            InFlight { piece: 0, block: 0, peer: key, issued_at: 1 },
            InFlight { piece: 0, block: 1, peer: key, issued_at: 2 },
        ]
    );
    assert_eq!(engine.count_in_flight(ANY), 0);
    assert!(engine.interested_in(key));
    assert_eq!(engine.next_request(3), None);
    // A block that was given up is no longer expected.
    assert_eq!(
        answer(&mut engine, request(key, 0, 0, 4)),
        Receipt { accepted: false, complete: false, cancels: vec![] }
    );
    engine.peer_unchoked(key);
    assert_eq!(engine.next_request(4), Some(request(key, 0, 0, 4)));
}

#[test]
fn a_block_that_was_not_asked_for_is_passed_over() {
    let mut engine = engine(2, 11, &[0, 1], 10);
    let asked = join(&mut engine, 0b11000000);
    let other = join(&mut engine, 0b11000000);
    assert_eq!(engine.next_request(0), Some(request(asked, 0, 0, 4)));
    let refused = Receipt { accepted: false, complete: false, cancels: vec![] };
    // From a peer that was not asked.
    assert_eq!(engine.block_received(other, 0, 0, vec![0, 1, 2, 3]), refused);
    // Of the wrong size, at an offset that is no start of a block, of a
    // block or a piece that is not there.
    assert_eq!(engine.block_received(asked, 0, 0, vec![0, 1, 2]), refused);
    assert_eq!(engine.block_received(asked, 0, 0, vec![0, 1, 2, 3, 4]), refused);
    assert_eq!(engine.block_received(asked, 0, 1, vec![1, 2, 3, 4]), refused);
    assert_eq!(engine.block_received(asked, 0, 8, vec![0; 4]), refused);
    assert_eq!(engine.block_received(asked, 2, 0, vec![0; 4]), refused);
    assert_eq!(engine.block_received(asked, usize::MAX, 0, vec![0; 4]), refused);
    assert_eq!(engine.count_in_flight(ANY), 1);
    // The block that was asked for.
    assert_eq!(
        engine.block_received(asked, 0, 0, vec![0, 1, 2, 3]),
        Receipt { accepted: true, complete: false, cancels: vec![] }
    );
    // And once more: it is no longer missing.
    assert_eq!(engine.block_received(asked, 0, 0, vec![0, 1, 2, 3]), refused);
}

#[test]
fn an_announcement_makes_a_peer_a_holder() {
    let mut engine = engine(4, 27, &[0; 4], 10);
    let key = join(&mut engine, 0);
    assert!(!engine.interested_in(key));
    assert_eq!(engine.next_request(0), None);
    engine.peer_has(key, 3);
    engine.peer_has(key, 4);
    engine.peer_has(9, 2);
    assert!(engine.interested_in(key));
    assert_eq!(engine.next_request(0), Some(request(key, 3, 0, 3)));
    assert_eq!(engine.next_request(0), None);
    let gone = join(&mut engine, 0);
    engine.drop_peer(gone);
    engine.peer_has(gone, 0);
    assert!(!engine.interested_in(gone));
}

#[test]
fn requests_left_unanswered_are_given_up() {
    let mut engine = engine(4, 27, &[0, 1, 2, 3], 3);
    let slow = join(&mut engine, 0b11110000);
    assert_eq!(engine.next_request(100), Some(request(slow, 0, 0, 4)));
    assert_eq!(engine.next_request(110), Some(request(slow, 0, 4, 4)));
    assert_eq!(engine.next_request(120), Some(request(slow, 1, 0, 4)));
    // Deadline of 30: at time 130 nothing is older than that.
    assert_eq!(
        engine.expire(130, 30),
        Expired { released: vec![], disconnect: vec![] }
    );
    // At time 141 the first two are.
    assert_eq!(
        engine.expire(141, 30),
        Expired {
            released: vec![
                InFlight { piece: 0, block: 0, peer: slow, issued_at: 100 },
                InFlight { piece: 0, block: 1, peer: slow, issued_at: 110 },
            ],
            disconnect: vec![],
        }
    );
    assert_eq!(engine.count_in_flight(of_peer(slow)), 1);
    assert!(engine.is_ready(slow));
    // The third makes three in a row, one more than is put up with.
    assert_eq!(
        engine.expire(200, 30),
        Expired {
            released: vec![InFlight { piece: 1, block: 0, peer: slow, issued_at: 120 }],
            disconnect: vec![slow],
        }
    );
    assert_eq!(engine.count_in_flight(ANY), 0);
    // A deadline that reaches back before the start gives up nothing.
    assert_eq!(engine.next_request(5), Some(request(slow, 0, 0, 4)));
    assert_eq!(engine.expire(10, 30).released, vec![]);
}

#[test]
fn a_block_that_arrives_clears_the_timeouts_of_its_peer() {
    let mut engine = engine(4, 27, &[0, 1, 2, 3], 3);
    let peer = join(&mut engine, 0b11110000);
    engine.next_request(0);
    engine.next_request(0);
    engine.next_request(50);
    assert_eq!(engine.expire(40, 30).disconnect, vec![]);
    assert!(answer(&mut engine, request(peer, 1, 0, 4)).accepted);
    engine.next_request(60);
    engine.next_request(60);
    assert_eq!(engine.expire(100, 30).disconnect, vec![]);
    engine.next_request(100);
    assert_eq!(engine.expire(200, 30).disconnect, vec![peer]);
}

#[test]
fn requests_become_wire_messages() {
    assert_eq!(
        request(3, 1, 16384, 16384).request_message(),
        Some(WireMessage::Request { piece_index: 1, begin: 16384, length: 16384 })
    );
    assert_eq!(
        request(3, 1, 16384, 16384).cancel_message(),
        Some(WireMessage::Cancel { piece_index: 1, begin: 16384, length: 16384 })
    );
    assert_eq!(have_message(7), Some(WireMessage::Have { piece_index: 7 }));
    assert_eq!(
        have_message(u32::MAX as usize),
        Some(WireMessage::Have { piece_index: u32::MAX })
    );
}

#[test]
fn numbers_that_do_not_fit_the_wire_give_no_message() {
    if usize::BITS > 32 {
        let big = u32::MAX as usize + 1;
        assert_eq!(request(0, big, 0, 1).request_message(), None);
        assert_eq!(request(0, 0, big, 1).request_message(), None);
        assert_eq!(request(0, 0, 0, big).cancel_message(), None);
        assert_eq!(have_message(big), None);
    }
}
