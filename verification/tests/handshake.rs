use bytes::BytesMut;
use ltorrent::net::message::{Message, MessageFramer, MessageTag};
use ltorrent::net::peers::{
    check_handshake, HandShakeMessage, HandshakeError, LinkError, LinkEvent, LinkState, Peer,
    PeerAddress, PeerConnectionBuilder, HANDSHAKE_LENGTH, PROTOCOL_NAME,
};
use ltorrent::net::wire::WireMessage;

fn info_hash() -> [u8; 20] {
    let mut hash = [0u8; 20];
    for (i, byte) in hash.iter_mut().enumerate() {
        *byte = 100 + i as u8;
    }
    hash
}

fn peer_id(first: u8) -> [u8; 20] {
    let mut id = [0u8; 20];
    for (i, byte) in id.iter_mut().enumerate() {
        *byte = first + i as u8;
    }
    id
}

fn address() -> PeerAddress {
    PeerAddress { ip: [10, 0, 0, 7], port: 6881 }
}

fn reply_of(info_hash: [u8; 20], id: [u8; 20]) -> Vec<u8> {
    HandShakeMessage::new(info_hash, id).to_bytes().to_vec()
}

fn established(n_pieces: usize, bits: Vec<u8>) -> Peer {
    let mut peer = PeerConnectionBuilder::new(address(), info_hash(), peer_id(1), n_pieces).start();
    peer.receive_handshake(&reply_of(info_hash(), peer_id(50))).unwrap();
    let first = Message::new(MessageTag::Bitfield, bits).unwrap();
    assert_eq!(peer.receive(&first), Ok(LinkEvent::Inventory));
    peer
}

const FRESH: LinkState = LinkState::Established {
    choked: true,
    interested: false,
    peer_choked: true,
    peer_interested: false,
};

#[test]
fn the_protocol_name_is_bittorrent_protocol() {
    assert_eq!(&PROTOCOL_NAME[..], b"BitTorrent protocol");
    assert_eq!(HANDSHAKE_LENGTH, 68);
}

#[test]
fn a_new_handshake_has_the_fixed_fields() {
    let handshake = HandShakeMessage::new(info_hash(), peer_id(1));
    assert_eq!(handshake.length, 19);
    assert_eq!(&handshake.protocol[..], b"BitTorrent protocol");
    assert_eq!(handshake.reserved, [0u8; 8]);
    assert_eq!(handshake.info_hash, info_hash());
    assert_eq!(handshake.peer_id, peer_id(1));
}

#[test]
fn to_bytes_lays_the_fields_out_in_wire_order() {
    let bytes = HandShakeMessage::new(info_hash(), peer_id(1)).to_bytes();
    assert_eq!(bytes.len(), 68);
    assert_eq!(bytes[0], 19);
    assert_eq!(&bytes[1..20], b"BitTorrent protocol");
    assert_eq!(&bytes[20..28], &[0u8; 8]);
    assert_eq!(&bytes[28..48], &info_hash());
    assert_eq!(&bytes[48..68], &peer_id(1));
}

#[test]
fn to_bytes_writes_whatever_the_fields_hold() {
    let handshake = HandShakeMessage {
        length: 3,
        protocol: [b'x'; 19],
        reserved: [1, 2, 3, 4, 5, 6, 7, 8],
        info_hash: [9; 20],
        peer_id: [8; 20],
    };
    let bytes = handshake.to_bytes();
    assert_eq!(bytes[0], 3);
    assert_eq!(&bytes[1..20], &[b'x'; 19]);
    assert_eq!(&bytes[20..28], &[1, 2, 3, 4, 5, 6, 7, 8]);
    assert_eq!(&bytes[28..48], &[9; 20]);
    assert_eq!(&bytes[48..68], &[8; 20]);
}

#[test]
fn check_handshake_captures_the_peer_id() {
    let reply = reply_of(info_hash(), peer_id(50));
    assert_eq!(check_handshake(&reply, &info_hash()), Ok(peer_id(50)));
}

#[test]
fn check_handshake_refuses_a_short_or_long_record() {
    let reply = reply_of(info_hash(), peer_id(50));
    assert_eq!(
        check_handshake(&reply[..67], &info_hash()),
        Err(HandshakeError::WrongLength { length: 67 })
    );
    assert_eq!(
        check_handshake(&[], &info_hash()),
        Err(HandshakeError::WrongLength { length: 0 })
    );
    let mut long = reply.clone();
    long.push(0);
    assert_eq!(
        check_handshake(&long, &info_hash()),
        Err(HandshakeError::WrongLength { length: 69 })
    );
}

#[test]
fn check_handshake_refuses_another_protocol() {
    for at in 1..20usize {
        let mut reply = reply_of(info_hash(), peer_id(50));
        reply[at] ^= 1;
        assert_eq!(
            check_handshake(&reply, &info_hash()),
            Err(HandshakeError::ProtocolMismatch)
        );
    }
}

#[test]
fn check_handshake_refuses_another_torrent() {
    for at in 28..48usize {
        let mut reply = reply_of(info_hash(), peer_id(50));
        reply[at] ^= 0x80;
        assert_eq!(
            check_handshake(&reply, &info_hash()),
            Err(HandshakeError::InfoHashMismatch)
        );
    }
}

#[test]
fn check_handshake_looks_at_the_protocol_before_the_hash() {
    let mut reply = reply_of([0; 20], peer_id(50));
    reply[5] = 0;
    assert_eq!(
        check_handshake(&reply, &info_hash()),
        Err(HandshakeError::ProtocolMismatch)
    );
}

#[test]
fn check_handshake_passes_over_length_byte_and_reserved_bytes() {
    let mut reply = reply_of(info_hash(), peer_id(50));
    reply[0] = 0;
    for at in 20..28 {
        reply[at] = 0xff;
    }
    assert_eq!(check_handshake(&reply, &info_hash()), Ok(peer_id(50)));
}

#[test]
fn the_builder_hands_out_our_handshake() {
    let builder = PeerConnectionBuilder::new(address(), info_hash(), peer_id(1), 16);
    assert_eq!(builder.address(), address());
    assert_eq!(
        builder.handshake(),
        HandShakeMessage::new(info_hash(), peer_id(1)).to_bytes()
    );
}

#[test]
fn check_reply_holds_the_record_against_our_torrent() {
    let builder = PeerConnectionBuilder::new(address(), info_hash(), peer_id(1), 16);
    assert_eq!(builder.check_reply(&reply_of(info_hash(), peer_id(50))), Ok(peer_id(50)));
    assert_eq!(
        builder.check_reply(&reply_of([0; 20], peer_id(50))),
        Err(HandshakeError::InfoHashMismatch)
    );
    assert_eq!(
        builder.check_reply(&[1, 2, 3]),
        Err(HandshakeError::WrongLength { length: 3 })
    );
}

#[test]
fn build_leads_to_an_established_connection() {
    let builder = PeerConnectionBuilder::new(address(), info_hash(), peer_id(1), 16);
    let reply = reply_of(info_hash(), peer_id(50));
    let first = Message::new(MessageTag::Bitfield, vec![0b10101010, 0b01010101]).unwrap();
    let peer = builder.build(&reply, Some(&first)).ok().unwrap();
    assert_eq!(peer.state(), FRESH);
    assert_eq!(peer.peer_id(), &peer_id(50));
    assert_eq!(peer.address(), address());
    assert!(peer.has_piece(0));
    assert!(!peer.has_piece(1));
    assert!(peer.has_piece(15));
    assert_eq!(peer.bitfield().payload, vec![0b10101010, 0b01010101]);
}

#[test]
fn build_without_a_first_message_takes_the_peer_to_have_nothing() {
    let builder = PeerConnectionBuilder::new(address(), info_hash(), peer_id(1), 16);
    let peer = builder.build(&reply_of(info_hash(), peer_id(50)), None).ok().unwrap();
    assert_eq!(peer.state(), FRESH);
    assert_eq!(peer.peer_id(), &peer_id(50));
    assert!(peer.bitfield().payload.is_empty());
}

#[test]
fn build_fails_on_a_bad_handshake_or_a_wrong_first_message() {
    let builder = PeerConnectionBuilder::new(address(), info_hash(), peer_id(1), 16);
    let bitfield = Message::new(MessageTag::Bitfield, vec![0xff]).unwrap();
    let mut reply = reply_of(info_hash(), peer_id(50));
    reply[3] = b'X';
    assert!(matches!(
        builder.build(&reply, Some(&bitfield)),
        Err(LinkError::Handshake { reason: HandshakeError::ProtocolMismatch })
    ));
    assert!(matches!(
        builder.build(&reply_of([1; 20], peer_id(50)), None),
        Err(LinkError::Handshake { reason: HandshakeError::InfoHashMismatch })
    ));
    assert!(matches!(
        builder.build(&[], Some(&bitfield)),
        Err(LinkError::Handshake { reason: HandshakeError::WrongLength { length: 0 } })
    ));
    let unchoke = Message::without_payload(MessageTag::UnChoke).unwrap();
    assert!(matches!(
        builder.build(&reply_of(info_hash(), peer_id(50)), Some(&unchoke)),
        Err(LinkError::ExpectedBitfield { tag: MessageTag::UnChoke })
    ));
}

#[test]
fn interest_is_told_when_it_changes() {
    let mut peer = established(16, vec![0xff, 0xff]);
    assert_eq!(peer.interest_update(false), None);
    assert_eq!(peer.interest_update(true), Some(WireMessage::Interested));
    peer.send(&WireMessage::Interested).unwrap();
    assert_eq!(peer.interest_update(true), None);
    assert_eq!(peer.interest_update(false), Some(WireMessage::NotInterested));
    peer.send(&WireMessage::NotInterested).unwrap();
    assert_eq!(peer.interest_update(false), None);
    let fresh = PeerConnectionBuilder::new(address(), info_hash(), peer_id(1), 16).start();
    assert_eq!(fresh.interest_update(true), None);
}

#[test]
fn a_started_peer_awaits_the_handshake() {
    let peer = PeerConnectionBuilder::new(address(), info_hash(), peer_id(1), 16).start();
    assert_eq!(peer.state(), LinkState::AwaitingHandshake);
    assert_eq!(peer.address(), address());
    assert_eq!(peer.peer_id(), &[0u8; 20]);
    assert!(!peer.has_piece(0));
}

#[test]
fn a_good_handshake_leads_to_awaiting_the_bitfield() {
    let mut peer = PeerConnectionBuilder::new(address(), info_hash(), peer_id(1), 16).start();
    assert_eq!(peer.receive_handshake(&reply_of(info_hash(), peer_id(50))), Ok(()));
    assert_eq!(peer.state(), LinkState::AwaitingBitfield);
    assert_eq!(peer.peer_id(), &peer_id(50));
}

#[test]
fn a_bad_handshake_closes_the_connection() {
    let mut peer = PeerConnectionBuilder::new(address(), info_hash(), peer_id(1), 16).start();
    assert_eq!(
        peer.receive_handshake(&reply_of([0; 20], peer_id(50))),
        Err(LinkError::Handshake { reason: HandshakeError::InfoHashMismatch })
    );
    assert_eq!(peer.state(), LinkState::Closed);
    let mut peer = PeerConnectionBuilder::new(address(), info_hash(), peer_id(1), 16).start();
    assert_eq!(
        peer.receive_handshake(&[19, 1, 2]),
        Err(LinkError::Handshake { reason: HandshakeError::WrongLength { length: 3 } })
    );
    assert_eq!(peer.state(), LinkState::Closed);
}

#[test]
fn a_second_handshake_closes_the_connection() {
    let mut peer = PeerConnectionBuilder::new(address(), info_hash(), peer_id(1), 16).start();
    let reply = reply_of(info_hash(), peer_id(50));
    peer.receive_handshake(&reply).unwrap();
    assert_eq!(peer.receive_handshake(&reply), Err(LinkError::NotReady));
    assert_eq!(peer.state(), LinkState::Closed);
}

#[test]
fn a_message_before_the_handshake_closes_the_connection() {
    let mut peer = PeerConnectionBuilder::new(address(), info_hash(), peer_id(1), 16).start();
    let message = Message::new(MessageTag::Bitfield, vec![0xff]).unwrap();
    assert_eq!(peer.receive(&message), Err(LinkError::NotReady));
    assert_eq!(peer.state(), LinkState::Closed);
    assert_eq!(peer.receive(&message), Err(LinkError::NotReady));
}

#[test]
fn the_first_message_has_to_be_a_bitfield() {
    let others = vec![
        Message::without_payload(MessageTag::Choke).unwrap(),
        Message::without_payload(MessageTag::UnChoke).unwrap(),
        Message::without_payload(MessageTag::Interested).unwrap(),
        Message::without_payload(MessageTag::NotInterested).unwrap(),
        Message::new(MessageTag::Have, vec![0, 0, 0, 1]).unwrap(),
        Message::new(MessageTag::Request, vec![0; 12]).unwrap(),
        Message::new(MessageTag::Piece, vec![0; 9]).unwrap(),
        Message::new(MessageTag::Cancel, vec![0; 12]).unwrap(),
    ];
    for message in others {
        let mut peer = PeerConnectionBuilder::new(address(), info_hash(), peer_id(1), 16).start();
        peer.receive_handshake(&reply_of(info_hash(), peer_id(50))).unwrap();
        assert_eq!(
            peer.receive(&message),
            Err(LinkError::ExpectedBitfield { tag: *message.tag() })
        );
        assert_eq!(peer.state(), LinkState::Closed);
    }
}

#[test]
fn the_bitfield_establishes_the_connection() {
    let peer = established(16, vec![0b10101010, 0b01010101]);
    assert_eq!(peer.state(), FRESH);
    for index in 0..16usize {
        assert_eq!(peer.has_piece(index), [0, 2, 4, 6, 9, 11, 13, 15].contains(&index));
    }
}

#[test]
fn bits_beyond_the_torrent_do_not_count() {
    let peer = established(10, vec![0xff, 0xff, 0xff]);
    for index in 0..10usize {
        assert!(peer.has_piece(index));
    }
    for index in 10..40usize {
        assert!(!peer.has_piece(index));
    }
}

#[test]
fn a_peer_without_bitfield_is_taken_to_have_nothing() {
    let mut peer = PeerConnectionBuilder::new(address(), info_hash(), peer_id(1), 16).start();
    assert!(!peer.assume_no_pieces());
    assert_eq!(peer.state(), LinkState::AwaitingHandshake);
    peer.receive_handshake(&reply_of(info_hash(), peer_id(50))).unwrap();
    assert!(peer.assume_no_pieces());
    assert_eq!(peer.state(), FRESH);
    for index in 0..16usize {
        assert!(!peer.has_piece(index));
    }
    assert!(!peer.assume_no_pieces());
    let have = Message::new(MessageTag::Have, vec![0, 0, 0, 3]).unwrap();
    assert_eq!(peer.receive(&have), Ok(LinkEvent::Have { piece: 3 }));
    assert!(peer.has_piece(3));
}

#[test]
fn a_second_bitfield_closes_the_connection() {
    let mut peer = established(16, vec![0, 0]);
    let again = Message::new(MessageTag::Bitfield, vec![0xff, 0xff]).unwrap();
    assert_eq!(peer.receive(&again), Err(LinkError::UnexpectedBitfield));
    assert_eq!(peer.state(), LinkState::Closed);
}

#[test]
fn choke_and_interest_set_their_flags() {
    let mut peer = established(16, vec![0, 0]);
    let unchoke = Message::without_payload(MessageTag::UnChoke).unwrap();
    assert_eq!(peer.receive(&unchoke), Ok(LinkEvent::Unchoked));
    assert_eq!(
        peer.state(),
        LinkState::Established {
            choked: false,
            interested: false,
            peer_choked: true,
            peer_interested: false
        }
    );
    let interested = Message::without_payload(MessageTag::Interested).unwrap();
    assert_eq!(peer.receive(&interested), Ok(LinkEvent::PeerInterested));
    assert_eq!(
        peer.state(),
        LinkState::Established {
            choked: false,
            interested: false,
            peer_choked: true,
            peer_interested: true
        }
    );
    let choke = Message::without_payload(MessageTag::Choke).unwrap();
    assert_eq!(peer.receive(&choke), Ok(LinkEvent::Choked));
    let not_interested = Message::without_payload(MessageTag::NotInterested).unwrap();
    assert_eq!(peer.receive(&not_interested), Ok(LinkEvent::PeerNotInterested));
    assert_eq!(peer.state(), FRESH);
}

#[test]
fn have_adds_one_piece() {
    let mut peer = established(16, vec![0x80, 0]);
    let have = Message::new(MessageTag::Have, vec![0, 0, 0, 9]).unwrap();
    assert_eq!(peer.receive(&have), Ok(LinkEvent::Have { piece: 9 }));
    assert!(peer.has_piece(0));
    assert!(peer.has_piece(9));
    assert!(!peer.has_piece(8));
    assert_eq!(peer.state(), FRESH);
}

#[test]
fn have_beyond_the_torrent_changes_nothing() {
    let mut peer = established(16, vec![0x80, 0]);
    let have = Message::new(MessageTag::Have, vec![0, 0, 0, 16]).unwrap();
    assert_eq!(peer.receive(&have), Ok(LinkEvent::Nothing));
    let far = Message::new(MessageTag::Have, vec![255, 255, 255, 255]).unwrap();
    assert_eq!(peer.receive(&far), Ok(LinkEvent::Nothing));
    assert!(!peer.has_piece(16));
    assert_eq!(peer.state(), FRESH);
}

#[test]
fn blocks_requests_and_cancels_are_passed_on() {
    let mut peer = established(16, vec![0, 0]);
    let piece = WireMessage::Piece { piece_index: 3, begin: 16384, block: vec![1, 2, 3] };
    assert_eq!(
        peer.receive(&piece.to_message()),
        Ok(LinkEvent::Block { piece: 3, begin: 16384, block: vec![1, 2, 3] })
    );
    let request = WireMessage::Request { piece_index: 1, begin: 2, length: 3 };
    assert_eq!(
        peer.receive(&request.to_message()),
        Ok(LinkEvent::Requested { piece: 1, begin: 2, length: 3 })
    );
    let cancel = WireMessage::Cancel { piece_index: 1, begin: 2, length: 3 };
    assert_eq!(
        peer.receive(&cancel.to_message()),
        Ok(LinkEvent::Cancelled { piece: 1, begin: 2, length: 3 })
    );
    assert_eq!(peer.state(), FRESH);
}

/// A message as the decoder hands it out, whatever its payload.
fn off_the_wire(tag: u8, payload: &[u8]) -> Message {
    let mut src = BytesMut::new();
    src.extend_from_slice(&(payload.len() as u32 + 1).to_be_bytes());
    src.extend_from_slice(&[tag]);
    src.extend_from_slice(payload);
    MessageFramer.decode(&mut src).unwrap().unwrap()
}

#[test]
fn a_malformed_payload_closes_the_connection() {
    let bad = vec![
        off_the_wire(4, &[0, 0, 1]),
        off_the_wire(6, &[0; 10]),
        off_the_wire(7, &[0; 3]),
        off_the_wire(8, &[0; 13]),
        off_the_wire(0, &[1]),
    ];
    for message in bad {
        let mut peer = established(16, vec![0, 0]);
        assert_eq!(
            peer.receive(&message),
            Err(LinkError::Malformed { tag: *message.tag() })
        );
        assert_eq!(peer.state(), LinkState::Closed);
        assert_eq!(peer.receive(&message), Err(LinkError::NotReady));
    }
}

#[test]
fn nothing_is_sent_before_the_connection_is_established() {
    let mut peer = PeerConnectionBuilder::new(address(), info_hash(), peer_id(1), 16).start();
    assert_eq!(peer.send(&WireMessage::Interested), Err(LinkError::NotReady));
    assert_eq!(peer.state(), LinkState::AwaitingHandshake);
    peer.receive_handshake(&reply_of(info_hash(), peer_id(50))).unwrap();
    assert_eq!(peer.send(&WireMessage::Interested), Err(LinkError::NotReady));
    assert_eq!(peer.state(), LinkState::AwaitingBitfield);
}

#[test]
fn no_request_goes_to_a_peer_that_chokes_us() {
    let mut peer = established(16, vec![0xff, 0xff]);
    let request = WireMessage::Request { piece_index: 1, begin: 0, length: 16384 };
    assert_eq!(peer.send(&request), Err(LinkError::Choked));
    assert_eq!(peer.state(), FRESH);
    peer.receive(&Message::without_payload(MessageTag::UnChoke).unwrap()).unwrap();
    assert_eq!(peer.send(&request), Ok(()));
    peer.receive(&Message::without_payload(MessageTag::Choke).unwrap()).unwrap();
    assert_eq!(peer.send(&request), Err(LinkError::Choked));
    assert_eq!(
        peer.send(&WireMessage::Cancel { piece_index: 1, begin: 0, length: 16384 }),
        Ok(())
    );
}

#[test]
fn what_we_send_sets_our_flags() {
    let mut peer = established(16, vec![0xff, 0xff]);
    assert_eq!(peer.send(&WireMessage::Interested), Ok(()));
    assert_eq!(
        peer.state(),
        LinkState::Established {
            choked: true,
            interested: true,
            peer_choked: true,
            peer_interested: false
        }
    );
    assert_eq!(peer.send(&WireMessage::Unchoke), Ok(()));
    assert_eq!(
        peer.state(),
        LinkState::Established {
            choked: true,
            interested: true,
            peer_choked: false,
            peer_interested: false
        }
    );
    assert_eq!(peer.send(&WireMessage::NotInterested), Ok(()));
    assert_eq!(peer.send(&WireMessage::Choke), Ok(()));
    assert_eq!(peer.state(), FRESH);
    assert_eq!(peer.send(&WireMessage::Have { piece_index: 3 }), Ok(()));
    assert_eq!(peer.state(), FRESH);
}
