use ltorrent::commands::{
    announce_request, header_lines, info_lines, local_peer_id, peer_id_line, peer_line,
};
use ltorrent::config::Configuration;
use ltorrent::net::peers::PeerAddress;
use ltorrent::torrent::{File, Hashes, Keys, Torrent};

const SHA1_ABC: [u8; 20] = [
    0xa9, 0x99, 0x3e, 0x36, 0x47, 0x06, 0x81, 0x6a, 0xba, 0x3e, 0x25, 0x71, 0x78, 0x50, 0xc2, 0x6c,
    0x9c, 0xd0, 0xd8, 0x9d,
];

fn torrent() -> Torrent {
    Torrent::new(
        "http://tracker.example.org/announce".to_string(),
        "album".to_string(),
        262144,
        Hashes(vec![[0x0f; 20], SHA1_ABC]),
        Keys::MultiFile {
            files: vec![
                File::new(300000, vec!["one.flac".to_string()]),
                File::new(12345, vec!["two.flac".to_string()]),
            ],
        },
    )
    .unwrap()
}

#[test]
fn the_first_request_to_a_tracker_has_everything_left() {
    let request = announce_request(&torrent(), SHA1_ABC, &Configuration::default());
    assert_eq!(
        request.serialize(),
        "info_hash=%a9%99%3e%36%47%06%81%6a%ba%3e%25%71%78%50%c2%6c%9c%d0%d8%9d\
         &peer_id=00112233445566778899&port=6881&uploaded=0&downloaded=0&left=312345&compact=1"
    );
}

#[test]
fn the_default_peer_id_is_twenty_bytes() {
    assert_eq!(
        local_peer_id(&Configuration::default()),
        Some(*b"00112233445566778899")
    );
}

#[test]
fn the_report_of_a_torrent() {
    assert_eq!(
        info_lines(&torrent(), &SHA1_ABC),
        vec![
            "Tracker URL: http://tracker.example.org/announce".to_string(),
            "Length: 312345".to_string(),
            "Info Hash: a9993e364706816aba3e25717850c26c9cd0d89d".to_string(),
            "Piece Length: 262144".to_string(),
            "Piece Hashes:".to_string(),
            "0f0f0f0f0f0f0f0f0f0f0f0f0f0f0f0f0f0f0f0f".to_string(),
            "a9993e364706816aba3e25717850c26c9cd0d89d".to_string(),
        ]
    );
}

#[test]
fn the_header_of_the_report_needs_no_hash() {
    assert_eq!(
        header_lines(&torrent()),
        vec![
            "Tracker URL: http://tracker.example.org/announce".to_string(),
            "Length: 312345".to_string(),
        ]
    );
    assert_eq!(header_lines(&torrent())[..], info_lines(&torrent(), &[7; 20])[..2]);
}

#[test]
fn the_report_of_a_torrent_without_pieces() {
    let torrent = Torrent::new(
        String::new(),
        String::new(),
        0,
        Hashes(Vec::new()),
        Keys::SingleFile { length: 0 },
    )
    .unwrap();
    assert_eq!(
        info_lines(&torrent, &[0; 20]),
        vec![
            "Tracker URL: ".to_string(),
            "Length: 0".to_string(),
            "Info Hash: 0000000000000000000000000000000000000000".to_string(),
            "Piece Length: 0".to_string(),
            "Piece Hashes:".to_string(),
        ]
    );
}

#[test]
fn an_address_is_told_with_dots_and_a_colon() {
    for (ip, port, text) in [
        ([192, 168, 1, 10], 6881u16, "192.168.1.10:6881"),
        ([0, 0, 0, 0], 0, "0.0.0.0:0"),
        ([255, 255, 255, 255], 65535, "255.255.255.255:65535"),
        ([10, 0, 200, 7], 80, "10.0.200.7:80"),
    ] {
        assert_eq!(peer_line(&PeerAddress { ip, port }), text);
    }
}

#[test]
fn a_peer_id_is_told_in_hexadecimal() {
    assert_eq!(
        peer_id_line(&SHA1_ABC),
        "Peer ID: a9993e364706816aba3e25717850c26c9cd0d89d"
    );
    assert_eq!(
        peer_id_line(b"00112233445566778899"),
        "Peer ID: 3030313132323333343435353636373738383939"
    );
}
