//! What the commands of a client work out before they talk to anybody and
//! after: the request that opens the talk with a tracker, our identifier in
//! a handshake, and the lines of a report.

use vstd::prelude::*;
use vstd::string::*;
use crate::config::Configuration;
use crate::encoding::{decimal, hex_encode, hex_lower, push_decimal};
use crate::net::peers::PeerAddress;
use crate::net::tracker::{TrackerRequest, TrackerRequestView};
use crate::torrent::{texts, total_length, Torrent};

verus! {

/// The request that a client sends to the tracker before it has moved any
/// byte: nothing uploaded, nothing downloaded, the whole torrent left, and
/// the compact list of peers asked for.
pub fn announce_request(torrent: &Torrent, info_hash: [u8; 20], config: &Configuration) -> (request:
    TrackerRequest)
    ensures
        request@ == (TrackerRequestView {
            info_hash: info_hash@,
            peer_id: config.id(),
            port: config.listen_port(),
            uploaded: 0,
            downloaded: 0,
            left: total_length(torrent@.keys) as usize,
            compact: 1,
        }),
{
    TrackerRequest::new(
        info_hash,
        String::from_str(config.peer_id()),
        config.port(),
        0,
        0,
        torrent.length(),
        1,
    )
}

/// Our identifier as the twenty bytes that go into a handshake. There is
/// none unless the configured identifier is twenty bytes long.
pub fn local_peer_id(config: &Configuration) -> (id: Option<[u8; 20]>)
    ensures
        id is Some <==> config.peer_id_bytes().len() == 20,
        id matches Some(bytes) ==> bytes@ == config.peer_id_bytes(),
{
    let bytes = config.peer_id().as_bytes();
    if bytes.len() != 20 {
        return None;
    }
    let mut id: [u8; 20] = [0;20];
    let mut i: usize = 0;
    while i < 20
        invariant
            i <= 20,
            bytes@.len() == 20,
            forall|j: int| 0 <= j < i ==> id@[j] == bytes@[j],
        decreases 20 - i,
    {
        id[i] = bytes[i];
        i += 1;
    }
    assert(id@ =~= bytes@);
    Some(id)
}

/// The lines that head the report of a torrent and need no hash: the
/// tracker and the length.
pub open spec fn info_header(torrent: crate::torrent::TorrentView) -> Seq<Seq<char>> {
    seq![
        "Tracker URL: "@ + torrent.announce,
        "Length: "@ + decimal(total_length(torrent.keys)),
    ]
}

/// The lines that tell of a torrent: the tracker, the length, the info
/// hash, the piece length, and the hash of each piece.
pub open spec fn info_report(torrent: crate::torrent::TorrentView, info_hash: Seq<u8>) -> Seq<
    Seq<char>,
> {
    info_header(torrent) + seq![
        "Info Hash: "@ + hex_lower(info_hash),
        "Piece Length: "@ + decimal(torrent.piece_length as nat),
        "Piece Hashes:"@,
    ] + Seq::new(torrent.pieces.len(), |i: int| hex_lower(torrent.pieces[i]@))
}

/// The lines that head the report of a torrent: the tracker and the length.
/// They can be told before the info hash is known.
pub fn header_lines(torrent: &Torrent) -> (lines: Vec<String>)
    ensures
        texts(lines@) == info_header(torrent@),
{
    let mut lines: Vec<String> = Vec::new();
    let mut line = String::from_str("Tracker URL: ");
    line.append(torrent.announce());
    lines.push(line);
    let mut line = String::from_str("Length: ");
    push_decimal(&mut line, torrent.length());
    lines.push(line);
    assert(texts(lines@) =~= info_header(torrent@));
    lines
}

/// The lines that tell of a torrent, in the order in which they are
/// printed: the header, then what hangs on the hashes.
pub fn info_lines(torrent: &Torrent, info_hash: &[u8; 20]) -> (lines: Vec<String>)
    ensures
        texts(lines@) == info_report(torrent@, info_hash@),
{
    let mut lines = header_lines(torrent);
    let mut line = String::from_str("Info Hash: ");
    line.append(hex_encode(info_hash.as_slice()).as_str());
    lines.push(line);
    let mut line = String::from_str("Piece Length: ");
    push_decimal(&mut line, torrent.piece_length());
    lines.push(line);
    lines.push(String::from_str("Piece Hashes:"));
    let hashes = torrent.pieces_hex();
    let count = hashes.len();
    let ghost head = texts(lines@);
    assert(head =~= info_header(torrent@) + seq![
        "Info Hash: "@ + hex_lower(info_hash@),
        "Piece Length: "@ + decimal(torrent@.piece_length as nat),
        "Piece Hashes:"@,
    ]);
    let mut i: usize = 0;
    while i < count
        invariant
            i <= count,
            count == hashes@.len(),
            head.len() == 5,
            texts(lines@) == head + Seq::new(i as nat, |j: int| hashes@[j]@),
        decreases count - i,
    {
        let ghost before = lines@;
        lines.push(String::from_str(hashes[i].as_str()));
        i += 1;
        assert(texts(lines@) =~= texts(before).push(hashes@[i - 1]@));
        assert(texts(lines@) =~= head + Seq::new(i as nat, |j: int| hashes@[j]@));
    }
    assert(texts(lines@) =~= info_report(torrent@, info_hash@));
    lines
}

/// An address as text: the four numbers of the IPv4 address with dots
/// between them, a colon, the port.
pub open spec fn address_text(address: PeerAddress) -> Seq<char> {
    decimal(address.ip@[0] as nat) + "."@ + decimal(address.ip@[1] as nat) + "."@ + decimal(
        address.ip@[2] as nat,
    ) + "."@ + decimal(address.ip@[3] as nat) + ":"@ + decimal(address.port as nat)
}

/// The line that tells of a peer: its address as text.
pub fn peer_line(address: &PeerAddress) -> (line: String)
    ensures
        line@ == address_text(*address),
{
    let mut line = String::new();
    push_decimal(&mut line, address.ip[0] as usize);
    line.append(".");
    push_decimal(&mut line, address.ip[1] as usize);
    line.append(".");
    push_decimal(&mut line, address.ip[2] as usize);
    line.append(".");
    push_decimal(&mut line, address.ip[3] as usize);
    line.append(":");
    push_decimal(&mut line, address.port as usize);
    assert(line@ =~= address_text(*address));
    line
}

/// The line that tells of the identifier a peer gave in its handshake.
pub fn peer_id_line(peer_id: &[u8; 20]) -> (line: String)
    ensures
        line@ == "Peer ID: "@ + hex_lower(peer_id@),
{
    let mut line = String::from_str("Peer ID: ");
    line.append(hex_encode(peer_id.as_slice()).as_str());
    line
}

} // verus!
