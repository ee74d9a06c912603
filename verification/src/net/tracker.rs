//! What is said to a tracker, and the list of peers it answers with.

use vstd::prelude::*;
use vstd::string::*;
use crate::encoding::{decimal, hex_encode, hex_lower, push_decimal};
use crate::net::peers::PeerAddress;

verus! {

/// Hexadecimal text with a percent sign before each pair of digits.
pub open spec fn percent_pairs(hex: Seq<char>) -> Seq<char>
    decreases hex.len(),
{
    if hex.len() < 2 {
        hex
    } else {
        seq!['%', hex[0], hex[1]] + percent_pairs(hex.skip(2))
    }
}

/// Appends hexadecimal text with a percent sign before each pair of digits.
fn push_percent_pairs(text: &mut String, hex: &str)
    ensures
        final(text)@ == old(text)@ + percent_pairs(hex@),
{
    let count = hex.unicode_len();
    let mut done: usize = 0;
    assert(hex@.skip(0) =~= hex@);
    while count - done >= 2
        invariant
            done <= count,
            count == hex@.len(),
            text@ + percent_pairs(hex@.skip(done as int)) == old(text)@ + percent_pairs(hex@),
        decreases count - done,
    {
        let ghost before = text@;
        let ghost rest = hex@.skip(done as int);
        text.append("%");
        text.append(hex.substring_char(done, done + 2));
        done += 2;
        assert(rest.skip(2) =~= hex@.skip(done as int));
        proof {
            reveal_strlit("%");
        }
        assert("%"@ =~= seq!['%']);
        assert(hex@.subrange(done - 2, done as int) =~= seq![rest[0], rest[1]]);
        assert(text@ =~= before + seq!['%', rest[0], rest[1]]);
        assert(text@ + percent_pairs(hex@.skip(done as int)) =~= before + percent_pairs(rest));
    }
    let ghost before = text@;
    text.append(hex.substring_char(done, count));
    assert(text@ =~= before + percent_pairs(hex@.skip(done as int)));
}

/// Represents a request to a tracker.
///
/// The request contains information about the client and the torrent.
/// * info hash: The SHA1 hash of the info dictionary in the torrent file.
/// * peer ID: The peer ID of the client.
/// * port: The port number the client is listening on.
/// * uploaded: The total number of bytes uploaded so far.
/// * downloaded: The total number of bytes downloaded so far.
/// * left: The number of bytes the client still has to download.
/// * compact: Whether the peer list should use the compact representation.
#[derive(Debug, Clone)]
pub struct TrackerRequest {
    info_hash: [u8; 20],
    peer_id: String,
    port: u16,
    uploaded: usize,
    downloaded: usize,
    left: usize,
    compact: u8,
}

/// A request to a tracker as a mathematical value.
pub struct TrackerRequestView {
    pub info_hash: Seq<u8>,
    pub peer_id: Seq<char>,
    pub port: u16,
    pub uploaded: usize,
    pub downloaded: usize,
    pub left: usize,
    pub compact: u8,
}

impl View for TrackerRequest {
    type V = TrackerRequestView;

    closed spec fn view(&self) -> TrackerRequestView {
        TrackerRequestView {
            info_hash: self.info_hash@,
            peer_id: self.peer_id@,
            port: self.port,
            uploaded: self.uploaded,
            downloaded: self.downloaded,
            left: self.left,
            compact: self.compact,
        }
    }
}

/// The query that carries a request: the fields in a fixed order, the info
/// hash with a percent sign before each byte in hexadecimal, the peer
/// identifier as it is, the numbers in decimal.
pub open spec fn query_text(r: TrackerRequestView) -> Seq<char> {
    "info_hash="@ + percent_pairs(hex_lower(r.info_hash)) + "&peer_id="@ + r.peer_id + "&port="@
        + decimal(r.port as nat) + "&uploaded="@ + decimal(r.uploaded as nat) + "&downloaded="@
        + decimal(r.downloaded as nat) + "&left="@ + decimal(r.left as nat) + "&compact="@
        + decimal(r.compact as nat)
}

impl TrackerRequest {
    /// Creates a new TrackerRequest.
    pub fn new(
        info_hash: [u8; 20],
        peer_id: String,
        port: u16,
        uploaded: usize,
        downloaded: usize,
        left: usize,
        compact: u8,
    ) -> (request: Self)
        ensures
            request@ == (TrackerRequestView {
                info_hash: info_hash@,
                peer_id: peer_id@,
                port,
                uploaded,
                downloaded,
                left,
                compact,
            }),
    {
        TrackerRequest { info_hash, peer_id, port, uploaded, downloaded, left, compact }
    }

    /// Serializes the request into a URL-encoded string.
    pub fn serialize(&self) -> (query: String)
        ensures
            query@ == query_text(self@),
    {
        let hex = hex_encode(self.info_hash.as_slice());
        let mut query = String::from_str("info_hash=");
        push_percent_pairs(&mut query, hex.as_str());
        query.append("&peer_id=");
        query.append(self.peer_id.as_str());
        query.append("&port=");
        push_decimal(&mut query, self.port as usize);
        query.append("&uploaded=");
        push_decimal(&mut query, self.uploaded);
        query.append("&downloaded=");
        push_decimal(&mut query, self.downloaded);
        query.append("&left=");
        push_decimal(&mut query, self.left);
        query.append("&compact=");
        push_decimal(&mut query, self.compact as usize);
        query
    }
}

/// Why a compact list of peers is not accepted.
#[derive(Debug, Clone, Copy, PartialEq, Eq, Structural)]
pub enum PeersError {
    /// The number of bytes is not a multiple of six.
    InvalidLength { length: usize },
}

/// The addresses of the peers that a tracker knows of.
#[derive(Debug, Clone)]
pub struct PeersAddresses(pub Vec<PeerAddress>);

/// Whether `address` is what the `k`-th group of six bytes spells: four
/// bytes of IPv4 address, then the port in big-endian order.
pub open spec fn spelled_at(address: PeerAddress, bytes: Seq<u8>, k: int) -> bool {
    &&& address.ip@ == bytes.subrange(6 * k, 6 * k + 4)
    &&& address.port == bytes[6 * k + 4] * 256 + bytes[6 * k + 5]
}

/// The six bytes of each address, one address after the other.
pub open spec fn compact_bytes(peers: Seq<PeerAddress>) -> Seq<u8> {
    Seq::new(
        6 * peers.len(),
        |i: int|
            {
                let address = peers[i / 6];
                if i % 6 < 4 {
                    address.ip@[i % 6]
                } else if i % 6 == 4 {
                    (address.port / 256) as u8
                } else {
                    (address.port % 256) as u8
                }
            },
    )
}

/// The bytes of a list of addresses spell each address at its place.
pub proof fn lemma_compact_bytes_spell(peers: Seq<PeerAddress>, k: int)
    requires
        0 <= k < peers.len(),
    ensures
        compact_bytes(peers).len() == 6 * peers.len(),
        spelled_at(peers[k], compact_bytes(peers), k),
{
    let bytes = compact_bytes(peers);
    assert(peers[k].ip@.len() == 4);
    assert forall|j: int| 0 <= j < 4 implies bytes.subrange(6 * k, 6 * k + 4)[j] == peers[k].ip@[j] by {
        assert((6 * k + j) / 6 == k && (6 * k + j) % 6 == j);
    }
    assert(bytes.subrange(6 * k, 6 * k + 4) =~= peers[k].ip@);
    assert((6 * k + 4) / 6 == k && (6 * k + 4) % 6 == 4);
    assert((6 * k + 5) / 6 == k && (6 * k + 5) % 6 == 5);
}

/// A list of addresses that bytes spell has those bytes as its own.
pub proof fn lemma_spelled_bytes(peers: Seq<PeerAddress>, bytes: Seq<u8>)
    requires
        bytes.len() == 6 * peers.len(),
        forall|k: int| 0 <= k < peers.len() ==> spelled_at(#[trigger] peers[k], bytes, k),
    ensures
        compact_bytes(peers) == bytes,
{
    let back = compact_bytes(peers);
    assert forall|i: int| 0 <= i < bytes.len() implies back[i] == bytes[i] by {
        let k = i / 6;
        let address = peers[k];
        assert(spelled_at(address, bytes, k));
        if i % 6 < 4 {
            assert(bytes.subrange(6 * k, 6 * k + 4)[i % 6] == bytes[i]);
        }
    }
    assert(back =~= bytes);
}

impl PeersAddresses {
    /// Reads a compact list of peers: six bytes for each peer, four of IPv4
    /// address and two of port, the high byte first.
    ///
    /// # Errors
    ///
    /// A number of bytes that is not a multiple of six is refused.
    pub fn from_bytes(v: &[u8]) -> (peers: Result<Self, PeersError>)
        ensures
            peers is Ok <==> v@.len() % 6 == 0,
            peers matches Err(e) ==> e == (PeersError::InvalidLength { length: v@.len() as usize }),
            peers matches Ok(p) ==> {
                &&& 6 * p.0@.len() == v@.len()
                &&& forall|k: int| 0 <= k < p.0@.len() ==> spelled_at(#[trigger] p.0@[k], v@, k)
            },
    {
        let length = v.len();
        if length % 6 != 0 {
            return Err(PeersError::InvalidLength { length });
        }
        let mut peers: Vec<PeerAddress> = Vec::new();
        let mut at: usize = 0;
        while at < length
            invariant
                length == v@.len(),
                length % 6 == 0,
                at <= length,
                at == 6 * peers@.len(),
                forall|k: int| 0 <= k < peers@.len() ==> spelled_at(#[trigger] peers@[k], v@, k),
            decreases length - at,
        {
            let ip: [u8; 4] = [v[at], v[at + 1], v[at + 2], v[at + 3]];
            let port: u16 = (v[at + 4] as u16) * 256 + (v[at + 5] as u16);
            let address = PeerAddress { ip, port };
            assert(address.ip@ =~= v@.subrange(at as int, at + 4));
            peers.push(address);
            at += 6;
        }
        Ok(PeersAddresses(peers))
    }

    /// Writes the list in the compact form: six bytes for each peer.
    pub fn to_bytes(&self) -> (bytes: Vec<u8>)
        ensures
            bytes@ == compact_bytes(self.0@),
    {
        let count = self.0.len();
        let mut bytes: Vec<u8> = Vec::new();
        let mut k: usize = 0;
        while k < count
            invariant
                count == self.0@.len(),
                k <= count,
                bytes@.len() == 6 * k,
                forall|i: int| 0 <= i < 6 * k ==> bytes@[i] == compact_bytes(self.0@)[i],
            decreases count - k,
        {
            let address = &self.0[k];
            let ghost before = bytes@;
            bytes.push(address.ip[0]);
            bytes.push(address.ip[1]);
            bytes.push(address.ip[2]);
            bytes.push(address.ip[3]);
            bytes.push((address.port / 256) as u8);
            bytes.push((address.port % 256) as u8);
            proof {
                assert forall|i: int| 6 * k <= i < 6 * k + 6 implies bytes@[i] == compact_bytes(
                    self.0@,
                )[i] by {
                    assert(i / 6 == k && i % 6 == i - 6 * k);
                }
            }
            k += 1;
        }
        assert(bytes@ =~= compact_bytes(self.0@));
        bytes
    }
}

/// Whether `reqwest::Url::parse` accepts a text as a URL.
pub uninterp spec fn url_is_valid(url: Seq<char>) -> bool;

/// `reqwest::Url::parse`: reads a text as an absolute URL.
/// Assumed: whether the text is accepted depends on the text alone.
#[verifier::external_body]
pub(crate) fn url_parses(url: &str) -> (accepted: bool)
    ensures
        accepted == url_is_valid(url@),
{
    reqwest::Url::parse(url).is_ok()
}

/// Why a tracker could not be set up.
#[derive(Debug, Clone, Copy, PartialEq, Eq, Structural)]
pub enum TrackerError {
    /// The announce text is no URL.
    InvalidUrl,
}

/// Represents a BitTorrent tracker.
///
/// Trackers are central servers that maintain information about peers
/// participating in the sharing and downloading of a torrent.
pub struct Tracker {
    url: String,
}

impl Tracker {
    /// The URL of the tracker.
    pub closed spec fn location(&self) -> Seq<char> {
        self.url@
    }

    /// Creates a new Tracker with the specified URL.
    ///
    /// # Errors
    ///
    /// Returns an error if the URL is invalid.
    pub fn new(url: String) -> (tracker: Result<Self, TrackerError>)
        ensures
            tracker is Ok <==> url_is_valid(url@),
            tracker matches Ok(t) ==> t.location() == url@,
            tracker matches Err(e) ==> e == TrackerError::InvalidUrl,
    {
        if url_parses(url.as_str()) {
            Ok(Tracker { url })
        } else {
            Err(TrackerError::InvalidUrl)
        }
    }

    /// The URL of the tracker.
    pub fn url(&self) -> (url: &str)
        ensures
            url@ == self.location(),
    {
        self.url.as_str()
    }
}

} // verus!
