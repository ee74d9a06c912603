//! Settings of the local client.

use vstd::prelude::*;
use vstd::string::*;

verus! {

/// Represents the configuration settings for the application.
pub struct Configuration {
    peer_id: String,
    port: u16,
}

impl Configuration {
    /// The peer identifier as a sequence of characters.
    pub closed spec fn id(&self) -> Seq<char> {
        self.peer_id@
    }

    /// The peer identifier as the bytes that spell it.
    pub open spec fn peer_id_bytes(&self) -> Seq<u8> {
        vstd::utf8::encode_utf8(self.id())
    }

    /// The port the client listens on.
    pub closed spec fn listen_port(&self) -> u16 {
        self.port
    }

    /// Returns the peer ID, which is a 20-byte array.
    pub fn peer_id(&self) -> (id: &str)
        ensures
            id@ == self.id(),
    {
        self.peer_id.as_str()
    }

    /// Returns the port number.
    pub fn port(&self) -> (port: u16)
        ensures
            port == self.listen_port(),
    {
        self.port
    }
}

impl Default for Configuration {
    /// Twenty digits as the peer identifier, and the conventional first port 6881.
    fn default() -> (config: Self)
        ensures
            config.id() == "00112233445566778899"@,
            config.listen_port() == 6881,
    {
        Configuration { peer_id: String::from_str("00112233445566778899"), port: 6881 }
    }
}

} // verus!
