//! Identity and addressing types shared by every layer of the overlay.
use vstd::prelude::*;
use crate::bytes::{bytes_eq, copy_bytes, hex_encode, hex_of};

verus! {

/// Identifier of a participant: an opaque byte string that is both the
/// address inside the overlay and a coordinate of the DHT key space.
/// Equality is byte-exact.
#[derive(Debug, Hash)]
pub struct PeerId(Vec<u8>);

impl View for PeerId {
    type V = Seq<u8>;

    closed spec fn view(&self) -> Seq<u8> {
        self.0@
    }
}

impl PeerId {
    /// An identifier made of the given bytes.
    pub fn new(bytes: Vec<u8>) -> (r: PeerId)
        ensures
            r@ == bytes@,
    {
        PeerId(bytes)
    }

    /// A fresh 256-bit identifier drawn from the thread-local generator.
    pub fn random() -> (r: PeerId)
        ensures
            r@.len() == 32,
    {
        let bytes = crate::random::random_bytes();
        let mut v: Vec<u8> = Vec::new();
        let mut i: usize = 0;
        while i < 32
            invariant
                i <= 32,
                v@.len() == i,
            decreases 32 - i,
        {
            v.push(bytes[i]);
            i = i + 1;
        }
        PeerId(v)
    }

    /// The bytes of the identifier.
    pub fn as_bytes(&self) -> (r: &[u8])
        ensures
            r@ == self@,
    {
        self.0.as_slice()
    }

    /// The identifier as lower-case hexadecimal text.
    pub fn to_string(&self) -> (r: String)
        ensures
            r@ == hex_of(self@),
    {
        hex_encode(self.0.as_slice())
    }
}

impl Clone for PeerId {
    fn clone(&self) -> (r: PeerId)
        ensures
            r@ == self@,
    {
        PeerId(copy_bytes(self.0.as_slice()))
    }
}

impl PartialEq for PeerId {
    fn eq(&self, other: &PeerId) -> (r: bool) {
        bytes_eq(self.0.as_slice(), other.0.as_slice())
    }
}

impl vstd::std_specs::cmp::PartialEqSpecImpl for PeerId {
    open spec fn obeys_eq_spec() -> bool {
        true
    }

    open spec fn eq_spec(&self, other: &PeerId) -> bool {
        self@ == other@
    }
}

impl Eq for PeerId {}

/// Network address of a peer together with its identifier.
#[derive(Debug, Hash)]
pub struct PeerAddress {
    /// Host and port.
    pub address: String,
    /// The peer's identifier.
    pub peer_id: PeerId,
}

impl PeerAddress {
    /// An address record for `peer_id` reachable at `address`.
    pub fn new(address: String, peer_id: PeerId) -> (r: PeerAddress)
        ensures
            r.address == address,
            r.peer_id == peer_id,
    {
        PeerAddress { address, peer_id }
    }
}

impl Clone for PeerAddress {
    fn clone(&self) -> (r: PeerAddress)
        ensures
            r.address@ == self.address@,
            r.peer_id@ == self.peer_id@,
    {
        PeerAddress { address: self.address.clone(), peer_id: self.peer_id.clone() }
    }
}

impl PartialEq for PeerAddress {
    fn eq(&self, other: &PeerAddress) -> (r: bool) {
        let same_id = self.peer_id == other.peer_id;
        same_id && self.address == other.address
    }
}

impl vstd::std_specs::cmp::PartialEqSpecImpl for PeerAddress {
    open spec fn obeys_eq_spec() -> bool {
        true
    }

    open spec fn eq_spec(&self, other: &PeerAddress) -> bool {
        self.peer_id@ == other.peer_id@ && self.address@ == other.address@
    }
}

impl Eq for PeerAddress {}

/// Abstract value of a [`PeerInfo`].
pub struct PeerInfoView {
    pub id: Seq<u8>,
    pub address: Option<Seq<char>>,
    pub protocols: Seq<Seq<char>>,
    pub client_version: Seq<char>,
}

/// Metadata of a peer as discovery or a DHT lookup reports it.
#[derive(Debug)]
pub struct PeerInfo {
    /// The peer's identifier.
    pub id: PeerId,
    /// Where the peer can be reached, when known.
    pub address: Option<String>,
    /// Protocols the peer supports, in the order it announced them.
    pub protocols: Vec<String>,
    /// The peer's client version.
    pub client_version: String,
}

/// The text of an optional string.
pub open spec fn opt_text(s: Option<String>) -> Option<Seq<char>> {
    match s {
        Some(t) => Some(t@),
        None => None,
    }
}

impl View for PeerInfo {
    type V = PeerInfoView;

    open spec fn view(&self) -> PeerInfoView {
        PeerInfoView {
            id: self.id@,
            address: opt_text(self.address),
            protocols: self.protocols@.map_values(|p: String| p@),
            client_version: self.client_version@,
        }
    }
}

impl Clone for PeerInfo {
    fn clone(&self) -> (r: PeerInfo)
        ensures
            r@ == self@,
    {
        let address = match &self.address {
            Some(a) => Some(a.clone()),
            None => None,
        };
        let mut protocols: Vec<String> = Vec::new();
        let mut i: usize = 0;
        while i < self.protocols.len()
            invariant
                i <= self.protocols@.len(),
                protocols@.len() == i,
                forall|j: int| 0 <= j < i ==> protocols@[j]@ == self.protocols@[j]@,
            decreases self.protocols@.len() - i,
        {
            protocols.push(self.protocols[i].clone());
            i = i + 1;
        }
        let r = PeerInfo {
            id: self.id.clone(),
            address,
            protocols,
            client_version: self.client_version.clone(),
        };
        assert(r@.protocols =~= self@.protocols);
        r
    }
}

/// Transport protocol kinds.
#[derive(Debug, Clone, Copy, PartialEq, Eq, Hash, Structural)]
pub enum TransportType {
    /// TCP.
    Tcp,
    /// WebSocket.
    WebSocket,
    /// A transport supplied by the application.
    Custom,
}

} // verus!
