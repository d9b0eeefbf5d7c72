//! Error kinds reported by the library.
use vstd::prelude::*;

verus! {

/// What went wrong, by category, with a human-readable detail.
#[derive(Debug)]
pub enum Error {
    /// Input/output failure.
    Io(String),
    /// Network failure.
    Network(String),
    /// Routing table or value store failure.
    Dht(String),
    /// Discovery mechanism failure.
    Discovery(String),
    /// Listen, connect or send failure of a transport.
    Transport(String),
    /// Cryptographic failure.
    Crypto(String),
    /// Encoding or decoding failure.
    Serialization(String),
    /// Ledger failure.
    Blockchain(String),
    /// Storage engine failure.
    Storage(String),
    /// Anything else.
    Unknown(String),
}

/// Result type of the library's fallible operations.
pub type Result<T> = std::result::Result<T, Error>;

} // verus!
