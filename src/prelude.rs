use vstd::prelude::*;

verus! {

/// Identifies a punter within one match.
pub type PunterId = usize;

pub type Nat = u64;

/// Identifier of a site as it appears on the wire.
pub type SiteId = Nat;

/// What can go wrong while reading or decoding a message.
#[derive(Debug, Clone, Copy, PartialEq, Eq, Structural)]
pub enum PunterError {
    /// The stream ended before a whole message was read.
    Io,
    /// The length prefix of a message is not an unsigned decimal number.
    ParseInt,
    /// The payload of a message is not UTF-8.
    FromUtf8,
    /// The payload does not have the shape of the expected message.
    Json,
    /// The map names a site it does not have, or is too large.
    InvalidMap,
    /// A request came before the setup it depends on.
    NotSetUp,
}

pub type PunterResult<T> = Result<T, PunterError>;

} // verus!
