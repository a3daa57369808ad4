use vstd::prelude::*;

verus! {

/// How many retransmissions an entry is granted by default before it is
/// dropped.
pub const MAX_RETRANS_AMOUNT: u8 = 2;

/// Errors the coding engine reports; each carries a human-readable note.
#[derive(Debug)]
pub enum CodingError {
    /// An encoded packet addressed to this node could not be decoded
    /// because the local pool lacks a required native. Recoverable: the
    /// packet is dropped and the sender will retransmit.
    DecodeError(String),
    /// A header variant arrived in a context that forbids it.
    DefectPacketError(String),
    /// No new native can be originated without forfeiting an older one.
    FullRetransQueue(String),
}

impl CodingError {
    /// The human-readable note carried by this error.
    pub fn message(&self) -> (r: &String) {
        match self {
            CodingError::DecodeError(s) => s,
            CodingError::DefectPacketError(s) => s,
            CodingError::FullRetransQueue(s) => s,
        }
    }
}

} // verus!
