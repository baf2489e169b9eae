//! The library's error kinds.

use vstd::prelude::*;

verus! {

/// Everything that can go wrong while splitting, sealing, opening or
/// combining fragments. Variants are plain tags so that contracts can pin
/// down exactly which error an input produces.
#[derive(Clone, Copy, Debug, PartialEq, Eq, Structural)]
pub enum QshardError {
    /// A file could not be read or written (used by callers doing I/O).
    Io,
    /// Authenticated decryption failed: wrong key or corrupted ciphertext.
    Crypto,
    /// The splitting parameters were invalid (threshold 0 or above the
    /// fragment count).
    Shamir,
    /// A container's bytes are malformed, carry a bad magic number or an
    /// unsupported version, or belong to a different fragment set.
    InvalidShardFile,
    /// Fewer fragments than the threshold were supplied.
    NotEnoughShares,
    /// The supplied fragments cannot be combined: duplicate or zero
    /// indices, or values of unequal length.
    ShareCombinationFailed,
    /// A token was not valid base64 or did not decode to a 32-byte key.
    Base64,
}

} // verus!
