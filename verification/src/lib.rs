//! Threshold secret sharing with authenticated, self-describing fragment
//! containers.
//!
//! A secret is split into `N` fragments over GF(256) so that any `T` of them
//! reconstruct it exactly; each fragment is sealed with AES-256-GCM and
//! wrapped in a versioned binary header before it leaves the library.

pub mod crypto;
pub mod error;
pub mod file;
pub mod gf256;
pub mod pipeline;
pub mod shamir;
pub mod token;
