//! Verified core of a watermark-provenance gateway.
//!
//! An uploaded video is delegated to an external embedding service, the
//! returned soft-bit watermark is fingerprinted and recorded in a persistent
//! index together with the signed asset's path, and a later probe is matched
//! against that index by squared-distance nearest lookup.  Soft bits are
//! carried as fixed-point fractions of [`fingerprint::SOFT_ONE`], so every
//! threshold and distance computation here is exact integer arithmetic.

pub mod fingerprint;
pub mod hexcodec;
pub mod pipeline;
pub mod session;
pub mod store;
pub mod textfmt;
