//! Block-cache engine of a byte-range reverse-proxy cache: the on-disk object
//! metadata format, the read-plan synthesizer and the block-file namespace.

pub mod cachestate;
pub mod constant;
pub mod fill;
pub mod hash;
pub mod origin;
pub mod plan;
