//! Listing an archive and extracting its entries.

pub mod archive;
pub mod extractor;
