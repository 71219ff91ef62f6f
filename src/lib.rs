//! Reassembly of media streams from a chunked, slice-and-part cache format.
//!
//! A serialized cache file is a run of slices; each slice holds a little-endian
//! part count followed by that many parts, and each part holds a little-endian
//! destination offset, a little-endian size, and the payload bytes. The parts are
//! scanned into a catalog, ordered by destination offset, analysed for the
//! contiguous prefix they cover, and replayed into the reconstructed stream.
//!
//! `part` holds the catalog entry and the format's limits, `scan` the catalog
//! builder, `ordering` the stable ordering and contiguity summary,
//! `reconstruct` the payload copy, and `codec` the byte layout of well-formed
//! files with the laws that tie scanning, ordering and replay together.

pub mod part;
pub mod scan;
pub mod ordering;
pub mod reconstruct;
pub mod codec;
