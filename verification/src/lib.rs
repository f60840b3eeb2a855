//! Reading, writing and checking `.rete` file images: the header, the
//! section containers, the chunked dictionary, the tiled permutation
//! sections and the sections that surround them.
use vstd::prelude::*;

pub mod batch;
pub mod codec;
pub mod coalesce;
pub mod dict;
pub mod dict_roundtrip;
pub mod container;
pub mod extbuild;
pub mod family;
pub mod header;
pub mod image;
pub mod index;
pub mod layout;
pub mod indexfile;
pub mod provenance;
pub mod ranged;
pub mod ranged_family;
pub mod reader;
pub mod rete;
pub mod schema;
pub mod roundtrip;
pub mod tile;
pub mod tiled;
pub mod tiled_roundtrip;
pub mod varint;
pub mod writer;

verus! {

} // verus!
