//! Axis-aligned collision resolution and tile-grid level representation.
//!
//! The crate provides the shared core of a family of small tile-based games:
//! rectangle overlap queries, minimum-translation displacement resolution,
//! brute-force contact gathering with a deterministic ordering policy, a dense
//! tile grid, and a parser plus serializer for a line-oriented textual level
//! format.  All coordinates are integer world units; every public operation
//! carries a contract that pins its result down exactly.

pub mod geom;
pub mod grid;
pub mod tile;
pub mod contact;
pub mod lex;
pub mod level;
