//! Conversion of Bookshelf placement benchmarks into the LEF/DEF interchange
//! format: parsing the per-file record collections, joining them into one
//! cross-referenced model, validating the invariants the source format never
//! enforces structurally, and deriving the geometry (die area, routing tracks,
//! synthesized macros and pins) that LEF/DEF requires.

pub mod aux;
pub mod error;
pub mod geom;
pub mod lefdef;
pub mod nets;
pub mod nodes;
pub mod numfmt;
pub mod parser;
pub mod pl;
pub mod reader;
pub mod route;
pub mod scl;
pub mod shape;
pub mod strutil;
pub mod util;
