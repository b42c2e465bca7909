//! LEF/DEF synthesis: validation of the cross-file pin identity, derived
//! geometry, synthesized macros and nets, and the emitted text sections.

pub mod components;
pub mod def;
pub mod die_area;
pub mod lef;
pub mod net;
pub mod pin;
pub mod row;
pub mod techlef;
pub mod tracks;
pub mod writer;
