//! Builds the JEP106 manufacturer-ID lookup table from the text of the JEDEC
//! publication and emits it as Rust constants or as JSON.

pub mod row;
pub mod table;
pub mod emit;
pub mod generate;
