//! What the tools are for, said of their results: of what is read, found and
//! written, for all inputs.
pub mod answers;
pub mod autoplace;
pub mod edits;
pub mod fields;
pub mod footprints;
pub mod libraries;
pub mod parser;
pub mod reading;
pub mod routing;
pub mod scan;
pub mod schematics;
pub mod session;
pub mod text;
pub mod values;
