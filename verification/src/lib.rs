//! Text-level tooling for KiCad boards and schematics.
pub mod answer;
pub mod autoplace;
pub mod balance;
pub mod board;
pub mod components;
pub mod edits;
pub mod fields;
pub mod findable;
pub mod flatten;
pub mod footprint;
pub mod fplib;
pub mod grammar;
pub mod instances;
pub mod intact;
pub mod ipc;
pub mod laws;
pub mod lines;
pub mod moving;
pub mod nets;
pub mod numbers;
pub mod offsets;
pub mod parser;
pub mod placing;
pub mod property;
pub mod reading;
pub mod ready;
pub mod reread;
pub mod routing;
pub mod scan;
pub mod schematic;
pub mod steady;
pub mod swapping;
pub mod symlib;
pub mod text;
pub mod tracks;
pub mod tree;
pub mod types;
pub mod undo;
pub mod views;
pub mod words;
