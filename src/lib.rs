//! Reproducible instances of a grid routing puzzle: a seeded generator of connected
//! wall layouts and of weighted regions over them, the text format of an instance,
//! and the reader of a submitted route.
#![allow(non_snake_case)]

pub mod codec;
pub mod grid;
pub mod maze;
pub mod text;

pub use codec::{Input, MAX_ROUTE_LEN, Output, OutputError, parse_input, parse_output};
pub use grid::{SetMinMax, can_move, reaches_every_cell};
pub use maze::{Layout, gen_layout};
