//! Turns raw, ANSI-coloured CI log text into styled, searchable lines and
//! render trees.

pub mod ansi;
pub mod element;
pub mod line;
pub mod parser;
pub mod style;
pub mod text;

pub use ansi::{extract_ansi, ANSISequence};
pub use element::{build_elements, Builder, Element};
pub use line::{Command, Group, Line};
pub use parser::Parser;
pub use style::{Color, Styles};
