//! A literate-testing harness: one markdown document names the files of a
//! scratch directory, a command to run there and the output it must give.
//! The library reads the document, says what to write and what to start,
//! and judges what came back.
pub mod boundary;
pub mod document;
pub mod executor;
pub mod number;
pub mod render;
pub mod space;
pub mod strings;
pub mod validity;

pub use document::{File, Files, ParseError};
pub use executor::{ExitStatus, Invocation, RunError, Stream};
