//! Reading and writing build recipes: a line-oriented text format that lists
//! targets (executables, shared and static libraries), each with its source
//! files and options.
pub mod laws;
pub mod model;
pub mod parser;
pub mod text;
pub mod writer;

pub use model::{ReadState, Recipe, Target, TargetOptions, TargetType, Use};
pub use parser::{ErrorKind, ParseError};
