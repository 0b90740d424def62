//! A command registry and dispatcher: textual command names mapped to
//! caller-supplied handlers, with registration, two merge policies, a
//! line tokenizer, and a dispatcher that reports unknown commands.
#![allow(non_snake_case)]

pub mod errors;
pub mod registry;
pub mod tokenize;

pub use errors::EmptyInputError;
pub use errors::UnknownCommandError;
pub use registry::Handler;
pub use registry::CLI;
pub use tokenize::tokenize;
