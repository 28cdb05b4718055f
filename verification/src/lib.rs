//! A recursive-descent JSON parser, verified against a ghost statement of
//! the JSON grammar.
//!
//! The entry point is [`parser::parse`]: given input bytes it returns the
//! unconsumed remainder and the parsed [`value::Value`], or a structured
//! [`error::ParseError`]. The grammar itself is stated once, as the ghost
//! functions of [`grammar`]; every parsing function is proved to agree with
//! it. [`encode`] states a reference encoder and proves that parsing an
//! encoded value gives that value back.

pub mod encode;
pub mod error;
pub mod grammar;
pub mod parser;
pub mod value;

pub use error::ErrorKind;
pub use error::ParseError;
pub use parser::parse;
pub use value::Text;
pub use value::Value;
