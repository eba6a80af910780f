//! Reader and writer for Labeled Tab-Separated Values (LTSV): text in which
//! each line is a record, a record is a run of fields with a tab between
//! them, and a field is a label, a colon and a value.
//!
//! [`LTSVParser`] reads a [`ByteSource`] with one byte of lookahead and
//! implements [`LTSVReader`]; every [`ByteSink`] implements [`LTSVWriter`].
//! The `syntax` module says what bytes parse to and what records are written
//! as; `roundtrip` proves that parsing what was written gives it back.

pub mod error;
pub mod grammar;
pub mod parser;
pub mod reader;
pub mod record;
pub mod roundtrip;
pub mod stream;
pub mod syntax;
pub mod writer;

pub use error::ParseError;
pub use parser::LTSVParser;
pub use reader::LTSVReader;
pub use record::{Field, Record};
pub use stream::{ByteSink, ByteSource, BytesReader};
pub use syntax::Delimiter;
pub use writer::LTSVWriter;
