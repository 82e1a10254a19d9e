//! Decoding of binary property lists into events, and of events into value trees.
//!
//! A property list is a tree of arrays, dictionaries, booleans, numbers,
//! dates, byte strings and text. In its binary form it is a table of objects
//! that refer to each other by number. A [`BinaryReader`] walks through them
//! from the root and hands out the events that describe the tree; a
//! [`Builder`] turns such events, whoever produced them, into a [`Plist`].

pub mod builder;
pub mod bytes;
pub mod date;
pub mod description;
pub mod error;
pub mod event;
pub mod number;
pub mod parser;
pub mod stream;
pub mod text;
pub mod value;

pub use crate::builder::{BuildFailure, Builder, BuilderError, BuilderResult};
pub use crate::date::Date;
pub use crate::error::{ErrorClass, ParserError, ParserResult};
pub use crate::event::{EventStream, EventView, PlistEvent, VecStream};
pub use crate::number::{Integer, Real};
pub use crate::parser::{StreamingParser, TextSource};
pub use crate::stream::binary_reader::BinaryReader;
pub use crate::value::{Dictionary, Plist, Tree};
