//! A streaming adapter for "flatten" schemas.
//!
//! An outer schema declares some fields of its own and one field that absorbs
//! every other key of a map-shaped document. The router in this crate lets the
//! consumer of the absorbing field drive an ordinary forward-only map reader
//! while the keys that belong to the outer schema are diverted, as they pass,
//! into the outer schema's accumulator. Each key and each value is read from
//! the document exactly once, and nothing is buffered in between.
//!
//! - `token`: document tokens, and how a key of each representation can be
//!   decoded twice.
//! - `reader`: a forward-only cursor over the tokens of one map.
//! - `classify`: whom a key belongs to, where it goes, and the contract of an
//!   outer schema's accumulator.
//! - `router`: the router itself, and draining.
//! - `fields`: a schema given as a list of declared fields, usable as an
//!   accumulator.
//! - `assembler`: a whole build in one pass.
//! - `laws`: what is proved of every document.
//! - `error`: the errors.
pub mod assembler;
pub mod classify;
pub mod error;
pub mod fields;
pub mod laws;
pub mod reader;
pub mod router;
pub mod token;

pub use assembler::{build, consume, Built};
pub use classify::{key_route, Classification, FlattenSpec, KeyRoute};
pub use error::{FlattenError, ReaderFault};
pub use fields::{DeclaredFields, FieldDecl, ValueKind};
pub use reader::{Document, MapReader};
pub use router::{FlattenDeserializer, FlattenMapAccess, Shape};
pub use token::{decode_path, DecodePath, Representation, Token};
