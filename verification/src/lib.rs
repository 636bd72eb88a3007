//! A prefix-autocomplete index over a finite state transducer.
//!
//! Normalized string keys lead to records: a `group` (results of one group are shown once), a
//! `rank` (higher is shown first) and an opaque `payload`. The engine knows no domain; places
//! are one adapter over it ([`geo`]), people or products are another.
//!
//! Two artifacts are written once and read many times:
//!
//! * `index.fst`: key to number of a postings entry ([`builder`], [`transducer`]),
//! * `records.bin`: postings entries and records ([`blob`], [`records`]).
//!
//! [`index`] answers queries over the two; what a query finds is said in [`search`] and
//! [`ranking`], and what holds of all of it together in [`guarantees`] and [`outcomes`]. Tables
//! of places are read in [`tsv`]; what becomes of their lines is said in [`intake`].
pub mod blob;
pub mod builder;
pub mod bytes;
pub mod decimal;
pub mod distance;
pub mod edits;
pub mod error;
pub mod geo;
pub mod guarantees;
pub mod index;
pub mod intake;
pub mod normalize;
pub mod order;
pub mod outcomes;
pub mod ranking;
pub mod records;
pub mod search;
pub mod table;
pub mod text;
pub mod transducer;
pub mod tsv;
pub mod unicode;

pub use builder::IndexBuilder;
pub use error::{ErrorKind, IndexError};
pub use geo::GeoRecord;
pub use index::Index;
pub use normalize::normalize;
pub use records::{Record, RecordStore};
