//! A compact token table: maps sparse 16-bit token identifiers to string
//! names without storing the large unused gap in the identifier space.
//!
//! Token identifiers live in two dense regions: a low segment below
//! [`resolver::GAP`] and a high segment at and above it. The table stores
//! only the used prefix of the low segment followed by the whole high
//! segment, and resolution re-derives the storage offset arithmetically.

pub mod codec;
pub mod resolver;
