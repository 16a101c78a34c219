//! Parser combinators for byte-oriented formats that arrive in pieces, with
//! the producers that feed them.
//!
//! A parser is any function from an input to an [`internal::IResult`]: it
//! succeeds and hands back what it did not consume, fails, or asks for more
//! input. [`bytes`] holds the leaf parsers, [`sequence`] and [`multi`] the
//! combinators that build parsers from parsers, and [`producer`] the sources of
//! data and the driver that parses a stream as it comes in.
//!
//! Sub-parsers are passed as function values. A contract speaks of them through
//! their own `requires` and `ensures`: it names an answer that the sub-parser
//! may give, and says what the combinator makes of it.

pub mod bytes;
pub mod internal;
pub mod multi;
pub mod producer;
pub mod sequence;
