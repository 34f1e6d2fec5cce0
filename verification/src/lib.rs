//! Provenance-preserving parsing of HTTP/1.1 transcripts.
//!
//! Every parsed element carries the exact byte positions of the transcript
//! that produced it, as a [`range::RangeSet`]: a [`span::Span`] pairs the
//! bytes of an element with those positions, and [`http`] parses requests
//! and responses whose every part is a span.

pub mod buffer;
pub mod error;
pub mod http;
pub mod json;
pub mod range;
pub mod span;
pub mod text;

pub use error::{ErrorKind, ParseError};
pub use range::difference::Difference;
pub use range::intersection::Intersection;
pub use range::union::{Union, UnionMut};
pub use range::RangeSet;
pub use span::{Span, StrSpan};
