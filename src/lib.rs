//! A closed, tagged document value model: numbers with NaN and signed
//! infinities, slash-delimited document paths, and a recursive value type with
//! a total order and a canonical `{"type", "value"}` JSON envelope.

pub mod error;
pub mod json;
pub mod number;
pub mod reference;
pub mod text;
pub mod value;
pub mod wire;
