//! A run-length codec for lists of repeated values.
//!
//! [`crunch`] writes a list as text: for each distinct value, in the order
//! in which the values first occur, the value's label and the runs of
//! positions at which it stands, as in `50:0-1,3-4;3:2,5`. [`uncrunch`]
//! reads such a text back into the list of labels.
//!
//! Values whose labels hold a `:` or a `;` are not escaped, and their
//! text cannot be read back.
pub mod arrange;
pub mod decimal;
pub mod decode;
pub mod encode;
pub mod index;
pub mod laws;
pub mod pieces;
pub mod runs;
pub mod text;

pub use crate::decode::uncrunch;
pub use crate::encode::crunch;
