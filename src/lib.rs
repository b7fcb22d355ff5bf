//! Select a range of rows and, within each row, a range of whitespace-delimited
//! fields, using Python-style slice notation with negative indices counted from
//! the end.
pub mod slice;
pub mod rows;
pub mod fields;
pub mod pick;
pub mod laws;
