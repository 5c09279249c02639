//! Looping modifiers of an array language: higher-order combinators that
//! decompose arrays into rows or elements, run a function on each part on a
//! stack machine, and reassemble the results.

pub mod array;
pub mod error;
pub mod groups;
pub mod value;
pub mod function;
pub mod env;
pub mod reduce;
pub mod scan;
pub mod each;
pub mod table;
pub mod repeat;
pub mod level;
pub mod laws;
