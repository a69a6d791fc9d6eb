//! A map from words of lower-case letters to numbers that can tell the sum
//! of the numbers of all words with a given prefix, in two layouts of its
//! tree.

pub mod array_of_pointers;
pub mod common;
pub mod pointer_to_array;
