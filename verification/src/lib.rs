//! Extraction of structural metadata (names and fields) from C/C++ source
//! text that declares `struct` types, including `typedef struct` forms.
//!
//! The `c_parser` module holds the tokenizer and the recursive-descent
//! parser; `c_structures` holds plain data carriers for parsed results.

#![allow(non_camel_case_types)]

pub mod c_parser;
pub mod c_structures;
pub mod laws;
