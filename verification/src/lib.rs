use vstd::prelude::*;

pub mod check;
pub mod diagnostics;
pub mod error;
pub mod ir;
pub mod kv;
pub mod lower;
pub mod parser;
pub mod report;
pub mod scanner;
pub mod slots;
pub mod source_map;
pub mod state;
pub mod text;
pub mod toml_doc;
pub mod toml_model;

verus! {

} // verus!
