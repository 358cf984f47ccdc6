//! Language-server logic for Forth: a workspace index of word definitions
//! and references, hover text, resolution of required files and document edits.

pub mod definition_index;
pub mod document;
pub mod hover;
pub mod include_resolver;
pub mod laws;
pub mod lexer;
pub mod position;
pub mod rope;
pub mod table;
pub mod text;
pub mod uri;

use vstd::prelude::*;

verus! {

} // verus!
