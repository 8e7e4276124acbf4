//! Mermaid diagrams as coloured terminal text: a parser from Mermaid source
//! to diagram values, a renderer from diagram values to text, the handling
//! of mermaid fences in Markdown, and the state of an interactive viewer.
use vstd::prelude::*;

pub mod text;
pub mod parser;
pub mod color;
pub mod renderer;
pub mod markdown;
pub mod viewer;
pub mod consistency;

verus! {

} // verus!
