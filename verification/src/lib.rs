//! A grammar-engineering toolkit: it reads an EBNF-style context-free
//! grammar, rewrites it into flat BNF, computes nullable/FIRST/FOLLOW sets,
//! builds the LR(0) item-set automaton, and derives LR(0) and SLR(1)
//! action/goto tables.  Conflicts are preserved, never resolved.

pub mod ast;
pub mod bits;
pub mod bytes;
pub mod errors;
pub mod flatten;
pub mod gen;
pub mod symbols;
pub mod ll;
pub mod lr;
pub mod reader;
pub mod render;
