//! A front end for Complex Backus-Naur Form grammars: a lexer, a parser into a flat term
//! arena, and a document index for editor tooling.
pub mod ast;
pub mod error;
pub mod index;
pub mod lexer;
pub mod model;
pub mod parser;
pub mod rule_map;
pub mod span;
pub mod text;
pub mod token;
pub mod util;

pub use crate::ast::{Cbnf, Comment, DocComment, List, Rule, Term};
pub use crate::token::DocStyle;
pub use indexmap;
