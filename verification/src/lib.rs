//! Front end of the constraint DSL: a tokenizer, a recursive-descent
//! expression parser, the line-oriented statement parser and the analyses
//! that extract variables, domains and constraints from a parsed script.
pub mod text;
pub mod token;
pub mod ast;
pub mod parser;
pub mod float_lit;
pub mod statement;
pub mod analysis;
pub mod strategy;
pub mod laws;
pub mod laws_analysis;
pub mod laws_syntax;
pub mod laws_statement;
pub mod laws_literal;
pub mod laws_validate;
pub mod validate;

pub use ast::{AstNode, BinOp};
pub use parser::{ExprError, ExprParser};
pub use statement::{RelOp, Statement, parse_script};
pub use analysis::{extract_calculated_vars, extract_constraints, extract_domains, extract_free_variables};
pub use strategy::Strategy;
pub use token::{TokenKind, OpTok, tokenize};
pub use validate::{ValidationIssue, validate_dsl};
