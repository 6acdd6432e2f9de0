//! Style rules of a Fortran linter, verified: `use` statements sorted within blocks, the items
//! of `only:` lists sorted by name, and a limit on the parameters of procedures.
//!
//! The rules read a syntax tree of the source ([`syntax::SyntaxNode`]) and the source text, and
//! report [`diagnostic::Diagnostic`]s, with fixes where the rule has one.
use vstd::prelude::*;

pub mod diagnostic;
pub mod only_items;
pub mod ordering;
pub mod range;
pub mod sorting;
pub mod source_lines;
pub mod syntax;
pub mod text;
pub mod too_many_parameters;
pub mod unsorted_onlys;
pub mod unsorted_uses;
pub mod use_statement;
