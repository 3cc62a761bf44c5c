//! An embeddable interpreter for a small indentation-sensitive scripting
//! language: a tokenizer with a constant-folding pass, a parser for the full
//! statement grammar, a line-based step parser, a variable frame and a
//! resumable evaluator driven by a host callback.
use vstd::prelude::*;

pub mod text;
pub mod tokens;
pub mod syntax;
pub mod stack;
pub mod ast;
pub mod method_args;
pub mod eval_context;
pub mod instructions;

pub use instructions::MethodRef;
pub use ast::{Ast, AstStep, AstStatement};
pub use eval_context::{Engine, EvalContext, EvalOptions, Host};
pub use method_args::MethodArgs;
pub use stack::{Stack, StackVariable};
