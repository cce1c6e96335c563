//! Hatter is a small, whitespace sensitive templating language with
//! HTML support built right in. Templates compile to a list of
//! statements; evaluating them in an environment prints static HTML.

pub mod text;
pub mod number;
pub mod rc;
pub mod symbol;
pub mod omap;
pub mod value;
pub mod stmt;
pub mod syntax;
pub mod error;
pub mod token;
pub mod stream;
pub mod lexer;
pub mod parser;
pub mod compile;
pub mod builtin;
pub mod html;
pub mod env;
pub mod template;

pub use crate::compile::compile;
pub use crate::env::{Env, eval, render};
pub use crate::error::{Error, ErrorKind, Jump, Result, line_and_col};
pub use crate::lexer::scan;
pub use crate::number::Number;
pub use crate::omap::OMap;
pub use crate::parser::{Parser, parse};
pub use crate::stmt::{Stmt, Tag};
pub use crate::stream::{TokenPos, TokenStream};
pub use crate::symbol::Symbol;
pub use crate::syntax::{Syntax, SyntaxTrait};
pub use crate::template::Template;
pub use crate::token::Token;
pub use crate::value::{Fn, Native, Special, Value};
