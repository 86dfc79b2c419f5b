//! Reader for yacc/bison-style grammar files: a scanner that classifies the bytes
//! of a text buffer into spanned tokens, and a recursive-descent recognizer that
//! assembles those tokens into a document of directives and rules.

pub use grammar::{Alternative, Directive, Grammar, Rule};
pub use lexer::{tokenize, Lexer};
pub use parse_spec::ParseError;
pub use position::line_col;
pub use parser::{parse, Parser};
pub use scan_spec::ScanError;
pub use token::{Spanned, Token};

pub mod token;
pub mod utf8_step;
pub mod scan_spec;
pub mod lexer;
pub mod grammar;
pub mod parse_spec;
pub mod parser;
pub mod scan_facts;
pub mod display;
pub mod position;
pub mod round_trip;
pub mod token_facts;
