//! A lexer generator based on Brzozowski derivatives of regular expressions.
pub mod dfa;
pub mod emit;
pub mod expression;
pub mod language;
pub mod parse;
pub mod partition;
pub mod range;
pub mod rangeset;
pub mod scanner;
pub mod text;
pub mod token_spec;
pub mod vector;

pub use dfa::{compile, Dfa};
pub use emit::{c_header, c_source, dot_source};
pub use expression::{product_intersections, CharSet, Regex};
pub use parse::{parse_regex, ParseError};
pub use range::{ItemsBetween, Range};
pub use rangeset::RangeSet;
pub use scanner::{scan, Token};
pub use token_spec::{parse_spec, spec_to_expression_vector, SpecParseError, TokenSpec};
pub use vector::ExpressionVector;
