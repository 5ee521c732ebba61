use vstd::prelude::*;

pub mod position;
pub mod token;
pub mod value;
pub mod error;
pub mod chars;
pub mod float_text;
pub mod lexer;
pub mod parser;
pub mod json;
pub mod spelling;
pub mod escapes;
pub mod spacing;
pub mod writing;
pub mod messages;
pub mod literals;
pub mod places;
