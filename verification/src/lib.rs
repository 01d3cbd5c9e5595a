//! Parses the arguments of an HTTP command line (`Header:Value`, `name==value`,
//! `path=value`, `path:=json`) into headers, query parameters and a JSON body.
pub mod body;
pub mod error;
pub mod input;
pub mod json;
pub mod json_text;
pub mod part;
pub mod path;
pub mod text;

pub use error::ParseInputError;
pub use input::{parse_input, try_parse_input, ParsedInput};
pub use json::JsonValue;
pub use part::{ParsedHeader, ParsedQueryParam};
