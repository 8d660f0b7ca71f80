pub mod grammar;
pub mod laws;
pub mod parser;
pub mod value;

pub use grammar::ParseError;
pub use parser::JsonParser;
pub use value::{Json, JsonValue, array_as_string, as_string, object_as_string};
