//! Extraction of JSON-shaped spans (objects `{...}` and arrays `[...]`) from
//! text that arrives in arbitrary chunks, with everything around them dropped.

pub mod deserializer;
pub mod json_parser;
pub mod laws;
pub mod marker;
pub mod model;
pub mod streaming_deserializer;
pub mod string_extract;

pub use deserializer::{from_mixed_text, from_mixed_text_with_parser, DeserializeError};
pub use json_parser::JSONParser;
pub use marker::Marker;
pub use streaming_deserializer::StreamingDeserializer;
pub use string_extract::extract_json_to_string;
