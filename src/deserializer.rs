//! Decoding extracted spans into typed values with serde_json.

use vstd::prelude::*;

use serde::de::DeserializeOwned;

use crate::json_parser::JSONParser;
use crate::model::{extracted, run};
use crate::string_extract::extract_json_to_string;

verus! {

#[verifier::external_type_specification]
#[verifier::external_body]
pub struct ExJsonError(serde_json::Error);

/// Relies on `serde_json::from_str`: decodes the whole text as one value of
/// type `T`, or returns the error that stopped it.
#[verifier::external_body]
pub(crate) fn decode_json<T: DeserializeOwned>(text: &str) -> (r: Result<T, serde_json::Error>) {
    serde_json::from_str(text)
}

/// Why a value could not be had from the text.
#[derive(Debug)]
pub enum DeserializeError {
    /// The text held no complete structure to decode.
    Extraction(String),
    /// The decoder refused the extracted text.
    Deserialization(serde_json::Error),
}

impl DeserializeError {
    /// The error as text for a reader: which stage failed, and why.
    pub fn message(&self) -> (r: String)
        ensures
            self matches DeserializeError::Extraction(m) ==> r@ == "JSON extraction error: "@ + m@,
            self is Deserialization ==> exists|why: Seq<char>|
                r@ == "JSON deserialization error: "@ + why,
    {
        match self {
            DeserializeError::Extraction(m) => {
                "JSON extraction error: ".to_string().concat(m.as_str())
            },
            DeserializeError::Deserialization(e) => {
                let text = e.to_string();
                let r = "JSON deserialization error: ".to_string().concat(text.as_str());
                assert(r@ == "JSON deserialization error: "@ + text@);
                r
            },
        }
    }
}

/// What `from_mixed_text_with_parser` reports when the structure is unfinished.
pub open spec fn incomplete_message() -> Seq<char> {
    "Incomplete JSON: parser is still expecting more input"@
}

/// Decodes the spans of `input`, concatenated, as one value of type `T`.
pub fn from_mixed_text<T: DeserializeOwned>(input: &str) -> (r: Result<T, DeserializeError>)
    ensures
        r matches Err(e) ==> e is Deserialization,
{
    let json = extract_json_to_string(input);
    match decode_json::<T>(json.as_str()) {
        Ok(v) => Ok(v),
        Err(e) => Err(DeserializeError::Deserialization(e)),
    }
}

/// Feeds `input` to `parser` and decodes what it wrote out, if that ends a
/// structure.
///
/// When the parser is left inside a structure, or `input` held no structural
/// text, nothing is decoded and the result is an extraction error.
pub fn from_mixed_text_with_parser<T: DeserializeOwned>(
    parser: &mut JSONParser,
    input: &str,
) -> (r: Result<T, DeserializeError>)
    requires
        old(parser).wf(),
    ensures
        final(parser).wf(),
        final(parser)@ == run(old(parser)@, input@),
        (r matches Err(DeserializeError::Extraction(_))) <==> (final(parser)@.stack.len() > 0
            || extracted(old(parser)@.stack, input@).len() == 0),
        r matches Err(DeserializeError::Extraction(m)) ==> m@ == incomplete_message(),
{
    let mut json = String::new();
    parser.extract_json_from_stream(&mut json, input);
    proof {
        let out = extracted(old(parser)@.stack, input@);
        assert(Seq::<char>::empty() + out =~= out);
    }
    if !parser.is_in_json() && !json.as_str().is_empty() {
        match decode_json::<T>(json.as_str()) {
            Ok(v) => Ok(v),
            Err(e) => Err(DeserializeError::Deserialization(e)),
        }
    } else {
        let message = "Incomplete JSON: parser is still expecting more input".to_string();
        Err(DeserializeError::Extraction(message))
    }
}

} // verus!
