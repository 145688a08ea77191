//! One-shot extraction into a string.

use vstd::prelude::*;

use crate::json_parser::JSONParser;
use crate::model::extracted;

verus! {

/// The spans of `input`, concatenated in order, as a fresh extractor writes
/// them out.
pub fn extract_json_to_string(input: &str) -> (r: String)
    ensures
        r@ == extracted(Seq::empty(), input@),
{
    let mut parser = JSONParser::new();
    let mut buffer = String::new();
    parser.extract_json_from_stream(&mut buffer, input);
    proof {
        assert(Seq::<char>::empty() + extracted(Seq::empty(), input@) =~= extracted(Seq::empty(), input@));
    }
    buffer
}

} // verus!
