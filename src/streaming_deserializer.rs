//! The streaming accumulator: gathers the spans of a stream and decodes a
//! structure once a chunk leaves it closed.

use vstd::prelude::*;

use core::marker::PhantomData;
use serde::de::DeserializeOwned;

use crate::deserializer::{decode_json, DeserializeError};
use crate::json_parser::JSONParser;
use crate::marker::{is_opener, Marker};
use crate::laws::lemma_extract_concat;
use crate::model::{extracted, fresh, lemma_run_stack, run, stack_after, ParserView};

verus! {

/// What an accumulator remembers between chunks.
pub struct AccumulatorView {
    /// The state of its extractor.
    pub parser: ParserView,
    /// The extracted text not yet handed to the decoder.
    pub accumulated: Seq<char>,
}

/// The text gathered once `chunk` has been fed to `v`.
pub open spec fn gathered(v: AccumulatorView, chunk: Seq<char>) -> Seq<char> {
    v.accumulated + extracted(v.parser.stack, chunk)
}

/// Whether the character at position `i` of `chunk` takes the stack, starting
/// from `stack`, from non-empty to empty.
pub open spec fn closes_at(stack: Seq<char>, chunk: Seq<char>, i: int) -> bool {
    &&& 0 <= i < chunk.len()
    &&& stack_after(stack, chunk.take(i)).len() > 0
    &&& stack_after(stack, chunk.take(i + 1)).len() == 0
}

/// The first position of `chunk`, no earlier than `i`, whose character
/// closes the outermost open structure.
pub open spec fn first_close_from(stack: Seq<char>, chunk: Seq<char>, i: int) -> Option<int>
    decreases chunk.len() - i,
{
    if i < 0 || i >= chunk.len() {
        None
    } else if closes_at(stack, chunk, i) {
        Some(i)
    } else {
        first_close_from(stack, chunk, i + 1)
    }
}

/// The first position of `chunk` whose character closes the outermost open
/// structure, if there is one.
pub open spec fn first_close(stack: Seq<char>, chunk: Seq<char>) -> Option<int> {
    first_close_from(stack, chunk, 0)
}

/// Whether feeding `chunk` to `v` hands text to the decoder: the extractor
/// ends outside any structure, with text gathered.
pub open spec fn hands_over(v: AccumulatorView, chunk: Seq<char>) -> bool {
    run(v.parser, chunk).stack.len() == 0 && gathered(v, chunk).len() > 0
}

/// The first position of `chunk`, no earlier than `k`, that holds an opener.
pub open spec fn first_opener_from(chunk: Seq<char>, k: int) -> Option<int>
    decreases chunk.len() - k,
{
    if k < 0 || k >= chunk.len() {
        None
    } else if is_opener(chunk[k]) {
        Some(k)
    } else {
        first_opener_from(chunk, k + 1)
    }
}

/// Where the gathered text is cut on a handover: at the first opener after
/// the chunk's first closing character, where a second structure begins. With
/// no such opener the text is not cut.
pub open spec fn split_point(v: AccumulatorView, chunk: Seq<char>) -> Option<int> {
    match first_close(v.parser.stack, chunk) {
        Some(i) => first_opener_from(chunk, i + 1),
        None => None,
    }
}

/// The text handed to the decoder: what is gathered before the split point,
/// or all of it if there is none.
pub open spec fn handed_text(v: AccumulatorView, chunk: Seq<char>) -> Seq<char> {
    match split_point(v, chunk) {
        Some(j) => gathered(v, chunk.take(j)),
        None => gathered(v, chunk),
    }
}

/// The text kept after a handover: what `chunk` writes out from the split
/// point on, or nothing if there is none.
pub open spec fn kept_text(v: AccumulatorView, chunk: Seq<char>) -> Seq<char> {
    match split_point(v, chunk) {
        Some(j) => extracted(stack_after(v.parser.stack, chunk.take(j)), chunk.skip(j)),
        None => Seq::empty(),
    }
}

/// The first opener, found by the positions before it.
proof fn lemma_first_opener(chunk: Seq<char>, m: int, k: int)
    requires
        0 <= m <= k < chunk.len(),
        is_opener(chunk[k]),
        forall|j: int| m <= j < k ==> !is_opener(#[trigger] chunk[j]),
    ensures
        first_opener_from(chunk, m) == Some(k),
    decreases k - m,
{
    if m < k {
        lemma_first_opener(chunk, m + 1, k);
    }
}

/// No position from `m` on holds an opener.
proof fn lemma_no_opener(chunk: Seq<char>, m: int)
    requires
        0 <= m,
        forall|j: int| m <= j < chunk.len() ==> !is_opener(#[trigger] chunk[j]),
    ensures
        first_opener_from(chunk, m) is None,
    decreases chunk.len() - m,
{
    if m < chunk.len() {
        lemma_no_opener(chunk, m + 1);
    }
}

/// The first closing position, found by the positions before it.
proof fn lemma_first_close(stack: Seq<char>, chunk: Seq<char>, m: int, k: int)
    requires
        0 <= m <= k,
        closes_at(stack, chunk, k),
        forall|j: int| m <= j < k ==> !closes_at(stack, chunk, j),
    ensures
        first_close_from(stack, chunk, m) == Some(k),
    decreases k - m,
{
    if m < k {
        lemma_first_close(stack, chunk, m + 1, k);
    }
}

/// No position from `m` on closes the outermost structure.
proof fn lemma_no_close(stack: Seq<char>, chunk: Seq<char>, m: int)
    requires
        0 <= m,
        forall|j: int| m <= j < chunk.len() ==> !closes_at(stack, chunk, j),
    ensures
        first_close_from(stack, chunk, m) is None,
    decreases chunk.len() - m,
{
    if m < chunk.len() {
        lemma_no_close(stack, chunk, m + 1);
    }
}

/// Decodes values of type `T` from a stream of text delivered in chunks.
pub struct StreamingDeserializer<T> {
    parser: JSONParser,
    accumulated_json: String,
    _phantom: PhantomData<T>,
}

impl<T> View for StreamingDeserializer<T> {
    type V = AccumulatorView;

    closed spec fn view(&self) -> AccumulatorView {
        AccumulatorView { parser: self.parser@, accumulated: self.accumulated_json@ }
    }
}

impl<T> StreamingDeserializer<T> {
    /// The accumulator's state is one that processing can reach.
    pub closed spec fn wf(&self) -> bool {
        self.parser.wf()
    }

    /// An accumulator with a fresh extractor and nothing gathered.
    pub fn new() -> (r: Self)
        ensures
            r.wf(),
            r@.parser == fresh(),
            r@.accumulated.len() == 0,
    {
        StreamingDeserializer {
            parser: JSONParser::new(),
            accumulated_json: String::new(),
            _phantom: PhantomData,
        }
    }

    /// Feeds `chunk` and gathers what the extractor writes out. If the
    /// extractor ends outside any structure with text gathered, the gathered
    /// text is handed back. When a second structure opens in the chunk after
    /// its first closing character, the text is cut where that structure
    /// begins: the part before is handed back, the rest stays gathered and
    /// waits for a later call.
    pub fn take_complete_span(&mut self, chunk: &str) -> (r: Option<String>)
        requires
            old(self).wf(),
        ensures
            final(self).wf(),
            final(self)@.parser == run(old(self)@.parser, chunk@),
            hands_over(old(self)@, chunk@) ==> (r matches Some(s) && s@ == handed_text(
                old(self)@,
                chunk@,
            ) && final(self)@.accumulated == kept_text(old(self)@, chunk@)),
            hands_over(old(self)@, chunk@) && split_point(old(self)@, chunk@) is None ==> (
            r matches Some(s) && s@ == gathered(old(self)@, chunk@)
                && final(self)@.accumulated.len() == 0),
            !hands_over(old(self)@, chunk@) ==> (r is None && final(self)@.accumulated
                == gathered(old(self)@, chunk@)),
    {
        let ghost start = self@;
        let ghost st = start.parser.stack;
        let ghost cs = chunk@;
        let ghost mut ci: int = 0;
        let ghost mut cj: int = 0;
        // 0: no structure closed yet; 1: one closed, no opener since;
        // 2: a second structure began at `cj`.
        let mut phase: u8 = 0;
        let mut tail = String::new();
        proof {
            assert(cs.take(0) =~= Seq::<char>::empty());
            assert(start.accumulated + Seq::<char>::empty() =~= start.accumulated);
        }
        for item in iter: chunk.chars()
            invariant
                iter.seq() == cs,
                cs == chunk@,
                st == start.parser.stack,
                self.wf(),
                phase <= 2,
                self@.parser == run(start.parser, cs.take(iter.index() as int)),
                phase < 2 ==> self@.accumulated == gathered(start, cs.take(iter.index() as int)),
                phase < 2 ==> tail@ == Seq::<char>::empty(),
                phase == 0 ==> forall|j: int| 0 <= j < iter.index() ==> !closes_at(st, cs, j),
                phase > 0 ==> {
                    &&& 0 <= ci < iter.index()
                    &&& closes_at(st, cs, ci)
                    &&& forall|j: int| 0 <= j < ci ==> !closes_at(st, cs, j)
                    &&& self@.accumulated.len() > 0
                },
                phase == 1 ==> forall|j: int|
                    ci < j < iter.index() ==> !is_opener(#[trigger] cs[j]),
                phase == 2 ==> {
                    &&& ci < cj < iter.index()
                    &&& is_opener(cs[cj])
                    &&& forall|j: int| ci < j < cj ==> !is_opener(#[trigger] cs[j])
                    &&& self@.accumulated == gathered(start, cs.take(cj))
                    &&& tail@ == extracted(
                        stack_after(st, cs.take(cj)),
                        cs.subrange(cj, iter.index() as int),
                    )
                },
        {
            let ghost i = iter.index() as int;
            proof {
                let done = cs.take(i);
                assert(done.push(item) =~= cs.take(i + 1));
                assert(done.push(item).drop_last() =~= done);
                assert(cs[i] == item);
                lemma_run_stack(start.parser, done);
                lemma_run_stack(start.parser, cs.take(i + 1));
            }
            if phase == 1 && Marker::new(&item).is_some() {
                phase = 2;
                proof {
                    cj = i;
                    assert(cs.subrange(cj, cj) =~= Seq::<char>::empty());
                    assert(cs.take(cj) =~= cs.take(i));
                }
            }
            if phase == 2 {
                proof {
                    let sub = cs.subrange(cj, i);
                    assert(sub.push(item) =~= cs.subrange(cj, i + 1));
                    assert(sub.push(item).drop_last() =~= sub);
                    assert(cs.take(cj) + sub =~= cs.take(i));
                    lemma_extract_concat(st, cs.take(cj), sub);
                }
                self.parser.extract_char(&mut tail, item);
            } else {
                let was_open = self.parser.is_in_json();
                self.parser.extract_char(&mut self.accumulated_json, item);
                if phase == 0 && was_open && !self.parser.is_in_json() {
                    phase = 1;
                    proof {
                        ci = i;
                    }
                }
            }
        }
        proof {
            assert(cs.take(cs.len() as int) =~= cs);
            lemma_run_stack(start.parser, cs);
            if phase > 0 {
                lemma_first_close(st, cs, 0, ci);
            } else {
                lemma_no_close(st, cs, 0);
            }
            if phase == 1 {
                lemma_no_opener(cs, ci + 1);
            }
            if phase == 2 {
                lemma_first_opener(cs, ci + 1, cj);
                assert(cs.subrange(cj, cs.len() as int) =~= cs.skip(cj));
                assert(cs.take(cj) + cs.skip(cj) =~= cs);
                lemma_extract_concat(st, cs.take(cj), cs.skip(cj));
                assert(gathered(start, cs) =~= self@.accumulated + tail@);
            }
        }
        if !self.parser.is_in_json() && !self.accumulated_json.as_str().is_empty() {
            let span = self.accumulated_json.clone();
            self.accumulated_json = tail;
            Some(span)
        } else {
            self.accumulated_json.append(tail.as_str());
            proof {
                assert(self@.accumulated =~= gathered(start, cs));
            }
            None
        }
    }

    /// Whether the extractor is inside an unfinished structure.
    pub fn is_in_json(&self) -> (r: bool)
        ensures
            r == (self@.parser.stack.len() > 0),
    {
        self.parser.is_in_json()
    }

    /// The text gathered and not yet decoded.
    pub fn accumulated_json(&self) -> (r: &str)
        ensures
            r@ == self@.accumulated,
    {
        self.accumulated_json.as_str()
    }

    /// Drops all state, to start on a new stream.
    pub fn reset(&mut self)
        ensures
            final(self).wf(),
            final(self)@.parser == fresh(),
            final(self)@.accumulated.len() == 0,
    {
        self.parser = JSONParser::new();
        self.accumulated_json = String::new();
    }
}

impl<T: DeserializeOwned> StreamingDeserializer<T> {
    /// Feeds `chunk`; if that leaves the extractor outside any structure
    /// with text gathered, the text that `take_complete_span` hands over is
    /// decoded. A value comes back only from such a handover; a decoding
    /// failure gives `None` as well.
    pub fn process_chunk(&mut self, chunk: &str) -> (r: Option<T>)
        requires
            old(self).wf(),
        ensures
            final(self).wf(),
            final(self)@.parser == run(old(self)@.parser, chunk@),
            hands_over(old(self)@, chunk@) ==> final(self)@.accumulated == kept_text(
                old(self)@,
                chunk@,
            ),
            hands_over(old(self)@, chunk@) && split_point(old(self)@, chunk@) is None
                ==> final(self)@.accumulated.len() == 0,
            !hands_over(old(self)@, chunk@) ==> (r is None && final(self)@.accumulated
                == gathered(old(self)@, chunk@)),
    {
        match self.take_complete_span(chunk) {
            Some(span) => match decode_json::<T>(span.as_str()) {
                Ok(value) => Some(value),
                Err(_) => None,
            },
            None => None,
        }
    }

    /// Decodes whatever is gathered, finished or not, at the end of a stream.
    ///
    /// With nothing gathered the result is `Ok(None)`. A decoded value comes
    /// back with the accumulator reset; a decoding failure is returned and
    /// leaves the accumulator as it was.
    pub fn finalize(&mut self) -> (r: Result<Option<T>, DeserializeError>)
        requires
            old(self).wf(),
        ensures
            final(self).wf(),
            (r matches Ok(None)) <==> old(self)@.accumulated.len() == 0,
            r matches Ok(None) ==> final(self)@ == old(self)@,
            r matches Ok(Some(_)) ==> final(self)@.parser == fresh()
                && final(self)@.accumulated.len() == 0,
            r matches Err(e) ==> e is Deserialization && final(self)@ == old(self)@,
    {
        if self.accumulated_json.as_str().is_empty() {
            return Ok(None);
        }
        match decode_json::<T>(self.accumulated_json.as_str()) {
            Ok(value) => {
                self.reset();
                Ok(Some(value))
            },
            Err(e) => Err(DeserializeError::Deserialization(e)),
        }
    }
}

impl<T> Default for StreamingDeserializer<T> {
    fn default() -> (r: Self)
        ensures
            r.wf(),
            r@.parser == fresh(),
            r@.accumulated.len() == 0,
    {
        Self::new()
    }
}

} // verus!
