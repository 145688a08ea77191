//! The boundary extractor: an incremental state machine that writes out the
//! characters of JSON-shaped spans and drops all other text.

use vstd::prelude::*;

use crate::marker::{closer_for, is_closer, is_structural, Marker};
use crate::model::{
    emits, extracted, fresh, lemma_run_stack, next_stack, run, step, view_wf, ParserView,
};

verus! {

/// Relies on `String::push`: appends one character at the end.
#[verifier::external_body]
fn push_char(s: &mut String, c: char)
    ensures
        final(s)@ == old(s)@.push(c),
{
    s.push(c)
}

/// Extracts JSON objects and arrays from text delivered in chunks.
///
/// The extractor knows only the four structural characters: it does not read
/// strings, so a bracket inside a quoted value counts like any other. A
/// closer pops the innermost open structure as soon as any open structure
/// awaits it, so text that closes out of order is absorbed rather than
/// reported.
pub struct JSONParser {
    buffer: String,
    markers: Vec<Marker>,
}

/// The closers that a stack of markers awaits.
pub open spec fn awaited(markers: Seq<Marker>) -> Seq<char> {
    markers.map_values(|m: Marker| m@)
}

impl View for JSONParser {
    type V = ParserView;

    closed spec fn view(&self) -> ParserView {
        ParserView { stack: awaited(self.markers@), pending: self.buffer@ }
    }
}

impl JSONParser {
    /// The extractor's state is one that processing can reach.
    pub closed spec fn wf(&self) -> bool {
        view_wf(self@)
    }

    /// An extractor outside any structure, with nothing pending.
    pub fn new() -> (r: Self)
        ensures
            r.wf(),
            r@ == fresh(),
    {
        let r = JSONParser { buffer: String::new(), markers: Vec::new() };
        assert(r@.stack =~= fresh().stack);
        r
    }

    /// Whether a structure has been opened and not yet closed.
    pub fn is_in_json(&self) -> (r: bool)
        ensures
            r == (self@.stack.len() > 0),
    {
        proof {
            assert(self@.stack.len() == self.markers@.len());
        }
        !self.markers.is_empty()
    }

    /// How many structures are open.
    pub fn depth(&self) -> (r: usize)
        ensures
            r == self@.stack.len(),
    {
        self.markers.len()
    }

    /// Pops the innermost open structure if any open structure awaits `item`.
    fn remove_markers_pair(&mut self, item: &char)
        ensures
            final(self).buffer@ == old(self).buffer@,
            awaited(final(self).markers@) == (if awaited(old(self).markers@).contains(*item) {
                awaited(old(self).markers@).drop_last()
            } else {
                awaited(old(self).markers@)
            }),
    {
        let ghost stack = awaited(self.markers@);
        let mut i: usize = self.markers.len();
        while i > 0
            invariant
                i <= self.markers.len(),
                stack == awaited(self.markers@),
                self.buffer@ == old(self).buffer@,
                self.markers@ == old(self).markers@,
                forall|j: int| i <= j < stack.len() ==> stack[j] != *item,
            decreases i,
        {
            i = i - 1;
            if self.markers[i].is_counter_part(item) {
                assert(stack[i as int] == *item);
                self.markers.pop();
                proof {
                    assert(awaited(self.markers@) =~= stack.drop_last());
                }
                return;
            }
        }
        assert(!stack.contains(*item));
    }

    /// Takes one character that belongs to a span into the stack.
    fn update_markers(&mut self, item: &char)
        requires
            forall|i: int|
                0 <= i < awaited(old(self).markers@).len() ==> is_closer(
                    #[trigger] awaited(old(self).markers@)[i],
                ),
        ensures
            awaited(final(self).markers@) == next_stack(awaited(old(self).markers@), *item),
            final(self).buffer@ == (if next_stack(awaited(old(self).markers@), *item).len() == 0 {
                Seq::empty()
            } else {
                old(self).buffer@
            }),
    {
        let ghost stack = awaited(self.markers@);
        if let Some(marker) = Marker::new(item) {
            self.markers.push(marker);
            proof {
                assert(awaited(self.markers@) =~= stack.push(closer_for(*item)));
            }
            return;
        }
        proof {
            if !is_closer(*item) && stack.contains(*item) {
                let j = choose|j: int| 0 <= j < stack.len() && stack[j] == *item;
                assert(is_closer(stack[j]));
            }
        }
        self.remove_markers_pair(item);
        if self.markers.is_empty() {
            self.buffer = String::new();
        }
    }

    /// Whether `item`, fed now, would belong to a span and be written out;
    /// the extractor is left as it is.
    pub fn would_emit(&self, item: char) -> (r: bool)
        ensures
            r == emits(self@.stack, item),
    {
        self.is_in_json() || is_paired_marker(item)
    }

    /// Takes one character: if it belongs to a span, it is written to
    /// `writer` and tracked; otherwise it is dropped.
    pub fn extract_char(&mut self, writer: &mut String, item: char)
        requires
            old(self).wf(),
        ensures
            final(self).wf(),
            final(self)@ == step(old(self)@, item),
            final(writer)@ == (if emits(old(self)@.stack, item) {
                old(writer)@.push(item)
            } else {
                old(writer)@
            }),
    {
        let ghost before = self@;
        if self.is_in_json() || is_paired_marker(item) {
            push_char(&mut self.buffer, item);
            self.update_markers(&item);
            push_char(writer, item);
        }
        proof {
            assert(self@.stack =~= step(before, item).stack);
            assert(self@.pending =~= step(before, item).pending);
            crate::model::lemma_step_wf(before, item);
        }
    }

    /// Writes to `writer` the characters of `json_object` that belong to
    /// spans, and keeps the state of an unfinished span for the next call.
    pub fn extract_json_from_stream(&mut self, writer: &mut String, json_object: &str)
        requires
            old(self).wf(),
        ensures
            final(self).wf(),
            final(self)@ == run(old(self)@, json_object@),
            final(writer)@ == old(writer)@ + extracted(old(self)@.stack, json_object@),
    {
        let ghost start = self@;
        let ghost out0 = writer@;
        for item in iter: json_object.chars()
            invariant
                iter.seq() == json_object@,
                self.wf(),
                self@ == run(start, iter.seq().take(iter.index() as int)),
                writer@ == out0 + extracted(start.stack, iter.seq().take(iter.index() as int)),
        {
            let ghost done = iter.seq().take(iter.index() as int);
            proof {
                assert(done.push(item) =~= iter.seq().take(iter.index() + 1));
                assert(done.push(item).drop_last() =~= done);
                lemma_run_stack(start, done);
            }
            self.extract_char(writer, item);
        }
        proof {
            assert(json_object@.take(json_object@.len() as int) =~= json_object@);
        }
    }
}

/// Whether `c` is one of the four structural characters.
fn is_paired_marker(c: char) -> (r: bool)
    ensures
        r == is_structural(c),
{
    c == '{' || c == '}' || c == '[' || c == ']'
}

} // verus!
