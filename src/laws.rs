//! What holds of extraction over whole inputs and over chunked ones.

use vstd::prelude::*;

use crate::marker::{closer_for, is_closer, is_opener, is_structural};
use crate::model::{emits, extracted, lemma_run_stack, run, stack_after, ParserView};

verus! {

/// Extracting `a` and then `b` leaves the stack and writes out exactly what
/// extracting `a + b` in one go does.
pub proof fn lemma_extract_concat(stack: Seq<char>, a: Seq<char>, b: Seq<char>)
    ensures
        stack_after(stack, a + b) == stack_after(stack_after(stack, a), b),
        extracted(stack, a + b) == extracted(stack, a) + extracted(stack_after(stack, a), b),
    decreases b.len(),
{
    if b.len() == 0 {
        assert(a + b =~= a);
        assert(extracted(stack, a) + extracted(stack_after(stack, a), b) =~= extracted(stack, a));
    } else {
        lemma_extract_concat(stack, a, b.drop_last());
        assert((a + b).drop_last() =~= a + b.drop_last());
        assert((a + b).last() == b.last());
        let mid = stack_after(stack, a);
        if emits(stack_after(mid, b.drop_last()), b.last()) {
            assert(extracted(stack, a + b) =~= extracted(stack, a) + extracted(mid, b));
        } else {
            assert(extracted(stack, a + b) =~= extracted(stack, a) + extracted(mid, b));
        }
    }
}

/// Feeding `a` and then `b` ends in the state that feeding `a + b` does.
pub proof fn lemma_run_concat(v: ParserView, a: Seq<char>, b: Seq<char>)
    ensures
        run(v, a + b) == run(run(v, a), b),
    decreases b.len(),
{
    if b.len() == 0 {
        assert(a + b =~= a);
    } else {
        lemma_run_concat(v, a, b.drop_last());
        assert((a + b).drop_last() =~= a + b.drop_last());
        assert((a + b).last() == b.last());
    }
}

/// The state after feeding each chunk in turn.
pub open spec fn run_chunks(v: ParserView, chunks: Seq<Seq<char>>) -> ParserView
    decreases chunks.len(),
{
    if chunks.len() == 0 {
        v
    } else {
        run_chunks(run(v, chunks[0]), chunks.drop_first())
    }
}

/// What is written out over the calls that feed each chunk in turn.
pub open spec fn extracted_chunks(v: ParserView, chunks: Seq<Seq<char>>) -> Seq<char>
    decreases chunks.len(),
{
    if chunks.len() == 0 {
        Seq::empty()
    } else {
        extracted(v.stack, chunks[0]) + extracted_chunks(run(v, chunks[0]), chunks.drop_first())
    }
}

/// However an input is cut into chunks, feeding the chunks one call at a time
/// writes out the same characters, and ends in the same state, as feeding the
/// whole input in one call.
pub proof fn chunking_preserves_extraction(v: ParserView, chunks: Seq<Seq<char>>)
    ensures
        extracted_chunks(v, chunks) == extracted(v.stack, chunks.flatten()),
        run_chunks(v, chunks) == run(v, chunks.flatten()),
    decreases chunks.len(),
{
    if chunks.len() == 0 {
        assert(extracted(v.stack, Seq::<char>::empty()) =~= Seq::<char>::empty());
    } else {
        let first = chunks[0];
        let rest = chunks.drop_first();
        chunking_preserves_extraction(run(v, first), rest);
        lemma_extract_concat(v.stack, first, rest.flatten());
        lemma_run_concat(v, first, rest.flatten());
        lemma_run_stack(v, first);
        assert(chunks.flatten() == first + rest.flatten());
    }
}

/// One character under strict nesting: a closer must answer the innermost
/// open structure, or the text is not well nested.
pub open spec fn strict_step(stack: Seq<char>, c: char) -> Option<Seq<char>> {
    if is_opener(c) {
        Some(stack.push(closer_for(c)))
    } else if is_closer(c) {
        if stack.len() > 0 && stack.last() == c {
            Some(stack.drop_last())
        } else {
            None
        }
    } else {
        Some(stack)
    }
}

/// The stack after `w` under strict nesting, if `w` nests well from `stack`.
pub open spec fn strict_run(stack: Seq<char>, w: Seq<char>) -> Option<Seq<char>>
    decreases w.len(),
{
    if w.len() == 0 {
        Some(stack)
    } else {
        match strict_run(stack, w.drop_last()) {
            Some(s) => strict_step(s, w.last()),
            None => None,
        }
    }
}

/// Text whose brackets all pair up, each closer answering the innermost open
/// structure; any other characters may stand between them.
pub open spec fn balanced(w: Seq<char>) -> bool {
    strict_run(Seq::empty(), w) == Some(Seq::<char>::empty())
}

/// The span that opens with `o`, holds `body` and closes with `o`'s closer.
pub open spec fn span_of(o: char, body: Seq<char>) -> Seq<char> {
    seq![o] + body + seq![closer_for(o)]
}

/// Text without structural characters.
pub open spec fn plain(w: Seq<char>) -> bool {
    forall|i: int| 0 <= i < w.len() ==> !is_structural(#[trigger] w[i])
}

/// On well-nested text the extractor's stack follows the strict one, below
/// whatever was open before.
proof fn lemma_strict_run_lifts(base: Seq<char>, s: Seq<char>, w: Seq<char>)
    requires
        strict_run(s, w) is Some,
    ensures
        stack_after(base + s, w) == base + strict_run(s, w)->0,
    decreases w.len(),
{
    if w.len() == 0 {
    } else {
        lemma_strict_run_lifts(base, s, w.drop_last());
        let t = strict_run(s, w.drop_last())->0;
        let c = w.last();
        if is_opener(c) {
            assert((base + t).push(closer_for(c)) =~= base + t.push(closer_for(c)));
        } else if is_closer(c) {
            assert((base + t).last() == c);
            assert((base + t).contains(c));
            assert((base + t).drop_last() =~= base + t.drop_last());
        }
    }
}

/// A prefix of well-nested text nests well too.
proof fn lemma_strict_run_prefix(s: Seq<char>, w: Seq<char>, k: int)
    requires
        strict_run(s, w) is Some,
        0 <= k <= w.len(),
    ensures
        strict_run(s, w.take(k)) is Some,
    decreases w.len(),
{
    if k == w.len() {
        assert(w.take(k) =~= w);
    } else {
        assert(w.drop_last().take(k) =~= w.take(k));
        lemma_strict_run_prefix(s, w.drop_last(), k);
    }
}

/// Where every character of `w` arrives inside a span or is structural,
/// all of `w` is written out.
proof fn lemma_all_emitted(stack: Seq<char>, w: Seq<char>)
    requires
        forall|i: int|
            0 <= i < w.len() ==> emits(#[trigger] stack_after(stack, w.take(i)), w[i]),
    ensures
        extracted(stack, w) == w,
    decreases w.len(),
{
    if w.len() > 0 {
        let d = w.drop_last();
        assert forall|i: int| 0 <= i < d.len() implies emits(
            #[trigger] stack_after(stack, d.take(i)),
            d[i],
        ) by {
            assert(d.take(i) =~= w.take(i));
            assert(emits(stack_after(stack, w.take(i)), w[i]));
        }
        lemma_all_emitted(stack, d);
        assert(w.take(w.len() - 1) =~= d);
        assert(emits(stack_after(stack, w.take(w.len() - 1)), w[w.len() - 1]));
        assert(d.push(w.last()) =~= w);
    }
}

/// Outside any span, plain text changes nothing and writes nothing out.
proof fn lemma_plain_text(w: Seq<char>)
    requires
        plain(w),
    ensures
        stack_after(Seq::empty(), w) == Seq::<char>::empty(),
        extracted(Seq::empty(), w) == Seq::<char>::empty(),
    decreases w.len(),
{
    if w.len() > 0 {
        let d = w.drop_last();
        assert(plain(d)) by {
            assert forall|i: int| 0 <= i < d.len() implies !is_structural(#[trigger] d[i]) by {
                assert(d[i] == w[i]);
            }
        }
        lemma_plain_text(d);
        assert(!is_structural(w[w.len() - 1]));
    }
}

/// From a closed stack, a span keeps the extractor open from its first
/// character until just before its last one, closes it with the last one,
/// and is written out whole.
proof fn lemma_span(o: char, body: Seq<char>)
    requires
        is_opener(o),
        balanced(body),
    ensures
        forall|k: int|
            1 <= k < span_of(o, body).len() ==> #[trigger] stack_after(
                Seq::empty(),
                span_of(o, body).take(k),
            ).len() > 0,
        stack_after(Seq::empty(), span_of(o, body)) == Seq::<char>::empty(),
        extracted(Seq::empty(), span_of(o, body)) == span_of(o, body),
{
    let cl = closer_for(o);
    let span = span_of(o, body);
    let empty = Seq::<char>::empty();
    assert(seq![o].drop_last() =~= empty);
    assert(stack_after(empty, seq![o].drop_last()) == empty);
    assert(seq![o].last() == o);
    assert(empty.push(cl) =~= seq![cl]);
    assert(stack_after(empty, seq![o]) == seq![cl]);
    assert forall|k: int| 1 <= k < span.len() implies #[trigger] stack_after(
        empty,
        span.take(k),
    ).len() > 0 by {
        let x = body.take(k - 1);
        assert(span.take(k) =~= seq![o] + x);
        lemma_extract_concat(empty, seq![o], x);
        lemma_strict_run_prefix(empty, body, k - 1);
        lemma_strict_run_lifts(seq![cl], empty, x);
        assert(seq![cl] + empty =~= seq![cl]);
    }
    lemma_extract_concat(empty, seq![o], body);
    lemma_strict_run_lifts(seq![cl], empty, body);
    assert(seq![cl] + empty =~= seq![cl]);
    assert(span.drop_last() =~= seq![o] + body);
    assert(seq![cl][0] == cl);
    assert(seq![cl].contains(cl));
    assert(seq![cl].drop_last() =~= empty);
    assert forall|i: int| 0 <= i < span.len() implies emits(
        #[trigger] stack_after(empty, span.take(i)),
        span[i],
    ) by {
        if i == 0 {
            assert(span[0] == o);
        } else {
            assert(stack_after(empty, span.take(i)).len() > 0);
        }
    }
    lemma_all_emitted(empty, span);
}

/// A closed extractor fed part of a span, up to but not including its last
/// character, is inside a structure; fed the rest, it is outside again.
pub proof fn open_until_span_closes(v: ParserView, o: char, body: Seq<char>, k: int)
    requires
        v.stack.len() == 0,
        is_opener(o),
        balanced(body),
        1 <= k < span_of(o, body).len(),
    ensures
        run(v, span_of(o, body).take(k)).stack.len() > 0,
        run(run(v, span_of(o, body).take(k)), span_of(o, body).skip(k)).stack.len() == 0,
{
    let span = span_of(o, body);
    lemma_span(o, body);
    assert(v.stack =~= Seq::<char>::empty());
    lemma_run_stack(v, span.take(k));
    lemma_run_concat(v, span.take(k), span.skip(k));
    assert(span.take(k) + span.skip(k) =~= span);
    lemma_run_stack(v, span);
}

/// From a closed extractor, text holding one well-nested span with plain text
/// before and after it gives exactly that span, and leaves the extractor
/// closed.
pub proof fn single_span_round_trip(
    v: ParserView,
    before: Seq<char>,
    o: char,
    body: Seq<char>,
    after: Seq<char>,
)
    requires
        v.stack.len() == 0,
        plain(before),
        plain(after),
        is_opener(o),
        balanced(body),
    ensures
        extracted(v.stack, before + span_of(o, body) + after) == span_of(o, body),
        run(v, before + span_of(o, body) + after).stack.len() == 0,
{
    let span = span_of(o, body);
    let empty = Seq::<char>::empty();
    assert(v.stack =~= empty);
    lemma_span(o, body);
    lemma_plain_text(before);
    lemma_plain_text(after);
    lemma_extract_concat(empty, before, span);
    lemma_extract_concat(empty, before + span, after);
    assert(empty + span =~= span);
    assert(span + empty =~= span);
    lemma_run_stack(v, before + span + after);
}

} // verus!
