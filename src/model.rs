//! The extractor as a mathematical state machine over characters.

use vstd::prelude::*;

use crate::marker::{closer_for, is_closer, is_opener, is_structural};

verus! {

/// What an extractor remembers between characters.
pub struct ParserView {
    /// The closers still awaited, the innermost last.
    pub stack: Seq<char>,
    /// The characters of the span in progress.
    pub pending: Seq<char>,
}

/// The state of a fresh extractor.
pub open spec fn fresh() -> ParserView {
    ParserView { stack: Seq::empty(), pending: Seq::empty() }
}

/// The stack after one character.
///
/// An opener pushes its closer. A closer that some open structure awaits pops
/// the innermost one, whichever that is; any other character leaves the
/// stack alone.
pub open spec fn next_stack(stack: Seq<char>, c: char) -> Seq<char> {
    if is_opener(c) {
        stack.push(closer_for(c))
    } else if is_closer(c) && stack.contains(c) {
        stack.drop_last()
    } else {
        stack
    }
}

/// Whether `c`, arriving on `stack`, belongs to a span and is written out.
pub open spec fn emits(stack: Seq<char>, c: char) -> bool {
    stack.len() > 0 || is_structural(c)
}

/// The state after one character.
pub open spec fn step(v: ParserView, c: char) -> ParserView {
    if !emits(v.stack, c) {
        v
    } else if next_stack(v.stack, c).len() == 0 {
        ParserView { stack: Seq::empty(), pending: Seq::empty() }
    } else {
        ParserView { stack: next_stack(v.stack, c), pending: v.pending.push(c) }
    }
}

/// The state after a whole input.
pub open spec fn run(v: ParserView, input: Seq<char>) -> ParserView
    decreases input.len(),
{
    if input.len() == 0 {
        v
    } else {
        step(run(v, input.drop_last()), input.last())
    }
}

/// The stack after a whole input.
pub open spec fn stack_after(stack: Seq<char>, input: Seq<char>) -> Seq<char>
    decreases input.len(),
{
    if input.len() == 0 {
        stack
    } else {
        next_stack(stack_after(stack, input.drop_last()), input.last())
    }
}

/// What an extractor whose stack is `stack` writes out for `input`: the
/// characters of the spans in it, in order, and nothing else.
pub open spec fn extracted(stack: Seq<char>, input: Seq<char>) -> Seq<char>
    decreases input.len(),
{
    if input.len() == 0 {
        Seq::empty()
    } else {
        let before = stack_after(stack, input.drop_last());
        let out = extracted(stack, input.drop_last());
        if emits(before, input.last()) {
            out.push(input.last())
        } else {
            out
        }
    }
}

/// The consistency that every reachable state keeps: only closers are
/// awaited, and nothing is pending outside a span.
pub open spec fn view_wf(v: ParserView) -> bool {
    &&& forall|i: int| 0 <= i < v.stack.len() ==> is_closer(#[trigger] v.stack[i])
    &&& v.stack.len() == 0 ==> v.pending.len() == 0
}

/// The stack that `run` tracks is the one that `stack_after` computes.
pub proof fn lemma_run_stack(v: ParserView, input: Seq<char>)
    ensures
        run(v, input).stack == stack_after(v.stack, input),
    decreases input.len(),
{
    if input.len() > 0 {
        lemma_run_stack(v, input.drop_last());
    }
}

/// One step keeps the state consistent.
pub proof fn lemma_step_wf(v: ParserView, c: char)
    requires
        view_wf(v),
    ensures
        view_wf(step(v, c)),
{
    let s = next_stack(v.stack, c);
    assert forall|i: int| 0 <= i < s.len() implies is_closer(#[trigger] s[i]) by {
        if is_opener(c) && i == v.stack.len() {
        } else {
            assert(s[i] == v.stack[i]);
        }
    }
}

} // verus!
