//! The typed parse-step abstraction: a [`Matcher`] consumes bytes from a
//! [`ByteStream`] and produces a typed result or a [`MatchError`], exactly as
//! its spec-level step function says.

use crate::stream::ByteStream;
use core::marker::PhantomData;
use vstd::prelude::*;

verus! {

/// Why a parse step failed.
#[derive(Debug)]
pub enum MatchKind {
    /// A literal or character mismatch, or a premature end of the buffer
    /// (`got` is the byte found, or nothing at end of buffer).
    Unexpected { expected: char, got: Option<u8> },
    /// A scan found no occurrence of the delimiter in the remaining buffer.
    NotFound { delimiter: char },
    /// A fixed-length read asked for more bytes than the buffer holds.
    OverCapacity { available: usize, requested: usize },
}

/// The diagnostic a parse step fails with: where it failed, and why. It is
/// not surfaced past the top-level grammar entry points.
#[derive(Debug)]
pub struct MatchError {
    pub offset: usize,
    pub kind: MatchKind,
}

impl MatchError {
    /// A literal or character mismatch, or a premature end of the buffer.
    pub fn unexpected(offset: usize, got: Option<u8>, expected: char) -> (r: MatchError)
        ensures
            r == (MatchError { offset, kind: MatchKind::Unexpected { expected, got } }),
    {
        MatchError { offset, kind: MatchKind::Unexpected { expected, got } }
    }

    /// A delimiter that does not occur in the remaining buffer.
    pub fn not_found(offset: usize, delimiter: char) -> (r: MatchError)
        ensures
            r == (MatchError { offset, kind: MatchKind::NotFound { delimiter } }),
    {
        MatchError { offset, kind: MatchKind::NotFound { delimiter } }
    }

    /// A fixed-length read that exceeds the bytes available.
    pub fn over_capacity(offset: usize, available: usize, requested: usize) -> (r: MatchError)
        ensures
            r == (MatchError { offset, kind: MatchKind::OverCapacity { available, requested } }),
    {
        MatchError { offset, kind: MatchKind::OverCapacity { available, requested } }
    }

    /// Renders the diagnostic as one human-readable line.
    pub fn message(&self) -> (r: String)
        ensures
            r@ == message_chars(self),
    {
        let mut out = String::new();
        out.append("MatchError at offset ");
        crate::http::push_dec(&mut out, self.offset as u64);
        match &self.kind {
            MatchKind::Unexpected { expected, got } => {
                out.append(" expected '");
                crate::http::push_char(&mut out, *expected);
                match got {
                    Some(b) => {
                        out.append("' but got '");
                        crate::http::push_char(&mut out, *b as char);
                        out.append("'");
                    },
                    None => {
                        out.append("' but got end of buffer");
                    },
                }
            },
            MatchKind::NotFound { delimiter } => {
                out.append(": delimiter '");
                crate::http::push_char(&mut out, *delimiter);
                out.append("' not found");
            },
            MatchKind::OverCapacity { available, requested } => {
                out.append(", requested ");
                crate::http::push_dec(&mut out, *requested as u64);
                out.append(" bytes, but buffer has only ");
                crate::http::push_dec(&mut out, *available as u64);
            },
        }
        proof {
            assert(out@ =~= message_chars(self));
        }
        out
    }
}

/// The one-line rendering of a [`MatchError`].
pub open spec fn message_chars(e: &MatchError) -> Seq<char> {
    "MatchError at offset "@ + crate::http::dec_chars(e.offset as nat) + match e.kind {
        MatchKind::Unexpected { expected, got } => " expected '"@ + seq![expected] + match got {
            Some(b) => "' but got '"@ + seq![b as char] + "'"@,
            None => "' but got end of buffer"@,
        },
        MatchKind::NotFound { delimiter } => ": delimiter '"@ + seq![delimiter] + "' not found"@,
        MatchKind::OverCapacity { available, requested } => ", requested "@ + crate::http::dec_chars(
            requested as nat,
        ) + " bytes, but buffer has only "@ + crate::http::dec_chars(available as nat),
    }
}

/// What one parse step does on a given buffer and start position: either it
/// matches a value and ends at `end`, or it fails with an error and leaves
/// the position at `end`. Atomicity of a step is exactly the claim that its
/// `Failed` outcome has `end` equal to the start position.
pub enum Step<V> {
    Matched { value: V, end: int },
    Failed { error: MatchError, end: int },
}

/// A parse step producing `T`: given a cursor buffer it either succeeds,
/// consuming exactly the bytes constituting the result, or fails with a
/// [`MatchError`]. Failure does not by itself restore the position —
/// atomicity is a property of the individual step, visible in its
/// [`Matcher::spec_step`].
pub trait Matcher<T: DeepView> {
    /// The step's meaning: what it matches, or how it fails, on every buffer
    /// and start position.
    spec fn spec_step(&self, s: Seq<u8>, p: int) -> Step<T::V>;

    /// A step never ends out of bounds, and never moves backwards past its
    /// start.
    proof fn lemma_step_bounds(&self, s: Seq<u8>, p: int)
        requires
            0 <= p <= s.len(),
        ensures
            self.spec_step(s, p) matches Step::Matched { end, .. } ==> p <= end <= s.len(),
            self.spec_step(s, p) matches Step::Failed { end, .. } ==> p <= end <= s.len(),
    ;

    /// Runs the step on the buffer. The data and the capacity never change;
    /// the position moves exactly as [`Matcher::spec_step`] says.
    fn do_match(&self, bs: &mut ByteStream) -> (r: Result<T, MatchError>)
        requires
            old(bs).wf(),
        ensures
            final(bs).wf(),
            final(bs).data() == old(bs).data(),
            final(bs).spec_cap() == old(bs).spec_cap(),
            self.spec_step(old(bs).data(), old(bs).spec_pos()) matches Step::Matched {
                value,
                end,
            } ==> r matches Ok(t) && t.deep_view() == value && final(bs).spec_pos() == end,
            self.spec_step(old(bs).data(), old(bs).spec_pos()) matches Step::Failed {
                error,
                end,
            } ==> r matches Err(e) && e == error && final(bs).spec_pos() == end,
    ;
}

/// A zero-consumption step that always succeeds with the given value,
/// used to seed an accumulator before chaining field extractions.
pub struct Always<T> {
    pub value: T,
}

/// The step that consumes nothing and yields `value`.
pub fn unit<T: DeepView + Copy>(value: T) -> (r: Always<T>)
    ensures
        r == (Always { value }),
{
    Always { value }
}

impl<T: DeepView + Copy> Matcher<T> for Always<T> {
    open spec fn spec_step(&self, s: Seq<u8>, p: int) -> Step<T::V> {
        Step::Matched { value: self.value.deep_view(), end: p }
    }

    proof fn lemma_step_bounds(&self, s: Seq<u8>, p: int) {
    }

    fn do_match(&self, bs: &mut ByteStream) -> (r: Result<T, MatchError>) {
        Ok(self.value)
    }
}

/// Sequencing: runs `first`, then `second`, and yields the pair of results.
/// Not atomic — when `second` fails, whatever `first` consumed stays
/// consumed.
pub struct Chain<M, N> {
    pub first: M,
    pub second: N,
}

impl<T: DeepView, U: DeepView, M: Matcher<T>, N: Matcher<U>> Matcher<(T, U)> for Chain<M, N> {
    open spec fn spec_step(&self, s: Seq<u8>, p: int) -> Step<(T::V, U::V)> {
        match self.first.spec_step(s, p) {
            Step::Failed { error, end } => Step::Failed { error, end },
            Step::Matched { value: v1, end: p1 } => match self.second.spec_step(s, p1) {
                Step::Failed { error, end } => Step::Failed { error, end },
                Step::Matched { value: v2, end } => Step::Matched { value: (v1, v2), end },
            },
        }
    }

    proof fn lemma_step_bounds(&self, s: Seq<u8>, p: int) {
        self.first.lemma_step_bounds(s, p);
        if let Step::Matched { value: v1, end: p1 } = self.first.spec_step(s, p) {
            self.second.lemma_step_bounds(s, p1);
        }
    }

    fn do_match(&self, bs: &mut ByteStream) -> (r: Result<(T, U), MatchError>) {
        let t = match self.first.do_match(bs) {
            Ok(t) => t,
            Err(e) => {
                return Err(e);
            },
        };
        let u = match self.second.do_match(bs) {
            Ok(u) => u,
            Err(e) => {
                return Err(e);
            },
        };
        Ok((t, u))
    }
}

/// Keeps only the first component of a pair-producing step, dropping a
/// structural separator from the result.
pub struct Skip<M, T, U> {
    pub inner: M,
    pub phantom: PhantomData<(T, U)>,
}

/// Builders over pair-producing steps.
pub trait ParserExt<T: DeepView, U: DeepView>: Sized {
    /// Wraps the step so that only the first component of its pair survives.
    fn skip(self) -> (r: Skip<Self, T, U>)
        ensures
            r.inner == self,
    ;
}

impl<T: DeepView, U: DeepView, M: Matcher<(T, U)>> ParserExt<T, U> for M {
    fn skip(self) -> (r: Skip<M, T, U>) {
        Skip { inner: self, phantom: PhantomData }
    }
}

impl<T: DeepView, U: DeepView, M: Matcher<(T, U)>> Matcher<T> for Skip<M, T, U> {
    open spec fn spec_step(&self, s: Seq<u8>, p: int) -> Step<T::V> {
        match self.inner.spec_step(s, p) {
            Step::Failed { error, end } => Step::Failed { error, end },
            Step::Matched { value, end } => Step::Matched { value: value.0, end },
        }
    }

    proof fn lemma_step_bounds(&self, s: Seq<u8>, p: int) {
        self.inner.lemma_step_bounds(s, p);
    }

    fn do_match(&self, bs: &mut ByteStream) -> (r: Result<T, MatchError>) {
        match self.inner.do_match(bs) {
            Ok(tu) => Ok(tu.0),
            Err(e) => Err(e),
        }
    }
}

} // verus!
