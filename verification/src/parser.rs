//! The primitive parse steps and the combinators over them: literals,
//! delimiters, fixed-length reads, repetition and optionality, each a
//! [`Matcher`] with an exact spec-level step.

use crate::http::{as_string, chars_of};
use crate::matcher::{MatchError, MatchKind, Matcher, Step};
use crate::stream::{be_val, lemma_be_val_bound, pow256, BytePred, ByteStream};
use vstd::prelude::*;
use vstd::string::StringSliceAdditionalSpecFns;

verus! {

/// Matches exactly one given byte.
pub struct IsByte {
    pub b: u8,
}

impl BytePred for IsByte {
    open spec fn spec_test(&self, b: u8) -> bool {
        b == self.b
    }

    fn test(&self, b: u8) -> bool {
        b == self.b
    }
}

/// The whitespace code points below 256: the ASCII whitespace characters,
/// the next-line control, and the no-break space.
pub open spec fn is_ws(b: u8) -> bool {
    b == 0x09 || b == 0x0A || b == 0x0B || b == 0x0C || b == 0x0D || b == 0x20 || b == 0x85 || b
        == 0xA0
}

/// Matches any byte whose character is whitespace.
pub struct IsWhitespace {}

impl BytePred for IsWhitespace {
    open spec fn spec_test(&self, b: u8) -> bool {
        is_ws(b)
    }

    fn test(&self, b: u8) -> bool {
        b == 0x09 || b == 0x0A || b == 0x0B || b == 0x0C || b == 0x0D || b == 0x20 || b == 0x85
            || b == 0xA0
    }
}

/// The index of the first occurrence of `b` at or after `p`, or nothing.
pub open spec fn find_byte(s: Seq<u8>, p: int, b: u8) -> Option<int>
    decreases s.len() - p,
{
    if p < 0 || p >= s.len() {
        None
    } else if s[p] == b {
        Some(p)
    } else {
        find_byte(s, p + 1, b)
    }
}

pub proof fn lemma_find_byte(s: Seq<u8>, p: int, b: u8)
    requires
        0 <= p <= s.len(),
    ensures
        find_byte(s, p, b) matches Some(i) ==> p <= i < s.len() && s[i] == b && forall|j: int|
            p <= j < i ==> s[j] != b,
        find_byte(s, p, b) is None ==> forall|j: int| p <= j < s.len() ==> s[j] != b,
    decreases s.len() - p,
{
    if p < s.len() && s[p] != b {
        lemma_find_byte(s, p + 1, b);
    }
}

/// How many leading bytes of `lit` match the bytes of `s` starting at `p`:
/// the index of the first mismatch, or the whole length when all match.
pub open spec fn lit_match_len(s: Seq<u8>, p: int, lit: Seq<u8>) -> int
    decreases lit.len(),
{
    if lit.len() == 0 {
        0
    } else if 0 <= p < s.len() && s[p] == lit[0] {
        1 + lit_match_len(s, p + 1, lit.drop_first())
    } else {
        0
    }
}

pub proof fn lemma_lit_match_len(s: Seq<u8>, p: int, lit: Seq<u8>)
    requires
        0 <= p <= s.len(),
    ensures
        0 <= lit_match_len(s, p, lit) <= lit.len(),
        p + lit_match_len(s, p, lit) <= s.len(),
        lit_match_len(s, p, lit) == lit.len() ==> s.subrange(p, p + lit.len()) == lit,
    decreases lit.len(),
{
    if lit.len() > 0 && 0 <= p < s.len() && s[p] == lit[0] {
        lemma_lit_match_len(s, p + 1, lit.drop_first());
        let k = lit_match_len(s, p, lit);
        if k == lit.len() {
            assert(s.subrange(p + 1, p + 1 + lit.drop_first().len()) == lit.drop_first());
            assert(s.subrange(p, p + lit.len()) =~= seq![s[p]] + s.subrange(
                p + 1,
                p + 1 + lit.drop_first().len(),
            ));
            assert(lit =~= seq![lit[0]] + lit.drop_first());
        }
    }
}

/// For byte vectors the deep view and the view agree.
pub proof fn lemma_vec_u8_deep_view(v: Vec<u8>)
    ensures
        v.deep_view() == v@,
{
    assert(v.deep_view() =~= v@);
}

/// For character vectors the deep view and the view agree.
pub proof fn lemma_vec_char_deep_view(v: Vec<char>)
    ensures
        v.deep_view() == v@,
{
    assert(v.deep_view() =~= v@);
}

/// The spec-level outcome of matching the literal `lit` at `p`: the matched
/// bytes and the end on full match, else an `Unexpected` at the first
/// mismatch with the position rewound to `p` (atomic).
pub open spec fn literal_step(s: Seq<u8>, p: int, lit: Seq<u8>) -> Step<Seq<u8>> {
    let k = lit_match_len(s, p, lit);
    if k == lit.len() {
        Step::Matched { value: lit, end: p + lit.len() }
    } else {
        Step::Failed {
            error: MatchError {
                offset: (p + k) as usize,
                kind: MatchKind::Unexpected {
                    expected: lit[k] as char,
                    got: if p + k < s.len() {
                        Some(s[p + k])
                    } else {
                        None
                    },
                },
            },
            end: p,
        }
    }
}

/// The shared literal-matching loop: attempts one byte at a time and, on any
/// mismatch, rewinds to the position it started from before surfacing the
/// failure.
#[verifier::loop_isolation(false)]
fn match_literal(bs: &mut ByteStream, lit: &[u8]) -> (r: Result<Vec<u8>, MatchError>)
    requires
        old(bs).wf(),
    ensures
        final(bs).wf(),
        final(bs).data() == old(bs).data(),
        final(bs).spec_cap() == old(bs).spec_cap(),
        literal_step(old(bs).data(), old(bs).spec_pos(), lit@) matches Step::Matched {
            value,
            end,
        } ==> r matches Ok(v) && v@ == value && final(bs).spec_pos() == end,
        literal_step(old(bs).data(), old(bs).spec_pos(), lit@) matches Step::Failed {
            error,
            end,
        } ==> r matches Err(e) && e == error && final(bs).spec_pos() == end,
{
    let ghost s = bs.data();
    let ghost p0 = bs.spec_pos();
    let mark = bs.mark();
    let mut acc: Vec<u8> = Vec::new();
    let mut i: usize = 0;
    proof {
        lemma_lit_match_len(s, p0, lit@);
        assert(acc@ =~= lit@.subrange(0, 0));
        assert(lit@.skip(0) =~= lit@);
    }
    while i < lit.len()
        invariant
            bs.wf(),
            bs.data() == s,
            bs.spec_cap() == old(bs).spec_cap(),
            0 <= i <= lit@.len(),
            bs.spec_pos() == p0 + i,
            lit_match_len(s, p0 + i, lit@.skip(i as int)) + i == lit_match_len(s, p0, lit@),
            i <= lit_match_len(s, p0, lit@),
            acc@ == lit@.subrange(0, i as int),
        decreases lit@.len() - i,
    {
        let pos = bs.pos();
        let b = lit[i];
        proof {
            assert(lit@.skip(i as int)[0] == lit@[i as int]);
            assert(lit@.skip(i as int).drop_first() =~= lit@.skip(i as int + 1));
        }
        match bs.next() {
            Some(x) => {
                if x == b {
                    acc.push(x);
                    proof {
                        assert(s[p0 + i] == lit@[i as int]);
                        lemma_lit_match_len(s, p0 + i + 1, lit@.skip(i as int + 1));
                        assert(lit_match_len(s, p0 + i, lit@.skip(i as int)) == 1 + lit_match_len(
                            s,
                            p0 + i + 1,
                            lit@.skip(i as int + 1),
                        ));
                    }
                    i = i + 1;
                    proof {
                        assert(acc@ =~= lit@.subrange(0, i as int));
                    }
                } else {
                    bs.reset(mark);
                    return Err(MatchError::unexpected(pos, Some(x), b as char));
                }
            },
            None => {
                bs.reset(mark);
                return Err(MatchError::unexpected(pos, None, b as char));
            },
        }
    }
    proof {
        assert(lit@.skip(lit@.len() as int).len() == 0);
        assert(acc@ =~= lit@);
    }
    Ok(acc)
}

/// Consumes exactly one byte equal to `b`; fails `Unexpected` at end of
/// buffer or on a mismatch. The mismatched byte stays consumed.
pub struct OneByte {
    pub b: u8,
}

/// The step that consumes exactly the byte `b`.
pub fn one(b: u8) -> (r: OneByte)
    ensures
        r == (OneByte { b }),
{
    OneByte { b }
}

impl Matcher<u8> for OneByte {
    open spec fn spec_step(&self, s: Seq<u8>, p: int) -> Step<u8> {
        if 0 <= p < s.len() && s[p] == self.b {
            Step::Matched { value: self.b, end: p + 1 }
        } else {
            Step::Failed {
                error: MatchError {
                    offset: p as usize,
                    kind: MatchKind::Unexpected {
                        expected: self.b as char,
                        got: if 0 <= p < s.len() {
                            Some(s[p])
                        } else {
                            None
                        },
                    },
                },
                end: if 0 <= p < s.len() {
                    p + 1
                } else {
                    p
                },
            }
        }
    }

    proof fn lemma_step_bounds(&self, s: Seq<u8>, p: int) {
    }

    fn do_match(&self, bs: &mut ByteStream) -> (r: Result<u8, MatchError>) {
        let pos = bs.pos();
        match bs.next() {
            Some(x) => {
                if x == self.b {
                    Ok(x)
                } else {
                    Err(MatchError::unexpected(pos, Some(x), self.b as char))
                }
            },
            None => Err(MatchError::unexpected(pos, None, self.b as char)),
        }
    }
}

/// Consumes exactly one byte whose character equals `chr`; fails
/// `Unexpected` at end of buffer or on a mismatch. The mismatched byte stays
/// consumed.
pub struct Single {
    pub chr: char,
}

/// The step that consumes exactly the character `chr`, read as one byte.
pub fn single(chr: char) -> (r: Single)
    ensures
        r == (Single { chr }),
{
    Single { chr }
}

impl Matcher<char> for Single {
    open spec fn spec_step(&self, s: Seq<u8>, p: int) -> Step<char> {
        if 0 <= p < s.len() && (s[p] as char) == self.chr {
            Step::Matched { value: self.chr, end: p + 1 }
        } else {
            Step::Failed {
                error: MatchError {
                    offset: p as usize,
                    kind: MatchKind::Unexpected {
                        expected: self.chr,
                        got: if 0 <= p < s.len() {
                            Some(s[p])
                        } else {
                            None
                        },
                    },
                },
                end: if 0 <= p < s.len() {
                    p + 1
                } else {
                    p
                },
            }
        }
    }

    proof fn lemma_step_bounds(&self, s: Seq<u8>, p: int) {
    }

    fn do_match(&self, bs: &mut ByteStream) -> (r: Result<char, MatchError>) {
        let pos = bs.pos();
        match bs.next() {
            Some(x) => {
                if (x as char) == self.chr {
                    Ok(x as char)
                } else {
                    Err(MatchError::unexpected(pos, Some(x), self.chr))
                }
            },
            None => Err(MatchError::unexpected(pos, None, self.chr)),
        }
    }
}

/// Matches a byte literal atomically: on any mismatch the position is
/// rewound to where the attempt began, and the failure propagated.
pub struct Exact<'a> {
    pub lit: &'a [u8],
}

/// The step that consumes exactly the given bytes, atomically.
pub fn exact(lit: &'static [u8]) -> (r: Exact<'static>)
    ensures
        r == (Exact { lit }),
{
    Exact { lit }
}

impl<'a> Matcher<Vec<u8>> for Exact<'a> {
    open spec fn spec_step(&self, s: Seq<u8>, p: int) -> Step<Seq<u8>> {
        literal_step(s, p, self.lit@)
    }

    proof fn lemma_step_bounds(&self, s: Seq<u8>, p: int) {
        lemma_lit_match_len(s, p, self.lit@);
    }

    fn do_match(&self, bs: &mut ByteStream) -> (r: Result<Vec<u8>, MatchError>) {
        let ghost s = bs.data();
        let ghost p = bs.spec_pos();
        let r = match_literal(bs, self.lit);
        proof {
            assert(self.spec_step(s, p) == literal_step(s, p, self.lit@));
        }
        match r {
            Ok(v) => {
                proof {
                    lemma_vec_u8_deep_view(v);
                }
                Ok(v)
            },
            Err(e) => Err(e),
        }
    }
}

/// Matches a text literal atomically, over its UTF-8 bytes; yields the text
/// itself on success.
pub struct StrLit {
    pub lit: &'static str,
}

/// The step that consumes exactly the given text, atomically.
pub fn string(lit: &'static str) -> (r: StrLit)
    ensures
        r == (StrLit { lit }),
{
    StrLit { lit }
}

impl Matcher<String> for StrLit {
    open spec fn spec_step(&self, s: Seq<u8>, p: int) -> Step<Seq<char>> {
        match literal_step(s, p, self.lit.spec_bytes()) {
            Step::Matched { value, end } => Step::Matched { value: self.lit@, end },
            Step::Failed { error, end } => Step::Failed { error, end },
        }
    }

    proof fn lemma_step_bounds(&self, s: Seq<u8>, p: int) {
        lemma_lit_match_len(s, p, self.lit.spec_bytes());
    }

    fn do_match(&self, bs: &mut ByteStream) -> (r: Result<String, MatchError>) {
        match match_literal(bs, self.lit.as_bytes()) {
            Ok(_) => Ok(self.lit.to_owned()),
            Err(e) => Err(e),
        }
    }
}

/// The end of the maximal run of bytes satisfying the predicate, starting
/// at `p`: the first position at or after `p` whose byte fails the
/// predicate, or the end of the buffer.
pub open spec fn run_end<P: BytePred>(pred: &P, s: Seq<u8>, p: int) -> int
    decreases s.len() - p,
{
    if p < 0 || p >= s.len() {
        p
    } else if !pred.spec_test(s[p]) {
        p
    } else {
        run_end(pred, s, p + 1)
    }
}

pub proof fn lemma_run_end_bounds<P: BytePred>(pred: &P, s: Seq<u8>, p: int)
    requires
        0 <= p <= s.len(),
    ensures
        p <= run_end(pred, s, p) <= s.len(),
    decreases s.len() - p,
{
    if p < s.len() && pred.spec_test(s[p]) {
        lemma_run_end_bounds(pred, s, p + 1);
    }
}

/// Consumes the maximal run of leading bytes satisfying the predicate (zero
/// or more), stopping at and not consuming the first byte that fails it, or
/// the end of the buffer; never fails.
pub struct Until<P> {
    pub pred: P,
}

/// The step that consumes bytes while the predicate holds.
pub fn until<P: BytePred>(pred: P) -> (r: Until<P>)
    ensures
        r == (Until { pred }),
{
    Until { pred }
}

impl<P: BytePred> Matcher<Vec<u8>> for Until<P> {
    open spec fn spec_step(&self, s: Seq<u8>, p: int) -> Step<Seq<u8>> {
        Step::Matched {
            value: s.subrange(p, run_end(&self.pred, s, p)),
            end: run_end(&self.pred, s, p),
        }
    }

    proof fn lemma_step_bounds(&self, s: Seq<u8>, p: int) {
        lemma_run_end_bounds(&self.pred, s, p);
    }

    fn do_match(&self, bs: &mut ByteStream) -> (r: Result<Vec<u8>, MatchError>) {
        let ghost s = bs.data();
        let ghost p0 = bs.spec_pos();
        let ghost c0 = bs.spec_cap();
        let mut acc: Vec<u8> = Vec::new();
        proof {
            lemma_run_end_bounds(&self.pred, s, p0);
            assert(acc@ =~= s.subrange(p0, p0));
        }
        loop
            invariant
                bs.wf(),
                bs.data() == s,
                bs.spec_cap() == c0,
                0 <= p0 <= bs.spec_pos() <= s.len(),
                run_end(&self.pred, s, p0) == run_end(&self.pred, s, bs.spec_pos()),
                acc@ == s.subrange(p0, bs.spec_pos()),
            ensures
                bs.wf(),
                bs.data() == s,
                bs.spec_cap() == c0,
                bs.spec_pos() == run_end(&self.pred, s, p0),
                acc@ == s.subrange(p0, bs.spec_pos()),
            decreases s.len() - bs.spec_pos(),
        {
            let mark = bs.mark();
            match bs.next() {
                Some(b) => {
                    if self.pred.test(b) {
                        acc.push(b);
                        proof {
                            assert(acc@ =~= s.subrange(p0, bs.spec_pos()));
                        }
                    } else {
                        bs.reset(mark);
                        break ;
                    }
                },
                None => {
                    bs.reset(mark);
                    break ;
                },
            }
        }
        proof {
            lemma_vec_u8_deep_view(acc);
        }
        Ok(acc)
    }
}

/// Locates the first occurrence of the delimiter without consuming it, and
/// extracts exactly the bytes strictly preceding it; fails `NotFound` when
/// the delimiter does not occur in the remaining buffer, consuming nothing.
pub struct Before {
    pub delimiter: char,
}

/// The step that consumes the bytes before the first `delimiter`, leaving
/// the delimiter itself for a subsequent step.
pub fn before(delimiter: char) -> (r: Before)
    ensures
        r == (Before { delimiter }),
{
    Before { delimiter }
}

impl Matcher<Vec<u8>> for Before {
    open spec fn spec_step(&self, s: Seq<u8>, p: int) -> Step<Seq<u8>> {
        match find_byte(s, p, self.delimiter as u8) {
            Some(i) => Step::Matched { value: s.subrange(p, i), end: i },
            None => Step::Failed {
                error: MatchError {
                    offset: p as usize,
                    kind: MatchKind::NotFound { delimiter: self.delimiter },
                },
                end: p,
            },
        }
    }

    proof fn lemma_step_bounds(&self, s: Seq<u8>, p: int) {
        lemma_find_byte(s, p, self.delimiter as u8);
    }

    fn do_match(&self, bs: &mut ByteStream) -> (r: Result<Vec<u8>, MatchError>) {
        let ghost s = bs.data();
        let ghost p0 = bs.spec_pos();
        let pos = bs.pos();
        let pred = IsByte { b: self.delimiter as u8 };
        proof {
            lemma_find_byte(s, p0, self.delimiter as u8);
        }
        match bs.find_single(&pred) {
            Some(idx) => {
                proof {
                    assert(find_byte(s, p0, self.delimiter as u8) matches Some(i) && i == idx);
                }
                match bs.get(idx - pos) {
                    Some(v) => {
                        proof {
                            lemma_vec_u8_deep_view(v);
                        }
                        Ok(v)
                    },
                    None => Err(MatchError::not_found(pos, self.delimiter)),
                }
            },
            None => Err(MatchError::not_found(pos, self.delimiter)),
        }
    }
}

/// The bytes before the first space, as text; the space itself is left
/// unconsumed.
pub struct Token {}

/// The step that reads one space-delimited token as text.
pub fn token() -> (r: Token)
    ensures
        r == (Token {  }),
{
    Token {  }
}

impl Matcher<String> for Token {
    open spec fn spec_step(&self, s: Seq<u8>, p: int) -> Step<Seq<char>> {
        match (Before { delimiter: ' ' }).spec_step(s, p) {
            Step::Matched { value, end } => Step::Matched { value: chars_of(value), end },
            Step::Failed { error, end } => Step::Failed { error, end },
        }
    }

    proof fn lemma_step_bounds(&self, s: Seq<u8>, p: int) {
        (Before { delimiter: ' ' }).lemma_step_bounds(s, p);
    }

    fn do_match(&self, bs: &mut ByteStream) -> (r: Result<String, MatchError>) {
        let b = Before { delimiter: ' ' };
        match b.do_match(bs) {
            Ok(v) => {
                proof {
                    lemma_vec_u8_deep_view(v);
                }
                Ok(as_string(v))
            },
            Err(e) => Err(e),
        }
    }
}

/// Consumes the maximal run of leading whitespace, yielding it as
/// characters; never fails.
pub struct Space {}

/// The step that consumes leading whitespace.
pub fn space() -> (r: Space)
    ensures
        r == (Space {  }),
{
    Space {  }
}

impl Matcher<Vec<char>> for Space {
    open spec fn spec_step(&self, s: Seq<u8>, p: int) -> Step<Seq<char>> {
        let e = run_end(&IsWhitespace {  }, s, p);
        Step::Matched { value: chars_of(s.subrange(p, e)), end: e }
    }

    proof fn lemma_step_bounds(&self, s: Seq<u8>, p: int) {
        lemma_run_end_bounds(&IsWhitespace {  }, s, p);
    }

    fn do_match(&self, bs: &mut ByteStream) -> (r: Result<Vec<char>, MatchError>) {
        let u = Until { pred: IsWhitespace {  } };
        match u.do_match(bs) {
            Ok(v) => {
                let mut out: Vec<char> = Vec::new();
                let mut i: usize = 0;
                proof {
                    lemma_vec_u8_deep_view(v);
                    assert(out@ =~= chars_of(v@).subrange(0, 0));
                }
                while i < v.len()
                    invariant
                        i <= v@.len(),
                        out@ == chars_of(v@).subrange(0, i as int),
                    decreases v@.len() - i,
                {
                    out.push(v[i] as char);
                    i = i + 1;
                    proof {
                        assert(out@ =~= chars_of(v@).subrange(0, i as int));
                    }
                }
                proof {
                    assert(chars_of(v@).subrange(0, v@.len() as int) =~= chars_of(v@));
                    lemma_vec_char_deep_view(out);
                }
                Ok(out)
            },
            Err(e) => Err(e),
        }
    }
}

/// Extracts exactly `len` raw bytes; fails `OverCapacity` when fewer remain,
/// consuming nothing (all-or-nothing).
pub struct Fixed {
    pub len: usize,
}

/// The step that extracts exactly `len` raw bytes.
pub fn bytes(len: usize) -> (r: Fixed)
    ensures
        r == (Fixed { len }),
{
    Fixed { len }
}

impl Matcher<Vec<u8>> for Fixed {
    open spec fn spec_step(&self, s: Seq<u8>, p: int) -> Step<Seq<u8>> {
        if 0 <= p && p + self.len <= s.len() {
            Step::Matched { value: s.subrange(p, p + self.len), end: p + self.len }
        } else {
            Step::Failed {
                error: MatchError {
                    offset: p as usize,
                    kind: MatchKind::OverCapacity {
                        available: s.len() as usize,
                        requested: self.len,
                    },
                },
                end: p,
            }
        }
    }

    proof fn lemma_step_bounds(&self, s: Seq<u8>, p: int) {
    }

    fn do_match(&self, bs: &mut ByteStream) -> (r: Result<Vec<u8>, MatchError>) {
        let pos = bs.pos();
        let available = bs.len();
        match bs.get(self.len) {
            Some(v) => {
                proof {
                    lemma_vec_u8_deep_view(v);
                }
                Ok(v)
            },
            None => Err(MatchError::over_capacity(pos, available, self.len)),
        }
    }
}

/// Reads one byte; fails `OverCapacity` at end of buffer.
pub struct GetU8 {}

/// The step that reads one byte.
pub fn get_u8() -> (r: GetU8)
    ensures
        r == (GetU8 {  }),
{
    GetU8 {  }
}

impl Matcher<u8> for GetU8 {
    open spec fn spec_step(&self, s: Seq<u8>, p: int) -> Step<u8> {
        if 0 <= p && p + 1 <= s.len() {
            Step::Matched { value: s[p], end: p + 1 }
        } else {
            Step::Failed {
                error: MatchError {
                    offset: p as usize,
                    kind: MatchKind::OverCapacity { available: s.len() as usize, requested: 1 },
                },
                end: p,
            }
        }
    }

    proof fn lemma_step_bounds(&self, s: Seq<u8>, p: int) {
    }

    fn do_match(&self, bs: &mut ByteStream) -> (r: Result<u8, MatchError>) {
        let pos = bs.pos();
        let available = bs.len();
        match bs.get_u8() {
            Some(x) => Ok(x),
            None => Err(MatchError::over_capacity(pos, available, 1)),
        }
    }
}

/// Reads a two-byte big-endian value; fails `OverCapacity` when fewer than
/// two bytes remain, consuming nothing.
pub struct GetU16 {}

/// The step that reads a two-byte big-endian value.
pub fn get_u16() -> (r: GetU16)
    ensures
        r == (GetU16 {  }),
{
    GetU16 {  }
}

impl Matcher<u16> for GetU16 {
    open spec fn spec_step(&self, s: Seq<u8>, p: int) -> Step<u16> {
        if 0 <= p && p + 2 <= s.len() {
            Step::Matched { value: be_val(s.subrange(p, p + 2)) as u16, end: p + 2 }
        } else {
            Step::Failed {
                error: MatchError {
                    offset: p as usize,
                    kind: MatchKind::OverCapacity { available: s.len() as usize, requested: 2 },
                },
                end: p,
            }
        }
    }

    proof fn lemma_step_bounds(&self, s: Seq<u8>, p: int) {
    }

    fn do_match(&self, bs: &mut ByteStream) -> (r: Result<u16, MatchError>) {
        let pos = bs.pos();
        let available = bs.len();
        match bs.get_u16() {
            Some(x) => {
                proof {
                    let sub = old(bs).data().subrange(
                        old(bs).spec_pos(),
                        old(bs).spec_pos() + 2,
                    );
                    lemma_be_val_bound(sub);
                    assert(pow256(2) == 0x1_0000) by {
                        reveal_with_fuel(pow256, 3);
                    }
                }
                Ok(x)
            },
            None => Err(MatchError::over_capacity(pos, available, 2)),
        }
    }
}

/// Reads a four-byte big-endian value; fails `OverCapacity` when fewer than
/// four bytes remain, consuming nothing.
pub struct GetU32 {}

/// The step that reads a four-byte big-endian value.
pub fn get_u32() -> (r: GetU32)
    ensures
        r == (GetU32 {  }),
{
    GetU32 {  }
}

impl Matcher<u32> for GetU32 {
    open spec fn spec_step(&self, s: Seq<u8>, p: int) -> Step<u32> {
        if 0 <= p && p + 4 <= s.len() {
            Step::Matched { value: be_val(s.subrange(p, p + 4)) as u32, end: p + 4 }
        } else {
            Step::Failed {
                error: MatchError {
                    offset: p as usize,
                    kind: MatchKind::OverCapacity { available: s.len() as usize, requested: 4 },
                },
                end: p,
            }
        }
    }

    proof fn lemma_step_bounds(&self, s: Seq<u8>, p: int) {
    }

    fn do_match(&self, bs: &mut ByteStream) -> (r: Result<u32, MatchError>) {
        let pos = bs.pos();
        let available = bs.len();
        match bs.get_u32() {
            Some(x) => {
                proof {
                    let sub = old(bs).data().subrange(
                        old(bs).spec_pos(),
                        old(bs).spec_pos() + 4,
                    );
                    lemma_be_val_bound(sub);
                    assert(pow256(4) == 0x1_0000_0000) by {
                        reveal_with_fuel(pow256, 5);
                    }
                }
                Ok(x)
            },
            None => Err(MatchError::over_capacity(pos, available, 4)),
        }
    }
}

/// Reads an eight-byte big-endian value; fails `OverCapacity` when fewer
/// than eight bytes remain, consuming nothing.
pub struct GetU64 {}

/// The step that reads an eight-byte big-endian value.
pub fn get_u64() -> (r: GetU64)
    ensures
        r == (GetU64 {  }),
{
    GetU64 {  }
}

impl Matcher<u64> for GetU64 {
    open spec fn spec_step(&self, s: Seq<u8>, p: int) -> Step<u64> {
        if 0 <= p && p + 8 <= s.len() {
            Step::Matched { value: be_val(s.subrange(p, p + 8)) as u64, end: p + 8 }
        } else {
            Step::Failed {
                error: MatchError {
                    offset: p as usize,
                    kind: MatchKind::OverCapacity { available: s.len() as usize, requested: 8 },
                },
                end: p,
            }
        }
    }

    proof fn lemma_step_bounds(&self, s: Seq<u8>, p: int) {
    }

    fn do_match(&self, bs: &mut ByteStream) -> (r: Result<u64, MatchError>) {
        let pos = bs.pos();
        let available = bs.len();
        match bs.get_u64() {
            Some(x) => {
                proof {
                    let sub = old(bs).data().subrange(
                        old(bs).spec_pos(),
                        old(bs).spec_pos() + 8,
                    );
                    lemma_be_val_bound(sub);
                    assert(pow256(8) == 0x1_0000_0000_0000_0000) by {
                        reveal_with_fuel(pow256, 9);
                    }
                }
                Ok(x)
            },
            None => Err(MatchError::over_capacity(pos, available, 8)),
        }
    }
}

/// Reads a fixed 16-byte block; fails `OverCapacity` when fewer remain,
/// consuming nothing.
pub struct Get16 {}

/// The step that reads a fixed 16-byte block.
pub fn get_16() -> (r: Get16)
    ensures
        r == (Get16 {  }),
{
    Get16 {  }
}

impl Matcher<[u8; 16]> for Get16 {
    open spec fn spec_step(&self, s: Seq<u8>, p: int) -> Step<Seq<u8>> {
        if 0 <= p && p + 16 <= s.len() {
            Step::Matched { value: s.subrange(p, p + 16), end: p + 16 }
        } else {
            Step::Failed {
                error: MatchError {
                    offset: p as usize,
                    kind: MatchKind::OverCapacity { available: s.len() as usize, requested: 16 },
                },
                end: p,
            }
        }
    }

    proof fn lemma_step_bounds(&self, s: Seq<u8>, p: int) {
    }

    fn do_match(&self, bs: &mut ByteStream) -> (r: Result<[u8; 16], MatchError>) {
        let pos = bs.pos();
        let available = bs.len();
        match bs.get_16() {
            Some(a) => {
                proof {
                    assert(a.deep_view() =~= a@);
                }
                Ok(a)
            },
            None => Err(MatchError::over_capacity(pos, available, 16)),
        }
    }
}

/// Reads a fixed 32-byte block; fails `OverCapacity` when fewer remain,
/// consuming nothing.
pub struct Get32 {}

/// The step that reads a fixed 32-byte block.
pub fn get_32() -> (r: Get32)
    ensures
        r == (Get32 {  }),
{
    Get32 {  }
}

impl Matcher<[u8; 32]> for Get32 {
    open spec fn spec_step(&self, s: Seq<u8>, p: int) -> Step<Seq<u8>> {
        if 0 <= p && p + 32 <= s.len() {
            Step::Matched { value: s.subrange(p, p + 32), end: p + 32 }
        } else {
            Step::Failed {
                error: MatchError {
                    offset: p as usize,
                    kind: MatchKind::OverCapacity { available: s.len() as usize, requested: 32 },
                },
                end: p,
            }
        }
    }

    proof fn lemma_step_bounds(&self, s: Seq<u8>, p: int) {
    }

    fn do_match(&self, bs: &mut ByteStream) -> (r: Result<[u8; 32], MatchError>) {
        let pos = bs.pos();
        let available = bs.len();
        match bs.get_32() {
            Some(a) => {
                proof {
                    assert(a.deep_view() =~= a@);
                }
                Ok(a)
            },
            None => Err(MatchError::over_capacity(pos, available, 32)),
        }
    }
}

/// The values and end position of repeatedly applying `m` from `p`: each
/// attempt that matches and makes progress contributes its value; the
/// repetition stops at the first attempt that fails or that matches without
/// consuming anything.
pub open spec fn repeat_step<T: DeepView, M: Matcher<T>>(m: &M, s: Seq<u8>, p: int) -> (Seq<T::V>,
    int)
    decreases s.len() - p,
{
    if p < 0 || p > s.len() {
        (Seq::<T::V>::empty(), p)
    } else {
        match m.spec_step(s, p) {
            Step::Failed { .. } => (Seq::<T::V>::empty(), p),
            Step::Matched { value, end } => if p < end <= s.len() {
                let rest = repeat_step(m, s, end);
                (seq![value] + rest.0, rest.1)
            } else {
                (Seq::<T::V>::empty(), p)
            },
        }
    }
}

pub proof fn lemma_repeat_step_bounds<T: DeepView, M: Matcher<T>>(m: &M, s: Seq<u8>, p: int)
    requires
        0 <= p <= s.len(),
    ensures
        p <= repeat_step(m, s, p).1 <= s.len(),
    decreases s.len() - p,
{
    if let Step::Matched { value, end } = m.spec_step(s, p) {
        if p < end <= s.len() {
            lemma_repeat_step_bounds(m, s, end);
        }
    }
}

/// Zero-or-more application of a sub-step. Each attempt is atomic: a mark is
/// taken before it, and on failure the position is rewound to that mark and
/// the repetition ends with the already-successful prior results. An attempt
/// that matches without consuming anything also ends the repetition, so that
/// the loop always terminates; its result is discarded and the position is
/// unchanged. Never fails.
pub struct Repeat<M> {
    pub inner: M,
}

/// The step that applies `inner` as many times as it matches.
pub fn repeat<T: DeepView, M: Matcher<T>>(inner: M) -> (r: Repeat<M>)
    ensures
        r == (Repeat { inner }),
{
    Repeat { inner }
}

impl<T: DeepView, M: Matcher<T>> Matcher<Vec<T>> for Repeat<M> {
    open spec fn spec_step(&self, s: Seq<u8>, p: int) -> Step<Seq<T::V>> {
        Step::Matched { value: repeat_step(&self.inner, s, p).0, end: repeat_step(&self.inner, s, p).1 }
    }

    proof fn lemma_step_bounds(&self, s: Seq<u8>, p: int) {
        lemma_repeat_step_bounds(&self.inner, s, p);
    }

    fn do_match(&self, bs: &mut ByteStream) -> (r: Result<Vec<T>, MatchError>) {
        let ghost s = bs.data();
        let ghost p0 = bs.spec_pos();
        let ghost c0 = bs.spec_cap();
        let mut acc: Vec<T> = Vec::new();
        proof {
            assert(acc.deep_view() =~= Seq::<T::V>::empty());
        }
        loop
            invariant
                bs.wf(),
                bs.data() == s,
                bs.spec_cap() == c0,
                0 <= p0 <= bs.spec_pos() <= s.len(),
                repeat_step(&self.inner, s, p0).0 == acc.deep_view() + repeat_step(
                    &self.inner,
                    s,
                    bs.spec_pos(),
                ).0,
                repeat_step(&self.inner, s, p0).1 == repeat_step(&self.inner, s, bs.spec_pos()).1,
            ensures
                bs.wf(),
                bs.data() == s,
                bs.spec_cap() == c0,
                p0 <= bs.spec_pos(),
                acc.deep_view() == repeat_step(&self.inner, s, p0).0,
                bs.spec_pos() == repeat_step(&self.inner, s, p0).1,
            decreases s.len() - bs.spec_pos(),
        {
            let ghost p_here = bs.spec_pos();
            let mark = bs.mark();
            let attempt_pos = bs.pos();
            proof {
                self.inner.lemma_step_bounds(s, p_here);
            }
            match self.inner.do_match(bs) {
                Err(_) => {
                    bs.reset(mark);
                    proof {
                        assert(repeat_step(&self.inner, s, p_here) == (
                            Seq::<T::V>::empty(),
                            p_here,
                        ));
                        assert(acc.deep_view() + Seq::<T::V>::empty() =~= acc.deep_view());
                    }
                    break ;
                },
                Ok(t) => {
                    if bs.pos() <= attempt_pos {
                        bs.reset(mark);
                        proof {
                            assert(repeat_step(&self.inner, s, p_here) == (
                                Seq::<T::V>::empty(),
                                p_here,
                            ));
                            assert(acc.deep_view() + Seq::<T::V>::empty() =~= acc.deep_view());
                        }
                        break ;
                    }
                    let ghost acc_old = acc.deep_view();
                    acc.push(t);
                    proof {
                        assert(acc.deep_view() =~= acc_old.push(t.deep_view()));
                        let rest = repeat_step(&self.inner, s, bs.spec_pos());
                        assert(repeat_step(&self.inner, s, p_here) == (
                            seq![t.deep_view()] + rest.0,
                            rest.1,
                        ));
                        assert(acc_old + (seq![t.deep_view()] + rest.0) =~= acc.deep_view()
                            + rest.0);
                    }
                },
            }
        }
        Ok(acc)
    }
}

/// Zero-or-one application of a sub-step, with the same atomic
/// attempt-then-rewind discipline as [`Repeat`]: when the attempt fails, the
/// position is rewound to where it began and the result is absent. Never
/// fails.
pub struct Maybe<M> {
    pub inner: M,
}

/// The step that applies `inner` once if it matches, else yields nothing.
pub fn maybe<T: DeepView, M: Matcher<T>>(inner: M) -> (r: Maybe<M>)
    ensures
        r == (Maybe { inner }),
{
    Maybe { inner }
}

impl<T: DeepView, M: Matcher<T>> Matcher<Option<T>> for Maybe<M> {
    open spec fn spec_step(&self, s: Seq<u8>, p: int) -> Step<Option<T::V>> {
        match self.inner.spec_step(s, p) {
            Step::Matched { value, end } => Step::Matched { value: Some(value), end },
            Step::Failed { .. } => Step::Matched { value: None, end: p },
        }
    }

    proof fn lemma_step_bounds(&self, s: Seq<u8>, p: int) {
        self.inner.lemma_step_bounds(s, p);
    }

    fn do_match(&self, bs: &mut ByteStream) -> (r: Result<Option<T>, MatchError>) {
        let ghost s = bs.data();
        let ghost p0 = bs.spec_pos();
        let mark = bs.mark();
        proof {
            self.inner.lemma_step_bounds(s, p0);
        }
        match self.inner.do_match(bs) {
            Ok(t) => Ok(Some(t)),
            Err(_) => {
                bs.reset(mark);
                Ok(None)
            },
        }
    }
}

impl ByteStream {
    /// Runs a parse step on this buffer; what [`Matcher::do_match`] does.
    pub fn apply<T: DeepView, M: Matcher<T>>(&mut self, parser: M) -> (r: Result<T, MatchError>)
        requires
            old(self).wf(),
        ensures
            final(self).wf(),
            final(self).data() == old(self).data(),
            final(self).spec_cap() == old(self).spec_cap(),
            parser.spec_step(old(self).data(), old(self).spec_pos()) matches Step::Matched {
                value,
                end,
            } ==> r matches Ok(t) && t.deep_view() == value && final(self).spec_pos() == end,
            parser.spec_step(old(self).data(), old(self).spec_pos()) matches Step::Failed {
                error,
                end,
            } ==> r matches Err(e) && e == error && final(self).spec_pos() == end,
    {
        parser.do_match(self)
    }
}

/// Law: `exact` (and through it `string`) is atomic — whenever the literal
/// fails to match, the step ends exactly at the position it began, so a
/// caller observes no net consumption from the failed attempt.
pub proof fn lemma_exact_atomic<'a>(m: Exact<'a>, s: Seq<u8>, p: int)
    ensures
        m.spec_step(s, p) matches Step::Failed { end, .. } ==> end == p,
{
}

/// Law: `string` is atomic, inheriting the discipline of `exact`.
pub proof fn lemma_string_atomic(m: StrLit, s: Seq<u8>, p: int)
    ensures
        m.spec_step(s, p) matches Step::Failed { end, .. } ==> end == p,
{
}

/// Law: `maybe` never fails, and when its inner attempt fails, the step ends
/// exactly at the position it began: the failed attempt is rewound.
pub proof fn lemma_maybe_atomic<T: DeepView, M: Matcher<T>>(m: &Maybe<M>, s: Seq<u8>, p: int)
    ensures
        m.spec_step(s, p) matches Step::Matched { .. },
        m.inner.spec_step(s, p) matches Step::Failed { .. } ==> m.spec_step(s, p)
            matches Step::Matched { value, end } && value is None && end == p,
{
}

/// Law: `repeat` never fails, and it ends exactly where its final attempt
/// began: that attempt either failed or made no progress, and in both cases
/// its consumption was rewound, leaving only the bytes of the successful
/// prior results consumed.
pub proof fn lemma_repeat_atomic<T: DeepView, M: Matcher<T>>(m: &Repeat<M>, s: Seq<u8>, p: int)
    requires
        0 <= p <= s.len(),
    ensures
        m.spec_step(s, p) matches Step::Matched { .. },
        m.spec_step(s, p) matches Step::Matched { value, end } ==> {
            &&& p <= end <= s.len()
            &&& match m.inner.spec_step(s, end) {
                Step::Failed { .. } => true,
                Step::Matched { end: after, .. } => !(end < after <= s.len()),
            }
        },
    decreases s.len() - p,
{
    lemma_repeat_step_bounds(&m.inner, s, p);
    if let Step::Matched { value, end } = m.inner.spec_step(s, p) {
        if p < end <= s.len() {
            lemma_repeat_atomic(m, s, end);
        }
    }
}

} // verus!
