//! The HTTP/1.1 request grammar: request line, header list, and a
//! Content-Length-driven body, built from the combinator core.

use crate::matcher::{MatchError, MatchKind, Matcher, Step};
use crate::parser::{
    bytes, lemma_vec_u8_deep_view, literal_step, repeat_step, Before, Exact, Fixed, Repeat, Single,
};
use crate::stream::ByteStream;
use vstd::prelude::*;
use vstd::string::StringExecFns;

verus! {

/// Each byte read as one character, code point for code point.
pub open spec fn chars_of(bytes: Seq<u8>) -> Seq<char> {
    Seq::new(bytes.len(), |i: int| bytes[i] as char)
}

/// Relies on `String::push`: appends exactly the given character to the end
/// of the string.
#[verifier::external_body]
pub(crate) fn push_char(s: &mut String, c: char)
    ensures
        final(s)@ == old(s)@.push(c),
{
    s.push(c);
}

/// Turns bytes into text, one character per byte. Bytes above 127 become the
/// code points of the same value, not a UTF-8 decoding.
pub fn as_string(bytes: Vec<u8>) -> (r: String)
    ensures
        r@ == chars_of(bytes@),
{
    let mut out = String::new();
    let mut i: usize = 0;
    proof {
        assert(out@ =~= chars_of(bytes@).subrange(0, 0));
    }
    while i < bytes.len()
        invariant
            i <= bytes@.len(),
            out@ == chars_of(bytes@).subrange(0, i as int),
        decreases bytes@.len() - i,
    {
        push_char(&mut out, bytes[i] as char);
        i = i + 1;
        proof {
            assert(out@ =~= chars_of(bytes@).subrange(0, i as int));
        }
    }
    proof {
        assert(chars_of(bytes@).subrange(0, bytes@.len() as int) =~= chars_of(bytes@));
    }
    out
}

/// The two bytes that end a line in the wire format.
pub open spec fn crlf() -> Seq<u8> {
    seq![13u8, 10u8]
}

/// One header line: name and value, both text spans extracted between the
/// protocol delimiters.
pub struct Header {
    pub name: String,
    pub value: String,
}

/// The mathematical value of a [`Header`].
pub struct HeaderV {
    pub name: Seq<char>,
    pub value: Seq<char>,
}

impl DeepView for Header {
    type V = HeaderV;

    open spec fn deep_view(&self) -> HeaderV {
        HeaderV { name: self.name@, value: self.value@ }
    }
}

/// What one header line means at `p`: a name up to `':'`, the literal `": "`,
/// a value up to the carriage return, and the line end.
pub open spec fn header_step(s: Seq<u8>, p: int) -> Step<HeaderV> {
    match (Before { delimiter: ':' }).spec_step(s, p) {
        Step::Failed { error, end } => Step::Failed { error, end },
        Step::Matched { value: name, end: p1 } => match (Single { chr: ':' }).spec_step(s, p1) {
            Step::Failed { error, end } => Step::Failed { error, end },
            Step::Matched { value: _, end: p2 } => match (Single { chr: ' ' }).spec_step(s, p2) {
                Step::Failed { error, end } => Step::Failed { error, end },
                Step::Matched { value: _, end: p3 } => match (Before {
                    delimiter: '\r',
                }).spec_step(s, p3) {
                    Step::Failed { error, end } => Step::Failed { error, end },
                    Step::Matched { value: val, end: p4 } => match literal_step(s, p4, crlf()) {
                        Step::Failed { error, end } => Step::Failed { error, end },
                        Step::Matched { value: _, end: p5 } => Step::Matched {
                            value: HeaderV { name: chars_of(name), value: chars_of(val) },
                            end: p5,
                        },
                    },
                },
            },
        },
    }
}

/// The parse step for one header line.
pub struct HeaderStep {}

/// The step that reads one header line.
pub fn header_parser() -> (r: HeaderStep)
    ensures
        r == (HeaderStep {  }),
{
    HeaderStep {  }
}

impl Matcher<Header> for HeaderStep {
    open spec fn spec_step(&self, s: Seq<u8>, p: int) -> Step<HeaderV> {
        header_step(s, p)
    }

    proof fn lemma_step_bounds(&self, s: Seq<u8>, p: int) {
        (Before { delimiter: ':' }).lemma_step_bounds(s, p);
        if let Step::Matched { value: _, end: p1 } = (Before { delimiter: ':' }).spec_step(s, p) {
            (Single { chr: ':' }).lemma_step_bounds(s, p1);
            if let Step::Matched { value: _, end: p2 } = (Single { chr: ':' }).spec_step(s, p1) {
                (Single { chr: ' ' }).lemma_step_bounds(s, p2);
                if let Step::Matched { value: _, end: p3 } = (Single { chr: ' ' }).spec_step(
                    s,
                    p2,
                ) {
                    (Before { delimiter: '\r' }).lemma_step_bounds(s, p3);
                    if let Step::Matched { value: _, end: p4 } = (Before {
                        delimiter: '\r',
                    }).spec_step(s, p3) {
                        crate::parser::lemma_lit_match_len(s, p4, crlf());
                    }
                }
            }
        }
    }

    fn do_match(&self, bs: &mut ByteStream) -> (r: Result<Header, MatchError>) {
        let name_bytes = match (Before { delimiter: ':' }).do_match(bs) {
            Ok(v) => v,
            Err(e) => {
                return Err(e);
            },
        };
        match (Single { chr: ':' }).do_match(bs) {
            Ok(_) => (),
            Err(e) => {
                return Err(e);
            },
        };
        match (Single { chr: ' ' }).do_match(bs) {
            Ok(_) => (),
            Err(e) => {
                return Err(e);
            },
        };
        let value_bytes = match (Before { delimiter: '\r' }).do_match(bs) {
            Ok(v) => v,
            Err(e) => {
                return Err(e);
            },
        };
        let line_end: [u8; 2] = [13u8, 10u8];
        proof {
            assert(line_end@ =~= crlf());
        }
        match (Exact { lit: line_end.as_slice() }).do_match(bs) {
            Ok(_) => (),
            Err(e) => {
                return Err(e);
            },
        };
        proof {
            lemma_vec_u8_deep_view(name_bytes);
            lemma_vec_u8_deep_view(value_bytes);
        }
        Ok(Header { name: as_string(name_bytes), value: as_string(value_bytes) })
    }
}

/// A parsed request: the request-line tokens, the headers in order, and the
/// Content-Length-driven body, built incrementally field by field.
pub struct Request {
    pub method: String,
    pub path: String,
    pub protocol: String,
    pub headers: Vec<Header>,
    pub content: Vec<u8>,
}

/// The mathematical value of a [`Request`].
pub struct RequestV {
    pub method: Seq<char>,
    pub path: Seq<char>,
    pub protocol: Seq<char>,
    pub headers: Seq<HeaderV>,
    pub content: Seq<u8>,
}

impl DeepView for Request {
    type V = RequestV;

    open spec fn deep_view(&self) -> RequestV {
        RequestV {
            method: self.method@,
            path: self.path@,
            protocol: self.protocol@,
            headers: self.headers.deep_view(),
            content: self.content@,
        }
    }
}

/// The value of the first header with the given name, or nothing.
pub open spec fn spec_header_value(headers: Seq<HeaderV>, name: Seq<char>) -> Option<Seq<char>>
    decreases headers.len(),
{
    if headers.len() == 0 {
        None
    } else if headers[0].name == name {
        Some(headers[0].value)
    } else {
        spec_header_value(headers.drop_first(), name)
    }
}

/// A decimal digit character.
pub open spec fn is_digit(c: char) -> bool {
    48 <= c as int <= 57
}

/// The value of one decimal digit character.
pub open spec fn digit_val(c: char) -> nat {
    (c as int - 48) as nat
}

/// The value of a string of decimal digits, most significant first.
pub open spec fn dec_val(s: Seq<char>) -> nat
    decreases s.len(),
{
    if s.len() == 0 {
        0
    } else {
        10 * dec_val(s.drop_last()) + digit_val(s.last())
    }
}

/// The value of a pure digit string, when there is at least one digit and
/// the value fits the machine word.
pub open spec fn spec_parse_digits(digits: Seq<char>) -> Option<nat> {
    if digits.len() > 0 && (forall|i: int| 0 <= i < digits.len() ==> is_digit(#[trigger] digits[i]))
        && dec_val(digits) <= usize::MAX {
        Some(dec_val(digits))
    } else {
        None
    }
}

/// What parsing text as an unsigned size yields: an optional leading `'+'`,
/// then one or more decimal digits whose value fits the machine word;
/// anything else, and any overflow, is a failure.
pub open spec fn spec_parse_usize(s: Seq<char>) -> Option<nat> {
    if s.len() > 0 && s[0] == '+' {
        spec_parse_digits(s.drop_first())
    } else {
        spec_parse_digits(s)
    }
}

/// The body length a header list calls for: the value of the first
/// `Content-Length` header read as an unsigned size, or 0 when the header is
/// absent or its value does not parse — never an error.
pub open spec fn spec_content_length(headers: Seq<HeaderV>) -> nat {
    match spec_header_value(headers, "Content-Length"@) {
        None => 0,
        Some(v) => match spec_parse_usize(v) {
            None => 0,
            Some(n) => n,
        },
    }
}

/// The value of the first header with the given name, or nothing.
pub fn get_header_value(req: &Request, name: String) -> (r: Option<String>)
    ensures
        match spec_header_value(req.headers.deep_view(), name@) {
            Some(v) => r matches Some(x) && x@ == v,
            None => r is None,
        },
{
    let ghost hs = req.headers.deep_view();
    let mut i: usize = 0;
    proof {
        assert(hs.skip(0) =~= hs);
    }
    while i < req.headers.len()
        invariant
            i <= req.headers@.len(),
            hs == req.headers.deep_view(),
            hs.len() == req.headers@.len(),
            spec_header_value(hs, name@) == spec_header_value(hs.skip(i as int), name@),
        decreases req.headers@.len() - i,
    {
        proof {
            assert(hs[i as int] == req.headers[i as int].deep_view());
            assert(hs.skip(i as int)[0] == hs[i as int]);
            assert(hs.skip(i as int).drop_first() =~= hs.skip(i as int + 1));
        }
        if req.headers[i].name == name {
            return Some(req.headers[i].value.clone());
        }
        i = i + 1;
    }
    None
}

/// Parses text as an unsigned size: an optional leading `'+'`, then decimal
/// digits; fails on anything else and on overflow.
pub fn parse_usize(s: &String) -> (r: Option<usize>)
    ensures
        match spec_parse_usize(s@) {
            Some(n) => r matches Some(x) && x == n,
            None => r is None,
        },
{
    let text = s.as_str();
    let n = text.unicode_len();
    let start: usize = if n > 0 && text.get_char(0) == '+' {
        1
    } else {
        0
    };
    let ghost digits = if s@.len() > 0 && s@[0] == '+' {
        s@.drop_first()
    } else {
        s@
    };
    proof {
        assert(digits =~= s@.skip(start as int));
        assert(spec_parse_usize(s@) == spec_parse_digits(digits));
    }
    if start == n {
        return None;
    }
    let mut acc: usize = 0;
    let mut i: usize = start;
    while i < n
        invariant
            s@ == text@,
            n == s@.len(),
            start <= i <= n,
            start <= 1,
            digits == s@.skip(start as int),
            spec_parse_usize(s@) == spec_parse_digits(digits),
            acc == dec_val(s@.subrange(start as int, i as int)),
            forall|j: int| start <= j < i ==> is_digit(#[trigger] s@[j]),
        decreases n - i,
    {
        let c = text.get_char(i);
        let u = c as u32;
        if u < 48 || u > 57 {
            proof {
                assert(!is_digit(s@[i as int]));
                assert(digits[i - start] == s@[i as int]);
                assert(0 <= i - start < digits.len() && !is_digit(digits[i - start]));
                assert(spec_parse_digits(digits) is None);
            }
            return None;
        }
        let d = (u - 48) as usize;
        proof {
            assert(d == digit_val(s@[i as int]));
        }
        if acc > (usize::MAX - d) / 10 {
            proof {
                lemma_dec_mul10(usize::MAX as int, d as int, acc as int);
                lemma_dec_val_grows(digits, i - start + 1);
                assert(s@.subrange(start as int, i as int + 1) =~= digits.subrange(
                    0,
                    i - start + 1,
                ));
                assert(s@.subrange(start as int, i as int + 1).drop_last() =~= s@.subrange(
                    start as int,
                    i as int,
                ));
                assert(s@.subrange(start as int, i as int + 1).last() == s@[i as int]);
                assert(dec_val(s@.subrange(start as int, i as int + 1)) == 10 * (acc as int)
                    + d);
                assert(dec_val(digits) >= dec_val(digits.subrange(0, i - start + 1)));
                assert(dec_val(digits) > usize::MAX);
                assert(spec_parse_digits(digits) is None);
            }
            return None;
        }
        proof {
            lemma_dec_mul10(usize::MAX as int, d as int, acc as int);
            assert(s@.subrange(start as int, i as int + 1).drop_last() =~= s@.subrange(
                start as int,
                i as int,
            ));
            assert(s@.subrange(start as int, i as int + 1).last() == s@[i as int]);
        }
        acc = acc * 10 + d;
        i = i + 1;
    }
    proof {
        assert(s@.subrange(start as int, n as int) =~= digits);
        assert(forall|j: int| 0 <= j < digits.len() ==> is_digit(#[trigger] digits[j])) by {
            assert(forall|j: int|
                0 <= j < digits.len() ==> digits[j] == #[trigger] s@[j + start]);
        }
    }
    Some(acc)
}

/// With `0 <= d <= max`: `a <= (max - d) / 10` exactly when `10 * a + d`
/// stays within `max`.
proof fn lemma_dec_mul10(max: int, d: int, a: int)
    requires
        0 <= d <= max,
        0 <= a,
    ensures
        a <= (max - d) / 10 <==> 10 * a + d <= max,
{
    vstd::arithmetic::div_mod::lemma_fundamental_div_mod(max - d, 10);
    let q = (max - d) / 10;
    if a <= q {
        assert(10 * a <= 10 * q);
    } else {
        assert(10 * a >= 10 * (q + 1));
        assert(10 * (q + 1) == 10 * q + 10);
    }
}

/// A digit string's value only grows as more digits follow: the value of a
/// prefix never exceeds the value of the whole.
proof fn lemma_dec_val_grows(s: Seq<char>, i: int)
    requires
        0 <= i <= s.len(),
    ensures
        dec_val(s.subrange(0, i)) <= dec_val(s),
    decreases s.len() - i,
{
    if i < s.len() {
        lemma_dec_val_grows(s, i + 1);
        assert(s.subrange(0, i + 1).drop_last() =~= s.subrange(0, i));
        assert(dec_val(s.subrange(0, i + 1)) == 10 * dec_val(s.subrange(0, i)) + digit_val(
            s.subrange(0, i + 1).last(),
        ));
    } else {
        assert(s.subrange(0, i) =~= s);
    }
}

/// The declared body length: the first `Content-Length` header's value read
/// as an unsigned size, with 0 standing in when the value does not parse;
/// nothing when the header is absent.
pub fn get_content_length(req: &Request) -> (r: Option<usize>)
    ensures
        match spec_header_value(req.headers.deep_view(), "Content-Length"@) {
            None => r is None,
            Some(v) => r == Some(
                (match spec_parse_usize(v) {
                    None => 0nat,
                    Some(n) => n,
                }) as usize,
            ),
        },
{
    match get_header_value(req, "Content-Length".to_owned()) {
        None => None,
        Some(v) => match parse_usize(&v) {
            None => Some(0),
            Some(n) => Some(n),
        },
    }
}

/// The step that extracts a body of exactly `len` bytes.
pub fn content_parser(len: usize) -> (r: Fixed)
    ensures
        r == (Fixed { len }),
{
    bytes(len)
}

/// What one request means at `p`: `Method SP Path SP Protocol CRLF Header*
/// CRLF Body`, with the body length taken from the already-parsed headers.
pub open spec fn request_step(s: Seq<u8>, p: int) -> Step<RequestV> {
    match (Before { delimiter: ' ' }).spec_step(s, p) {
        Step::Failed { error, end } => Step::Failed { error, end },
        Step::Matched { value: method, end: p1 } => match (Single { chr: ' ' }).spec_step(s, p1) {
            Step::Failed { error, end } => Step::Failed { error, end },
            Step::Matched { value: _, end: p2 } => match (Before { delimiter: ' ' }).spec_step(
                s,
                p2,
            ) {
                Step::Failed { error, end } => Step::Failed { error, end },
                Step::Matched { value: path, end: p3 } => match (Single { chr: ' ' }).spec_step(
                    s,
                    p3,
                ) {
                    Step::Failed { error, end } => Step::Failed { error, end },
                    Step::Matched { value: _, end: p4 } => match (Before {
                        delimiter: '\r',
                    }).spec_step(s, p4) {
                        Step::Failed { error, end } => Step::Failed { error, end },
                        Step::Matched { value: protocol, end: p5 } => match literal_step(
                            s,
                            p5,
                            crlf(),
                        ) {
                            Step::Failed { error, end } => Step::Failed { error, end },
                            Step::Matched { value: _, end: p6 } => {
                                let headers = repeat_step(&(HeaderStep {  }), s, p6);
                                match literal_step(s, headers.1, crlf()) {
                                    Step::Failed { error, end } => Step::Failed { error, end },
                                    Step::Matched { value: _, end: p8 } => match (Fixed {
                                        len: spec_content_length(headers.0) as usize,
                                    }).spec_step(s, p8) {
                                        Step::Failed { error, end } => Step::Failed { error, end },
                                        Step::Matched { value: content, end: p9 } => Step::Matched {
                                            value: RequestV {
                                                method: chars_of(method),
                                                path: chars_of(path),
                                                protocol: chars_of(protocol),
                                                headers: headers.0,
                                                content,
                                            },
                                            end: p9,
                                        },
                                    },
                                }
                            },
                        },
                    },
                },
            },
        },
    }
}

/// Law: when the parsed headers hold no `Content-Length`, the body is
/// empty, whatever bytes follow the blank line.
pub proof fn lemma_missing_content_length_empty_body(s: Seq<u8>, p: int)
    ensures
        request_step(s, p) matches Step::Matched { value, .. } ==> (spec_header_value(
            value.headers,
            "Content-Length"@,
        ) is None ==> value.content.len() == 0),
{
}

/// The parse step for one whole request.
pub struct RequestStep {}

/// The step that reads one whole request.
pub fn request_parser() -> (r: RequestStep)
    ensures
        r == (RequestStep {  }),
{
    RequestStep {  }
}

impl Matcher<Request> for RequestStep {
    open spec fn spec_step(&self, s: Seq<u8>, p: int) -> Step<RequestV> {
        request_step(s, p)
    }

    proof fn lemma_step_bounds(&self, s: Seq<u8>, p: int) {
        (Before { delimiter: ' ' }).lemma_step_bounds(s, p);
        if let Step::Matched { value: _, end: p1 } = (Before { delimiter: ' ' }).spec_step(s, p) {
            (Single { chr: ' ' }).lemma_step_bounds(s, p1);
            if let Step::Matched { value: _, end: p2 } = (Single { chr: ' ' }).spec_step(s, p1) {
                (Before { delimiter: ' ' }).lemma_step_bounds(s, p2);
                if let Step::Matched { value: _, end: p3 } = (Before {
                    delimiter: ' ',
                }).spec_step(s, p2) {
                    (Single { chr: ' ' }).lemma_step_bounds(s, p3);
                    if let Step::Matched { value: _, end: p4 } = (Single { chr: ' ' }).spec_step(
                        s,
                        p3,
                    ) {
                        (Before { delimiter: '\r' }).lemma_step_bounds(s, p4);
                        if let Step::Matched { value: _, end: p5 } = (Before {
                            delimiter: '\r',
                        }).spec_step(s, p4) {
                            crate::parser::lemma_lit_match_len(s, p5, crlf());
                            if let Step::Matched { value: _, end: p6 } = literal_step(
                                s,
                                p5,
                                crlf(),
                            ) {
                                crate::parser::lemma_repeat_step_bounds(
                                    &(HeaderStep {  }),
                                    s,
                                    p6,
                                );
                                let p7 = repeat_step(&(HeaderStep {  }), s, p6).1;
                                crate::parser::lemma_lit_match_len(s, p7, crlf());
                            }
                        }
                    }
                }
            }
        }
    }

    fn do_match(&self, bs: &mut ByteStream) -> (r: Result<Request, MatchError>) {
        let method_bytes = match (Before { delimiter: ' ' }).do_match(bs) {
            Ok(v) => v,
            Err(e) => {
                return Err(e);
            },
        };
        match (Single { chr: ' ' }).do_match(bs) {
            Ok(_) => (),
            Err(e) => {
                return Err(e);
            },
        };
        let path_bytes = match (Before { delimiter: ' ' }).do_match(bs) {
            Ok(v) => v,
            Err(e) => {
                return Err(e);
            },
        };
        match (Single { chr: ' ' }).do_match(bs) {
            Ok(_) => (),
            Err(e) => {
                return Err(e);
            },
        };
        let protocol_bytes = match (Before { delimiter: '\r' }).do_match(bs) {
            Ok(v) => v,
            Err(e) => {
                return Err(e);
            },
        };
        let line_end: [u8; 2] = [13u8, 10u8];
        proof {
            assert(line_end@ =~= crlf());
        }
        match (Exact { lit: line_end.as_slice() }).do_match(bs) {
            Ok(_) => (),
            Err(e) => {
                return Err(e);
            },
        };
        let headers = match (Repeat { inner: HeaderStep {  } }).do_match(bs) {
            Ok(v) => v,
            Err(e) => {
                return Err(e);
            },
        };
        match (Exact { lit: line_end.as_slice() }).do_match(bs) {
            Ok(_) => (),
            Err(e) => {
                return Err(e);
            },
        };
        proof {
            lemma_vec_u8_deep_view(method_bytes);
            lemma_vec_u8_deep_view(path_bytes);
            lemma_vec_u8_deep_view(protocol_bytes);
        }
        let mut req = Request {
            method: as_string(method_bytes),
            path: as_string(path_bytes),
            protocol: as_string(protocol_bytes),
            headers,
            content: Vec::new(),
        };
        let n: usize = match get_content_length(&req) {
            Some(n) => n,
            None => 0,
        };
        let content = match (Fixed { len: n }).do_match(bs) {
            Ok(v) => v,
            Err(e) => {
                return Err(e);
            },
        };
        req.content = content;
        proof {
            lemma_vec_u8_deep_view(req.content);
        }
        Ok(req)
    }
}

/// One decimal digit as a character.
pub open spec fn digit_char(d: nat) -> char {
    ((48 + d) as u8) as char
}

/// A number written in decimal, most significant digit first.
pub open spec fn dec_chars(n: nat) -> Seq<char>
    decreases n,
{
    if n < 10 {
        seq![digit_char(n)]
    } else {
        dec_chars(n / 10) + seq![digit_char(n % 10)]
    }
}

/// Appends `n` in decimal to the string.
pub(crate) fn push_dec(out: &mut String, n: u64)
    ensures
        final(out)@ == old(out)@ + dec_chars(n as nat),
    decreases n,
{
    if n >= 10 {
        push_dec(out, n / 10);
        let ghost mid = out@;
        push_char(out, ((48 + (n % 10)) as u8) as char);
        proof {
            assert(out@ =~= old(out)@ + dec_chars(n as nat));
        }
    } else {
        push_char(out, ((48 + n) as u8) as char);
        proof {
            assert(out@ =~= old(out)@ + dec_chars(n as nat));
        }
    }
}

/// One header line as it is written out: name, a colon and a space, value.
pub open spec fn fmt_header(h: HeaderV) -> Seq<char> {
    h.name + ": "@ + h.value
}

/// The header lines joined by line ends, with no trailing separator.
pub open spec fn join_headers(hs: Seq<HeaderV>) -> Seq<char>
    decreases hs.len(),
{
    if hs.len() == 0 {
        Seq::<char>::empty()
    } else if hs.len() == 1 {
        fmt_header(hs[0])
    } else {
        join_headers(hs.drop_last()) + "\r\n"@ + fmt_header(hs.last())
    }
}

/// What a response looks like on the wire: the status line, the joined
/// header lines, a blank line, and the content read as characters.
pub open spec fn response_text(
    protocol: Seq<char>,
    code: u16,
    message: Seq<char>,
    headers: Seq<HeaderV>,
    content: Seq<u8>,
) -> Seq<char> {
    protocol + " "@ + dec_chars(code as nat) + " "@ + message + "\r\n"@ + join_headers(headers)
        + "\r\n\r\n"@ + chars_of(content)
}

/// An outbound response: status line fields, headers, and content. The
/// core never writes it to a transport; [`Response::into_string`] renders
/// it for whoever does.
pub struct Response {
    pub protocol: String,
    pub code: u16,
    pub message: String,
    pub headers: Vec<Header>,
    pub content: Vec<u8>,
}

impl Response {
    /// Renders the response: `Protocol SP Code SP Message CRLF`, the header
    /// lines joined by CRLF, a blank line, and the content as text.
    pub fn into_string(self) -> (r: String)
        ensures
            r@ == response_text(
                self.protocol@,
                self.code,
                self.message@,
                self.headers.deep_view(),
                self.content@,
            ),
    {
        let Response { protocol, code, message, headers, content } = self;
        let ghost hs = headers.deep_view();
        let mut out = String::new();
        out.append(protocol.as_str());
        out.append(" ");
        push_dec(&mut out, code as u64);
        out.append(" ");
        out.append(message.as_str());
        out.append("\r\n");
        let ghost base = out@;
        let mut i: usize = 0;
        proof {
            assert(hs.take(0) =~= Seq::<HeaderV>::empty());
        }
        while i < headers.len()
            invariant
                i <= headers@.len(),
                hs == headers.deep_view(),
                hs.len() == headers@.len(),
                out@ == base + join_headers(hs.take(i as int)),
            decreases headers@.len() - i,
        {
            if i > 0 {
                out.append("\r\n");
            }
            out.append(headers[i].name.as_str());
            out.append(": ");
            out.append(headers[i].value.as_str());
            i = i + 1;
            proof {
                assert(hs[i - 1] == headers[i - 1].deep_view());
                assert(hs.take(i as int).drop_last() =~= hs.take(i as int - 1));
                assert(hs.take(i as int).last() == hs[i - 1]);
                assert(out@ =~= base + join_headers(hs.take(i as int)));
            }
        }
        proof {
            assert(hs.take(headers@.len() as int) =~= hs);
        }
        out.append("\r\n\r\n");
        let content_text = as_string(content);
        out.append(content_text.as_str());
        proof {
            assert(out@ =~= response_text(protocol@, code, message@, hs, content@));
        }
        out
    }
}

/// Parses one request from the buffer. Returns nothing on any grammar
/// failure — a malformed start line, a malformed header, or too few bytes
/// for the declared body length — with no partial result and no
/// distinguishable failure reason. The read position is left wherever the
/// failing step left it: steps before the failure stay consumed.
pub fn parse_http_request(stream: &mut ByteStream) -> (r: Option<Request>)
    requires
        old(stream).wf(),
    ensures
        final(stream).wf(),
        final(stream).data() == old(stream).data(),
        final(stream).spec_cap() == old(stream).spec_cap(),
        request_step(old(stream).data(), old(stream).spec_pos()) matches Step::Matched {
            value,
            end,
        } ==> r matches Some(req) && req.deep_view() == value && final(stream).spec_pos() == end,
        request_step(old(stream).data(), old(stream).spec_pos()) matches Step::Failed {
            error,
            end,
        } ==> r is None && final(stream).spec_pos() == end,
{
    match (RequestStep {  }).do_match(stream) {
        Ok(req) => Some(req),
        Err(_) => None,
    }
}

} // verus!
