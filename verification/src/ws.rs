//! The WebSocket frame grammar: the two-byte option word, the
//! variable-length extension, the optional mask key, and the payload.

use crate::matcher::{MatchError, MatchKind, Matcher, Step};
use crate::parser::{lemma_vec_u8_deep_view, Fixed, GetU16, GetU64};
use crate::stream::{be_val, ByteStream};
use vstd::prelude::*;
use vstd::string::StringSliceAdditionalSpecFns;

verus! {

/// One frame: header bits, the decoded payload length, the mask key when
/// the mask flag was set, and the payload exactly as received — unmasking
/// is a distinct, caller-invoked step ([`decode_frame_body`]).
pub struct Frame {
    pub fin: bool,
    pub opcode: u8,
    pub len: u64,
    pub mask: Option<[u8; 4]>,
    pub body: Vec<u8>,
}

/// The mathematical value of a [`Frame`].
pub struct FrameV {
    pub fin: bool,
    pub opcode: u8,
    pub len: u64,
    pub mask: Option<Seq<u8>>,
    pub body: Seq<u8>,
}

impl DeepView for Frame {
    type V = FrameV;

    open spec fn deep_view(&self) -> FrameV {
        FrameV {
            fin: self.fin,
            opcode: self.opcode,
            len: self.len,
            mask: match self.mask {
                Some(m) => Some(m@),
                None => None,
            },
            body: self.body@,
        }
    }
}

impl Frame {
    /// An outbound text frame: final, text opcode, no mask, the text's
    /// UTF-8 bytes as the body.
    pub fn text(body: &str) -> (r: Frame)
        ensures
            r.fin == true,
            r.opcode == 1,
            r.len == body.spec_bytes().len(),
            r.mask is None,
            r.body@ == body.spec_bytes(),
    {
        let bytes_vec = vstd::slice::slice_to_vec(body.as_bytes());
        let n = bytes_vec.len();
        Frame {
            fin: true,
            opcode: 1,  // 0 - continuation, 1 - text, 2 - binary
            len: n as u64,
            mask: None,
            body: bytes_vec,
        }
    }
}

/// The payload with the cyclic mask applied: byte `i` XORed with
/// `mask[i mod 4]`.
pub open spec fn unmask(body: Seq<u8>, mask: Seq<u8>) -> Seq<u8> {
    Seq::new(body.len(), |i: int| body[i] ^ mask[i % 4])
}

/// Applies the cyclic XOR mask to the payload, turning a masked body into
/// the clear bytes (and back: the transform is its own inverse).
#[verifier::loop_isolation(false)]
pub fn decode_frame_body(body: &Vec<u8>, mask: &[u8; 4]) -> (r: Vec<u8>)
    ensures
        r@ == unmask(body@, mask@),
{
    let mut decoded: Vec<u8> = Vec::new();
    let mut i: usize = 0;
    proof {
        assert(decoded@ =~= unmask(body@, mask@).subrange(0, 0));
    }
    while i < body.len()
        invariant
            i <= body@.len(),
            decoded@ == unmask(body@, mask@).subrange(0, i as int),
        decreases body@.len() - i,
    {
        decoded.push(body[i] ^ mask[i % 4]);
        i = i + 1;
        proof {
            assert(decoded@ =~= unmask(body@, mask@).subrange(0, i as int));
        }
    }
    proof {
        assert(unmask(body@, mask@).subrange(0, body@.len() as int) =~= unmask(body@, mask@));
    }
    decoded
}

/// The option word decoded from the first two bytes: the FIN bit, the
/// 4-bit opcode, the 7-bit length class, and the mask flag.
pub struct FrameOpts {
    pub fin: bool,
    pub code: u8,
    pub len: u8,
    pub mask: bool,
}

/// What the two option bytes mean.
pub open spec fn spec_opts(b0: u8, b1: u8) -> FrameOpts {
    FrameOpts { fin: (b0 >> 7) > 0, code: 0xF & b0, len: 127 & b1, mask: (b1 >> 7) > 0 }
}

impl DeepView for FrameOpts {
    type V = FrameOpts;

    open spec fn deep_view(&self) -> FrameOpts {
        *self
    }
}

impl FrameOpts {
    /// Decodes the option word from the first two bytes given.
    pub fn new(word: Vec<u8>) -> (r: FrameOpts)
        requires
            word@.len() >= 2,
        ensures
            r == spec_opts(word@[0], word@[1]),
    {
        FrameOpts {
            fin: (word[0] >> 7) > 0,
            code: 0xF & word[0],
            len: 127 & word[1],
            mask: (word[1] >> 7) > 0,
        }
    }
}

/// The parse step for the two-byte option word.
pub struct FrameOptsStep {}

/// The step that reads the two-byte option word.
pub fn frame_opts() -> (r: FrameOptsStep)
    ensures
        r == (FrameOptsStep {  }),
{
    FrameOptsStep {  }
}

impl Matcher<FrameOpts> for FrameOptsStep {
    open spec fn spec_step(&self, s: Seq<u8>, p: int) -> Step<FrameOpts> {
        match (Fixed { len: 2 }).spec_step(s, p) {
            Step::Failed { error, end } => Step::Failed { error, end },
            Step::Matched { value, end } => Step::Matched {
                value: spec_opts(value[0], value[1]),
                end,
            },
        }
    }

    proof fn lemma_step_bounds(&self, s: Seq<u8>, p: int) {
    }

    fn do_match(&self, bs: &mut ByteStream) -> (r: Result<FrameOpts, MatchError>) {
        match (Fixed { len: 2 }).do_match(bs) {
            Ok(word) => {
                proof {
                    lemma_vec_u8_deep_view(word);
                }
                Ok(FrameOpts::new(word))
            },
            Err(e) => Err(e),
        }
    }
}

/// The tail of a frame after the length is known: the optional 4-byte mask
/// key, then the payload.
pub open spec fn frame_rest_step(s: Seq<u8>, p: int, opts: FrameOpts, len: u64) -> Step<FrameV> {
    if opts.mask {
        match (Fixed { len: 4 }).spec_step(s, p) {
            Step::Failed { error, end } => Step::Failed { error, end },
            Step::Matched { value: key, end: p2 } => frame_body_step(s, p2, opts, len, Some(key)),
        }
    } else {
        frame_body_step(s, p, opts, len, None)
    }
}

/// The payload of a frame: exactly `len` bytes, stored as received.
pub open spec fn frame_body_step(
    s: Seq<u8>,
    p: int,
    opts: FrameOpts,
    len: u64,
    mask: Option<Seq<u8>>,
) -> Step<FrameV> {
    if len <= usize::MAX {
        match (Fixed { len: len as usize }).spec_step(s, p) {
            Step::Failed { error, end } => Step::Failed { error, end },
            Step::Matched { value: body, end: p2 } => Step::Matched {
                value: FrameV { fin: opts.fin, opcode: opts.code, len, mask, body },
                end: p2,
            },
        }
    } else {
        Step::Failed {
            error: MatchError {
                offset: p as usize,
                kind: MatchKind::OverCapacity {
                    available: s.len() as usize,
                    requested: usize::MAX,
                },
            },
            end: p,
        }
    }
}

/// What one frame means at `p`: the option word, an extended length when
/// the class is 126 (16-bit big-endian) or 127 (64-bit big-endian), the
/// mask key exactly when the mask flag is set, and the payload.
pub open spec fn frame_step(s: Seq<u8>, p: int) -> Step<FrameV> {
    match (FrameOptsStep {  }).spec_step(s, p) {
        Step::Failed { error, end } => Step::Failed { error, end },
        Step::Matched { value: opts, end: p1 } => {
            if opts.len == 127 {
                match (GetU64 {  }).spec_step(s, p1) {
                    Step::Failed { error, end } => Step::Failed { error, end },
                    Step::Matched { value: n, end: p2 } => frame_rest_step(s, p2, opts, n),
                }
            } else if opts.len == 126 {
                match (GetU16 {  }).spec_step(s, p1) {
                    Step::Failed { error, end } => Step::Failed { error, end },
                    Step::Matched { value: n, end: p2 } => frame_rest_step(s, p2, opts, n as u64),
                }
            } else {
                frame_rest_step(s, p1, opts, opts.len as u64)
            }
        },
    }
}

/// Parses one frame from the buffer. Returns nothing uniformly on any
/// sub-step failure — too few bytes at any stage — with the read position
/// left wherever the failing step left it: steps before the failure stay
/// consumed.
pub fn parse_frame(stream: &mut ByteStream) -> (r: Option<Frame>)
    requires
        old(stream).wf(),
    ensures
        final(stream).wf(),
        final(stream).data() == old(stream).data(),
        final(stream).spec_cap() == old(stream).spec_cap(),
        frame_step(old(stream).data(), old(stream).spec_pos()) matches Step::Matched {
            value,
            end,
        } ==> r matches Some(f) && f.deep_view() == value && final(stream).spec_pos() == end,
        frame_step(old(stream).data(), old(stream).spec_pos()) matches Step::Failed {
            error,
            end,
        } ==> r is None && final(stream).spec_pos() == end,
{
    let opts = match (FrameOptsStep {  }).do_match(stream) {
        Ok(o) => o,
        Err(_) => {
            return None;
        },
    };
    let len: u64 = if opts.len == 127 {
        match (GetU64 {  }).do_match(stream) {
            Ok(n) => n,
            Err(_) => {
                return None;
            },
        }
    } else if opts.len == 126 {
        match (GetU16 {  }).do_match(stream) {
            Ok(n) => n as u64,
            Err(_) => {
                return None;
            },
        }
    } else {
        opts.len as u64
    };
    let mask: Option<[u8; 4]> = if opts.mask {
        match (Fixed { len: 4 }).do_match(stream) {
            Ok(key) => {
                proof {
                    lemma_vec_u8_deep_view(key);
                }
                let a: [u8; 4] = [key[0], key[1], key[2], key[3]];
                proof {
                    assert(a@ =~= key@);
                }
                Some(a)
            },
            Err(_) => {
                return None;
            },
        }
    } else {
        None
    };
    if len > (usize::MAX as u64) {
        return None;
    }
    let body = match (Fixed { len: len as usize }).do_match(stream) {
        Ok(v) => v,
        Err(_) => {
            return None;
        },
    };
    proof {
        lemma_vec_u8_deep_view(body);
    }
    Some(Frame { fin: opts.fin, opcode: opts.code, len, mask, body })
}

/// What the outbound encoder emits: the option byte, the body length as one
/// byte when it is at most 125 and as the 126 marker with a 16-bit
/// big-endian field otherwise, then the body. The encoder supports no
/// 64-bit length extension and writes no mask — encode and decode are not
/// symmetric for masked frames or very large payloads.
pub open spec fn spec_encode(fin: bool, opcode: u8, body: Seq<u8>) -> Seq<u8> {
    let b0 = if fin {
        0x80u8 | opcode
    } else {
        opcode
    };
    if body.len() <= 125 {
        seq![b0, body.len() as u8] + body
    } else {
        seq![b0, 126u8, (body.len() / 256) as u8, (body.len() % 256) as u8] + body
    }
}

impl Frame {
    /// Encodes the frame for the wire: fin and opcode, the body length, and
    /// the body. The length field of the frame itself is not consulted — the
    /// body's own length is written — and a mask key, if any, is dropped.
    pub fn into_bytes(self) -> (r: Vec<u8>)
        requires
            self.opcode < 16,
            self.body@.len() <= 0xFFFF,
        ensures
            r@ == spec_encode(self.fin, self.opcode, self.body@),
    {
        let mut stream = ByteStream::with_capacity(self.body.len() + 26);
        let byte1 = if self.fin {
            0x80u8 | self.opcode
        } else {
            self.opcode
        };
        stream.put_u8(byte1);
        if self.body.len() <= 125 {
            stream.put_u8(self.body.len() as u8);
        } else {
            stream.put_u8(126);
            let size = self.body.len();
            stream.put_u8((size / 256) as u8);
            stream.put_u8((size % 256) as u8);
        }
        stream.put(self.body.as_slice());
        proof {
            assert(stream.data() =~= spec_encode(self.fin, self.opcode, self.body@));
            assert(stream.remaining_data() =~= stream.data());
        }
        stream.remaining()
    }
}

/// Law: with length class 126, the decoded length is the big-endian 16-bit
/// interpretation of the two bytes that follow the option word.
pub proof fn lemma_extended_length_16(s: Seq<u8>, p: int)
    requires
        0 <= p,
        p + 4 <= s.len(),
        127 & s[p + 1] == 126,
    ensures
        frame_step(s, p) matches Step::Matched { value, .. } ==> value.len == be_val(
            s.subrange(p + 2, p + 4),
        ),
{
    crate::stream::lemma_be_val_bound(s.subrange(p + 2, p + 4));
    assert(crate::stream::pow256(2) == 0x1_0000) by {
        reveal_with_fuel(crate::stream::pow256, 3);
    }
}

/// Law: with length class 127, the decoded length is the big-endian 64-bit
/// interpretation of the eight bytes that follow the option word.
pub proof fn lemma_extended_length_64(s: Seq<u8>, p: int)
    requires
        0 <= p,
        p + 10 <= s.len(),
        127 & s[p + 1] == 127,
    ensures
        frame_step(s, p) matches Step::Matched { value, .. } ==> value.len == be_val(
            s.subrange(p + 2, p + 10),
        ),
{
    proof_be_val_fits(s.subrange(p + 2, p + 10), 8);
}

/// The big-endian value of at most eight bytes fits in 64 bits.
proof fn proof_be_val_fits(s: Seq<u8>, n: nat)
    requires
        s.len() == n,
        n <= 8,
    ensures
        be_val(s) < 0x1_0000_0000_0000_0000,
{
    crate::stream::lemma_be_val_bound(s);
    crate::stream::lemma_pow256_monotone(n, 8);
    assert(crate::stream::pow256(8) == 0x1_0000_0000_0000_0000) by {
        reveal_with_fuel(crate::stream::pow256, 9);
    }
}

/// Law: encoding a frame without a mask and with a body of at most 125
/// bytes, then decoding the result, yields the same fin, opcode, length
/// (the body's length) and body, with every encoded byte consumed.
pub proof fn lemma_encode_decode_roundtrip(fin: bool, opcode: u8, body: Seq<u8>)
    requires
        opcode < 16,
        body.len() <= 125,
    ensures
        frame_step(spec_encode(fin, opcode, body), 0) matches Step::Matched { value, end }
            && value == (FrameV { fin, opcode, len: body.len() as u64, mask: None, body })
            && end == spec_encode(fin, opcode, body).len(),
{
    let b0 = if fin {
        0x80u8 | opcode
    } else {
        opcode
    };
    let b1 = (body.len() as u8);
    let s = spec_encode(fin, opcode, body);
    assert(s =~= seq![b0, b1] + body);
    assert(s[0] == b0 && s[1] == b1);
    assert(opcode < 16 ==> ((0x80u8 | opcode) >> 7 > 0 && 0xF & (0x80u8 | opcode) == opcode))
        by (bit_vector);
    assert(opcode < 16 ==> (opcode >> 7 == 0 && 0xF & opcode == opcode)) by (bit_vector);
    assert(b1 <= 125 ==> (127 & b1 == b1 && b1 >> 7 == 0)) by (bit_vector);
    let opts = spec_opts(b0, b1);
    assert(opts.fin == fin && opts.code == opcode && opts.len == b1 && !opts.mask);
    assert((Fixed { len: 2 }).spec_step(s, 0) == (Step::Matched {
        value: s.subrange(0, 2),
        end: 2int,
    }));
    assert(s.subrange(0, 2) =~= seq![b0, b1]);
    let n = b1 as u64;
    assert(n == body.len());
    assert((Fixed { len: n as usize }).spec_step(s, 2) == (Step::Matched {
        value: s.subrange(2, 2 + body.len() as int),
        end: 2 + body.len() as int,
    }));
    assert(s.subrange(2, 2 + body.len() as int) =~= body);
}

} // verus!
