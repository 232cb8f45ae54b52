//! The cursor buffer: an owned byte sequence with a monotonic read position,
//! mark/reset backtracking, a fixed write capacity, and big-endian
//! fixed-width integer helpers.

use vstd::prelude::*;
use vstd::slice::slice_subrange;

verus! {

/// The big-endian value of a byte sequence: the first byte is the most
/// significant position.
pub open spec fn be_val(s: Seq<u8>) -> nat
    decreases s.len(),
{
    if s.len() == 0 {
        0
    } else {
        256 * be_val(s.drop_last()) + s.last() as nat
    }
}

/// `256^n`, the exclusive upper bound of [`be_val`] on `n` bytes.
pub open spec fn pow256(n: nat) -> nat
    decreases n,
{
    if n == 0 {
        1
    } else {
        256 * pow256((n - 1) as nat)
    }
}

pub proof fn lemma_be_val_bound(s: Seq<u8>)
    ensures
        be_val(s) < pow256(s.len()),
    decreases s.len(),
{
    if s.len() > 0 {
        lemma_be_val_bound(s.drop_last());
    }
}

pub proof fn lemma_be_val_push(s: Seq<u8>, x: u8)
    ensures
        be_val(s.push(x)) == 256 * be_val(s) + x,
{
    assert(s.push(x).drop_last() =~= s);
    assert(s.push(x).last() == x);
}

pub proof fn lemma_pow256_monotone(a: nat, b: nat)
    requires
        a <= b,
    ensures
        pow256(a) <= pow256(b),
    decreases b,
{
    if a < b {
        lemma_pow256_monotone(a, (b - 1) as nat);
    }
}

/// Reads the first two bytes of `v` as one big-endian value.
pub fn read_u16(v: &[u8]) -> (r: u16)
    requires
        v@.len() >= 2,
    ensures
        r as nat == be_val(v@.subrange(0, 2)),
{
    let r = (v[0] as u16) * 256 + (v[1] as u16);
    proof {
        let s = v@.subrange(0, 2);
        assert(s =~= Seq::<u8>::empty().push(v@[0]).push(v@[1]));
        lemma_be_val_push(Seq::<u8>::empty().push(v@[0]), v@[1]);
        lemma_be_val_push(Seq::<u8>::empty(), v@[0]);
    }
    r
}

/// Reads the first four bytes of `v` as one big-endian value.
#[verifier::loop_isolation(false)]
pub fn read_u32(v: &[u8]) -> (r: u32)
    requires
        v@.len() >= 4,
    ensures
        r as nat == be_val(v@.subrange(0, 4)),
{
    let mut acc: u32 = 0;
    let mut i: usize = 0;
    proof {
        assert(v@.subrange(0, 0) =~= Seq::<u8>::empty());
    }
    while i < 4
        invariant
            i <= 4,
            acc as nat == be_val(v@.subrange(0, i as int)),
            (acc as nat) < pow256(i as nat),
        decreases 4 - i,
    {
        proof {
            lemma_pow256_monotone(i as nat + 1, 4);
            assert(pow256(4) == 0x1_0000_0000) by {
                reveal_with_fuel(pow256, 5);
            }
            lemma_be_val_push(v@.subrange(0, i as int), v@[i as int]);
            assert(v@.subrange(0, i as int + 1) =~= v@.subrange(0, i as int).push(v@[i as int]));
        }
        acc = acc * 256 + (v[i] as u32);
        i = i + 1;
    }
    acc
}

/// Reads the first eight bytes of `v` as one big-endian value.
#[verifier::loop_isolation(false)]
pub fn read_u64(v: &[u8]) -> (r: u64)
    requires
        v@.len() >= 8,
    ensures
        r as nat == be_val(v@.subrange(0, 8)),
{
    let mut acc: u64 = 0;
    let mut i: usize = 0;
    proof {
        assert(v@.subrange(0, 0) =~= Seq::<u8>::empty());
    }
    while i < 8
        invariant
            i <= 8,
            acc as nat == be_val(v@.subrange(0, i as int)),
            (acc as nat) < pow256(i as nat),
        decreases 8 - i,
    {
        proof {
            lemma_pow256_monotone(i as nat + 1, 8);
            assert(pow256(8) == 0x1_0000_0000_0000_0000) by {
                reveal_with_fuel(pow256, 9);
            }
            lemma_be_val_push(v@.subrange(0, i as int), v@[i as int]);
            assert(v@.subrange(0, i as int + 1) =~= v@.subrange(0, i as int).push(v@[i as int]));
        }
        acc = acc * 256 + (v[i] as u64);
        i = i + 1;
    }
    acc
}

/// Writes `b` as two big-endian bytes.
pub fn write_u16(b: u16) -> (r: [u8; 2])
    ensures
        r@.len() == 2,
        be_val(r@) == b,
{
    let b0 = ((b >> 8) & 0xFF) as u8;
    let b1 = (b & 0xFF) as u8;
    let r = [b0, b1];
    proof {
        assert((b >> 8) & 0xFF < 256 && b & 0xFF < 256 && ((b >> 8) & 0xFF) * 256 + (b & 0xFF)
            == b) by (bit_vector);
        assert(r@ =~= Seq::<u8>::empty().push(b0).push(b1));
        lemma_be_val_push(Seq::<u8>::empty().push(b0), b1);
        lemma_be_val_push(Seq::<u8>::empty(), b0);
    }
    r
}

/// Writes `b` as four big-endian bytes.
pub fn write_u32(b: u32) -> (r: [u8; 4])
    ensures
        r@.len() == 4,
        be_val(r@) == b,
{
    let b0 = ((b >> 24) & 0xFF) as u8;
    let b1 = ((b >> 16) & 0xFF) as u8;
    let b2 = ((b >> 8) & 0xFF) as u8;
    let b3 = (b & 0xFF) as u8;
    let r = [b0, b1, b2, b3];
    proof {
        assert((b >> 24) & 0xFF < 256 && (b >> 16) & 0xFF < 256 && (b >> 8) & 0xFF < 256 && b
            & 0xFF < 256 && ((((b >> 24) & 0xFF) * 256 + ((b >> 16) & 0xFF)) * 256 + ((b >> 8)
            & 0xFF)) * 256 + (b & 0xFF) == b) by (bit_vector);
        let s0 = Seq::<u8>::empty();
        assert(r@ =~= s0.push(b0).push(b1).push(b2).push(b3));
        lemma_be_val_push(s0.push(b0).push(b1).push(b2), b3);
        lemma_be_val_push(s0.push(b0).push(b1), b2);
        lemma_be_val_push(s0.push(b0), b1);
        lemma_be_val_push(s0, b0);
    }
    r
}

/// Writes `b` as eight big-endian bytes.
pub fn write_u64(b: u64) -> (r: [u8; 8])
    ensures
        r@.len() == 8,
        be_val(r@) == b,
{
    let b0 = ((b >> 56) & 0xFF) as u8;
    let b1 = ((b >> 48) & 0xFF) as u8;
    let b2 = ((b >> 40) & 0xFF) as u8;
    let b3 = ((b >> 32) & 0xFF) as u8;
    let b4 = ((b >> 24) & 0xFF) as u8;
    let b5 = ((b >> 16) & 0xFF) as u8;
    let b6 = ((b >> 8) & 0xFF) as u8;
    let b7 = (b & 0xFF) as u8;
    let r = [b0, b1, b2, b3, b4, b5, b6, b7];
    proof {
        assert((b >> 56) & 0xFF < 256 && (b >> 48) & 0xFF < 256 && (b >> 40) & 0xFF < 256 && (b
            >> 32) & 0xFF < 256 && (b >> 24) & 0xFF < 256 && (b >> 16) & 0xFF < 256 && (b >> 8)
            & 0xFF < 256 && b & 0xFF < 256 && ((((((((b >> 56) & 0xFF) * 256 + ((b >> 48)
            & 0xFF)) * 256 + ((b >> 40) & 0xFF)) * 256 + ((b >> 32) & 0xFF)) * 256 + ((b >> 24)
            & 0xFF)) * 256 + ((b >> 16) & 0xFF)) * 256 + ((b >> 8) & 0xFF)) * 256 + (b & 0xFF)
            == b) by (bit_vector);
        let s0 = Seq::<u8>::empty();
        assert(r@ =~= s0.push(b0).push(b1).push(b2).push(b3).push(b4).push(b5).push(b6).push(b7));
        lemma_be_val_push(s0.push(b0).push(b1).push(b2).push(b3).push(b4).push(b5).push(b6), b7);
        lemma_be_val_push(s0.push(b0).push(b1).push(b2).push(b3).push(b4).push(b5), b6);
        lemma_be_val_push(s0.push(b0).push(b1).push(b2).push(b3).push(b4), b5);
        lemma_be_val_push(s0.push(b0).push(b1).push(b2).push(b3), b4);
        lemma_be_val_push(s0.push(b0).push(b1).push(b2), b3);
        lemma_be_val_push(s0.push(b0).push(b1), b2);
        lemma_be_val_push(s0.push(b0), b1);
        lemma_be_val_push(s0, b0);
    }
    r
}

/// A predicate on single bytes, used by scans and runs; `test` is its
/// executable form and `spec_test` its meaning.
pub trait BytePred {
    spec fn spec_test(&self, b: u8) -> bool;

    fn test(&self, b: u8) -> (r: bool)
        ensures
            r == self.spec_test(b),
    ;
}

/// A predicate on byte windows of a fixed width.
pub trait WindowPred {
    spec fn spec_test(&self, w: Seq<u8>) -> bool;

    fn test(&self, w: &[u8]) -> (r: bool)
        ensures
            r == self.spec_test(w@),
    ;
}

/// Matches windows equal to the given bytes.
pub struct WindowIs<'a> {
    pub w: &'a [u8],
}

impl<'a> WindowPred for WindowIs<'a> {
    open spec fn spec_test(&self, w: Seq<u8>) -> bool {
        w == self.w@
    }

    #[verifier::loop_isolation(false)]
    fn test(&self, w: &[u8]) -> (r: bool) {
        if w.len() != self.w.len() {
            proof {
                assert(w@ != self.w@);
            }
            return false;
        }
        let mut i: usize = 0;
        while i < w.len()
            invariant
                i <= w@.len(),
                w@.len() == self.w@.len(),
                forall|j: int| 0 <= j < i ==> w@[j] == self.w@[j],
            decreases w@.len() - i,
        {
            if w[i] != self.w[i] {
                proof {
                    assert(w@ != self.w@);
                }
                return false;
            }
            i = i + 1;
        }
        proof {
            assert(w@ =~= self.w@);
        }
        true
    }
}

/// A saved read position, to be handed back to [`ByteStream::reset`].
pub struct Mark {
    pos: usize,
}

impl Mark {
    pub closed spec fn spec_pos(&self) -> int {
        self.pos as int
    }
}

/// An owned byte buffer with a read position `pos` that advances
/// monotonically, except for explicit rewinds through [`ByteStream::reset`].
/// Writes are bounded by a capacity fixed at construction.
pub struct ByteStream {
    buf: Vec<u8>,
    pos: usize,
    cap: usize,
}

impl ByteStream {
    /// The bytes the buffer holds.
    pub closed spec fn data(&self) -> Seq<u8> {
        self.buf@
    }

    /// The current read position.
    pub closed spec fn spec_pos(&self) -> int {
        self.pos as int
    }

    /// The fixed capacity: writes never grow the buffer past it.
    pub closed spec fn spec_cap(&self) -> int {
        self.cap as int
    }

    /// The invariant every operation preserves: the read position stays
    /// within the data, and the data within the capacity.
    pub open spec fn wf(&self) -> bool {
        0 <= self.spec_pos() <= self.data().len() <= self.spec_cap()
    }

    /// The bytes not yet read.
    pub open spec fn remaining_data(&self) -> Seq<u8> {
        self.data().subrange(self.spec_pos(), self.data().len() as int)
    }

    /// Owns the given bytes; the read position starts at 0 and the capacity
    /// is exactly the bytes given (read mode).
    pub fn wrap(buf: Vec<u8>) -> (r: ByteStream)
        ensures
            r.wf(),
            r.data() == buf@,
            r.spec_pos() == 0,
            r.spec_cap() == buf@.len(),
    {
        let cap = buf.len();
        ByteStream { buf, pos: 0, cap }
    }

    /// An empty buffer reserved for `cap` bytes (write mode).
    pub fn with_capacity(cap: usize) -> (r: ByteStream)
        ensures
            r.wf(),
            r.data() == Seq::<u8>::empty(),
            r.spec_pos() == 0,
            r.spec_cap() == cap,
    {
        ByteStream { buf: Vec::with_capacity(cap), pos: 0, cap }
    }

    /// The current read position.
    pub fn pos(&self) -> (r: usize)
        ensures
            r == self.spec_pos(),
    {
        self.pos
    }

    /// How many bytes the buffer holds.
    pub fn len(&self) -> (r: usize)
        requires
            self.wf(),
        ensures
            r == self.data().len(),
    {
        self.buf.len()
    }

    /// How many more bytes [`Self::put`] can still append.
    pub fn cap(&self) -> (r: usize)
        requires
            self.wf(),
        ensures
            r == self.spec_cap() - self.data().len(),
    {
        self.cap - self.buf.len()
    }

    /// Appends the given bytes, but only if they all fit in the remaining
    /// capacity; otherwise appends nothing. Returns how many bytes were
    /// appended.
    #[verifier::loop_isolation(false)]
    pub fn put(&mut self, buf: &[u8]) -> (r: usize)
        requires
            old(self).wf(),
        ensures
            final(self).wf(),
            final(self).spec_pos() == old(self).spec_pos(),
            final(self).spec_cap() == old(self).spec_cap(),
            if old(self).data().len() + buf@.len() <= old(self).spec_cap() {
                final(self).data() == old(self).data() + buf@ && r == buf@.len()
            } else {
                final(self).data() == old(self).data() && r == 0
            },
    {
        if self.cap - self.buf.len() >= buf.len() {
            let mut i: usize = 0;
            while i < buf.len()
                invariant
                    i <= buf@.len(),
                    self.buf@ == old(self).data() + buf@.subrange(0, i as int),
                    self.pos == old(self).pos,
                    self.cap == old(self).cap,
                decreases buf@.len() - i,
            {
                self.buf.push(buf[i]);
                i = i + 1;
                proof {
                    assert(self.buf@ == old(self).data() + buf@.subrange(0, i as int));
                }
            }
            proof {
                assert(buf@.subrange(0, buf@.len() as int) == buf@);
            }
            buf.len()
        } else {
            0
        }
    }

    /// Appends one byte if the capacity allows; true exactly when it did.
    pub fn put_u8(&mut self, b: u8) -> (r: bool)
        requires
            old(self).wf(),
        ensures
            final(self).wf(),
            final(self).spec_pos() == old(self).spec_pos(),
            final(self).spec_cap() == old(self).spec_cap(),
            r == (old(self).data().len() + 1 <= old(self).spec_cap()),
            if r {
                final(self).data() == old(self).data().push(b)
            } else {
                final(self).data() == old(self).data()
            },
    {
        let one: [u8; 1] = [b];
        let n = self.put(one.as_slice());
        proof {
            if old(self).data().len() + 1 <= old(self).spec_cap() {
                assert(old(self).data() + one@ == old(self).data().push(b));
            }
        }
        n == 1
    }

    /// Appends `b` as two big-endian bytes if the capacity allows; true
    /// exactly when it did.
    pub fn put_u16(&mut self, b: u16) -> (r: bool)
        requires
            old(self).wf(),
        ensures
            final(self).wf(),
            final(self).spec_pos() == old(self).spec_pos(),
            final(self).spec_cap() == old(self).spec_cap(),
            r == (old(self).data().len() + 2 <= old(self).spec_cap()),
            if r {
                final(self).data().len() == old(self).data().len() + 2 && final(self).data()
                    == old(self).data() + final(self).data().skip(old(self).data().len() as int)
                    && be_val(final(self).data().skip(old(self).data().len() as int)) == b
            } else {
                final(self).data() == old(self).data()
            },
    {
        let bytes = write_u16(b);
        let n = self.put(bytes.as_slice());
        proof {
            if old(self).data().len() + 2 <= old(self).spec_cap() {
                assert(self.data().skip(old(self).data().len() as int) =~= bytes@);
            }
        }
        n == 2
    }

    /// Appends `b` as four big-endian bytes if the capacity allows; true
    /// exactly when it did.
    pub fn put_u32(&mut self, b: u32) -> (r: bool)
        requires
            old(self).wf(),
        ensures
            final(self).wf(),
            final(self).spec_pos() == old(self).spec_pos(),
            final(self).spec_cap() == old(self).spec_cap(),
            r == (old(self).data().len() + 4 <= old(self).spec_cap()),
            if r {
                final(self).data().len() == old(self).data().len() + 4 && final(self).data()
                    == old(self).data() + final(self).data().skip(old(self).data().len() as int)
                    && be_val(final(self).data().skip(old(self).data().len() as int)) == b
            } else {
                final(self).data() == old(self).data()
            },
    {
        let bytes = write_u32(b);
        let n = self.put(bytes.as_slice());
        proof {
            if old(self).data().len() + 4 <= old(self).spec_cap() {
                assert(self.data().skip(old(self).data().len() as int) =~= bytes@);
            }
        }
        n == 4
    }

    /// Appends `b` as eight big-endian bytes if the capacity allows; true
    /// exactly when it did.
    pub fn put_u64(&mut self, b: u64) -> (r: bool)
        requires
            old(self).wf(),
        ensures
            final(self).wf(),
            final(self).spec_pos() == old(self).spec_pos(),
            final(self).spec_cap() == old(self).spec_cap(),
            r == (old(self).data().len() + 8 <= old(self).spec_cap()),
            if r {
                final(self).data().len() == old(self).data().len() + 8 && final(self).data()
                    == old(self).data() + final(self).data().skip(old(self).data().len() as int)
                    && be_val(final(self).data().skip(old(self).data().len() as int)) == b
            } else {
                final(self).data() == old(self).data()
            },
    {
        let bytes = write_u64(b);
        let n = self.put(bytes.as_slice());
        proof {
            if old(self).data().len() + 8 <= old(self).spec_cap() {
                assert(self.data().skip(old(self).data().len() as int) =~= bytes@);
            }
        }
        n == 8
    }

    /// Appends a fixed 16-byte block if the capacity allows; true exactly
    /// when it did.
    pub fn put_16(&mut self, b: [u8; 16]) -> (r: bool)
        requires
            old(self).wf(),
        ensures
            final(self).wf(),
            final(self).spec_pos() == old(self).spec_pos(),
            final(self).spec_cap() == old(self).spec_cap(),
            r == (old(self).data().len() + 16 <= old(self).spec_cap()),
            if r {
                final(self).data() == old(self).data() + b@
            } else {
                final(self).data() == old(self).data()
            },
    {
        let n = self.put(b.as_slice());
        n == 16
    }

    /// Appends a fixed 32-byte block if the capacity allows; true exactly
    /// when it did.
    pub fn put_32(&mut self, b: [u8; 32]) -> (r: bool)
        requires
            old(self).wf(),
        ensures
            final(self).wf(),
            final(self).spec_pos() == old(self).spec_pos(),
            final(self).spec_cap() == old(self).spec_cap(),
            r == (old(self).data().len() + 32 <= old(self).spec_cap()),
            if r {
                final(self).data() == old(self).data() + b@
            } else {
                final(self).data() == old(self).data()
            },
    {
        let n = self.put(b.as_slice());
        n == 32
    }

    /// Returns the next `n` bytes as an owned sequence and advances the read
    /// position by `n`, but only if `n` bytes remain; otherwise returns
    /// nothing and leaves the position unchanged (all-or-nothing).
    #[verifier::loop_isolation(false)]
    pub fn get(&mut self, n: usize) -> (r: Option<Vec<u8>>)
        requires
            old(self).wf(),
        ensures
            final(self).wf(),
            final(self).data() == old(self).data(),
            final(self).spec_cap() == old(self).spec_cap(),
            if old(self).spec_pos() + n <= old(self).data().len() {
                &&& final(self).spec_pos() == old(self).spec_pos() + n
                &&& r matches Some(v) && v@ == old(self).data().subrange(
                    old(self).spec_pos(),
                    old(self).spec_pos() + n,
                )
            } else {
                final(self).spec_pos() == old(self).spec_pos() && r is None
            },
    {
        if n <= self.buf.len() - self.pos {
            let offset = self.pos;
            let mut result: Vec<u8> = Vec::with_capacity(n);
            let mut i: usize = offset;
            proof {
                assert(result@ =~= self.data().subrange(offset as int, offset as int));
            }
            while i < offset + n
                invariant
                    offset <= i <= offset + n,
                    result@ == self.data().subrange(offset as int, i as int),
                    self == old(self),
                decreases offset + n - i,
            {
                result.push(self.buf[i]);
                i = i + 1;
                proof {
                    assert(result@ =~= self.data().subrange(offset as int, i as int));
                }
            }
            self.pos = offset + n;
            Some(result)
        } else {
            None
        }
    }

    /// Reads one byte, advancing by one on success.
    pub fn get_u8(&mut self) -> (r: Option<u8>)
        requires
            old(self).wf(),
        ensures
            final(self).wf(),
            final(self).data() == old(self).data(),
            final(self).spec_cap() == old(self).spec_cap(),
            if old(self).spec_pos() + 1 <= old(self).data().len() {
                final(self).spec_pos() == old(self).spec_pos() + 1 && r == Some(
                    old(self).data()[old(self).spec_pos()],
                )
            } else {
                final(self).spec_pos() == old(self).spec_pos() && r is None
            },
    {
        match self.get(1) {
            Some(v) => Some(v[0]),
            None => None,
        }
    }

    /// Reads two bytes as one big-endian value, advancing by two on success.
    pub fn get_u16(&mut self) -> (r: Option<u16>)
        requires
            old(self).wf(),
        ensures
            final(self).wf(),
            final(self).data() == old(self).data(),
            final(self).spec_cap() == old(self).spec_cap(),
            if old(self).spec_pos() + 2 <= old(self).data().len() {
                &&& final(self).spec_pos() == old(self).spec_pos() + 2
                &&& r matches Some(x) && x as nat == be_val(
                    old(self).data().subrange(old(self).spec_pos(), old(self).spec_pos() + 2),
                )
            } else {
                final(self).spec_pos() == old(self).spec_pos() && r is None
            },
    {
        match self.get(2) {
            Some(v) => {
                proof {
                    assert(v@.subrange(0, 2) =~= v@);
                }
                Some(read_u16(v.as_slice()))
            },
            None => None,
        }
    }

    /// Reads four bytes as one big-endian value, advancing by four on
    /// success.
    pub fn get_u32(&mut self) -> (r: Option<u32>)
        requires
            old(self).wf(),
        ensures
            final(self).wf(),
            final(self).data() == old(self).data(),
            final(self).spec_cap() == old(self).spec_cap(),
            if old(self).spec_pos() + 4 <= old(self).data().len() {
                &&& final(self).spec_pos() == old(self).spec_pos() + 4
                &&& r matches Some(x) && x as nat == be_val(
                    old(self).data().subrange(old(self).spec_pos(), old(self).spec_pos() + 4),
                )
            } else {
                final(self).spec_pos() == old(self).spec_pos() && r is None
            },
    {
        match self.get(4) {
            Some(v) => {
                proof {
                    assert(v@.subrange(0, 4) =~= v@);
                }
                Some(read_u32(v.as_slice()))
            },
            None => None,
        }
    }

    /// Reads eight bytes as one big-endian value, advancing by eight on
    /// success.
    pub fn get_u64(&mut self) -> (r: Option<u64>)
        requires
            old(self).wf(),
        ensures
            final(self).wf(),
            final(self).data() == old(self).data(),
            final(self).spec_cap() == old(self).spec_cap(),
            if old(self).spec_pos() + 8 <= old(self).data().len() {
                &&& final(self).spec_pos() == old(self).spec_pos() + 8
                &&& r matches Some(x) && x as nat == be_val(
                    old(self).data().subrange(old(self).spec_pos(), old(self).spec_pos() + 8),
                )
            } else {
                final(self).spec_pos() == old(self).spec_pos() && r is None
            },
    {
        match self.get(8) {
            Some(v) => {
                proof {
                    assert(v@.subrange(0, 8) =~= v@);
                }
                Some(read_u64(v.as_slice()))
            },
            None => None,
        }
    }

    /// Reads a fixed 16-byte block, advancing by 16 on success.
    pub fn get_16(&mut self) -> (r: Option<[u8; 16]>)
        requires
            old(self).wf(),
        ensures
            final(self).wf(),
            final(self).data() == old(self).data(),
            final(self).spec_cap() == old(self).spec_cap(),
            if old(self).spec_pos() + 16 <= old(self).data().len() {
                &&& final(self).spec_pos() == old(self).spec_pos() + 16
                &&& r matches Some(a) && a@ == old(self).data().subrange(
                    old(self).spec_pos(),
                    old(self).spec_pos() + 16,
                )
            } else {
                final(self).spec_pos() == old(self).spec_pos() && r is None
            },
    {
        match self.get(16) {
            Some(v) => {
                let a: [u8; 16] = [v[0], v[1], v[2], v[3], v[4], v[5], v[6], v[7], v[8], v[9],
                    v[10], v[11], v[12], v[13], v[14], v[15]];
                proof {
                    assert(a@ =~= v@);
                }
                Some(a)
            },
            None => None,
        }
    }

    /// Reads a fixed 32-byte block, advancing by 32 on success.
    pub fn get_32(&mut self) -> (r: Option<[u8; 32]>)
        requires
            old(self).wf(),
        ensures
            final(self).wf(),
            final(self).data() == old(self).data(),
            final(self).spec_cap() == old(self).spec_cap(),
            if old(self).spec_pos() + 32 <= old(self).data().len() {
                &&& final(self).spec_pos() == old(self).spec_pos() + 32
                &&& r matches Some(a) && a@ == old(self).data().subrange(
                    old(self).spec_pos(),
                    old(self).spec_pos() + 32,
                )
            } else {
                final(self).spec_pos() == old(self).spec_pos() && r is None
            },
    {
        match self.get(32) {
            Some(v) => {
                let a: [u8; 32] = [v[0], v[1], v[2], v[3], v[4], v[5], v[6], v[7], v[8], v[9],
                    v[10], v[11], v[12], v[13], v[14], v[15], v[16], v[17], v[18], v[19], v[20],
                    v[21], v[22], v[23], v[24], v[25], v[26], v[27], v[28], v[29], v[30], v[31]];
                proof {
                    assert(a@ =~= v@);
                }
                Some(a)
            },
            None => None,
        }
    }

    /// Reads the next byte; the same as `get(1)` reduced to its one byte.
    pub fn next(&mut self) -> (r: Option<u8>)
        requires
            old(self).wf(),
        ensures
            final(self).wf(),
            final(self).data() == old(self).data(),
            final(self).spec_cap() == old(self).spec_cap(),
            if old(self).spec_pos() + 1 <= old(self).data().len() {
                final(self).spec_pos() == old(self).spec_pos() + 1 && r == Some(
                    old(self).data()[old(self).spec_pos()],
                )
            } else {
                final(self).spec_pos() == old(self).spec_pos() && r is None
            },
    {
        self.get_u8()
    }

    /// Snapshots the current read position.
    pub fn mark(&self) -> (r: Mark)
        ensures
            r.spec_pos() == self.spec_pos(),
    {
        Mark { pos: self.pos }
    }

    /// Rewinds the read position to the mark, but only if the mark does not
    /// lie ahead of the current position: a reset never advances.
    pub fn reset(&mut self, mark: Mark)
        requires
            old(self).wf(),
        ensures
            final(self).wf(),
            final(self).data() == old(self).data(),
            final(self).spec_cap() == old(self).spec_cap(),
            final(self).spec_pos() == if mark.spec_pos() <= old(self).spec_pos() {
                mark.spec_pos()
            } else {
                old(self).spec_pos()
            },
    {
        if mark.pos <= self.pos {
            self.pos = mark.pos;
        }
    }

    /// Drops all bytes and rewinds to the start; the capacity is kept.
    pub fn clear(&mut self)
        requires
            old(self).wf(),
        ensures
            final(self).wf(),
            final(self).data() == Seq::<u8>::empty(),
            final(self).spec_pos() == 0,
            final(self).spec_cap() == old(self).spec_cap(),
    {
        self.pos = 0;
        self.buf.clear();
    }

    /// Compacts the buffer: discards all bytes before the read position and
    /// rewinds the position to 0, preserving the capacity, so that more bytes
    /// can be put in during streaming ingestion.
    #[verifier::loop_isolation(false)]
    pub fn pull(&mut self)
        requires
            old(self).wf(),
        ensures
            final(self).wf(),
            final(self).data() == old(self).remaining_data(),
            final(self).spec_pos() == 0,
            final(self).spec_cap() == old(self).spec_cap(),
    {
        if self.pos > 0 {
            let mut kept: Vec<u8> = Vec::with_capacity(self.cap);
            let mut i: usize = self.pos;
            proof {
                assert(kept@ =~= self.data().subrange(self.spec_pos(), self.spec_pos()));
            }
            while i < self.buf.len()
                invariant
                    old(self).spec_pos() <= i <= self.data().len(),
                    kept@ == self.data().subrange(self.spec_pos(), i as int),
                    self == old(self),
                decreases self.data().len() - i,
            {
                kept.push(self.buf[i]);
                i = i + 1;
                proof {
                    assert(kept@ =~= self.data().subrange(self.spec_pos(), i as int));
                }
            }
            self.buf = kept;
            self.pos = 0;
        } else {
            proof {
                assert(old(self).remaining_data() =~= old(self).data());
            }
        }
    }

    /// A copy of the bytes not yet read; the read position does not move.
    #[verifier::loop_isolation(false)]
    pub fn remaining(&self) -> (r: Vec<u8>)
        requires
            self.wf(),
        ensures
            r@ == self.remaining_data(),
    {
        let mut out: Vec<u8> = Vec::new();
        let mut i: usize = self.pos;
        proof {
            assert(out@ =~= self.data().subrange(self.spec_pos(), self.spec_pos()));
        }
        while i < self.buf.len()
            invariant
                self.spec_pos() <= i <= self.data().len(),
                out@ == self.data().subrange(self.spec_pos(), i as int),
            decreases self.data().len() - i,
        {
            out.push(self.buf[i]);
            i = i + 1;
            proof {
                assert(out@ =~= self.data().subrange(self.spec_pos(), i as int));
            }
        }
        out
    }

    /// The absolute index of the first byte at or after the read position
    /// that satisfies the predicate, or nothing; never moves the position.
    #[verifier::loop_isolation(false)]
    pub fn find_single<P: BytePred>(&self, f: &P) -> (r: Option<usize>)
        requires
            self.wf(),
        ensures
            match r {
                Some(i) => self.spec_pos() <= i < self.data().len() && f.spec_test(
                    self.data()[i as int],
                ) && forall|j: int|
                    self.spec_pos() <= j < i ==> !f.spec_test(#[trigger] self.data()[j]),
                None => forall|j: int|
                    self.spec_pos() <= j < self.data().len() ==> !f.spec_test(
                        #[trigger] self.data()[j],
                    ),
            },
    {
        let mut i: usize = self.pos;
        while i < self.buf.len()
            invariant
                self.spec_pos() <= i <= self.data().len(),
                forall|j: int| self.spec_pos() <= j < i ==> !f.spec_test(#[trigger] self.data()[j]),
            decreases self.data().len() - i,
        {
            if f.test(self.buf[i]) {
                return Some(i);
            }
            i = i + 1;
        }
        None
    }

    /// The absolute index of the first window of width `w` at or after the
    /// read position that satisfies the predicate, or nothing; never moves
    /// the position.
    #[verifier::loop_isolation(false)]
    pub fn find_window<P: WindowPred>(&self, w: usize, f: &P) -> (r: Option<usize>)
        requires
            self.wf(),
            w >= 1,
        ensures
            match r {
                Some(i) => self.spec_pos() <= i && i + w <= self.data().len() && f.spec_test(
                    self.data().subrange(i as int, i + w),
                ) && forall|j: int|
                    self.spec_pos() <= j < i ==> !f.spec_test(
                        #[trigger] self.data().subrange(j, j + w),
                    ),
                None => forall|j: int|
                    self.spec_pos() <= j && j + w <= self.data().len() ==> !f.spec_test(
                        #[trigger] self.data().subrange(j, j + w),
                    ),
            },
    {
        if self.buf.len() < w {
            return None;
        }
        let mut i: usize = self.pos;
        while i <= self.buf.len() - w
            invariant
                self.spec_pos() <= i <= self.data().len(),
                forall|j: int|
                    self.spec_pos() <= j < i ==> !f.spec_test(
                        #[trigger] self.data().subrange(j, j + w),
                    ),
            decreases self.data().len() - i,
        {
            let window = slice_subrange(self.buf.as_slice(), i, i + w);
            if f.test(window) {
                return Some(i);
            }
            i = i + 1;
        }
        None
    }
}

} // verus!
