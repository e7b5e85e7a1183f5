use vstd::prelude::*;

use crate::byte_reader::ByteReader;
use crate::errors::DecodeError;

verus! {

/// Powers of two, for stating how bit values and bit counts relate.
pub open spec fn pow2n(n: nat) -> nat
    decreases n,
{
    if n == 0 {
        1
    } else {
        2 * pow2n((n - 1) as nat)
    }
}

/// Bit `i` of `v`, counting from the least significant end.
pub open spec fn bit_of(v: u16, i: int) -> bool {
    if 0 <= i < 16 {
        (v >> (i as u16)) & 1 == 1
    } else {
        false
    }
}

/// The low `n` bits of `v`, least significant first.
pub open spec fn low_bits_seq(v: u16, n: int) -> Seq<bool> {
    Seq::new(n as nat, |i: int| bit_of(v, i))
}

/// The eight bits of a byte, least significant first.
pub open spec fn byte_bits(b: u8) -> Seq<bool> {
    low_bits_seq(b as u16, 8)
}

/// A byte sequence flattened to bits: each byte contributes its bits least
/// significant first, in byte order.
pub open spec fn bytes_bits(s: Seq<u8>) -> Seq<bool>
    decreases s.len(),
{
    if s.len() == 0 {
        Seq::empty()
    } else {
        byte_bits(s[0]) + bytes_bits(s.skip(1))
    }
}

/// The value of a bit string read least significant bit first.
pub open spec fn bits_value(s: Seq<bool>) -> nat
    decreases s.len(),
{
    if s.len() == 0 {
        0
    } else {
        (if s[0] {
            1nat
        } else {
            0nat
        }) + 2 * bits_value(s.skip(1))
    }
}

pub proof fn lemma_bytes_bits_len(s: Seq<u8>)
    ensures
        bytes_bits(s).len() == 8 * s.len(),
    decreases s.len(),
{
    if s.len() > 0 {
        lemma_bytes_bits_len(s.skip(1));
    }
}

/// Splitting a byte sequence splits its bit flattening at eight times the
/// byte position.
pub proof fn lemma_bytes_bits_split(s: Seq<u8>, k: int)
    requires
        0 <= k <= s.len(),
    ensures
        bytes_bits(s) == bytes_bits(s.take(k)) + bytes_bits(s.skip(k)),
    decreases k,
{
    if k == 0 {
        assert(s.take(0) =~= Seq::<u8>::empty());
        assert(s.skip(0) =~= s);
        assert(bytes_bits(s) =~= bytes_bits(s.take(0)) + bytes_bits(s.skip(0)));
    } else {
        lemma_bytes_bits_split(s.skip(1), k - 1);
        assert(s.skip(1).take(k - 1) =~= s.take(k).skip(1));
        assert(s.skip(1).skip(k - 1) =~= s.skip(k));
        assert(s.take(k).len() == k && s.take(k)[0] == s[0]);
        assert(bytes_bits(s.take(k)) == byte_bits(s[0]) + bytes_bits(s.take(k).skip(1)));
        assert(bytes_bits(s) =~= bytes_bits(s.take(k)) + bytes_bits(s.skip(k)));
    }
}

/// The value of a concatenation: the left part gives the low bits, the right
/// part is scaled by two to the left part's length.
pub proof fn lemma_bits_value_add(a: Seq<bool>, b: Seq<bool>)
    ensures
        bits_value(a + b) == bits_value(a) + pow2n(a.len()) * bits_value(b),
    decreases a.len(),
{
    if a.len() == 0 {
        assert(a + b =~= b);
        assert(bits_value(a) == 0);
        assert(pow2n(a.len()) == 1);
        assert(pow2n(a.len()) * bits_value(b) == bits_value(b)) by (nonlinear_arith)
            requires
                pow2n(a.len()) == 1,
        ;
        assert(bits_value(a + b) == bits_value(a) + pow2n(a.len()) * bits_value(b));
    } else {
        lemma_bits_value_add(a.skip(1), b);
        assert((a + b).skip(1) =~= a.skip(1) + b);
        assert((a + b)[0] == a[0]);
        assert(bits_value(a + b) == (if a[0] {
            1nat
        } else {
            0nat
        }) + 2 * bits_value(a.skip(1) + b));
        let p = pow2n((a.len() - 1) as nat);
        let va = bits_value(a.skip(1));
        let vb = bits_value(b);
        assert(bits_value(a) == (if a[0] {
            1nat
        } else {
            0nat
        }) + 2 * va);
        assert(2 * (va + p * vb) == 2 * va + (2 * p) * vb) by (nonlinear_arith);
        assert(pow2n(a.len()) == 2 * p);
        assert((2 * p) * vb == pow2n(a.len()) * vb) by (nonlinear_arith)
            requires
                pow2n(a.len()) == 2 * p,
        ;
        assert(bits_value(a + b) == bits_value(a) + pow2n(a.len()) * vb);
    }
}

pub proof fn lemma_bits_value_bound(s: Seq<bool>)
    ensures
        bits_value(s) < pow2n(s.len()),
    decreases s.len(),
{
    if s.len() > 0 {
        lemma_bits_value_bound(s.skip(1));
    }
}

proof fn lemma_mask_bit(v: u16, n: u16, i: u16)
    by (bit_vector)
    requires
        n < 16,
    ensures
        i < n ==> ((v & (((1u16 << n) - 1) as u16)) >> i) & 1 == (v >> i) & 1,
        (v & (((1u16 << n) - 1) as u16)) >> n == 0,
        v >> n == 0 ==> (v & (((1u16 << n) - 1) as u16)) == v,
{
}

pub(crate) proof fn lemma_shr_bit(v: u16, k: u16, i: u16)
    by (bit_vector)
    requires
        k + i < 16,
    ensures
        ((v >> k) >> i) & 1 == (v >> ((k + i) as u16)) & 1,
{
}

pub(crate) proof fn lemma_shr_wf(v: u16, n: u16, k: u16)
    by (bit_vector)
    requires
        k <= n,
        n <= 16,
        n < 16 ==> v >> n == 0,
    ensures
        n - k < 16 ==> (v >> k) >> ((n - k) as u16) == 0,
{
}

proof fn lemma_concat_bits(a: u16, b: u16, n: u16, m: u16, i: u16)
    by (bit_vector)
    requires
        n < 16,
        n + m <= 16,
        a >> n == 0,
    ensures
        i < n ==> ((a | (b << n)) >> i) & 1 == (a >> i) & 1,
        n <= i < 16 ==> ((a | (b << n)) >> i) & 1 == (b >> ((i - n) as u16)) & 1,
        n + m < 16 && (b >> m == 0) ==> (a | (b << n)) >> ((n + m) as u16) == 0,
{
}

proof fn lemma_le_pair_bit(b0: u8, b1: u8, i: u16)
    by (bit_vector)
    requires
        i < 16,
    ensures
        i < 8 ==> ((((b0 as u16) | ((b1 as u16) << 8)) >> i) & 1) == (((b0 as u16) >> i) & 1),
        8 <= i ==> ((((b0 as u16) | ((b1 as u16) << 8)) >> i) & 1) == (((b1 as u16) >> ((i
            - 8) as u16)) & 1),
{
}

proof fn lemma_value_split(v: u16, n: u16)
    by (bit_vector)
    requires
        0 < n <= 16,
        n < 16 ==> v >> n == 0,
    ensures
        (v & 1) + 2 * (v >> 1) == v,
        (n - 1) < 16 ==> (v >> 1) >> ((n - 1) as u16) == 0,
{
}

/// Up to sixteen bits packed least significant bit first, with an explicit
/// length. The view is the bit string itself.
#[derive(Clone, Copy, Debug, PartialEq, Eq, Hash, Structural)]
pub struct BitSequence {
    bits: u16,
    len: u8,
}

impl View for BitSequence {
    type V = Seq<bool>;

    open spec fn view(&self) -> Seq<bool> {
        low_bits_seq(self.spec_bits(), self.spec_len() as int)
    }
}

impl BitSequence {
    pub closed spec fn spec_bits(&self) -> u16 {
        self.bits
    }

    pub closed spec fn spec_len(&self) -> u8 {
        self.len
    }

    /// Bits above the length are zero, and the length fits the carrier.
    pub open spec fn wf(&self) -> bool {
        self.spec_len() <= 16 && (self.spec_len() < 16 ==> self.spec_bits() >> (
        self.spec_len() as u16) == 0)
    }

    pub fn new(bits: u16, len: u8) -> (r: Self)
        requires
            len <= 16,
        ensures
            r.wf(),
            r.spec_len() == len,
            r@ == low_bits_seq(bits, len as int),
            r.spec_bits() == bits_value(r@),
            len < 16 && bits >> (len as u16) == 0 ==> r.spec_bits() == bits,
    {
        let new_bits: u16 = if len >= 16 {
            bits
        } else {
            proof {
                assert(1u16 << (len as u16) >= 1) by (bit_vector)
                    requires
                        (len as u16) < 16,
                ;
            }
            bits & ((1u16 << (len as u16)) - 1)
        };
        let r = BitSequence { bits: new_bits, len };
        proof {
            if len < 16 {
                lemma_mask_bit(bits, len as u16, 0);
                assert forall|i: int| 0 <= i < len implies r@[i] == low_bits_seq(bits, len as int)[i] by {
                    lemma_mask_bit(bits, len as u16, i as u16);
                }
            }
            assert(r@ =~= low_bits_seq(bits, len as int));
            lemma_bits_value(r.spec_bits(), len as int);
        }
        r
    }

    pub fn bits(&self) -> (r: u16)
        ensures
            r == self.spec_bits(),
    {
        self.bits
    }

    pub fn len(&self) -> (r: u8)
        ensures
            r == self.spec_len(),
    {
        self.len
    }

    /// Place `self` in the low bits and `other` above it.
    pub fn concat(self, other: Self) -> (r: Self)
        requires
            self.wf(),
            other.wf(),
            self.spec_len() + other.spec_len() <= 16,
        ensures
            r.wf(),
            r.spec_len() == self.spec_len() + other.spec_len(),
            r@ == self@ + other@,
            r.spec_bits() == self.spec_bits() + other.spec_bits() * pow2n(self.spec_len() as nat),
    {
        if self.len >= 16 {
            proof {
                assert(other@ =~= Seq::<bool>::empty());
                assert(self@ + other@ =~= self@);
                lemma_pow2n_le16(16);
                assert(1u32 << 16u32 == 65536) by (bit_vector);
                let ob = other.spec_bits();
                assert(ob >> 0u16 == ob) by (bit_vector);
                assert(ob == 0);
            }
            return self;
        }
        let new_bits: u16 = self.bits | (other.bits << (self.len as u16));
        let total: u8 = self.len + other.len;
        let r = BitSequence { bits: new_bits, len: total };
        proof {
            let n = self.len as u16;
            let m = other.len as u16;
            lemma_concat_bits(self.bits, other.bits, n, m, 0);
            assert forall|i: int| 0 <= i < total implies r@[i] == (self@ + other@)[i] by {
                lemma_concat_bits(self.bits, other.bits, n, m, i as u16);
            }
            assert(r@ =~= self@ + other@);
            if (total as int) < 16 {
                lemma_concat_bits(self.bits, other.bits, n, m, 0);
            }
            assert(r.wf());
            lemma_concat_value(self.bits, other.bits, n, m);
        }
        r
    }
}

proof fn lemma_concat_value(a: u16, b: u16, n: u16, m: u16)
    requires
        n < 16,
        n + m <= 16,
        a >> n == 0,
        m < 16 ==> b >> m == 0,
    ensures
        (a | (b << n)) == a + b * pow2n(n as nat),
{
    lemma_pow2n_le16(n as nat);
    assert((a | (b << n)) as u32 == (a as u32) + (b as u32) * (1u32 << (n as u32))) by (bit_vector)
        requires
            n < 16,
            n + m <= 16,
            a >> n == 0,
            m < 16 ==> b >> m == 0,
    ;
}

/// pow2n as a function the bit vector solver can inline.
spec fn pow2n_u32(n: u16) -> u32 {
    1u32 << (n as u32)
}

pub proof fn lemma_pow2n_u16(n: nat)
    requires
        n <= 15,
    ensures
        pow2n(n) == (1u16 << (n as u16)),
    decreases n,
{
    if n == 0 {
        assert(1u16 << 0u16 == 1) by (bit_vector);
    } else {
        lemma_pow2n_u16((n - 1) as nat);
        let k = (n - 1) as u16;
        assert(k < 15 ==> (1u16 << ((k + 1) as u16)) == 2 * (1u16 << k)) by (bit_vector);
    }
}

pub proof fn lemma_pow2n_le16(n: nat)
    requires
        n <= 16,
    ensures
        pow2n(n) == (1u32 << (n as u32)),
    decreases n,
{
    if n == 0 {
        assert(1u32 << 0u32 == 1) by (bit_vector);
    } else {
        lemma_pow2n_le16((n - 1) as nat);
        let k = (n - 1) as u32;
        assert(k < 16 ==> (1u32 << ((k + 1) as u32)) == 2 * (1u32 << k)) by (bit_vector);
    }
}

/// A bit value equals the value of its bit-string view.
pub proof fn lemma_bits_value(v: u16, n: int)
    requires
        0 <= n <= 16,
        n < 16 ==> v >> (n as u16) == 0,
    ensures
        bits_value(low_bits_seq(v, n)) == v,
    decreases n,
{
    if n == 0 {
        assert(v >> 0u16 == v) by (bit_vector);
        assert(low_bits_seq(v, 0) =~= Seq::<bool>::empty());
    } else {
        lemma_value_split(v, n as u16);
        lemma_bits_value(v >> 1u16, n - 1);
        let s = low_bits_seq(v, n);
        assert forall|i: int| 0 <= i < n - 1 implies s.skip(1)[i] == low_bits_seq(
            v >> 1u16,
            n - 1,
        )[i] by {
            lemma_shr_bit(v, 1, i as u16);
        }
        assert(s.skip(1) =~= low_bits_seq(v >> 1u16, n - 1));
        assert(s[0] == ((v >> 0u16) & 1 == 1));
        assert((v >> 0u16) & 1 == v & 1 && (v & 1 == 0 || v & 1 == 1)) by (bit_vector);
        assert(bits_value(s) == (if s[0] {
            1nat
        } else {
            0nat
        }) + 2 * bits_value(s.skip(1)));
    }
}

/// A bit sequence named by its packed bits and length, for spec-level
/// construction of code tables.
pub closed spec fn make_bit_sequence(bits: u16, len: u8) -> BitSequence {
    BitSequence { bits, len }
}

pub broadcast proof fn lemma_make_bit_sequence(bits: u16, len: u8)
    ensures
        (#[trigger] make_bit_sequence(bits, len)).spec_bits() == bits,
        make_bit_sequence(bits, len).spec_len() == len,
{
}

/// Two bit sequences with the same packed bits and length are the same
/// value.
pub proof fn lemma_bit_sequence_eq(a: BitSequence, b: BitSequence)
    requires
        a.spec_bits() == b.spec_bits(),
        a.spec_len() == b.spec_len(),
    ensures
        a == b,
{
}

/// The spec-level state of a bit stream: the residual bits of a partly
/// consumed byte, then whole unread bytes. The byte part is kept separate so
/// that returning to a byte boundary can be stated.
#[verifier::ext_equal]
pub struct BitsModel {
    pub residual: Seq<bool>,
    pub bytes: Seq<u8>,
}

impl BitsModel {
    /// The whole unread bit stream.
    pub open spec fn flat(&self) -> Seq<bool> {
        self.residual + bytes_bits(self.bytes)
    }

    pub open spec fn wf(&self) -> bool {
        self.residual.len() < 8
    }
}

/// The stream state after serving `n` bits: bits come from the residual
/// first; a byte is fetched when they run out, two when more than eight
/// further bits are needed.
pub open spec fn model_after_read(m: BitsModel, n: int) -> BitsModel {
    if n <= m.residual.len() {
        BitsModel { residual: m.residual.skip(n), bytes: m.bytes }
    } else {
        let nb: int = if n - m.residual.len() <= 8 {
            1
        } else {
            2
        };
        let nbc: int = if nb <= m.bytes.len() {
            nb
        } else {
            m.bytes.len() as int
        };
        let joined = m.residual + bytes_bits(m.bytes.take(nbc));
        let nc: int = if n <= joined.len() {
            n
        } else {
            joined.len() as int
        };
        BitsModel { residual: joined.skip(nc), bytes: m.bytes.skip(nbc) }
    }
}

/// Serving `n` available bits keeps the stream well formed and removes
/// exactly those bits from the front.
pub proof fn lemma_model_after_read(m: BitsModel, n: int)
    requires
        m.wf(),
        0 <= n <= 16,
        n <= m.flat().len(),
    ensures
        model_after_read(m, n).wf(),
        model_after_read(m, n).flat() == m.flat().skip(n),
{
    lemma_bytes_bits_len(m.bytes);
    if n <= m.residual.len() {
        assert(model_after_read(m, n).flat() =~= m.flat().skip(n));
    } else {
        let rl = m.residual.len() as int;
        let nb: int = if n - rl <= 8 {
            1
        } else {
            2
        };
        assert(8 * m.bytes.len() >= n - rl);
        assert(m.bytes.len() >= nb);
        lemma_bytes_bits_split(m.bytes, nb);
        lemma_bytes_bits_len(m.bytes.take(nb));
        lemma_bytes_bits_len(m.bytes.skip(nb));
        assert((m.residual + bytes_bits(m.bytes.take(nb))).len() == rl + 8 * nb);
        assert(model_after_read(m, n).flat() =~= m.flat().skip(n));
    }
}

/// Serving bits never lengthens the stream, whatever the count.
pub proof fn lemma_model_after_read_mono(m: BitsModel, n: int)
    requires
        m.wf(),
        0 <= n <= m.flat().len(),
    ensures
        model_after_read(m, n).wf(),
        model_after_read(m, n).flat().len() <= m.flat().len(),
        model_after_read(m, n).bytes.len() <= m.bytes.len(),
{
    lemma_bytes_bits_len(m.bytes);
    if n <= m.residual.len() {
    } else {
        let rl = m.residual.len() as int;
        let nb: int = if n - rl <= 8 {
            1
        } else {
            2
        };
        let nbc: int = if nb <= m.bytes.len() {
            nb
        } else {
            m.bytes.len() as int
        };
        lemma_bytes_bits_split(m.bytes, nbc);
        lemma_bytes_bits_len(m.bytes.take(nbc));
        lemma_bytes_bits_len(m.bytes.skip(nbc));
    }
}

/// A reader that serves up to sixteen bits at a time from a byte source,
/// least significant bit of each byte first. Its view is the stream of bits
/// not yet served.
pub struct BitReader {
    stream: ByteReader,
    bit_seq: BitSequence,
}

impl BitReader {
    pub closed spec fn spec_acc(&self) -> BitSequence {
        self.bit_seq
    }

    pub closed spec fn spec_reader(&self) -> ByteReader {
        self.stream
    }

    pub open spec fn wf(&self) -> bool {
        self.spec_reader().wf() && self.spec_acc().wf() && self.spec_acc().spec_len() < 8
    }

    /// All bits not yet served: the residual bits, followed by the bits of
    /// the unread bytes.
    pub open spec fn bits_view(&self) -> Seq<bool> {
        self.spec_acc()@ + bytes_bits(self.spec_reader().remaining_bytes())
    }

    /// How many residual bits stand before the next byte boundary.
    pub open spec fn residual_len(&self) -> int {
        self.spec_acc().spec_len() as int
    }

    /// The unread bytes of the underlying source.
    pub open spec fn byte_view(&self) -> Seq<u8> {
        self.spec_reader().remaining_bytes()
    }

    /// The reader's state as a spec-level bit stream.
    pub open spec fn model(&self) -> BitsModel {
        BitsModel { residual: self.spec_acc()@, bytes: self.spec_reader().remaining_bytes() }
    }

    pub fn new(stream: ByteReader) -> (r: Self)
        requires
            stream.wf(),
        ensures
            r.wf(),
            r.residual_len() == 0,
            r.byte_view() == stream.remaining_bytes(),
            r.bits_view() == bytes_bits(stream.remaining_bytes()),
            r.model() == (BitsModel {
                residual: Seq::<bool>::empty(),
                bytes: stream.remaining_bytes(),
            }),
    {
        let r = BitReader { stream, bit_seq: BitSequence::new(0, 0) };
        proof {
            assert(r.spec_acc()@ =~= Seq::<bool>::empty());
            assert(r.bits_view() =~= bytes_bits(stream.remaining_bytes()));
            assert(r.model() =~= (BitsModel {
                residual: Seq::<bool>::empty(),
                bytes: stream.remaining_bytes(),
            }));
        }
        r
    }

    /// Serve the next `len` bits. The result carries them least significant
    /// bit first; the stream advances by exactly `len` bits. Fails if and
    /// only if fewer than `len` bits remain, leaving the reader unchanged.
    #[verifier::rlimit(100)]
    pub fn read_bits(&mut self, len: u8) -> (r: Result<BitSequence, DecodeError>)
        requires
            old(self).wf(),
            len <= 16,
        ensures
            final(self).wf(),
            old(self).bits_view().len() < len ==> r == Err::<BitSequence, DecodeError>(
                DecodeError::UnexpectedEof,
            ) && *final(self) == *old(self),
            old(self).bits_view().len() >= len ==> {
                &&& r is Ok
                &&& r->Ok_0.wf()
                &&& r->Ok_0.spec_len() == len
                &&& r->Ok_0@ == old(self).bits_view().take(len as int)
                &&& r->Ok_0.spec_bits() == bits_value(old(self).bits_view().take(len as int))
                &&& final(self).bits_view() == old(self).bits_view().skip(len as int)
                &&& len <= old(self).residual_len() ==> final(self).residual_len() == old(
                    self,
                ).residual_len() - len && final(self).byte_view() == old(self).byte_view()
                &&& old(self).residual_len() < len <= old(self).residual_len() + 8 ==> final(self).byte_view() == old(self).byte_view().skip(1) && final(self).residual_len() == 8 - (len - old(self).residual_len())
                &&& len > old(self).residual_len() + 8 ==> final(self).byte_view() == old(self).byte_view().skip(2) && final(self).residual_len() == 16 - (len - old(self).residual_len())
                &&& final(self).model() == model_after_read(old(self).model(), len as int)
            },
    {
        proof {
            lemma_bytes_bits_len(self.stream.remaining_bytes());
        }
        if len <= self.bit_seq.len() {
            let acc_bits = self.bit_seq.bits();
            let acc_len = self.bit_seq.len();
            proof {
                assert(1u16 << (len as u16) >= 1) by (bit_vector)
                    requires
                        (len as u16) < 16,
                ;
            }
            let out = BitSequence::new(acc_bits & ((1u16 << (len as u16)) - 1), len);
            self.bit_seq = BitSequence::new(acc_bits >> (len as u16), acc_len - len);
            proof {
                let a = old(self).spec_acc();
                assert forall|i: int| 0 <= i < len implies out@[i] == a@[i] by {
                    lemma_mask_bit(acc_bits, len as u16, i as u16);
                }
                assert(out@ =~= a@.take(len as int));
                assert(a@.take(len as int) =~= old(self).bits_view().take(len as int));
                assert forall|i: int| 0 <= i < acc_len - len implies self.spec_acc()@[i] == a@.skip(
                    len as int,
                )[i] by {
                    lemma_shr_bit(acc_bits, len as u16, i as u16);
                    assert(low_bits_seq(acc_bits >> (len as u16), (acc_len - len) as int)[i]
                        == bit_of(acc_bits >> (len as u16), i));
                }
                assert(self.spec_acc()@ =~= a@.skip(len as int));
                assert(self.bits_view() =~= old(self).bits_view().skip(len as int));
                lemma_shr_wf(acc_bits, acc_len as u16, len as u16);
                lemma_bits_value(out.spec_bits(), len as int);
                assert(self.wf());
                assert(self.model() =~= model_after_read(old(self).model(), len as int));
            }
            return Ok(out);
        }
        let vital_len: u8 = len - self.bit_seq.len();
        let temp_size: u8 = if vital_len > 8 {
            2
        } else {
            1
        };
        if self.stream.remaining() < temp_size as usize {
            return Err(DecodeError::UnexpectedEof);
        }
        let ghost rem = self.stream.remaining_bytes();
        let b0 = match self.stream.read_byte() {
            Ok(b) => b,
            Err(e) => {
                return Err(e);
            },
        };
        let combined: u16 = if temp_size == 2 {
            let b1 = match self.stream.read_byte() {
                Ok(b) => b,
                Err(e) => {
                    return Err(e);
                },
            };
            proof {
                assert(self.stream.remaining_bytes() =~= rem.skip(2));
            }
            (b0 as u16) | ((b1 as u16) << 8u16)
        } else {
            b0 as u16
        };
        let ghost full = low_bits_seq(combined, 8 * temp_size as int);
        proof {
            lemma_bytes_bits_split(rem, temp_size as int);
            if temp_size == 2 {
                let b1v = rem[1];
                assert(bytes_bits(rem.take(2)) == byte_bits(rem[0]) + bytes_bits(
                    rem.take(2).skip(1),
                ));
                assert(rem.take(2).skip(1) =~= rem.subrange(1, 2));
                assert(bytes_bits(rem.subrange(1, 2)) == byte_bits(b1v) + bytes_bits(
                    rem.subrange(1, 2).skip(1),
                ));
                assert(rem.subrange(1, 2).skip(1) =~= Seq::<u8>::empty());
                assert(bytes_bits(rem.take(2)) =~= byte_bits(rem[0]) + byte_bits(b1v));
                assert forall|i: int| 0 <= i < 16 implies full[i] == (byte_bits(rem[0]) + byte_bits(
                    b1v,
                ))[i] by {
                    lemma_le_pair_bit(rem[0], b1v, i as u16);
                }
                assert(full =~= bytes_bits(rem.take(2)));
            } else {
                assert(bytes_bits(rem.take(1)) == byte_bits(rem[0]) + bytes_bits(
                    rem.take(1).skip(1),
                ));
                assert(rem.take(1).skip(1) =~= Seq::<u8>::empty());
                assert(full =~= byte_bits(rem[0]));
                assert(full =~= bytes_bits(rem.take(1)));
            }
        }
        let rest = BitSequence::new(combined, vital_len);
        let new_len: u8 = 8 * temp_size - vital_len;
        let shifted: u16 = if vital_len >= 16 {
            0
        } else {
            combined >> (vital_len as u16)
        };
        let new_buf = BitSequence::new(shifted, new_len);
        let acc = self.bit_seq;
        self.bit_seq = new_buf;
        let out = acc.concat(rest);
        proof {
            let ghost old_view = old(self).bits_view();
            assert(rest@ =~= full.take(vital_len as int));
            assert forall|i: int| 0 <= i < new_len implies new_buf@[i] == full.skip(
                vital_len as int,
            )[i] by {
                lemma_shr_bit(combined, vital_len as u16, i as u16);
            }
            assert(new_buf@ =~= full.skip(vital_len as int));
            assert(out@ =~= acc@ + full.take(vital_len as int));
            assert(old_view == acc@ + (bytes_bits(rem.take(temp_size as int)) + bytes_bits(
                rem.skip(temp_size as int),
            )));
            assert(old_view.take(len as int) =~= acc@ + full.take(vital_len as int));
            assert(out@ == old_view.take(len as int));
            lemma_bits_value(out.spec_bits(), out.spec_len() as int);
            assert(out.spec_bits() == bits_value(old_view.take(len as int)));
            assert(self.bits_view() =~= old_view.skip(len as int));
            lemma_bytes_bits_len(rem.skip(temp_size as int));
            assert(self.wf());
            assert(self.model().residual =~= (old(self).model().residual + bytes_bits(
                rem.take(temp_size as int),
            )).skip(len as int));
            assert(self.model() =~= model_after_read(old(self).model(), len as int));
        }
        Ok(out)
    }

    /// Discard the residual bits of the current byte and hand out the byte
    /// source, positioned at the next unread byte.
    pub fn borrow_reader_from_boundary(&mut self) -> (r: &mut ByteReader)
        requires
            old(self).wf(),
        ensures
            *r == old(self).spec_reader(),
            final(self).spec_reader() == *final(r),
            final(self).residual_len() == 0,
            final(self).spec_acc().wf(),
            final(self).spec_acc()@ == Seq::<bool>::empty(),
    {
        self.bit_seq = BitSequence::new(0, 0);
        proof {
            assert(self.spec_acc()@ =~= Seq::<bool>::empty());
        }
        &mut self.stream
    }

    /// Discard the residual bits and give the byte source back.
    pub fn into_reader(self) -> (r: ByteReader)
        ensures
            r == self.spec_reader(),
    {
        self.stream
    }
}

/// Reading bit lengths one after another draws the same values as reading
/// their sum at once and splitting the packed result least significant bit
/// first: the first read is the low bits, the second read the bits above
/// them.
pub proof fn lemma_split_read(s: Seq<bool>, n1: int, n2: int)
    requires
        0 <= n1,
        0 <= n2,
        n1 + n2 <= s.len(),
    ensures
        bits_value(s.take(n1 + n2)) == bits_value(s.take(n1)) + pow2n(n1 as nat) * bits_value(
            s.skip(n1).take(n2),
        ),
        bits_value(s.take(n1)) == bits_value(s.take(n1 + n2)) % pow2n(n1 as nat),
        bits_value(s.skip(n1).take(n2)) == bits_value(s.take(n1 + n2)) / pow2n(n1 as nat),
{
    let a = s.take(n1);
    let b = s.skip(n1).take(n2);
    assert(s.take(n1 + n2) =~= a + b);
    lemma_bits_value_add(a, b);
    lemma_bits_value_bound(a);
    let p = pow2n(n1 as nat);
    let va = bits_value(a);
    let vb = bits_value(b);
    assert(va + p * vb == vb * p + va) by (nonlinear_arith);
    vstd::arithmetic::div_mod::lemma_fundamental_div_mod_converse(
        (va + p * vb) as int,
        p as int,
        vb as int,
        va as int,
    );
}

} // verus!
