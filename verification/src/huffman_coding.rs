use vstd::prelude::*;

use crate::bit_reader::{
    bits_value, lemma_bit_sequence_eq, lemma_make_bit_sequence, low_bits_seq, make_bit_sequence,
    model_after_read, pow2n, BitReader, BitSequence, BitsModel,
};
use crate::errors::DecodeError;

verus! {

/// A symbol index into a Huffman alphabet.
pub struct HuffmanCodeWord(pub u16);

/// An alphabet whose symbols are numbered code words. The mapping from a
/// word to a token is fixed by `spec_from_word`; words outside the alphabet
/// are rejected.
pub trait CodeToken: Sized + Copy {
    spec fn spec_from_word(w: u16) -> Option<Self>;

    fn from_code_word(word: HuffmanCodeWord) -> (r: Result<Self, DecodeError>)
        ensures
            Self::spec_from_word(word.0) is Some ==> r == Ok::<Self, DecodeError>(
                Self::spec_from_word(word.0)->Some_0,
            ),
            Self::spec_from_word(word.0) is None ==> r == Err::<Self, DecodeError>(
                DecodeError::InvalidHuffmanCode,
            ),
    ;
}

/// A symbol of the code-length alphabet: a literal code length, a repeat of
/// the previous length, or a run of zero lengths.
#[derive(Clone, Copy, Debug, PartialEq, Eq, Structural)]
pub enum TreeCodeToken {
    Length(u8),
    CopyPrev,
    RepeatZero { base: u16, extra_bits: u8 },
}

impl CodeToken for TreeCodeToken {
    open spec fn spec_from_word(w: u16) -> Option<TreeCodeToken> {
        if w <= 15 {
            Some(TreeCodeToken::Length(w as u8))
        } else if w == 16 {
            Some(TreeCodeToken::CopyPrev)
        } else if w == 17 {
            Some(TreeCodeToken::RepeatZero { base: 3, extra_bits: 3 })
        } else if w == 18 {
            Some(TreeCodeToken::RepeatZero { base: 11, extra_bits: 7 })
        } else {
            None
        }
    }

    fn from_code_word(word: HuffmanCodeWord) -> (r: Result<Self, DecodeError>) {
        let w = word.0;
        if w <= 15 {
            Ok(TreeCodeToken::Length(w as u8))
        } else if w == 16 {
            Ok(TreeCodeToken::CopyPrev)
        } else if w == 17 {
            Ok(TreeCodeToken::RepeatZero { base: 3, extra_bits: 3 })
        } else if w == 18 {
            Ok(TreeCodeToken::RepeatZero { base: 11, extra_bits: 7 })
        } else {
            Err(DecodeError::InvalidHuffmanCode)
        }
    }
}

/// A symbol of the literal/length alphabet: a literal byte, the end of the
/// block, or a match length given by a base and a count of extra bits.
#[derive(Clone, Copy, Debug, PartialEq, Eq, Structural)]
pub enum LitLenToken {
    Literal(u8),
    EndOfBlock,
    Length { base: u16, extra_bits: u8 },
}

impl CodeToken for LitLenToken {
    open spec fn spec_from_word(w: u16) -> Option<LitLenToken> {
        if w <= 255 {
            Some(LitLenToken::Literal(w as u8))
        } else if w == 256 {
            Some(LitLenToken::EndOfBlock)
        } else if w <= 264 {
            Some(LitLenToken::Length { base: (3 + (w - 257)) as u16, extra_bits: 0 })
        } else if w <= 268 {
            Some(LitLenToken::Length { base: (11 + (w - 265) * 2) as u16, extra_bits: 1 })
        } else if w <= 272 {
            Some(LitLenToken::Length { base: (19 + (w - 269) * 4) as u16, extra_bits: 2 })
        } else if w <= 276 {
            Some(LitLenToken::Length { base: (35 + (w - 273) * 8) as u16, extra_bits: 3 })
        } else if w <= 280 {
            Some(LitLenToken::Length { base: (67 + (w - 277) * 16) as u16, extra_bits: 4 })
        } else if w <= 284 {
            Some(LitLenToken::Length { base: (131 + (w - 281) * 32) as u16, extra_bits: 5 })
        } else if w == 285 {
            Some(LitLenToken::Length { base: 258, extra_bits: 0 })
        } else {
            None
        }
    }

    fn from_code_word(word: HuffmanCodeWord) -> (r: Result<Self, DecodeError>) {
        let w = word.0;
        if w <= 255 {
            Ok(LitLenToken::Literal(w as u8))
        } else if w == 256 {
            Ok(LitLenToken::EndOfBlock)
        } else if w <= 264 {
            Ok(LitLenToken::Length { base: 3 + (w - 257), extra_bits: 0 })
        } else if w <= 268 {
            Ok(LitLenToken::Length { base: 11 + (w - 265) * 2, extra_bits: 1 })
        } else if w <= 272 {
            Ok(LitLenToken::Length { base: 19 + (w - 269) * 4, extra_bits: 2 })
        } else if w <= 276 {
            Ok(LitLenToken::Length { base: 35 + (w - 273) * 8, extra_bits: 3 })
        } else if w <= 280 {
            Ok(LitLenToken::Length { base: 67 + (w - 277) * 16, extra_bits: 4 })
        } else if w <= 284 {
            Ok(LitLenToken::Length { base: 131 + (w - 281) * 32, extra_bits: 5 })
        } else if w == 285 {
            Ok(LitLenToken::Length { base: 258, extra_bits: 0 })
        } else {
            Err(DecodeError::InvalidHuffmanCode)
        }
    }
}

/// A symbol of the distance alphabet: a base distance and a count of extra
/// bits, covering distances one through 32768 in thirty tiers.
#[derive(Clone, Copy, Debug, PartialEq, Eq, Structural)]
pub struct DistanceToken {
    pub base: u16,
    pub extra_bits: u8,
}

/// The extra-bit count of distance symbol `w`.
pub open spec fn spec_dist_extra(w: u16) -> int {
    if w < 2 {
        0
    } else {
        (w - 2) / 2
    }
}

/// The base distance of distance symbol `w`.
pub open spec fn spec_dist_base(w: u16) -> int {
    if w < 2 {
        w + 1
    } else {
        1 + pow2n((spec_dist_extra(w) + 1) as nat) + (w % 2) * pow2n(spec_dist_extra(w) as nat)
    }
}

impl CodeToken for DistanceToken {
    open spec fn spec_from_word(w: u16) -> Option<DistanceToken> {
        if w < 30 {
            Some(
                DistanceToken {
                    base: spec_dist_base(w) as u16,
                    extra_bits: spec_dist_extra(w) as u8,
                },
            )
        } else {
            None
        }
    }

    fn from_code_word(word: HuffmanCodeWord) -> (r: Result<Self, DecodeError>) {
        let w = word.0;
        if w >= 30 {
            return Err(DecodeError::InvalidHuffmanCode);
        }
        if w < 2 {
            return Ok(DistanceToken { base: w + 1, extra_bits: 0 });
        }
        let e: u16 = (w - 2) / 2;
        proof {
            assert(e <= 13);
            assert(w % 2 <= 1);
            assert((1u16 << ((e + 1) as u16)) <= 16384 && (1u16 << e) <= 8192) by (bit_vector)
                requires
                    e <= 13u16,
            ;
        }
        let high: u16 = 1u16 << (e + 1);
        proof {
            let p = 1u16 << e;
            assert((w % 2) * p <= 8192) by (nonlinear_arith)
                requires
                    w % 2 <= 1,
                    p <= 8192,
            ;
        }
        let low: u16 = (w % 2) * (1u16 << e);
        proof {
            crate::bit_reader::lemma_pow2n_u16((e + 1) as nat);
            crate::bit_reader::lemma_pow2n_u16(e as nat);
            assert(1 + high + low == spec_dist_base(w));
        }
        Ok(DistanceToken { base: 1 + high + low, extra_bits: e as u8 })
    }
}

/// How many entries of `lengths` equal `l`.
pub open spec fn count_len(lengths: Seq<u8>, l: int) -> nat
    decreases lengths.len(),
{
    if lengths.len() == 0 {
        0
    } else {
        count_len(lengths.drop_last(), l) + (if lengths.last() as int == l {
            1nat
        } else {
            0nat
        })
    }
}

/// The first canonical code of bit length `l`: codes of shorter lengths,
/// counted and shifted up, as RFC 1951 prescribes.
pub open spec fn first_code(lengths: Seq<u8>, l: int) -> nat
    decreases l,
{
    if l <= 1 {
        0
    } else {
        (first_code(lengths, l - 1) + count_len(lengths, l - 1)) * 2
    }
}

/// How many symbols before `i` share symbol `i`'s code length.
pub open spec fn rank_of(lengths: Seq<u8>, i: int) -> nat {
    count_len(lengths.take(i), lengths[i] as int)
}

/// The canonical code of symbol `i`: codes are dealt in ascending order of
/// (length, symbol index).
pub open spec fn code_of(lengths: Seq<u8>, i: int) -> nat {
    first_code(lengths, lengths[i] as int) + rank_of(lengths, i)
}

pub open spec fn lengths_in_range(lengths: Seq<u8>) -> bool {
    forall|i: int| 0 <= i < lengths.len() ==> lengths[i] <= 15
}

/// Every assigned code fits its bit length; lengths violating this describe
/// no prefix code.
pub open spec fn codes_fit(lengths: Seq<u8>) -> bool {
    forall|i: int|
        0 <= i < lengths.len() && lengths[i] > 0 ==> code_of(lengths, i) < pow2n(
            lengths[i] as nat,
        )
}

pub open spec fn tokens_ok<T: CodeToken>(lengths: Seq<u8>) -> bool {
    forall|i: int|
        0 <= i < lengths.len() && lengths[i] > 0 ==> T::spec_from_word(i as u16) is Some
}

/// When a table can be built: lengths at most fifteen, a consistent
/// canonical assignment, and every coded symbol inside the alphabet.
pub open spec fn can_build<T: CodeToken>(lengths: Seq<u8>) -> bool {
    lengths_in_range(lengths) && codes_fit(lengths) && tokens_ok::<T>(lengths)
}

pub proof fn lemma_count_len_le(lengths: Seq<u8>, l: int)
    ensures
        count_len(lengths, l) <= lengths.len(),
    decreases lengths.len(),
{
    if lengths.len() > 0 {
        lemma_count_len_le(lengths.drop_last(), l);
    }
}

proof fn lemma_first_code_bound(lengths: Seq<u8>, l: int)
    requires
        lengths.len() <= 65535,
        1 <= l <= 15,
    ensures
        first_code(lengths, l) <= (pow2n(l as nat) - 2) * 65535,
    decreases l,
{
    if l == 1 {
        assert(pow2n(0) == 1);
        assert(pow2n(1) == 2);
    } else {
        lemma_first_code_bound(lengths, l - 1);
        lemma_count_len_le(lengths, l - 1);
        let p = pow2n((l - 1) as nat);
        assert(pow2n(l as nat) == 2 * p);
        assert(first_code(lengths, l - 1) + count_len(lengths, l - 1) <= (p - 2) * 65535 + 65535);
        assert(((p - 2) * 65535 + 65535) * 2 == (2 * p - 2) * 65535) by (nonlinear_arith);
        assert((first_code(lengths, l - 1) + count_len(lengths, l - 1)) * 2 <= ((p - 2) * 65535
            + 65535) * 2) by (nonlinear_arith)
            requires
                first_code(lengths, l - 1) + count_len(lengths, l - 1) <= (p - 2) * 65535 + 65535,
        ;
        assert(first_code(lengths, l) == (first_code(lengths, l - 1) + count_len(lengths, l - 1))
            * 2);
        assert(first_code(lengths, l) <= (2 * p - 2) * 65535);
        assert((2 * p - 2) * 65535 == (pow2n(l as nat) - 2) * 65535);
    }
}

proof fn lemma_pow2n_mono(a: nat, b: nat)
    requires
        a <= b,
    ensures
        pow2n(a) <= pow2n(b),
    decreases b,
{
    if a < b {
        lemma_pow2n_mono(a, (b - 1) as nat);
    }
}

/// The first match for a key, scanning the entries front to back; keys are
/// compared by their packed bits and length.
pub open spec fn lookup_val<T>(entries: Seq<(BitSequence, T)>, bits: u16, len: u8) -> Option<T>
    decreases entries.len(),
{
    if entries.len() == 0 {
        None
    } else if entries[0].0.spec_bits() == bits && entries[0].0.spec_len() == len {
        Some(entries[0].1)
    } else {
        lookup_val(entries.skip(1), bits, len)
    }
}

/// The canonical table of `lengths`, truncated to symbols below `upto`: one
/// entry per nonzero length, in symbol order, keyed by the canonical code.
pub open spec fn table_prefix_ok<T: CodeToken>(
    lengths: Seq<u8>,
    upto: int,
    entries: Seq<(BitSequence, T)>,
) -> bool
    decreases upto,
{
    if upto <= 0 {
        entries.len() == 0
    } else if lengths[upto - 1] == 0 {
        table_prefix_ok(lengths, upto - 1, entries)
    } else {
        &&& entries.len() >= 1
        &&& table_prefix_ok(lengths, upto - 1, entries.drop_last())
        &&& entries.last().0.wf()
        &&& entries.last().0.spec_bits() == code_of(lengths, upto - 1)
        &&& entries.last().0.spec_len() == lengths[upto - 1]
        &&& Some(entries.last().1) == T::spec_from_word((upto - 1) as u16)
    }
}

/// A canonical prefix code: a mapping from bit strings to tokens of the
/// alphabet `T`, built from a code-length array.
pub struct HuffmanCoding<T> {
    entries: Vec<(BitSequence, T)>,
}

/// One step of symbol decoding, stated over the stream model: read one bit,
/// shift it into the low end of the accumulated code, and stop at the first
/// accumulated bit string that the table maps. At fifteen bits without a
/// match the code is invalid; an exhausted stream is a truncated input.
pub open spec fn spec_read_symbol_from<T>(
    entries: Seq<(BitSequence, T)>,
    m: BitsModel,
    acc: u16,
    k: int,
) -> Result<(T, BitsModel), DecodeError>
    decreases 15 - k,
{
    if k >= 15 {
        Err(DecodeError::InvalidHuffmanCode)
    } else if m.flat().len() < 1 {
        Err(DecodeError::UnexpectedEof)
    } else {
        let b: u16 = if m.flat()[0] {
            1
        } else {
            0
        };
        let acc1 = (b + 2 * acc) as u16;
        let m1 = model_after_read(m, 1);
        match lookup_val(entries, acc1, (k + 1) as u8) {
            Some(t) => Ok((t, m1)),
            None => spec_read_symbol_from(entries, m1, acc1, k + 1),
        }
    }
}

/// What reading one symbol from the stream yields: the token and the stream
/// state after the code's bits, or the error the attempt ends in.
pub open spec fn spec_read_symbol<T>(entries: Seq<(BitSequence, T)>, m: BitsModel) -> Result<
    (T, BitsModel),
    DecodeError,
> {
    spec_read_symbol_from(entries, m, 0, 0)
}

impl<T: CodeToken> HuffmanCoding<T> {
    pub closed spec fn spec_entries(&self) -> Seq<(BitSequence, T)> {
        self.entries@
    }

    /// Look one accumulated bit string up in the table.
    pub fn decode_symbol(&self, seq: BitSequence) -> (r: Option<T>)
        ensures
            r == lookup_val(self.spec_entries(), seq.spec_bits(), seq.spec_len()),
    {
        let n = self.entries.len();
        proof {
            assert(self.spec_entries().skip(0) =~= self.spec_entries());
        }
        let mut i: usize = 0;
        while i < n
            invariant
                0 <= i <= n,
                n == self.entries@.len(),
                lookup_val(self.spec_entries(), seq.spec_bits(), seq.spec_len()) == lookup_val(
                    self.spec_entries().skip(i as int),
                    seq.spec_bits(),
                    seq.spec_len(),
                ),
            decreases n - i,
        {
            let e = &self.entries[i];
            if e.0.bits() == seq.bits() && e.0.len() == seq.len() {
                return Some(e.1);
            }
            proof {
                assert(self.spec_entries().skip(i as int).skip(1) =~= self.spec_entries().skip(
                    i as int + 1,
                ));
            }
            i = i + 1;
        }
        None
    }

    /// Read bits one at a time until the accumulated code names a symbol.
    /// The freshly read bit enters below the bits read before it, so the
    /// first bit of a code is its most significant: the order in which
    /// DEFLATE transmits Huffman codes.
    #[verifier::loop_isolation(false)]
    pub fn read_symbol(&self, bit_reader: &mut BitReader) -> (r: Result<T, DecodeError>)
        requires
            old(bit_reader).wf(),
        ensures
            final(bit_reader).wf(),
            final(bit_reader).model().bytes.len() <= old(bit_reader).model().bytes.len(),
            final(bit_reader).model().flat().len() <= old(bit_reader).model().flat().len(),
            r is Ok ==> spec_read_symbol(self.spec_entries(), old(bit_reader).model()) == Ok::<
                (T, BitsModel),
                DecodeError,
            >((r->Ok_0, final(bit_reader).model())),
            r is Err ==> spec_read_symbol(self.spec_entries(), old(bit_reader).model()) == Err::<
                (T, BitsModel),
                DecodeError,
            >(r->Err_0),
    {
        let ghost m0 = bit_reader.model();
        let mut acc = BitSequence::new(0, 0);
        let mut k: u8 = 0;
        loop
            invariant
                bit_reader.wf(),
                bit_reader.model().bytes.len() <= m0.bytes.len(),
                bit_reader.model().flat().len() <= m0.flat().len(),
                k <= 15,
                acc.wf(),
                acc.spec_len() == k,
                spec_read_symbol(self.spec_entries(), m0) == spec_read_symbol_from(
                    self.spec_entries(),
                    bit_reader.model(),
                    acc.spec_bits(),
                    k as int,
                ),
            decreases 15 - k,
        {
            if k == 15 {
                proof {
                    assert(spec_read_symbol_from(
                        self.spec_entries(),
                        bit_reader.model(),
                        acc.spec_bits(),
                        15,
                    ) == Err::<(T, BitsModel), DecodeError>(DecodeError::InvalidHuffmanCode));
                }
                return Err(DecodeError::InvalidHuffmanCode);
            }
            let ghost m_before = bit_reader.model();
            let ghost acc_old = acc;
            let bit = match bit_reader.read_bits(1) {
                Ok(b) => b,
                Err(e) => {
                    proof {
                        assert(m_before.flat().len() < 1);
                        assert(spec_read_symbol_from(
                            self.spec_entries(),
                            m_before,
                            acc_old.spec_bits(),
                            k as int,
                        ) == Err::<(T, BitsModel), DecodeError>(DecodeError::UnexpectedEof));
                    }
                    return Err(e);
                },
            };
            proof {
                assert(m_before.flat().len() >= 1);
                let t1 = m_before.flat().take(1);
                assert(t1[0] == m_before.flat()[0]);
                assert(t1.skip(1) =~= Seq::<bool>::empty());
                assert(bits_value(Seq::<bool>::empty()) == 0);
                assert(bits_value(t1) == (if m_before.flat()[0] {
                    1nat
                } else {
                    0nat
                }));
                assert(bit.spec_bits() == bits_value(t1));
            }
            let new_acc = bit.concat(acc);
            proof {
                assert(pow2n(0) == 1);
                assert(pow2n(1) == 2);
                assert(bit.spec_len() == 1);
                let pw = pow2n(bit.spec_len() as nat);
                assert(pw == 2);
                assert(new_acc.spec_bits() == bit.spec_bits() + acc.spec_bits() * pw);
                assert(acc.spec_bits() * pw == 2 * acc.spec_bits()) by (nonlinear_arith)
                    requires
                        pw == 2,
                ;
                assert(new_acc.spec_bits() == bit.spec_bits() + 2 * acc.spec_bits());
                let ab = acc_old.spec_bits();
                let kk = k as u16;
                assert(kk < 16 ==> (ab >> kk == 0 ==> ab < 65536)) by (bit_vector);
            }
            k = k + 1;
            acc = new_acc;
            match self.decode_symbol(acc) {
                Some(t) => {
                    proof {
                        assert(spec_read_symbol_from(
                            self.spec_entries(),
                            m_before,
                            acc_old.spec_bits(),
                            (k - 1) as int,
                        ) == Ok::<(T, BitsModel), DecodeError>((t, bit_reader.model())));
                    }
                    return Ok(t);
                },
                None => {
                    proof {
                        assert(spec_read_symbol_from(
                            self.spec_entries(),
                            m_before,
                            acc_old.spec_bits(),
                            (k - 1) as int,
                        ) == spec_read_symbol_from(
                            self.spec_entries(),
                            bit_reader.model(),
                            acc.spec_bits(),
                            k as int,
                        ));
                    }
                },
            }
        }
    }

    /// Build the canonical code of a length array, as RFC 1951 prescribes:
    /// count the lengths, place the first code of each length after the
    /// shifted codes of shorter lengths, and deal codes to symbols in index
    /// order. Fails exactly when a length exceeds fifteen, a code overflows
    /// its bit length, or a coded symbol lies outside the alphabet.
    pub fn from_lengths(code_lengths: &[u8]) -> (r: Result<Self, DecodeError>)
        requires
            code_lengths@.len() <= 65535,
        ensures
            r is Ok <==> can_build::<T>(code_lengths@),
            r is Ok ==> table_prefix_ok(
                code_lengths@,
                code_lengths@.len() as int,
                r->Ok_0.spec_entries(),
            ),
            r is Ok ==> r->Ok_0.spec_entries() == canonical_entries::<T>(
                code_lengths@,
                code_lengths@.len() as int,
            ),
            r is Err ==> r == Err::<Self, DecodeError>(DecodeError::InvalidHuffmanCode),
    {
        let ghost lengths = code_lengths@;
        let n = code_lengths.len();
        let mut counts: Vec<u32> = vec![0, 0, 0, 0, 0, 0, 0, 0, 0, 0, 0, 0, 0, 0, 0, 0];
        let mut i: usize = 0;
        while i < n
            invariant
                0 <= i <= n,
                n == lengths.len() <= 65535,
                lengths == code_lengths@,
                counts@.len() == 16,
                forall|j: int| 0 <= j < i ==> lengths[j] <= 15,
                forall|l: int|
                    1 <= l <= 15 ==> counts@[l] as nat == count_len(lengths.take(i as int), l),
            decreases n - i,
        {
            let l = code_lengths[i];
            if l > 15 {
                return Err(DecodeError::InvalidHuffmanCode);
            }
            if l > 0 {
                proof {
                    lemma_count_len_le(lengths.take(i as int), l as int);
                }
                counts[l as usize] = counts[l as usize] + 1;
            }
            i = i + 1;
            proof {
                assert forall|l2: int| 1 <= l2 <= 15 implies counts@[l2] as nat == count_len(
                    lengths.take(i as int),
                    l2,
                ) by {
                    assert(lengths.take(i as int).drop_last() =~= lengths.take(i as int - 1));
                    assert(lengths.take(i as int).last() == lengths[i as int - 1]);
                }
            }
        }
        proof {
            assert(lengths.take(n as int) =~= lengths);
        }
        let mut next_code: Vec<u32> = vec![0, 0, 0, 0, 0, 0, 0, 0, 0, 0, 0, 0, 0, 0, 0, 0];
        let mut l: usize = 2;
        while l <= 15
            invariant
                2 <= l <= 16,
                n == lengths.len() <= 65535,
                lengths == code_lengths@,
                counts@.len() == 16,
                next_code@.len() == 16,
                lengths_in_range(lengths),
                forall|j: int| 1 <= j <= 15 ==> counts@[j] as nat == count_len(lengths, j),
                forall|j: int| 1 <= j < l ==> next_code@[j] as nat == first_code(lengths, j),
            decreases 16 - l,
        {
            proof {
                lemma_first_code_bound(lengths, l as int - 1);
                lemma_count_len_le(lengths, l as int - 1);
                lemma_pow2n_mono((l - 1) as nat, 14);
                crate::bit_reader::lemma_pow2n_le16(14);
                assert(1u32 << 14u32 == 16384) by (bit_vector);
                assert((pow2n((l - 1) as nat) - 2) * 65535 <= (16384 - 2) * 65535) by (
                nonlinear_arith)
                    requires
                        pow2n((l - 1) as nat) <= 16384,
                ;
            }
            let v: u32 = (next_code[l - 1] + counts[l - 1]) * 2;
            next_code[l] = v;
            l = l + 1;
        }
        let mut entries: Vec<(BitSequence, T)> = Vec::new();
        let mut i: usize = 0;
        while i < n
            invariant
                0 <= i <= n,
                n == lengths.len() <= 65535,
                lengths == code_lengths@,
                next_code@.len() == 16,
                lengths_in_range(lengths),
                forall|j: int|
                    1 <= j <= 15 ==> next_code@[j] as nat == first_code(lengths, j) + count_len(
                        lengths.take(i as int),
                        j,
                    ),
                forall|j: int|
                    0 <= j < i && lengths[j] > 0 ==> code_of(lengths, j) < pow2n(lengths[j] as nat),
                forall|j: int|
                    0 <= j < i && lengths[j] > 0 ==> T::spec_from_word(j as u16) is Some,
                table_prefix_ok(lengths, i as int, entries@),
            decreases n - i,
        {
            let ghost entries_before = entries@;
            let l = code_lengths[i];
            if l > 0 {
                let c: u32 = next_code[l as usize];
                proof {
                    lemma_first_code_bound(lengths, l as int);
                    lemma_count_len_le(lengths.take(i as int), l as int);
                    lemma_pow2n_mono(l as nat, 15);
                    crate::bit_reader::lemma_pow2n_le16(15);
                    crate::bit_reader::lemma_pow2n_le16(l as nat);
                    assert(1u32 << 15u32 == 32768) by (bit_vector);
                    assert((pow2n(l as nat) - 2) * 65535 <= (32768 - 2) * 65535) by (
                    nonlinear_arith)
                        requires
                            pow2n(l as nat) <= 32768,
                    ;
                }
                if c >= (1u32 << (l as u32)) {
                    return Err(DecodeError::InvalidHuffmanCode);
                }
                let key = BitSequence::new(c as u16, l);
                proof {
                    assert(c < pow2n(l as nat));
                    assert(pow2n(l as nat) <= 32768);
                    let cu = c as u16;
                    assert(cu as nat == c as nat);
                    assert((l as u16) < 16 ==> cu >> (l as u16) == 0) by (bit_vector)
                        requires
                            (cu as u32) < (1u32 << (l as u32)),
                            l <= 15usize,
                            cu == c as u16,
                            (c as u32) < 65536,
                    ;
                }
                let token = match T::from_code_word(HuffmanCodeWord(i as u16)) {
                    Ok(t) => t,
                    Err(e) => {
                        return Err(e);
                    },
                };
                entries.push((key, token));
                next_code[l as usize] = c + 1;
                proof {
                    assert(key.spec_bits() == c);
                    assert(code_of(lengths, i as int) == c);
                }
            }
            i = i + 1;
            proof {
                assert forall|j: int| 1 <= j <= 15 implies next_code@[j] as nat == first_code(
                    lengths,
                    j,
                ) + count_len(lengths.take(i as int), j) by {
                    assert(lengths.take(i as int).drop_last() =~= lengths.take(i as int - 1));
                    assert(lengths.take(i as int).last() == lengths[i as int - 1]);
                }
                if lengths[i as int - 1] > 0 {
                    assert(entries@.drop_last() =~= entries_before);
                }
                assert(table_prefix_ok(lengths, i as int, entries@));
            }
        }
        proof {
            lemma_table_prefix_entries::<T>(lengths, n as int, entries@);
        }
        Ok(HuffmanCoding { entries })
    }
}

/// The canonical table as a spec value: one entry per nonzero length, in
/// symbol order.
pub open spec fn canonical_entries<T: CodeToken>(lengths: Seq<u8>, upto: int) -> Seq<
    (BitSequence, T),
>
    decreases upto,
{
    if upto <= 0 {
        Seq::empty()
    } else {
        let rest = canonical_entries::<T>(lengths, upto - 1);
        if lengths[upto - 1] == 0 {
            rest
        } else {
            rest.push(
                (
                    make_bit_sequence(code_of(lengths, upto - 1) as u16, lengths[upto - 1]),
                    T::spec_from_word((upto - 1) as u16)->Some_0,
                ),
            )
        }
    }
}

/// A table matching the canonical layout is the canonical table.
pub proof fn lemma_table_prefix_entries<T: CodeToken>(
    lengths: Seq<u8>,
    upto: int,
    entries: Seq<(BitSequence, T)>,
)
    requires
        0 <= upto,
        table_prefix_ok(lengths, upto, entries),
    ensures
        entries == canonical_entries::<T>(lengths, upto),
    decreases upto,
{
    if upto > 0 {
        if lengths[upto - 1] == 0 {
            lemma_table_prefix_entries(lengths, upto - 1, entries);
        } else {
            lemma_table_prefix_entries(lengths, upto - 1, entries.drop_last());
            lemma_make_bit_sequence(code_of(lengths, upto - 1) as u16, lengths[upto - 1]);
            lemma_bit_sequence_eq(
                entries.last().0,
                make_bit_sequence(code_of(lengths, upto - 1) as u16, lengths[upto - 1]),
            );
            assert(entries =~= entries.drop_last().push(entries.last()));
        }
    }
}


/// A bit value of known width is numerically small.
pub(crate) proof fn lemma_small_value(v: u16, n: u16)
    by (bit_vector)
    requires
        n < 16,
        v >> n == 0,
    ensures
        n <= 13 ==> v <= 8191,
        n <= 7 ==> v <= 127,
        n <= 5 ==> v <= 31,
        n <= 4 ==> v <= 15,
        n <= 3 ==> v <= 7,
        n <= 2 ==> v <= 3,
{
}

/// The fixed order in which the code-length alphabet's lengths arrive.
pub open spec fn clen_order(j: int) -> int {
    if j == 0 {
        16
    } else if j == 1 {
        17
    } else if j == 2 {
        18
    } else if j == 3 {
        0
    } else if j == 4 {
        8
    } else if j == 5 {
        7
    } else if j == 6 {
        9
    } else if j == 7 {
        6
    } else if j == 8 {
        10
    } else if j == 9 {
        5
    } else if j == 10 {
        11
    } else if j == 11 {
        4
    } else if j == 12 {
        12
    } else if j == 13 {
        3
    } else if j == 14 {
        13
    } else if j == 15 {
        2
    } else if j == 16 {
        14
    } else if j == 17 {
        1
    } else {
        15
    }
}

/// Reading the `hclen` three-bit code lengths into the fixed permutation,
/// starting at position `j` with the array filled so far.
pub open spec fn spec_cl_lengths(m: BitsModel, j: int, hclen: int, arr: Seq<u8>) -> Result<
    (Seq<u8>, BitsModel),
    DecodeError,
>
    decreases hclen - j,
{
    if j >= hclen {
        Ok((arr, m))
    } else if m.flat().len() < 3 {
        Err(DecodeError::UnexpectedEof)
    } else {
        spec_cl_lengths(
            model_after_read(m, 3),
            j + 1,
            hclen,
            arr.update(clen_order(j), bits_value(m.flat().take(3)) as u8),
        )
    }
}

/// `cnt` copies of one code length.
pub open spec fn repeat_len(b: u8, cnt: int) -> Seq<u8> {
    Seq::new(cnt as nat, |i: int| b)
}

/// Expanding the run-length encoding of the code-length stream until exactly
/// `total` lengths stand: a literal length, a repeat of the last length, or
/// a run of zeros; a repeat with no previous length, or one that runs past
/// `total`, is invalid.
pub open spec fn spec_expand(
    entries: Seq<(BitSequence, TreeCodeToken)>,
    m: BitsModel,
    acc: Seq<u8>,
    total: int,
) -> Result<(Seq<u8>, BitsModel), DecodeError>
    decreases total - acc.len(),
{
    if acc.len() >= total {
        Ok((acc, m))
    } else {
        match spec_read_symbol(entries, m) {
            Err(e) => Err(e),
            Ok((tok, m1)) => match tok {
                TreeCodeToken::Length(l) => spec_expand(entries, m1, acc.push(l), total),
                TreeCodeToken::CopyPrev => {
                    if m1.flat().len() < 2 {
                        Err(DecodeError::UnexpectedEof)
                    } else if acc.len() == 0 {
                        Err(DecodeError::InvalidHuffmanCode)
                    } else {
                        let cnt = 3 + bits_value(m1.flat().take(2));
                        let m2 = model_after_read(m1, 2);
                        if acc.len() + cnt > total {
                            Err(DecodeError::InvalidHuffmanCode)
                        } else {
                            spec_expand(entries, m2, acc + repeat_len(acc.last(), cnt as int), total)
                        }
                    }
                },
                TreeCodeToken::RepeatZero { base, extra_bits } => {
                    if m1.flat().len() < extra_bits {
                        Err(DecodeError::UnexpectedEof)
                    } else {
                        let cnt = base + bits_value(m1.flat().take(extra_bits as int));
                        let m2 = model_after_read(m1, extra_bits as int);
                        if cnt == 0 || acc.len() + cnt > total {
                            Err(DecodeError::InvalidHuffmanCode)
                        } else {
                            spec_expand(entries, m2, acc + repeat_len(0, cnt as int), total)
                        }
                    }
                },
            },
        }
    }
}

/// Reading the RFC 1951 dynamic-block tree description: the three counts,
/// the permuted code-length lengths, and the run-length encoded literal and
/// distance length arrays, decoded with the code-length code and split after
/// the literal lengths.
pub open spec fn spec_decode_trees(m: BitsModel) -> Result<
    ((Seq<u8>, Seq<u8>), BitsModel),
    DecodeError,
> {
    if m.flat().len() < 5 {
        Err(DecodeError::UnexpectedEof)
    } else {
        let hlit = 257 + bits_value(m.flat().take(5));
        let m1 = model_after_read(m, 5);
        if m1.flat().len() < 5 {
            Err(DecodeError::UnexpectedEof)
        } else {
            let hdist = 1 + bits_value(m1.flat().take(5));
            let m2 = model_after_read(m1, 5);
            if m2.flat().len() < 4 {
                Err(DecodeError::UnexpectedEof)
            } else {
                let hclen = 4 + bits_value(m2.flat().take(4));
                let m3 = model_after_read(m2, 4);
                match spec_cl_lengths(m3, 0, hclen as int, repeat_len(0, 19)) {
                    Err(e) => Err(e),
                    Ok((cl_arr, m4)) => {
                        if !can_build::<TreeCodeToken>(cl_arr) {
                            Err(DecodeError::InvalidHuffmanCode)
                        } else {
                            match spec_expand(
                                canonical_entries::<TreeCodeToken>(cl_arr, 19),
                                m4,
                                Seq::empty(),
                                hlit as int + hdist as int,
                            ) {
                                Err(e) => Err(e),
                                Ok((lens, m5)) => Ok(
                                    ((lens.take(hlit as int), lens.skip(hlit as int)), m5),
                                ),
                            }
                        }
                    },
                }
            }
        }
    }
}

/// Every token a lookup can yield stands in the entries.
proof fn lemma_lookup_in_entries<T>(entries: Seq<(BitSequence, T)>, bits: u16, len: u8)
    requires
        lookup_val(entries, bits, len) is Some,
    ensures
        exists|j: int|
            0 <= j < entries.len() && entries[j].1 == lookup_val(entries, bits, len)->Some_0,
    decreases entries.len(),
{
    if entries.len() > 0 {
        if entries[0].0.spec_bits() == bits && entries[0].0.spec_len() == len {
            assert(entries[0].1 == lookup_val(entries, bits, len)->Some_0);
        } else {
            lemma_lookup_in_entries(entries.skip(1), bits, len);
            let j0 = choose|j: int|
                0 <= j < entries.skip(1).len() && entries.skip(1)[j].1 == lookup_val(
                    entries.skip(1),
                    bits,
                    len,
                )->Some_0;
            assert(entries[j0 + 1].1 == lookup_val(entries, bits, len)->Some_0);
        }
    }
}

/// Every token of a canonical table is the token of some symbol.
proof fn lemma_canonical_entry_token<T: CodeToken>(lengths: Seq<u8>, upto: int, j: int)
    requires
        upto <= lengths.len(),
        tokens_ok::<T>(lengths),
        0 <= j < canonical_entries::<T>(lengths, upto).len(),
    ensures
        exists|w: u16| T::spec_from_word(w) == Some(canonical_entries::<T>(lengths, upto)[j].1),
    decreases upto,
{
    if upto > 0 {
        let rest = canonical_entries::<T>(lengths, upto - 1);
        if lengths[upto - 1] == 0 || j < rest.len() {
            lemma_canonical_entry_token::<T>(lengths, upto - 1, j);
        } else {
            assert(T::spec_from_word((upto - 1) as u16) == Some(
                canonical_entries::<T>(lengths, upto)[j].1,
            ));
        }
    }
}

/// What a code-length token can be: lengths stay below sixteen, and a
/// zero-run token carries one of the two fixed base/extra pairs.
proof fn lemma_tree_token_shape(lengths: Seq<u8>, upto: int, bits: u16, len: u8, t: TreeCodeToken)
    requires
        upto <= lengths.len(),
        tokens_ok::<TreeCodeToken>(lengths),
        lookup_val(canonical_entries::<TreeCodeToken>(lengths, upto), bits, len) == Some(t),
    ensures
        t is RepeatZero ==> (t->RepeatZero_base == 3 && t->RepeatZero_extra_bits == 3) || (
        t->RepeatZero_base == 11 && t->RepeatZero_extra_bits == 7),
        t is Length ==> t->Length_0 <= 15,
{
    let entries = canonical_entries::<TreeCodeToken>(lengths, upto);
    lemma_lookup_in_entries(entries, bits, len);
    let j = choose|j: int| 0 <= j < entries.len() && entries[j].1 == t;
    lemma_canonical_entry_token::<TreeCodeToken>(lengths, upto, j);
}


/// A token the symbol reader yields stands in the table.
pub(crate) proof fn lemma_read_symbol_token<T>(entries: Seq<(BitSequence, T)>, m: BitsModel, acc: u16, k: int)
    requires
        spec_read_symbol_from(entries, m, acc, k) is Ok,
    ensures
        exists|b: u16, l: u8|
            lookup_val(entries, b, l) == Some(spec_read_symbol_from(entries, m, acc, k)->Ok_0.0),
    decreases 15 - k,
{
    let b0: u16 = if m.flat()[0] {
        1
    } else {
        0
    };
    let acc1 = (b0 + 2 * acc) as u16;
    let m1 = model_after_read(m, 1);
    match lookup_val(entries, acc1, (k + 1) as u8) {
        Some(t) => {
            assert(lookup_val(entries, acc1, (k + 1) as u8) == Some(
                spec_read_symbol_from(entries, m, acc, k)->Ok_0.0,
            ));
        },
        None => {
            lemma_read_symbol_token(entries, m1, acc1, k + 1);
        },
    }
}

/// A successful symbol read consumes at least one bit and keeps the stream
/// well formed.
pub proof fn lemma_read_symbol_ok<T>(entries: Seq<(BitSequence, T)>, m: BitsModel, acc: u16, k: int)
    requires
        m.wf(),
        spec_read_symbol_from(entries, m, acc, k) is Ok,
    ensures
        spec_read_symbol_from(entries, m, acc, k)->Ok_0.1.wf(),
        spec_read_symbol_from(entries, m, acc, k)->Ok_0.1.flat().len() <= m.flat().len() - 1,
        spec_read_symbol_from(entries, m, acc, k)->Ok_0.1.bytes.len() <= m.bytes.len(),
    decreases 15 - k,
{
    let b: u16 = if m.flat()[0] {
        1
    } else {
        0
    };
    let acc1 = (b + 2 * acc) as u16;
    let m1 = model_after_read(m, 1);
    crate::bit_reader::lemma_model_after_read(m, 1);
    match lookup_val(entries, acc1, (k + 1) as u8) {
        Some(t) => {},
        None => {
            lemma_read_symbol_ok(entries, m1, acc1, k + 1);
        },
    }
}

/// Reading the permuted code lengths leaves a well-formed, no longer stream.
pub proof fn lemma_cl_lengths_mono(m: BitsModel, j: int, hclen: int, arr: Seq<u8>)
    requires
        m.wf(),
        spec_cl_lengths(m, j, hclen, arr) is Ok,
    ensures
        spec_cl_lengths(m, j, hclen, arr)->Ok_0.1.wf(),
        spec_cl_lengths(m, j, hclen, arr)->Ok_0.1.flat().len() <= m.flat().len(),
        spec_cl_lengths(m, j, hclen, arr)->Ok_0.1.bytes.len() <= m.bytes.len(),
    decreases hclen - j,
{
    if j >= hclen {
    } else {
        crate::bit_reader::lemma_model_after_read(m, 3);
        lemma_cl_lengths_mono(
            model_after_read(m, 3),
            j + 1,
            hclen,
            arr.update(clen_order(j), bits_value(m.flat().take(3)) as u8),
        );
    }
}

/// Expanding the run-length encoding leaves a well-formed, no longer stream.
pub proof fn lemma_expand_mono(
    entries: Seq<(BitSequence, TreeCodeToken)>,
    m: BitsModel,
    acc: Seq<u8>,
    total: int,
)
    requires
        m.wf(),
        spec_expand(entries, m, acc, total) is Ok,
    ensures
        spec_expand(entries, m, acc, total)->Ok_0.1.wf(),
        spec_expand(entries, m, acc, total)->Ok_0.1.flat().len() <= m.flat().len(),
        spec_expand(entries, m, acc, total)->Ok_0.1.bytes.len() <= m.bytes.len(),
    decreases total - acc.len(),
{
    if acc.len() >= total {
    } else {
        match spec_read_symbol(entries, m) {
            Err(e) => {},
            Ok((tok, m1)) => {
                lemma_read_symbol_ok(entries, m, 0, 0);
                match tok {
                    TreeCodeToken::Length(l) => {
                        lemma_expand_mono(entries, m1, acc.push(l), total);
                    },
                    TreeCodeToken::CopyPrev => {
                        let cnt = 3 + bits_value(m1.flat().take(2));
                        let m2 = model_after_read(m1, 2);
                        crate::bit_reader::lemma_model_after_read_mono(m1, 2);
                        if m1.flat().len() >= 2 && acc.len() > 0 && acc.len() + cnt <= total {
                            lemma_expand_mono(
                                entries,
                                m2,
                                acc + repeat_len(acc.last(), cnt as int),
                                total,
                            );
                        }
                    },
                    TreeCodeToken::RepeatZero { base, extra_bits } => {
                        let cnt = base + bits_value(m1.flat().take(extra_bits as int));
                        let m2 = model_after_read(m1, extra_bits as int);
                        crate::bit_reader::lemma_model_after_read_mono(m1, extra_bits as int);
                        if m1.flat().len() >= extra_bits && cnt != 0 && acc.len() + cnt <= total {
                            lemma_expand_mono(entries, m2, acc + repeat_len(0, cnt as int), total);
                        }
                    },
                }
            },
        }
    }
}

/// Reading a dynamic block's tree description leaves a well-formed, no
/// longer stream.
pub proof fn lemma_decode_trees_mono(m: BitsModel)
    requires
        m.wf(),
        spec_decode_trees(m) is Ok,
    ensures
        spec_decode_trees(m)->Ok_0.1.wf(),
        spec_decode_trees(m)->Ok_0.1.flat().len() <= m.flat().len(),
        spec_decode_trees(m)->Ok_0.1.bytes.len() <= m.bytes.len(),
{
    let m1 = model_after_read(m, 5);
    crate::bit_reader::lemma_model_after_read(m, 5);
    let m2 = model_after_read(m1, 5);
    crate::bit_reader::lemma_model_after_read(m1, 5);
    let m3 = model_after_read(m2, 4);
    crate::bit_reader::lemma_model_after_read(m2, 4);
    let hclen = 4 + bits_value(m2.flat().take(4));
    lemma_cl_lengths_mono(m3, 0, hclen as int, repeat_len(0, 19));
    let cl = spec_cl_lengths(m3, 0, hclen as int, repeat_len(0, 19));
    match cl {
        Err(e) => {},
        Ok((cl_arr, m4)) => {
            let hlit = 257 + bits_value(m.flat().take(5));
            let hdist = 1 + bits_value(m1.flat().take(5));
            if can_build::<TreeCodeToken>(cl_arr) {
                lemma_expand_mono(
                    canonical_entries::<TreeCodeToken>(cl_arr, 19),
                    m4,
                    Seq::empty(),
                    hlit as int + hdist as int,
                );
            }
        },
    }
}

/// What a literal/length token can be: a match length has a base of at most
/// 258 and at most five extra bits.
pub proof fn lemma_litlen_token_shape(
    lengths: Seq<u8>,
    upto: int,
    bits: u16,
    len: u8,
    t: LitLenToken,
)
    requires
        upto <= lengths.len(),
        tokens_ok::<LitLenToken>(lengths),
        lookup_val(canonical_entries::<LitLenToken>(lengths, upto), bits, len) == Some(t),
    ensures
        t is Length ==> 3 <= t->Length_base <= 258 && t->Length_extra_bits <= 5,
{
    let entries = canonical_entries::<LitLenToken>(lengths, upto);
    lemma_lookup_in_entries(entries, bits, len);
    let j = choose|j: int| 0 <= j < entries.len() && entries[j].1 == t;
    lemma_canonical_entry_token::<LitLenToken>(lengths, upto, j);
}

/// What a distance token can be: a base between one and 24577 and at most
/// thirteen extra bits.
pub proof fn lemma_distance_token_shape(
    lengths: Seq<u8>,
    upto: int,
    bits: u16,
    len: u8,
    t: DistanceToken,
)
    requires
        upto <= lengths.len(),
        tokens_ok::<DistanceToken>(lengths),
        lookup_val(canonical_entries::<DistanceToken>(lengths, upto), bits, len) == Some(t),
    ensures
        1 <= t.base <= 24577,
        t.extra_bits <= 13,
{
    let entries = canonical_entries::<DistanceToken>(lengths, upto);
    lemma_lookup_in_entries(entries, bits, len);
    let j = choose|j: int| 0 <= j < entries.len() && entries[j].1 == t;
    lemma_canonical_entry_token::<DistanceToken>(lengths, upto, j);
    let w = choose|w: u16| DistanceToken::spec_from_word(w) == Some(entries[j].1);
    assert(w < 30);
    let e = spec_dist_extra(w);
    assert(0 <= e <= 13);
    crate::bit_reader::lemma_pow2n_u16((e + 1) as nat);
    crate::bit_reader::lemma_pow2n_u16(e as nat);
    assert(pow2n((e + 1) as nat) <= 16384 && pow2n(e as nat) <= 8192) by {
        lemma_pow2n_mono((e + 1) as nat, 14);
        lemma_pow2n_mono(e as nat, 13);
        crate::bit_reader::lemma_pow2n_u16(14);
        crate::bit_reader::lemma_pow2n_u16(13);
        assert((1u16 << 14u16) == 16384 && (1u16 << 13u16) == 8192) by (bit_vector);
    }
    if w >= 2 {
        if w % 2 == 0 {
            assert((w % 2) * pow2n(e as nat) == 0);
        } else {
            assert(w % 2 == 1);
            assert((w % 2) * pow2n(e as nat) == pow2n(e as nat));
        }
        assert(1 <= spec_dist_base(w) <= 24577);
    }
}

/// A position of the fixed code-length permutation.
fn clen_position(j: usize) -> (r: usize)
    requires
        j < 19,
    ensures
        r == clen_order(j as int),
        r < 19,
{
    if j == 0 {
        16
    } else if j == 1 {
        17
    } else if j == 2 {
        18
    } else if j == 3 {
        0
    } else if j == 4 {
        8
    } else if j == 5 {
        7
    } else if j == 6 {
        9
    } else if j == 7 {
        6
    } else if j == 8 {
        10
    } else if j == 9 {
        5
    } else if j == 10 {
        11
    } else if j == 11 {
        4
    } else if j == 12 {
        12
    } else if j == 13 {
        3
    } else if j == 14 {
        13
    } else if j == 15 {
        2
    } else if j == 16 {
        14
    } else if j == 17 {
        1
    } else {
        15
    }
}

/// Read the dynamic block's two Huffman codes: the counts, the code-length
/// code in its fixed permutation, and the run-length encoded literal/length
/// and distance code lengths, decoded into two tables.
#[verifier::loop_isolation(false)]
#[verifier::rlimit(100)]
pub fn decode_litlen_distance_trees(bit_reader: &mut BitReader) -> (r: Result<
    (HuffmanCoding<LitLenToken>, HuffmanCoding<DistanceToken>),
    DecodeError,
>)
    requires
        old(bit_reader).wf(),
    ensures
        final(bit_reader).wf(),
        final(bit_reader).model().bytes.len() <= old(bit_reader).model().bytes.len(),
        final(bit_reader).model().flat().len() <= old(bit_reader).model().flat().len(),
        spec_decode_trees(old(bit_reader).model()) is Err ==> r is Err && r->Err_0
            == spec_decode_trees(old(bit_reader).model())->Err_0,
        spec_decode_trees(old(bit_reader).model()) is Ok ==> {
            let ll = spec_decode_trees(old(bit_reader).model())->Ok_0.0.0;
            let dd = spec_decode_trees(old(bit_reader).model())->Ok_0.0.1;
            let mf = spec_decode_trees(old(bit_reader).model())->Ok_0.1;
            &&& (can_build::<LitLenToken>(ll) && can_build::<DistanceToken>(dd)) ==> r is Ok
                && final(bit_reader).model() == mf && r->Ok_0.0.spec_entries()
                == canonical_entries::<LitLenToken>(ll, ll.len() as int) && r->Ok_0.1.spec_entries()
                == canonical_entries::<DistanceToken>(dd, dd.len() as int)
            &&& !(can_build::<LitLenToken>(ll) && can_build::<DistanceToken>(dd)) ==> r is Err
                && r->Err_0 == DecodeError::InvalidHuffmanCode
        },
{
    let ghost m0 = bit_reader.model();
    let b_hlit = match bit_reader.read_bits(5) {
        Ok(b) => b,
        Err(e) => {
            return Err(e);
        },
    };
    proof {
        lemma_small_value(b_hlit.spec_bits(), 5);
    }
    let num_litlen: u16 = b_hlit.bits() + 257;
    let b_hdist = match bit_reader.read_bits(5) {
        Ok(b) => b,
        Err(e) => {
            return Err(e);
        },
    };
    proof {
        lemma_small_value(b_hdist.spec_bits(), 5);
    }
    let num_distance: u16 = b_hdist.bits() + 1;
    let b_hclen = match bit_reader.read_bits(4) {
        Ok(b) => b,
        Err(e) => {
            return Err(e);
        },
    };
    proof {
        lemma_small_value(b_hclen.spec_bits(), 4);
    }
    let num_clen: u16 = b_hclen.bits() + 4;
    let ghost sd = spec_decode_trees(m0);
    let mut code_lengths: Vec<u8> = vec![
        0, 0, 0, 0, 0, 0, 0, 0, 0, 0, 0, 0, 0, 0, 0, 0, 0, 0, 0];
    proof {
        assert(code_lengths@ =~= repeat_len(0, 19));
    }
    let ghost m3 = bit_reader.model();
    let mut j: usize = 0;
    while j < num_clen as usize
        invariant
            bit_reader.wf(),
            bit_reader.model().bytes.len() <= m0.bytes.len(),
            bit_reader.model().flat().len() <= m0.flat().len(),
            j <= num_clen as usize,
            num_clen <= 19,
            code_lengths@.len() == 19,
            spec_cl_lengths(m3, 0, num_clen as int, repeat_len(0, 19)) == spec_cl_lengths(
                bit_reader.model(),
                j as int,
                num_clen as int,
                code_lengths@,
            ),
        decreases num_clen as int - j,
    {
        let ghost arr_before = code_lengths@;
        let ghost m_before = bit_reader.model();
        let b = match bit_reader.read_bits(3) {
            Ok(b) => b,
            Err(e) => {
                return Err(e);
            },
        };
        proof {
            lemma_small_value(b.spec_bits(), 3);
        }
        let pos = clen_position(j);
        code_lengths[pos] = b.bits() as u8;
        j = j + 1;
        proof {
            assert(code_lengths@ =~= arr_before.update(
                clen_order(j as int - 1),
                bits_value(m_before.flat().take(3)) as u8,
            ));
        }
    }
    let ghost cl_arr = code_lengths@;
    let ghost m4 = bit_reader.model();
    proof {
        assert(spec_cl_lengths(m3, 0, num_clen as int, repeat_len(0, 19)) == Ok::<
            (Seq<u8>, BitsModel),
            DecodeError,
        >((cl_arr, m4)));
    }
    let tree_code = match HuffmanCoding::<TreeCodeToken>::from_lengths(code_lengths.as_slice()) {
        Ok(t) => t,
        Err(e) => {
            return Err(e);
        },
    };
    let total: usize = num_litlen as usize + num_distance as usize;
    let ghost tree_entries = tree_code.spec_entries();
    let ghost m_start = bit_reader.model();
    let mut lengths: Vec<u8> = Vec::new();
    while lengths.len() < total
        invariant
            bit_reader.wf(),
            bit_reader.model().bytes.len() <= m0.bytes.len(),
            bit_reader.model().flat().len() <= m0.flat().len(),
            lengths@.len() <= total,
            tree_entries == canonical_entries::<TreeCodeToken>(cl_arr, 19),
            can_build::<TreeCodeToken>(cl_arr),
            cl_arr.len() == 19,
            spec_expand(tree_entries, m_start, Seq::empty(), total as int) == spec_expand(
                tree_entries,
                bit_reader.model(),
                lengths@,
                total as int,
            ),
        decreases total - lengths@.len(),
    {
        let ghost m_sym = bit_reader.model();
        let ghost acc_before = lengths@;
        let tok = match tree_code.read_symbol(bit_reader) {
            Ok(t) => t,
            Err(e) => {
                return Err(e);
            },
        };
        match tok {
            TreeCodeToken::Length(l) => {
                lengths.push(l);
                proof {
                    assert(lengths@ =~= acc_before.push(l));
                }
            },
            TreeCodeToken::CopyPrev => {
                let ghost m1 = bit_reader.model();
                let b2 = match bit_reader.read_bits(2) {
                    Ok(b) => b,
                    Err(e) => {
                        return Err(e);
                    },
                };
                if lengths.len() == 0 {
                    return Err(DecodeError::InvalidHuffmanCode);
                }
                let last = lengths[lengths.len() - 1];
                proof {
                    lemma_small_value(b2.spec_bits(), 2);
                }
                let cnt: u16 = b2.bits() + 3;
                if lengths.len() + cnt as usize > total {
                    return Err(DecodeError::InvalidHuffmanCode);
                }
                let mut c: usize = 0;
                while c < cnt as usize
                    invariant
                        c <= cnt as usize,
                        acc_before.len() + cnt as int <= total,
                        lengths@ == acc_before + repeat_len(last, c as int),
                    decreases cnt as int - c,
                {
                    lengths.push(last);
                    c = c + 1;
                    proof {
                        assert(lengths@ =~= acc_before + repeat_len(last, c as int));
                    }
                }
            },
            TreeCodeToken::RepeatZero { base, extra_bits } => {
                proof {
                    lemma_read_symbol_token(tree_entries, m_sym, 0, 0);
                    let (bb, ll) = choose|bb: u16, ll: u8|
                        lookup_val(tree_entries, bb, ll) == Some(tok);
                    lemma_tree_token_shape(cl_arr, 19, bb, ll, tok);
                }
                let b3 = match bit_reader.read_bits(extra_bits) {
                    Ok(b) => b,
                    Err(e) => {
                        return Err(e);
                    },
                };
                proof {
                    lemma_small_value(b3.spec_bits(), extra_bits as u16);
                }
                let cnt: u16 = base + b3.bits();
                if lengths.len() + cnt as usize > total {
                    return Err(DecodeError::InvalidHuffmanCode);
                }
                let mut c: usize = 0;
                while c < cnt as usize
                    invariant
                        c <= cnt as usize,
                        acc_before.len() + cnt as int <= total,
                        lengths@ == acc_before + repeat_len(0, c as int),
                    decreases cnt as int - c,
                {
                    lengths.push(0);
                    c = c + 1;
                    proof {
                        assert(lengths@ =~= acc_before + repeat_len(0, c as int));
                    }
                }
            },
        }
    }
    let ghost lens = lengths@;
    let ghost m5 = bit_reader.model();
    proof {
        assert(spec_expand(tree_entries, m_start, Seq::empty(), total as int) == Ok::<
            (Seq<u8>, BitsModel),
            DecodeError,
        >((lens, m5)));
    }
    let whole = lengths.as_slice();
    let lit_slice = vstd::slice::slice_subrange(whole, 0, num_litlen as usize);
    let dist_slice = vstd::slice::slice_subrange(whole, num_litlen as usize, total);
    proof {
        assert(lit_slice@ =~= lens.take(num_litlen as int));
        assert(dist_slice@ =~= lens.skip(num_litlen as int));
    }
    let lit_code = match HuffmanCoding::<LitLenToken>::from_lengths(lit_slice) {
        Ok(t) => t,
        Err(e) => {
            return Err(e);
        },
    };
    let dist_code = match HuffmanCoding::<DistanceToken>::from_lengths(dist_slice) {
        Ok(t) => t,
        Err(e) => {
            return Err(e);
        },
    };
    Ok((lit_code, dist_code))
}


proof fn lemma_count_len_mono(lengths: Seq<u8>, l: int, a: int, b: int)
    requires
        0 <= a <= b <= lengths.len(),
    ensures
        count_len(lengths.take(a), l) <= count_len(lengths.take(b), l),
    decreases b - a,
{
    if a < b {
        lemma_count_len_mono(lengths, l, a, b - 1);
        assert(lengths.take(b).drop_last() =~= lengths.take(b - 1));
    }
}

proof fn lemma_lookup_push<T>(es: Seq<(BitSequence, T)>, e: (BitSequence, T), bits: u16, len: u8)
    ensures
        lookup_val(es.push(e), bits, len) == (match lookup_val(es, bits, len) {
            Some(t) => Some(t),
            None => {
                if e.0.spec_bits() == bits && e.0.spec_len() == len {
                    Some(e.1)
                } else {
                    None
                }
            },
        }),
    decreases es.len(),
{
    if es.len() == 0 {
        assert(es.push(e)[0] == e);
        assert(es.push(e).skip(1) =~= Seq::<(BitSequence, T)>::empty());
        assert(lookup_val(es, bits, len) is None);
        assert(lookup_val(es.push(e).skip(1), bits, len) is None);
    } else {
        lemma_lookup_push(es.skip(1), e, bits, len);
        assert(es.push(e).skip(1) =~= es.skip(1).push(e));
        assert(es.push(e)[0] == es[0]);
        assert(lookup_val(es.push(e), bits, len) == (if es[0].0.spec_bits() == bits
            && es[0].0.spec_len() == len {
            Some(es[0].1)
        } else {
            lookup_val(es.skip(1).push(e), bits, len)
        }));
    }
}

/// Two distinct coded symbols never share a key: equal lengths get strictly
/// increasing codes, other lengths differ in the key's length field.
proof fn lemma_code_distinct(lengths: Seq<u8>, i: int, j: int)
    requires
        0 <= j < i < lengths.len(),
        lengths[i] > 0,
        lengths[j] > 0,
        lengths[j] == lengths[i],
    ensures
        code_of(lengths, j) < code_of(lengths, i),
{
    let l = lengths[i] as int;
    lemma_count_len_mono(lengths, l, j + 1, i);
    assert(lengths.take(j + 1).drop_last() =~= lengths.take(j));
    assert(lengths.take(j + 1).last() == lengths[j]);
}

proof fn lemma_lookup_canonical_none<T: CodeToken>(lengths: Seq<u8>, upto: int, i: int)
    requires
        codes_fit(lengths),
        0 <= upto <= i < lengths.len(),
        lengths[i] > 0,
        code_of(lengths, i) < 65536,
    ensures
        lookup_val(
            canonical_entries::<T>(lengths, upto),
            code_of(lengths, i) as u16,
            lengths[i],
        ) is None,
    decreases upto,
{
    if upto > 0 {
        let rest = canonical_entries::<T>(lengths, upto - 1);
        lemma_lookup_canonical_none::<T>(lengths, upto - 1, i);
        if lengths[upto - 1] != 0 {
            let e = (
                make_bit_sequence(code_of(lengths, upto - 1) as u16, lengths[upto - 1]),
                T::spec_from_word((upto - 1) as u16)->Some_0,
            );
            lemma_make_bit_sequence(code_of(lengths, upto - 1) as u16, lengths[upto - 1]);
            lemma_lookup_push(rest, e, code_of(lengths, i) as u16, lengths[i]);
            if lengths[upto - 1] == lengths[i] {
                lemma_code_distinct(lengths, i, upto - 1);
            }
        }
    }
}

/// Building the canonical code and then looking a symbol up at its canonical
/// position round-trips: for every symbol with a nonzero length, the table
/// maps the key made of its canonical code and its length back to exactly
/// that symbol's token.
pub proof fn lemma_canonical_round_trip<T: CodeToken>(lengths: Seq<u8>, upto: int, i: int)
    requires
        can_build::<T>(lengths),
        0 <= i < upto <= lengths.len(),
        lengths[i] > 0,
    ensures
        lookup_val(
            canonical_entries::<T>(lengths, upto),
            code_of(lengths, i) as u16,
            lengths[i],
        ) == Some(T::spec_from_word(i as u16)->Some_0),
    decreases upto,
{
    crate::bit_reader::lemma_pow2n_u16(lengths[i] as nat);
    lemma_pow2n_mono(lengths[i] as nat, 15);
    crate::bit_reader::lemma_pow2n_u16(15);
    assert(code_of(lengths, i) < 65536);
    let rest = canonical_entries::<T>(lengths, upto - 1);
    if lengths[upto - 1] == 0 {
        lemma_canonical_round_trip::<T>(lengths, upto - 1, i);
    } else {
        let e = (
            make_bit_sequence(code_of(lengths, upto - 1) as u16, lengths[upto - 1]),
            T::spec_from_word((upto - 1) as u16)->Some_0,
        );
        lemma_make_bit_sequence(code_of(lengths, upto - 1) as u16, lengths[upto - 1]);
        lemma_lookup_push(rest, e, code_of(lengths, i) as u16, lengths[i]);
        if i == upto - 1 {
            lemma_lookup_canonical_none::<T>(lengths, upto - 1, i);
        } else {
            lemma_canonical_round_trip::<T>(lengths, upto - 1, i);
        }
    }
}


/// A key the table answers to is some symbol's canonical code.
proof fn lemma_lookup_key_is_code<T: CodeToken>(lengths: Seq<u8>, upto: int, b: u16, l: u8)
    requires
        0 <= upto,
        lookup_val(canonical_entries::<T>(lengths, upto), b, l) is Some,
    ensures
        exists|j: int|
            0 <= j < upto && lengths[j] > 0 && lengths[j] == l && code_of(lengths, j) as u16 == b,
    decreases upto,
{
    if upto > 0 {
        let rest = canonical_entries::<T>(lengths, upto - 1);
        if lengths[upto - 1] == 0 {
            lemma_lookup_key_is_code::<T>(lengths, upto - 1, b, l);
        } else {
            let e = (
                make_bit_sequence(code_of(lengths, upto - 1) as u16, lengths[upto - 1]),
                T::spec_from_word((upto - 1) as u16)->Some_0,
            );
            lemma_make_bit_sequence(code_of(lengths, upto - 1) as u16, lengths[upto - 1]);
            lemma_lookup_push(rest, e, b, l);
            if lookup_val(rest, b, l) is Some {
                lemma_lookup_key_is_code::<T>(lengths, upto - 1, b, l);
            } else {
                assert(lengths[upto - 1] == l && code_of(lengths, upto - 1) as u16 == b);
            }
        }
    }
}

/// A symbol's rank stays below the total count of its length.
proof fn lemma_rank_lt_count(lengths: Seq<u8>, i: int)
    requires
        0 <= i < lengths.len(),
    ensures
        rank_of(lengths, i) < count_len(lengths, lengths[i] as int),
{
    let l = lengths[i] as int;
    lemma_count_len_mono(lengths, l, i + 1, lengths.len() as int);
    assert(lengths.take(i + 1).drop_last() =~= lengths.take(i));
    assert(lengths.take(i + 1).last() == lengths[i]);
    assert(lengths.take(lengths.len() as int) =~= lengths);
}

/// First codes dominate the shifted code space of every shorter length: the
/// canonical construction places longer codes past all shorter ones, which
/// is what makes the code prefix-free.
proof fn lemma_first_code_dominates(lengths: Seq<u8>, l: int, lp: int)
    requires
        1 <= l < lp,
    ensures
        first_code(lengths, lp) >= pow2n((lp - l) as nat) * (first_code(lengths, l) + count_len(
            lengths,
            l,
        )),
    decreases lp - l,
{
    let x = first_code(lengths, l) + count_len(lengths, l);
    if lp == l + 1 {
        assert(pow2n(0) == 1);
        assert(pow2n(1) == 2);
        assert(first_code(lengths, lp) == x * 2);
        assert(pow2n((lp - l) as nat) * x == 2 * x) by (nonlinear_arith)
            requires
                pow2n((lp - l) as nat) == 2,
        ;
    } else {
        lemma_first_code_dominates(lengths, l, lp - 1);
        let p = pow2n((lp - 1 - l) as nat);
        assert(first_code(lengths, lp) >= 2 * first_code(lengths, lp - 1));
        assert(2 * (p * x) == (2 * p) * x) by (nonlinear_arith);
        assert(first_code(lengths, lp - 1) >= p * x ==> 2 * first_code(lengths, lp - 1) >= 2 * (p
            * x)) by (nonlinear_arith);
        assert(pow2n((lp - l) as nat) == 2 * p);
        assert((2 * p) * x == pow2n((lp - l) as nat) * x) by (nonlinear_arith)
            requires
                pow2n((lp - l) as nat) == 2 * p,
        ;
    }
}

/// The bits of a value beyond a split point are the shifted value's bits.
proof fn lemma_low_bits_shift(v: u16, n: int, m: int)
    requires
        0 <= m <= n <= 15,
        v >> (n as u16) == 0,
    ensures
        low_bits_seq(v, n).skip(m) == low_bits_seq(v >> (m as u16), n - m),
        bits_value(low_bits_seq(v, n).skip(m)) == v >> (m as u16),
{
    assert forall|i: int| 0 <= i < n - m implies low_bits_seq(v, n).skip(m)[i] == low_bits_seq(
        v >> (m as u16),
        n - m,
    )[i] by {
        crate::bit_reader::lemma_shr_bit(v, m as u16, i as u16);
    }
    assert(low_bits_seq(v, n).skip(m) =~= low_bits_seq(v >> (m as u16), n - m));
    crate::bit_reader::lemma_shr_wf(v, n as u16, m as u16);
    crate::bit_reader::lemma_bits_value(v >> (m as u16), n - m);
}

/// Reading a canonical code bit by bit, most significant bit first, matches
/// no shorter code on the way and lands on the coded symbol: the canonical
/// code is prefix-free.
proof fn lemma_read_code_aux<T: CodeToken>(lengths: Seq<u8>, i: int, m: BitsModel, k: int)
    requires
        can_build::<T>(lengths),
        m.wf(),
        0 <= i < lengths.len(),
        lengths[i] > 0,
        0 <= k < lengths[i],
        lengths[i] - k <= m.flat().len(),
        forall|j: int|
            0 <= j < lengths[i] - k ==> m.flat()[j] == low_bits_seq(
                code_of(lengths, i) as u16,
                lengths[i] as int,
            )[lengths[i] - 1 - k - j],
    ensures
        ({
            let r = spec_read_symbol_from(
                canonical_entries::<T>(lengths, lengths.len() as int),
                m,
                (bits_value(
                    low_bits_seq(code_of(lengths, i) as u16, lengths[i] as int).skip(
                        lengths[i] - k,
                    ),
                )) as u16,
                k,
            );
            &&& r is Ok
            &&& r->Ok_0.0 == T::spec_from_word(i as u16)->Some_0
            &&& r->Ok_0.1.wf()
            &&& r->Ok_0.1.flat() == m.flat().skip(lengths[i] - k)
        }),
    decreases lengths[i] - k,
{
    let l = lengths[i] as int;
    let c = code_of(lengths, i);
    crate::bit_reader::lemma_pow2n_u16(lengths[i] as nat);
    lemma_pow2n_mono(lengths[i] as nat, 15);
    crate::bit_reader::lemma_pow2n_u16(15);
    assert(c < pow2n(lengths[i] as nat));
    let c16 = c as u16;
    let lu = lengths[i] as u16;
    assert(c16 >> lu == 0) by (bit_vector)
        requires
            c16 < (1u16 << lu),
            lu <= 15,
    ;
    assert(c16 >> (l as u16) == 0);
    let cbits = low_bits_seq(c16, l);
    let entries = canonical_entries::<T>(lengths, lengths.len() as int);
    let acc = bits_value(cbits.skip(l - k));
    crate::bit_reader::lemma_bits_value_bound(cbits.skip(l - k));
    lemma_pow2n_mono(k as nat, 14);
    crate::bit_reader::lemma_pow2n_u16(14);
    let m1 = model_after_read(m, 1);
    crate::bit_reader::lemma_model_after_read(m, 1);
    let b: u16 = if m.flat()[0] {
        1
    } else {
        0
    };
    assert(m.flat()[0] == cbits[l - 1 - k]);
    let ms = l - k - 1;
    let tail = cbits.skip(ms);
    assert(tail[0] == cbits[l - 1 - k]);
    assert(tail.skip(1) =~= cbits.skip(l - k));
    assert(bits_value(tail) == (if tail[0] {
        1nat
    } else {
        0nat
    }) + 2 * bits_value(cbits.skip(l - k)));
    let acc1 = bits_value(tail);
    crate::bit_reader::lemma_bits_value_bound(tail);
    lemma_pow2n_mono((k + 1) as nat, 15);
    assert(acc1 < pow2n(15));
    assert(acc1 == (b + 2 * ((acc as u16) as nat)) as u16);
    lemma_low_bits_shift(c16, l, ms);
    assert(acc1 == c16 >> (ms as u16));
    if k + 1 == l {
        assert(c16 >> 0u16 == c16) by (bit_vector);
        assert(acc1 == c16);
        lemma_canonical_round_trip::<T>(lengths, lengths.len() as int, i);
        assert(lookup_val(entries, acc1 as u16, (k + 1) as u8) == Some(
            T::spec_from_word(i as u16)->Some_0,
        ));
        assert(m1.flat() =~= m.flat().skip(l - k));
    } else {
        // the strict prefix matches no code of its length
        if lookup_val(entries, acc1 as u16, (k + 1) as u8) is Some {
            lemma_lookup_key_is_code::<T>(lengths, lengths.len() as int, acc1 as u16, (k
                + 1) as u8);
            let j = choose|j: int|
                0 <= j < lengths.len() && lengths[j] > 0 && lengths[j] == (k + 1) as u8 && code_of(
                    lengths,
                    j,
                ) as u16 == acc1 as u16;
            lemma_rank_lt_count(lengths, j);
            lemma_first_code_dominates(lengths, k + 1, l);
            let x = first_code(lengths, k + 1) + count_len(lengths, k + 1);
            let p = pow2n(ms as nat);
            crate::bit_reader::lemma_bits_value(c16, l);
            crate::bit_reader::lemma_bits_value_add(cbits.take(ms), cbits.skip(ms));
            assert(cbits =~= cbits.take(ms) + cbits.skip(ms));
            crate::bit_reader::lemma_bits_value_bound(cbits.take(ms));
            let low = bits_value(cbits.take(ms));
            assert(c == low + p * acc1);
            assert(c >= first_code(lengths, l));
            assert(first_code(lengths, l) >= p * x);
            assert(low < p && low + p * acc1 >= p * x ==> acc1 >= x) by (nonlinear_arith);
            assert(acc1 >= x);
            // yet the matched symbol's code lies below the first unused code
            assert(code_of(lengths, j) < x);
            crate::bit_reader::lemma_pow2n_u16((k + 1) as nat);
            assert(code_of(lengths, j) < pow2n((k + 1) as nat));
            assert(code_of(lengths, j) as u16 == code_of(lengths, j));
            assert(acc1 as u16 == acc1);
            assert(false);
        }
        lemma_read_code_aux::<T>(lengths, i, m1, k + 1);
        assert(m1.flat().skip(l - k - 1) =~= m.flat().skip(l - k));
    }
}

/// Round trip through the wire format: build the canonical code of a length
/// array, then read from a bit stream that begins with some symbol's
/// canonical code, most significant bit first. The reader yields exactly
/// that symbol and consumes exactly its code's bits: no other code is a
/// prefix of it.
pub proof fn lemma_read_symbol_round_trip<T: CodeToken>(lengths: Seq<u8>, i: int, m: BitsModel)
    requires
        can_build::<T>(lengths),
        m.wf(),
        0 <= i < lengths.len(),
        lengths[i] > 0,
        lengths[i] as int <= m.flat().len(),
        forall|j: int|
            0 <= j < lengths[i] ==> m.flat()[j] == low_bits_seq(
                code_of(lengths, i) as u16,
                lengths[i] as int,
            )[lengths[i] - 1 - j],
    ensures
        ({
            let r = spec_read_symbol(canonical_entries::<T>(lengths, lengths.len() as int), m);
            &&& r is Ok
            &&& r->Ok_0.0 == T::spec_from_word(i as u16)->Some_0
            &&& r->Ok_0.1.wf()
            &&& r->Ok_0.1.flat() == m.flat().skip(lengths[i] as int)
        }),
{
    let l = lengths[i] as int;
    let c16 = code_of(lengths, i) as u16;
    let cbits = low_bits_seq(c16, l);
    assert(cbits.skip(l) =~= Seq::<bool>::empty());
    assert(bits_value(Seq::<bool>::empty()) == 0);
    lemma_read_code_aux::<T>(lengths, i, m, 0);
}

} // verus!
