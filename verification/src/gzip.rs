use vstd::prelude::*;

use crate::byte_reader::{le16, le32, zero_index, ByteReader};
use crate::errors::DecodeError;
use crate::tracking_writer::{crc32_bytes, crc32_of};

verus! {

pub const ID1: u8 = 0x1f;

pub const ID2: u8 = 0x8b;

pub const CM_DEFLATE: u8 = 8;

pub const FTEXT_OFFSET: u8 = 0;

pub const FHCRC_OFFSET: u8 = 1;

pub const FEXTRA_OFFSET: u8 = 2;

pub const FNAME_OFFSET: u8 = 3;

pub const FCOMMENT_OFFSET: u8 = 4;

/// Bit `n` of a flags byte.
pub open spec fn flag_bit(v: u8, n: u8) -> bool {
    n < 8 && ((v >> n) & 1) == 1
}

proof fn lemma_flag_set_bit(v: u8, n: u8, k: u8, value: bool)
    by (bit_vector)
    requires
        n < 8,
        k < 8,
    ensures
        value && k == n ==> ((v | (1u8 << n)) >> k) & 1 == 1,
        value && k != n ==> ((v | (1u8 << n)) >> k) & 1 == (v >> k) & 1,
        !value && k == n ==> ((v & !(1u8 << n)) >> k) & 1 == 0,
        !value && k != n ==> ((v & !(1u8 << n)) >> k) & 1 == (v >> k) & 1,
{
}

/// A byte equals the weighted sum of its bits.
proof fn lemma_byte_of_bits(v: u8)
    by (bit_vector)
    ensures
        v == ((v >> 0u8) & 1) + 2 * ((v >> 1u8) & 1) + 4 * ((v >> 2u8) & 1) + 8 * ((v >> 3u8) & 1)
            + 16 * ((v >> 4u8) & 1) + 32 * ((v >> 5u8) & 1) + 64 * ((v >> 6u8) & 1) + 128 * ((v
            >> 7u8) & 1),
        (v >> 0u8) & 1 <= 1 && (v >> 1u8) & 1 <= 1 && (v >> 2u8) & 1 <= 1 && (v >> 3u8) & 1 <= 1
            && (v >> 4u8) & 1 <= 1 && (v >> 5u8) & 1 <= 1 && (v >> 6u8) & 1 <= 1 && (v >> 7u8) & 1
            <= 1,
{
}

/// The header flags byte, bit by bit: FTEXT, FHCRC, FEXTRA, FNAME, FCOMMENT
/// from bit zero up; the reserved bits stay clear.
#[derive(Clone, Copy, Debug, PartialEq, Eq, Structural)]
pub struct MemberFlags(pub u8);

impl MemberFlags {
    fn bit(&self, n: u8) -> (r: bool)
        requires
            n < 8,
        ensures
            r == flag_bit(self.0, n),
    {
        proof {
            let v = self.0;
            assert((v >> n) & 1 == 0 || (v >> n) & 1 == 1) by (bit_vector);
        }
        (self.0 >> n) & 1 != 0
    }

    fn set_bit(&mut self, n: u8, value: bool)
        requires
            n < 8,
        ensures
            forall|k: u8| k < 8 ==> flag_bit(final(self).0, k) == if k == n {
                value
            } else {
                flag_bit(old(self).0, k)
            },
    {
        if value {
            self.0 = self.0 | (1u8 << n);
        } else {
            self.0 = self.0 & !(1u8 << n);
        }
        proof {
            assert forall|k: u8| k < 8 implies flag_bit(self.0, k) == if k == n {
                value
            } else {
                flag_bit(old(self).0, k)
            } by {
                lemma_flag_set_bit(old(self).0, n, k, value);
            }
        }
    }

    pub fn is_text(&self) -> (r: bool)
        ensures
            r == flag_bit(self.0, FTEXT_OFFSET),
    {
        self.bit(FTEXT_OFFSET)
    }

    pub fn set_is_text(&mut self, value: bool)
        ensures
            forall|k: u8| k < 8 ==> flag_bit(final(self).0, k) == if k == FTEXT_OFFSET {
                value
            } else {
                flag_bit(old(self).0, k)
            },
    {
        self.set_bit(FTEXT_OFFSET, value)
    }

    pub fn has_crc(&self) -> (r: bool)
        ensures
            r == flag_bit(self.0, FHCRC_OFFSET),
    {
        self.bit(FHCRC_OFFSET)
    }

    pub fn set_has_crc(&mut self, value: bool)
        ensures
            forall|k: u8| k < 8 ==> flag_bit(final(self).0, k) == if k == FHCRC_OFFSET {
                value
            } else {
                flag_bit(old(self).0, k)
            },
    {
        self.set_bit(FHCRC_OFFSET, value)
    }

    pub fn has_extra(&self) -> (r: bool)
        ensures
            r == flag_bit(self.0, FEXTRA_OFFSET),
    {
        self.bit(FEXTRA_OFFSET)
    }

    pub fn set_has_extra(&mut self, value: bool)
        ensures
            forall|k: u8| k < 8 ==> flag_bit(final(self).0, k) == if k == FEXTRA_OFFSET {
                value
            } else {
                flag_bit(old(self).0, k)
            },
    {
        self.set_bit(FEXTRA_OFFSET, value)
    }

    pub fn has_name(&self) -> (r: bool)
        ensures
            r == flag_bit(self.0, FNAME_OFFSET),
    {
        self.bit(FNAME_OFFSET)
    }

    pub fn set_has_name(&mut self, value: bool)
        ensures
            forall|k: u8| k < 8 ==> flag_bit(final(self).0, k) == if k == FNAME_OFFSET {
                value
            } else {
                flag_bit(old(self).0, k)
            },
    {
        self.set_bit(FNAME_OFFSET, value)
    }

    pub fn has_comment(&self) -> (r: bool)
        ensures
            r == flag_bit(self.0, FCOMMENT_OFFSET),
    {
        self.bit(FCOMMENT_OFFSET)
    }

    pub fn set_has_comment(&mut self, value: bool)
        ensures
            forall|k: u8| k < 8 ==> flag_bit(final(self).0, k) == if k == FCOMMENT_OFFSET {
                value
            } else {
                flag_bit(old(self).0, k)
            },
    {
        self.set_bit(FCOMMENT_OFFSET, value)
    }
}

/// The header compression method byte: eight names DEFLATE, all else is
/// unsupported.
#[derive(Clone, Copy, Debug, PartialEq, Eq, Structural)]
pub enum CompressionMethod {
    Deflate,
    Unknown(u8),
}

pub open spec fn spec_method_of(v: u8) -> CompressionMethod {
    if v == 8 {
        CompressionMethod::Deflate
    } else {
        CompressionMethod::Unknown(v)
    }
}

impl CompressionMethod {
    pub fn from_byte(v: u8) -> (r: Self)
        ensures
            r == spec_method_of(v),
    {
        if v == 8 {
            CompressionMethod::Deflate
        } else {
            CompressionMethod::Unknown(v)
        }
    }

    pub fn as_byte(&self) -> (r: u8)
        ensures
            self is Deflate ==> r == 8,
            self is Unknown ==> r == self->Unknown_0,
    {
        match self {
            CompressionMethod::Deflate => 8,
            CompressionMethod::Unknown(v) => *v,
        }
    }
}

/// Everything a member header carries: the method, the timestamp, the
/// optional sections as raw bytes, and the text and header-digest flags.
#[derive(Debug)]
pub struct MemberHeader {
    pub compression_method: CompressionMethod,
    pub modification_time: u32,
    pub extra: Option<Vec<u8>>,
    pub name: Option<Vec<u8>>,
    pub comment: Option<Vec<u8>>,
    pub extra_flags: u8,
    pub os: u8,
    pub has_crc: bool,
    pub is_text: bool,
}

pub open spec fn opt_bytes_view(o: Option<Vec<u8>>) -> Option<Seq<u8>> {
    match o {
        Option::None => Option::None,
        Option::Some(v) => Option::Some(v@),
    }
}

/// The flags byte a header serializes to.
pub open spec fn spec_flags_byte(h: MemberHeader) -> u8 {
    ((if h.is_text {
        1int
    } else {
        0int
    }) + (if h.has_crc {
        2int
    } else {
        0int
    }) + (if h.extra is Some {
        4int
    } else {
        0int
    }) + (if h.name is Some {
        8int
    } else {
        0int
    }) + (if h.comment is Some {
        16int
    } else {
        0int
    })) as u8
}

/// The little-endian bytes of a 32-bit value.
pub open spec fn le32_bytes(v: u32) -> Seq<u8> {
    seq![
        (v % 256) as u8,
        ((v / 256) % 256) as u8,
        ((v / 0x1_0000) % 256) as u8,
        ((v / 0x100_0000) % 256) as u8,
    ]
}

/// The little-endian bytes of a 16-bit value.
pub open spec fn le16_bytes(v: u16) -> Seq<u8> {
    seq![(v % 256) as u8, ((v / 256) % 256) as u8]
}

/// The bytes a header serializes to, through the optional sections but
/// before any header digest.
pub open spec fn header_bytes_of(h: MemberHeader) -> Seq<u8> {
    seq![ID1, ID2, (if h.compression_method is Deflate { CM_DEFLATE } else { h.compression_method->Unknown_0 }), spec_flags_byte(h)]
        + le32_bytes(h.modification_time) + seq![h.extra_flags, h.os] + (match h.extra {
        Option::Some(e) => le16_bytes(e@.len() as u16) + e@,
        Option::None => Seq::empty(),
    }) + (match h.name {
        Option::Some(nm) => nm@ + seq![0u8],
        Option::None => Seq::empty(),
    }) + (match h.comment {
        Option::Some(cm) => cm@ + seq![0u8],
        Option::None => Seq::empty(),
    })
}

impl MemberHeader {
    /// The low sixteen bits of the CRC-32 digest of the serialized header,
    /// as the FHCRC field stores them.
    #[verifier::rlimit(100)]
    pub fn crc16(&self) -> (r: u16)
        requires
            self.extra is Some ==> self.extra->0@.len() <= 65535,
        ensures
            r == (crc32_of(header_bytes_of(*self)) & 0xffff) as u16,
    {
        let mut bytes: Vec<u8> = Vec::new();
        bytes.push(ID1);
        bytes.push(ID2);
        bytes.push(self.compression_method.as_byte());
        bytes.push(self.flags().0);
        let mt = self.modification_time;
        bytes.push((mt % 256) as u8);
        bytes.push(((mt / 256) % 256) as u8);
        bytes.push(((mt / 0x1_0000) % 256) as u8);
        bytes.push(((mt / 0x100_0000) % 256) as u8);
        bytes.push(self.extra_flags);
        bytes.push(self.os);
        match &self.extra {
            Option::Some(e) => {
                let xl: u16 = e.len() as u16;
                bytes.push((xl % 256) as u8);
                bytes.push(((xl / 256) % 256) as u8);
                let mut i: usize = 0;
                let ghost base = bytes@;
                while i < e.len()
                    invariant
                        i <= e@.len(),
                        bytes@ == base + e@.take(i as int),
                    decreases e@.len() - i,
                {
                    bytes.push(e[i]);
                    i = i + 1;
                    proof {
                        assert(bytes@ =~= base + e@.take(i as int));
                    }
                }
                proof {
                    assert(e@.take(e@.len() as int) =~= e@);
                }
            },
            Option::None => {},
        }
        match &self.name {
            Option::Some(nm) => {
                let mut i: usize = 0;
                let ghost base = bytes@;
                while i < nm.len()
                    invariant
                        i <= nm@.len(),
                        bytes@ == base + nm@.take(i as int),
                    decreases nm@.len() - i,
                {
                    bytes.push(nm[i]);
                    i = i + 1;
                    proof {
                        assert(bytes@ =~= base + nm@.take(i as int));
                    }
                }
                bytes.push(0);
                proof {
                    assert(nm@.take(nm@.len() as int) =~= nm@);
                }
            },
            Option::None => {},
        }
        match &self.comment {
            Option::Some(cm) => {
                let mut i: usize = 0;
                let ghost base = bytes@;
                while i < cm.len()
                    invariant
                        i <= cm@.len(),
                        bytes@ == base + cm@.take(i as int),
                    decreases cm@.len() - i,
                {
                    bytes.push(cm[i]);
                    i = i + 1;
                    proof {
                        assert(bytes@ =~= base + cm@.take(i as int));
                    }
                }
                bytes.push(0);
                proof {
                    assert(cm@.take(cm@.len() as int) =~= cm@);
                }
            },
            Option::None => {},
        }
        proof {
            assert(bytes@ =~= header_bytes_of(*self));
        }
        (crc32_bytes(bytes.as_slice()) & 0xffff) as u16
    }

    /// The flags byte this header serializes to.
    pub fn flags(&self) -> (r: MemberFlags)
        ensures
            r.0 == spec_flags_byte(*self),
            flag_bit(r.0, FTEXT_OFFSET) == self.is_text,
            flag_bit(r.0, FHCRC_OFFSET) == self.has_crc,
            flag_bit(r.0, FEXTRA_OFFSET) == (self.extra is Some),
            flag_bit(r.0, FNAME_OFFSET) == (self.name is Some),
            flag_bit(r.0, FCOMMENT_OFFSET) == (self.comment is Some),
    {
        let mut flags = MemberFlags(0);
        proof {
            lemma_byte_of_bits(0);
        }
        flags.set_is_text(self.is_text);
        flags.set_has_crc(self.has_crc);
        flags.set_has_extra(self.extra.is_some());
        flags.set_has_name(self.name.is_some());
        flags.set_has_comment(self.comment.is_some());
        proof {
            lemma_byte_of_bits(flags.0);
            assert(flag_bit(0u8, 0) == false && flag_bit(0u8, 1) == false && flag_bit(0u8, 2)
                == false && flag_bit(0u8, 3) == false && flag_bit(0u8, 4) == false && flag_bit(
                0u8,
                5,
            ) == false && flag_bit(0u8, 6) == false && flag_bit(0u8, 7) == false) by (bit_vector);
            let v = flags.0;
            assert(flag_bit(v, 0) == self.is_text && flag_bit(v, 1) == self.has_crc && flag_bit(
                v,
                2,
            ) == (self.extra is Some) && flag_bit(v, 3) == (self.name is Some) && flag_bit(v, 4)
                == (self.comment is Some));
            assert(!flag_bit(v, 5) && !flag_bit(v, 6) && !flag_bit(v, 7));
            assert((v >> 0u8) & 1 == (if self.is_text {
                1u8
            } else {
                0u8
            }));
            assert((v >> 1u8) & 1 == (if self.has_crc {
                1u8
            } else {
                0u8
            }));
            assert((v >> 2u8) & 1 == (if self.extra is Some {
                1u8
            } else {
                0u8
            }));
            assert((v >> 3u8) & 1 == (if self.name is Some {
                1u8
            } else {
                0u8
            }));
            assert((v >> 4u8) & 1 == (if self.comment is Some {
                1u8
            } else {
                0u8
            }));
            assert((v >> 5u8) & 1 == 0 && (v >> 6u8) & 1 == 0 && (v >> 7u8) & 1 == 0);
            assert(v == spec_flags_byte(*self));
        }
        flags
    }
}

/// The member trailer: the digest and the size of the uncompressed data.
#[derive(Clone, Copy, Debug, PartialEq, Eq, Structural)]
pub struct MemberFooter {
    pub data_crc32: u32,
    pub data_size: u32,
}

/// What parsing a member header yields, stated over the raw byte stream.
pub struct HeaderShape {
    pub mtime: u32,
    pub extra: Option<Seq<u8>>,
    pub name: Option<Seq<u8>>,
    pub comment: Option<Seq<u8>>,
    pub extra_flags: u8,
    pub os: u8,
    pub has_crc: bool,
    pub is_text: bool,
}

/// Parsing a member header from the front of `s`: the fixed ten bytes, then
/// the optional extra, name, comment and header-digest sections in that
/// order. The result carries the parsed fields and how many bytes the header
/// occupies.
pub open spec fn spec_parse_header(s: Seq<u8>) -> Result<(HeaderShape, int), DecodeError> {
    if s.len() < 10 {
        Err(DecodeError::UnexpectedEof)
    } else if s[0] != ID1 || s[1] != ID2 {
        Err(DecodeError::InvalidMagic)
    } else if s[2] != CM_DEFLATE {
        Err(DecodeError::UnsupportedCompressionMethod)
    } else {
        let flags = s[3];
        if flag_bit(flags, FEXTRA_OFFSET) && s.len() < 12 {
            Err(DecodeError::UnexpectedEof)
        } else {
            let xlen = le16(s[10], s[11]) as int;
            let p1: int = if flag_bit(flags, FEXTRA_OFFSET) {
                12 + xlen
            } else {
                10
            };
            if flag_bit(flags, FEXTRA_OFFSET) && s.len() < p1 {
                Err(DecodeError::UnexpectedEof)
            } else {
                let extra: Option<Seq<u8>> = if flag_bit(flags, FEXTRA_OFFSET) {
                    Option::Some(s.subrange(12, p1))
                } else {
                    Option::None
                };
                if flag_bit(flags, FNAME_OFFSET) && !s.skip(p1).contains(0u8) {
                    Err(DecodeError::UnexpectedEof)
                } else {
                    let name: Option<Seq<u8>> = if flag_bit(flags, FNAME_OFFSET) {
                        Option::Some(s.skip(p1).take(zero_index(s.skip(p1))))
                    } else {
                        Option::None
                    };
                    let p2: int = if flag_bit(flags, FNAME_OFFSET) {
                        p1 + zero_index(s.skip(p1)) + 1
                    } else {
                        p1
                    };
                    if flag_bit(flags, FCOMMENT_OFFSET) && !s.skip(p2).contains(0u8) {
                        Err(DecodeError::UnexpectedEof)
                    } else {
                        let comment: Option<Seq<u8>> = if flag_bit(flags, FCOMMENT_OFFSET) {
                            Option::Some(s.skip(p2).take(zero_index(s.skip(p2))))
                        } else {
                            Option::None
                        };
                        let p3: int = if flag_bit(flags, FCOMMENT_OFFSET) {
                            p2 + zero_index(s.skip(p2)) + 1
                        } else {
                            p2
                        };
                        if flag_bit(flags, FHCRC_OFFSET) && s.len() < p3 + 2 {
                            Err(DecodeError::UnexpectedEof)
                        } else if flag_bit(flags, FHCRC_OFFSET) && le16(s[p3], s[p3 + 1]) != (
                        crc32_of(s.take(p3)) & 0xffff) {
                            Err(DecodeError::HeaderCrcMismatch)
                        } else {
                            let p4: int = if flag_bit(flags, FHCRC_OFFSET) {
                                p3 + 2
                            } else {
                                p3
                            };
                            Ok(
                                (
                                    HeaderShape {
                                        mtime: le32(s[4], s[5], s[6], s[7]),
                                        extra,
                                        name,
                                        comment,
                                        extra_flags: s[8],
                                        os: s[9],
                                        has_crc: flag_bit(flags, FHCRC_OFFSET),
                                        is_text: flag_bit(flags, FTEXT_OFFSET),
                                    },
                                    p4,
                                ),
                            )
                        }
                    }
                }
            }
        }
    }
}


/// Read an FEXTRA section: a two-byte little-endian length, then that many
/// opaque bytes. The consumed bytes are appended to `raw`.
fn read_extra(reader: &mut ByteReader, raw: &mut Vec<u8>) -> (r: Result<Vec<u8>, DecodeError>)
    requires
        old(reader).wf(),
    ensures
        final(reader).wf(),
        r is Err ==> r == Err::<Vec<u8>, DecodeError>(DecodeError::UnexpectedEof),
        ({
            let rem = old(reader).remaining_bytes();
            &&& (rem.len() >= 2 && rem.len() >= 2 + le16(rem[0], rem[1])) <==> r is Ok
            &&& r is Ok ==> r->Ok_0@ == rem.subrange(2, 2 + le16(rem[0], rem[1]) as int) && final(reader).remaining_bytes() == rem.skip(2 + le16(rem[0], rem[1]) as int) && final(raw)@ == old(
                raw,
            )@ + rem.take(2 + le16(rem[0], rem[1]) as int)
        }),
{
    let ghost rem = reader.remaining_bytes();
    let xl0 = match reader.read_byte() {
        Ok(b) => b,
        Err(e) => {
            return Err(e);
        },
    };
    let xl1 = match reader.read_byte() {
        Ok(b) => b,
        Err(e) => {
            return Err(e);
        },
    };
    let xlen: usize = xl0 as usize + 256 * (xl1 as usize);
    proof {
        assert(reader.remaining_bytes() =~= rem.skip(2));
    }
    let e = match reader.read_exact_vec(xlen) {
        Ok(v) => v,
        Err(e) => {
            return Err(e);
        },
    };
    raw.push(xl0);
    raw.push(xl1);
    let mut i: usize = 0;
    let ghost base = raw@;
    while i < e.len()
        invariant
            i <= e@.len(),
            raw@ == base + e@.take(i as int),
        decreases e@.len() - i,
    {
        raw.push(e[i]);
        i = i + 1;
        proof {
            assert(raw@ =~= base + e@.take(i as int));
        }
    }
    proof {
        assert(e@ =~= rem.subrange(2, 2 + xlen as int));
        assert(reader.remaining_bytes() =~= rem.skip(2 + xlen as int));
        assert(raw@ =~= old(raw)@ + rem.take(2 + xlen as int));
    }
    Ok(e)
}

/// Read bytes through the first zero: the result is the bytes before it,
/// and the consumed bytes, terminator included, are appended to `raw`.
fn read_zero_terminated(reader: &mut ByteReader, raw: &mut Vec<u8>) -> (r: Result<
    Vec<u8>,
    DecodeError,
>)
    requires
        old(reader).wf(),
    ensures
        final(reader).wf(),
        r is Err ==> r == Err::<Vec<u8>, DecodeError>(DecodeError::UnexpectedEof),
        ({
            let rem = old(reader).remaining_bytes();
            &&& rem.contains(0u8) <==> r is Ok
            &&& r is Ok ==> r->Ok_0@ == rem.take(zero_index(rem)) && final(reader).remaining_bytes() == rem.skip(zero_index(rem) + 1) && final(raw)@ == old(raw)@
                + rem.take(zero_index(rem) + 1)
        }),
{
    let ghost rem = reader.remaining_bytes();
    let nm = match reader.read_until_zero() {
        Ok(v) => v,
        Err(e) => {
            return Err(e);
        },
    };
    let mut i: usize = 0;
    let ghost base = raw@;
    while i < nm.len()
        invariant
            i <= nm@.len(),
            raw@ == base + nm@.take(i as int),
        decreases nm@.len() - i,
    {
        raw.push(nm[i]);
        i = i + 1;
        proof {
            assert(raw@ =~= base + nm@.take(i as int));
        }
    }
    raw.push(0);
    proof {
        rem.index_of_first_ensures(0u8);
        assert(rem[zero_index(rem)] == 0u8);
        assert(nm@.take(nm@.len() as int) =~= nm@);
        assert(raw@ =~= old(raw)@ + rem.take(zero_index(rem) + 1));
    }
    Ok(nm)
}

/// A parsed header occupies at least its ten fixed bytes and lies within
/// the stream.
pub proof fn lemma_parse_header_consumed(s: Seq<u8>)
    requires
        spec_parse_header(s) is Ok,
    ensures
        10 <= spec_parse_header(s)->Ok_0.1 <= s.len(),
{
    let flags = s[3];
    let p1: int = if flag_bit(flags, FEXTRA_OFFSET) {
        12 + le16(s[10], s[11]) as int
    } else {
        10
    };
    if flag_bit(flags, FNAME_OFFSET) {
        s.skip(p1).index_of_first_ensures(0u8);
    }
    let p2: int = if flag_bit(flags, FNAME_OFFSET) {
        p1 + zero_index(s.skip(p1)) + 1
    } else {
        p1
    };
    if flag_bit(flags, FCOMMENT_OFFSET) {
        s.skip(p2).index_of_first_ensures(0u8);
    }
}

/// Reads gzip members from a byte stream, one header at a time.
pub struct GzipReader {
    reader: ByteReader,
}

impl GzipReader {
    pub closed spec fn remaining(&self) -> Seq<u8> {
        self.reader.remaining_bytes()
    }

    pub closed spec fn wf(&self) -> bool {
        self.reader.wf()
    }

    pub fn new(reader: ByteReader) -> (r: Self)
        requires
            reader.wf(),
        ensures
            r.wf(),
            r.remaining() == reader.remaining_bytes(),
    {
        GzipReader { reader }
    }

    /// Read the ten fixed header bytes of the next member. Yields nothing at
    /// a clean end of input; a shorter remnant is a truncated stream.
    pub fn read_header(&mut self) -> (r: Option<Result<Vec<u8>, DecodeError>>)
        requires
            old(self).wf(),
        ensures
            final(self).wf(),
            old(self).remaining().len() == 0 <==> r is None,
            r is None ==> *final(self) == *old(self),
            0 < old(self).remaining().len() < 10 ==> r == Some(
                Err::<Vec<u8>, DecodeError>(DecodeError::UnexpectedEof),
            ) && *final(self) == *old(self),
            old(self).remaining().len() >= 10 ==> r is Some && r->0 is Ok && r->0->Ok_0@ == old(
                self,
            ).remaining().take(10) && final(self).remaining() == old(self).remaining().skip(10),
    {
        if self.reader.remaining() == 0 {
            return None;
        }
        match self.reader.read_exact_vec(10) {
            Ok(v) => Some(Ok(v)),
            Err(e) => Some(Err(e)),
        }
    }

    /// Parse a member header whose first ten bytes were already read, and
    /// hand the stream over for the member's compressed payload. The header
    /// digest, when present, is checked against the raw header bytes.
    #[verifier::rlimit(100)]
    pub fn parse_header(self, header_bytes: &[u8]) -> (r: Result<
        (MemberHeader, MemberReader),
        DecodeError,
    >)
        requires
            self.wf(),
            header_bytes@.len() == 10,
        ensures
            ({
                let s = header_bytes@ + self.remaining();
                &&& spec_parse_header(s) is Err ==> r is Err && r->Err_0 == spec_parse_header(
                    s,
                )->Err_0
                &&& spec_parse_header(s) is Ok ==> {
                    let (shape, consumed) = spec_parse_header(s)->Ok_0;
                    &&& r is Ok
                    &&& r->Ok_0.0.compression_method == CompressionMethod::Deflate
                    &&& r->Ok_0.0.modification_time == shape.mtime
                    &&& opt_bytes_view(r->Ok_0.0.extra) == shape.extra
                    &&& opt_bytes_view(r->Ok_0.0.name) == shape.name
                    &&& opt_bytes_view(r->Ok_0.0.comment) == shape.comment
                    &&& r->Ok_0.0.extra_flags == shape.extra_flags
                    &&& r->Ok_0.0.os == shape.os
                    &&& r->Ok_0.0.has_crc == shape.has_crc
                    &&& r->Ok_0.0.is_text == shape.is_text
                    &&& r->Ok_0.1.wf()
                    &&& r->Ok_0.1.remaining() == s.skip(consumed)
                }
            }),
    {
        let ghost s = header_bytes@ + self.remaining();
        let mut reader = self.reader;
        proof {
            assert forall|i: int| 0 <= i < 10 implies s[i] == header_bytes@[i] by {}
            assert(s.skip(10) =~= reader.remaining_bytes());
        }
        if !(header_bytes[0] == ID1 && header_bytes[1] == ID2) {
            return Err(DecodeError::InvalidMagic);
        }
        if header_bytes[2] != CM_DEFLATE {
            return Err(DecodeError::UnsupportedCompressionMethod);
        }
        let flags = MemberFlags(header_bytes[3]);
        let mtime: u32 = header_bytes[4] as u32 + 0x100 * (header_bytes[5] as u32) + 0x1_0000 * (
        header_bytes[6] as u32) + 0x100_0000 * (header_bytes[7] as u32);
        let mut raw: Vec<u8> = Vec::new();
        let mut i: usize = 0;
        while i < 10
            invariant
                i <= 10,
                header_bytes@.len() == 10,
                raw@ == header_bytes@.take(i as int),
            decreases 10 - i,
        {
            raw.push(header_bytes[i]);
            i = i + 1;
            proof {
                assert(raw@ =~= header_bytes@.take(i as int));
            }
        }
        proof {
            assert(raw@ =~= s.take(10));
        }
        let extra: Option<Vec<u8>> = if flags.has_extra() {
            let ghost rem = reader.remaining_bytes();
            let e = match read_extra(&mut reader, &mut raw) {
                Ok(v) => v,
                Err(er) => {
                    return Err(er);
                },
            };
            proof {
                assert(rem =~= s.skip(10));
                assert(rem[0] == s[10] && rem[1] == s[11]);
                assert(e@ =~= s.subrange(12, 12 + le16(s[10], s[11]) as int));
                assert(reader.remaining_bytes() =~= s.skip(12 + le16(s[10], s[11]) as int));
                assert(raw@ =~= s.take(12 + le16(s[10], s[11]) as int));
            }
            Some(e)
        } else {
            None
        };
        let ghost p1: int = if flag_bit(s[3], FEXTRA_OFFSET) {
            12 + le16(s[10], s[11]) as int
        } else {
            10
        };
        proof {
            assert(reader.remaining_bytes() =~= s.skip(p1));
            assert(raw@ =~= s.take(p1));
        }
        let name: Option<Vec<u8>> = if flags.has_name() {
            let ghost rem = reader.remaining_bytes();
            let nm = match read_zero_terminated(&mut reader, &mut raw) {
                Ok(v) => v,
                Err(er) => {
                    return Err(er);
                },
            };
            proof {
                rem.index_of_first_ensures(0u8);
                assert(reader.remaining_bytes() =~= s.skip(p1 + zero_index(rem) + 1));
                assert(raw@ =~= s.take(p1 + zero_index(rem) + 1));
            }
            Some(nm)
        } else {
            None
        };
        let ghost p2: int = if flag_bit(s[3], FNAME_OFFSET) {
            p1 + zero_index(s.skip(p1)) + 1
        } else {
            p1
        };
        proof {
            assert(reader.remaining_bytes() =~= s.skip(p2));
            assert(raw@ =~= s.take(p2));
        }
        let comment: Option<Vec<u8>> = if flags.has_comment() {
            let ghost rem = reader.remaining_bytes();
            let cm = match read_zero_terminated(&mut reader, &mut raw) {
                Ok(v) => v,
                Err(er) => {
                    return Err(er);
                },
            };
            proof {
                rem.index_of_first_ensures(0u8);
                assert(reader.remaining_bytes() =~= s.skip(p2 + zero_index(rem) + 1));
                assert(raw@ =~= s.take(p2 + zero_index(rem) + 1));
            }
            Some(cm)
        } else {
            None
        };
        let ghost p3: int = if flag_bit(s[3], FCOMMENT_OFFSET) {
            p2 + zero_index(s.skip(p2)) + 1
        } else {
            p2
        };
        proof {
            assert(reader.remaining_bytes() =~= s.skip(p3));
            assert(raw@ =~= s.take(p3));
        }
        if flags.has_crc() {
            let c0 = match reader.read_byte() {
                Ok(b) => b,
                Err(e) => {
                    return Err(e);
                },
            };
            let c1 = match reader.read_byte() {
                Ok(b) => b,
                Err(e) => {
                    return Err(e);
                },
            };
            let stored: u16 = c0 as u16 + 256 * (c1 as u16);
            proof {
                assert(s[p3] == c0 && s[p3 + 1] == c1);
                assert(le16(s[p3], s[p3 + 1]) == stored);
            }
            let computed: u16 = (crc32_bytes(raw.as_slice()) & 0xffff) as u16;
            proof {
                let cv = crc32_of(s.take(p3));
                assert(cv & 0xffff <= 0xffff) by (bit_vector);
            }
            if stored != computed {
                return Err(DecodeError::HeaderCrcMismatch);
            }
            proof {
                assert(reader.remaining_bytes() =~= s.skip(p3 + 2));
            }
        }
        let header = MemberHeader {
            compression_method: CompressionMethod::Deflate,
            modification_time: mtime,
            extra,
            name,
            comment,
            extra_flags: header_bytes[8],
            os: header_bytes[9],
            has_crc: flags.has_crc(),
            is_text: flags.is_text(),
        };
        Ok((header, MemberReader { inner: reader }))
    }
}

/// Holds the byte stream while one member's payload and trailer are read.
pub struct MemberReader {
    inner: ByteReader,
}

impl MemberReader {
    pub closed spec fn remaining(&self) -> Seq<u8> {
        self.inner.remaining_bytes()
    }

    pub closed spec fn wf(&self) -> bool {
        self.inner.wf()
    }

    pub fn from_reader(inner: ByteReader) -> (r: Self)
        requires
            inner.wf(),
        ensures
            r.wf(),
            r.remaining() == inner.remaining_bytes(),
    {
        MemberReader { inner }
    }

    /// Hand out the byte stream for the compressed payload.
    pub fn into_inner(self) -> (r: ByteReader)
        requires
            self.wf(),
        ensures
            r.wf(),
            r.remaining_bytes() == self.remaining(),
    {
        self.inner
    }

    /// Borrow the byte stream in place.
    pub fn inner_mut(&mut self) -> (r: &mut ByteReader)
        requires
            old(self).wf(),
        ensures
            *r == old(self).spec_inner(),
            final(self).spec_inner() == *final(r),
    {
        &mut self.inner
    }

    pub closed spec fn spec_inner(&self) -> ByteReader {
        self.inner
    }

    /// Read the eight-byte member trailer: the data's CRC-32, then ISIZE.
    pub fn read_footer(self) -> (r: Result<(MemberFooter, GzipReader), DecodeError>)
        requires
            self.wf(),
        ensures
            self.remaining().len() < 8 ==> r == Err::<(MemberFooter, GzipReader), DecodeError>(
                DecodeError::UnexpectedEof,
            ),
            self.remaining().len() >= 8 ==> {
                &&& r is Ok
                &&& r->Ok_0.0.data_crc32 == le32(
                    self.remaining()[0],
                    self.remaining()[1],
                    self.remaining()[2],
                    self.remaining()[3],
                )
                &&& r->Ok_0.0.data_size == le32(
                    self.remaining()[4],
                    self.remaining()[5],
                    self.remaining()[6],
                    self.remaining()[7],
                )
                &&& r->Ok_0.1.wf()
                &&& r->Ok_0.1.remaining() == self.remaining().skip(8)
            },
    {
        let mut inner = self.inner;
        let data_crc32 = match inner.read_u32_le() {
            Ok(v) => v,
            Err(e) => {
                return Err(e);
            },
        };
        let data_size = match inner.read_u32_le() {
            Ok(v) => v,
            Err(e) => {
                return Err(e);
            },
        };
        proof {
            assert(inner.remaining_bytes() =~= self.remaining().skip(8));
        }
        Ok((MemberFooter { data_crc32, data_size }, GzipReader { reader: inner }))
    }
}

} // verus!
