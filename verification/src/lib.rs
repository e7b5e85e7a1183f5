use vstd::prelude::*;

mod bit_reader;
mod byte_reader;
mod deflate;
mod errors;
mod gzip;
mod huffman_coding;
mod tracking_writer;

pub use bit_reader::{BitReader, BitSequence};
pub use byte_reader::ByteReader;
pub use deflate::{BlockHeader, CompressionType, DeflateReader};
pub use errors::DecodeError;
pub use gzip::{
    CompressionMethod, GzipReader, MemberFlags, MemberFooter, MemberHeader, MemberReader,
};
pub use huffman_coding::{
    decode_litlen_distance_trees, CodeToken, DistanceToken, HuffmanCodeWord, HuffmanCoding,
    LitLenToken, TreeCodeToken,
};
pub use tracking_writer::TrackingWriter;

use bit_reader::{bits_value, model_after_read, BitsModel};
use byte_reader::{le16, le32};
use deflate::{spec_next_block, CompressionType as CT};
use gzip::spec_parse_header;
use huffman_coding::{
    can_build, canonical_entries, lookup_val, spec_decode_trees, spec_read_symbol,
};
use tracking_writer::{copy_back, crc32_of};

verus! {

/// A stored block, taken after its three header bits: the stream returns to
/// a byte boundary, LEN and NLEN follow little-endian, NLEN must be LEN's
/// complement, and LEN literal bytes are emitted.
pub open spec fn spec_stored_block(w: Seq<u8>, m: BitsModel) -> Result<
    (Seq<u8>, BitsModel),
    DecodeError,
> {
    let t = m.bytes;
    if t.len() < 4 {
        Err(DecodeError::UnexpectedEof)
    } else {
        let len = le16(t[0], t[1]);
        let nlen = le16(t[2], t[3]);
        if nlen != !len {
            Err(DecodeError::InvalidStoredBlock)
        } else if t.len() < 4 + len {
            Err(DecodeError::UnexpectedEof)
        } else {
            Ok(
                (
                    w + t.subrange(4, 4 + len as int),
                    BitsModel { residual: Seq::empty(), bytes: t.skip(4 + len as int) },
                ),
            )
        }
    }
}

/// The symbol loop of a compressed block: literals are emitted, a length
/// symbol with its extra bits names a copy length, a distance symbol with
/// its extra bits names how far back the copy starts, and the end-of-block
/// symbol closes the block. A distance of zero, or one reaching past the
/// member's output or the window, is invalid.
pub open spec fn spec_run_symbols(
    lit: Seq<(BitSequence, LitLenToken)>,
    dist: Seq<(BitSequence, DistanceToken)>,
    w: Seq<u8>,
    m: BitsModel,
) -> Result<(Seq<u8>, BitsModel), DecodeError>
    decreases m.flat().len(),
    when m.wf()
    via spec_run_symbols_dec
{
    match spec_read_symbol(lit, m) {
        Err(e) => Err(e),
        Ok((tok, m1)) => match tok {
            LitLenToken::Literal(b) => spec_run_symbols(lit, dist, w.push(b), m1),
            LitLenToken::EndOfBlock => Ok((w, m1)),
            LitLenToken::Length { base, extra_bits } => {
                if m1.flat().len() < extra_bits {
                    Err(DecodeError::UnexpectedEof)
                } else {
                    let size = base + bits_value(m1.flat().take(extra_bits as int));
                    let m2 = model_after_read(m1, extra_bits as int);
                    match spec_read_symbol(dist, m2) {
                        Err(e) => Err(e),
                        Ok((dt, m3)) => {
                            if m3.flat().len() < dt.extra_bits {
                                Err(DecodeError::UnexpectedEof)
                            } else {
                                let distance = dt.base + bits_value(
                                    m3.flat().take(dt.extra_bits as int),
                                );
                                let m4 = model_after_read(m3, dt.extra_bits as int);
                                if 1 <= distance <= w.len() && distance <= 32768 {
                                    spec_run_symbols(
                                        lit,
                                        dist,
                                        w + copy_back(w, distance as int, size as int),
                                        m4,
                                    )
                                } else {
                                    Err(DecodeError::InvalidDistance)
                                }
                            }
                        },
                    }
                }
            },
        },
    }
}

#[via_fn]
proof fn spec_run_symbols_dec(
    lit: Seq<(BitSequence, LitLenToken)>,
    dist: Seq<(BitSequence, DistanceToken)>,
    w: Seq<u8>,
    m: BitsModel,
) {
    match spec_read_symbol(lit, m) {
        Err(e) => {},
        Ok((tok, m1)) => {
            huffman_coding::lemma_read_symbol_ok(lit, m, 0, 0);
            match tok {
                LitLenToken::Literal(b) => {},
                LitLenToken::EndOfBlock => {},
                LitLenToken::Length { base, extra_bits } => {
                    if m1.flat().len() >= extra_bits {
                        let m2 = model_after_read(m1, extra_bits as int);
                        bit_reader::lemma_model_after_read_mono(m1, extra_bits as int);
                        match spec_read_symbol(dist, m2) {
                            Err(e) => {},
                            Ok((dt, m3)) => {
                                huffman_coding::lemma_read_symbol_ok(dist, m2, 0, 0);
                                if m3.flat().len() >= dt.extra_bits {
                                    bit_reader::lemma_model_after_read_mono(
                                        m3,
                                        dt.extra_bits as int,
                                    );
                                }
                            },
                        }
                    }
                },
            }
        },
    }
}

/// A dynamic-Huffman block, taken after its three header bits: the tree
/// description yields the two length arrays, both must build canonical
/// codes, and the symbol loop runs with those codes.
pub open spec fn spec_dynamic_block(w: Seq<u8>, m: BitsModel) -> Result<
    (Seq<u8>, BitsModel),
    DecodeError,
> {
    match spec_decode_trees(m) {
        Err(e) => Err(e),
        Ok(((ll, dd), m1)) => {
            if !(can_build::<LitLenToken>(ll) && can_build::<DistanceToken>(dd)) {
                Err(DecodeError::InvalidHuffmanCode)
            } else {
                spec_run_symbols(
                    canonical_entries::<LitLenToken>(ll, ll.len() as int),
                    canonical_entries::<DistanceToken>(dd, dd.len() as int),
                    w,
                    m1,
                )
            }
        },
    }
}

/// The symbol loop leaves a well-formed, no longer stream.
proof fn lemma_run_symbols_mono(
    lit: Seq<(BitSequence, LitLenToken)>,
    dist: Seq<(BitSequence, DistanceToken)>,
    w: Seq<u8>,
    m: BitsModel,
)
    requires
        m.wf(),
        spec_run_symbols(lit, dist, w, m) is Ok,
    ensures
        spec_run_symbols(lit, dist, w, m)->Ok_0.1.wf(),
        spec_run_symbols(lit, dist, w, m)->Ok_0.1.flat().len() <= m.flat().len(),
        spec_run_symbols(lit, dist, w, m)->Ok_0.1.bytes.len() <= m.bytes.len(),
    decreases m.flat().len(),
{
    match spec_read_symbol(lit, m) {
        Err(e) => {},
        Ok((tok, m1)) => {
            huffman_coding::lemma_read_symbol_ok(lit, m, 0, 0);
            match tok {
                LitLenToken::Literal(b) => {
                    lemma_run_symbols_mono(lit, dist, w.push(b), m1);
                },
                LitLenToken::EndOfBlock => {},
                LitLenToken::Length { base, extra_bits } => {
                    if m1.flat().len() >= extra_bits {
                        let size = base + bits_value(m1.flat().take(extra_bits as int));
                        let m2 = model_after_read(m1, extra_bits as int);
                        bit_reader::lemma_model_after_read_mono(m1, extra_bits as int);
                        match spec_read_symbol(dist, m2) {
                            Err(e) => {},
                            Ok((dt, m3)) => {
                                huffman_coding::lemma_read_symbol_ok(dist, m2, 0, 0);
                                if m3.flat().len() >= dt.extra_bits {
                                    let distance = dt.base + bits_value(
                                        m3.flat().take(dt.extra_bits as int),
                                    );
                                    let m4 = model_after_read(m3, dt.extra_bits as int);
                                    bit_reader::lemma_model_after_read_mono(
                                        m3,
                                        dt.extra_bits as int,
                                    );
                                    if 1 <= distance <= w.len() && distance <= 32768 {
                                        lemma_run_symbols_mono(
                                            lit,
                                            dist,
                                            w + copy_back(w, distance as int, size as int),
                                            m4,
                                        );
                                    }
                                }
                            },
                        }
                    }
                },
            }
        },
    }
}

/// A stored block leaves a well-formed stream of at most the input bytes.
proof fn lemma_stored_mono(w: Seq<u8>, m: BitsModel)
    requires
        m.wf(),
        spec_stored_block(w, m) is Ok,
    ensures
        spec_stored_block(w, m)->Ok_0.1.wf(),
        spec_stored_block(w, m)->Ok_0.1.flat().len() <= m.flat().len(),
        spec_stored_block(w, m)->Ok_0.1.bytes.len() <= m.bytes.len(),
{
    bit_reader::lemma_bytes_bits_len(m.bytes);
    let t = m.bytes;
    let len = le16(t[0], t[1]);
    bit_reader::lemma_bytes_bits_len(t.skip(4 + len as int));
}

/// A dynamic block leaves a well-formed stream of at most the input bytes.
proof fn lemma_dynamic_mono(w: Seq<u8>, m: BitsModel)
    requires
        m.wf(),
        spec_dynamic_block(w, m) is Ok,
    ensures
        spec_dynamic_block(w, m)->Ok_0.1.wf(),
        spec_dynamic_block(w, m)->Ok_0.1.flat().len() <= m.flat().len(),
        spec_dynamic_block(w, m)->Ok_0.1.bytes.len() <= m.bytes.len(),
{
    huffman_coding::lemma_decode_trees_mono(m);
    let r = spec_decode_trees(m);
    match r {
        Err(e) => {},
        Ok(((ll, dd), m1)) => {
            if can_build::<LitLenToken>(ll) && can_build::<DistanceToken>(dd) {
                lemma_run_symbols_mono(
                    canonical_entries::<LitLenToken>(ll, ll.len() as int),
                    canonical_entries::<DistanceToken>(dd, dd.len() as int),
                    w,
                    m1,
                );
            }
        },
    }
}

/// The block loop: read a block header, decode the block by its type, and
/// continue until a final block closes the member. The fixed-Huffman type
/// is recognized but not decoded; the reserved type is rejected.
pub open spec fn spec_blocks(w: Seq<u8>, m: BitsModel) -> Result<
    (Seq<u8>, BitsModel),
    DecodeError,
>
    decreases m.flat().len(),
    when m.wf()
    via spec_blocks_dec
{
    match spec_next_block(m) {
        Err(e) => Err(e),
        Ok((hdr, m1)) => {
            let step = match hdr.compression_type {
                CT::Uncompressed => spec_stored_block(w, m1),
                CT::DynamicTree => spec_dynamic_block(w, m1),
                CT::FixedTree => Err(DecodeError::UnsupportedBlockType),
                CT::Reserved => Err(DecodeError::ReservedBlockType),
            };
            match step {
                Err(e) => Err(e),
                Ok((w2, m2)) => {
                    if hdr.is_final {
                        Ok((w2, m2))
                    } else {
                        spec_blocks(w2, m2)
                    }
                },
            }
        },
    }
}

#[via_fn]
proof fn spec_blocks_dec(w: Seq<u8>, m: BitsModel) {
    match spec_next_block(m) {
        Err(e) => {},
        Ok((hdr, m1)) => {
            bit_reader::lemma_model_after_read(m, 1);
            bit_reader::lemma_model_after_read(model_after_read(m, 1), 2);
            let step = match hdr.compression_type {
                CT::Uncompressed => spec_stored_block(w, m1),
                CT::DynamicTree => spec_dynamic_block(w, m1),
                CT::FixedTree => Err(DecodeError::UnsupportedBlockType),
                CT::Reserved => Err(DecodeError::ReservedBlockType),
            };
            match step {
                Err(e) => {},
                Ok((w2, m2)) => {
                    if !hdr.is_final {
                        if hdr.compression_type is Uncompressed {
                            lemma_stored_mono(w, m1);
                        }
                        if hdr.compression_type is DynamicTree {
                            lemma_dynamic_mono(w, m1);
                        }
                    }
                },
            }
        },
    }
}

/// The block loop leaves a well-formed stream of at most the input bytes.
proof fn lemma_blocks_mono(w: Seq<u8>, m: BitsModel)
    requires
        m.wf(),
        spec_blocks(w, m) is Ok,
    ensures
        spec_blocks(w, m)->Ok_0.1.wf(),
        spec_blocks(w, m)->Ok_0.1.flat().len() <= m.flat().len(),
        spec_blocks(w, m)->Ok_0.1.bytes.len() <= m.bytes.len(),
    decreases m.flat().len(),
{
    match spec_next_block(m) {
        Err(e) => {},
        Ok((hdr, m1)) => {
            bit_reader::lemma_model_after_read(m, 1);
            bit_reader::lemma_model_after_read(model_after_read(m, 1), 2);
            let step = match hdr.compression_type {
                CT::Uncompressed => spec_stored_block(w, m1),
                CT::DynamicTree => spec_dynamic_block(w, m1),
                CT::FixedTree => Err(DecodeError::UnsupportedBlockType),
                CT::Reserved => Err(DecodeError::ReservedBlockType),
            };
            match step {
                Err(e) => {},
                Ok((w2, m2)) => {
                    if hdr.compression_type is Uncompressed {
                        lemma_stored_mono(w, m1);
                    }
                    if hdr.compression_type is DynamicTree {
                        lemma_dynamic_mono(w, m1);
                    }
                    if !hdr.is_final {
                        lemma_blocks_mono(w2, m2);
                    }
                },
            }
        },
    }
}

/// One gzip member at the front of `s`: its header, its blocks from the
/// first payload byte, then, back at a byte boundary, the eight trailer
/// bytes, which must name the emitted bytes' count modulo 2^32 and their
/// CRC-32 digest. Yields the member's output and the bytes after it.
pub open spec fn spec_member(s: Seq<u8>) -> Result<(Seq<u8>, Seq<u8>), DecodeError> {
    match spec_parse_header(s) {
        Err(e) => Err(e),
        Ok((shape, consumed)) => {
            let m0 = BitsModel { residual: Seq::empty(), bytes: s.skip(consumed) };
            match spec_blocks(Seq::empty(), m0) {
                Err(e) => Err(e),
                Ok((out, m1)) => {
                    let t = m1.bytes;
                    if t.len() < 8 {
                        Err(DecodeError::UnexpectedEof)
                    } else if out.len() % 0x1_0000_0000 != le32(t[4], t[5], t[6], t[7]) {
                        Err(DecodeError::LengthMismatch)
                    } else if crc32_of(out) != le32(t[0], t[1], t[2], t[3]) {
                        Err(DecodeError::Crc32Mismatch)
                    } else {
                        Ok((out, t.skip(8)))
                    }
                },
            }
        },
    }
}

/// A member consumes at least eighteen bytes of the stream.
proof fn lemma_member_rest(s: Seq<u8>)
    requires
        spec_member(s) is Ok,
    ensures
        spec_member(s)->Ok_0.1.len() <= s.len() - 18,
{
    gzip::lemma_parse_header_consumed(s);
    let consumed = spec_parse_header(s)->Ok_0.1;
    let m0 = BitsModel { residual: Seq::empty(), bytes: s.skip(consumed) };
    lemma_blocks_mono(Seq::empty(), m0);
}

/// A whole stream: members parsed back to back until the input is used up
/// exactly; anything left that cannot open a member is a truncated stream.
pub open spec fn spec_gunzip(s: Seq<u8>) -> Result<Seq<u8>, DecodeError>
    decreases s.len(),
    via spec_gunzip_dec
{
    if s.len() == 0 {
        Ok(Seq::empty())
    } else if s.len() < 10 {
        Err(DecodeError::UnexpectedEof)
    } else {
        match spec_member(s) {
            Err(e) => Err(e),
            Ok((out, rest)) => match spec_gunzip(rest) {
                Err(e) => Err(e),
                Ok(o2) => Ok(out + o2),
            },
        }
    }
}

#[via_fn]
proof fn spec_gunzip_dec(s: Seq<u8>) {
    if s.len() >= 10 {
        if spec_member(s) is Ok {
            lemma_member_rest(s);
        }
    }
}


/// The stored-block integrity check rejects any single-bit corruption: with
/// NLEN the complement of LEN, flipping one bit of either field breaks the
/// complement relation.
pub proof fn lemma_nlen_rejects_bit_flip(len: u16, nlen: u16, i: u16)
    by (bit_vector)
    requires
        nlen == !len,
        i < 16,
    ensures
        nlen != !(len ^ (1u16 << i)),
        (nlen ^ (1u16 << i)) != !len,
{
}

/// Decode one stored block, entered just after its three header bits.
fn process_uncompressed_block(defl: &mut DeflateReader, track_writer: &mut TrackingWriter) -> (r:
    Result<(), DecodeError>)
    requires
        old(defl).wf(),
        old(track_writer).wf(),
    ensures
        final(defl).wf(),
        final(track_writer).wf(),
        final(track_writer).spec_start() == old(track_writer).spec_start(),
        old(track_writer).output_seq().is_prefix_of(final(track_writer).output_seq()),
        final(defl).model().bytes.len() <= old(defl).model().bytes.len(),
        final(defl).model().flat().len() <= old(defl).model().flat().len(),
        r is Ok ==> spec_stored_block(old(track_writer).member_seq(), old(defl).model()) == Ok::<
            (Seq<u8>, BitsModel),
            DecodeError,
        >((final(track_writer).member_seq(), final(defl).model())),
        r is Err ==> spec_stored_block(old(track_writer).member_seq(), old(defl).model()) == Err::<
            (Seq<u8>, BitsModel),
            DecodeError,
        >(r->Err_0),
{
    let ghost t = old(defl).model().bytes;
    proof {
        bit_reader::lemma_bytes_bits_len(t);
    }
    let rd = defl.bit_reader.borrow_reader_from_boundary();
    let length = match rd.read_u16_le() {
        Ok(v) => v,
        Err(e) => {
            proof {
                bit_reader::lemma_bytes_bits_len(final(rd).remaining_bytes());
            }
            return Err(e);
        },
    };
    let nlen = match rd.read_u16_le() {
        Ok(v) => v,
        Err(e) => {
            proof {
                bit_reader::lemma_bytes_bits_len(final(rd).remaining_bytes());
            }
            return Err(e);
        },
    };
    proof {
        assert(t.skip(2)[0] == t[2] && t.skip(2)[1] == t[3]);
    }
    if nlen != !length {
        proof {
            bit_reader::lemma_bytes_bits_len(final(rd).remaining_bytes());
        }
        return Err(DecodeError::InvalidStoredBlock);
    }
    let buffer = match rd.read_exact_vec(length as usize) {
        Ok(v) => v,
        Err(e) => {
            proof {
                bit_reader::lemma_bytes_bits_len(final(rd).remaining_bytes());
            }
            return Err(e);
        },
    };
    proof {
        assert(buffer@ =~= t.subrange(4, 4 + length as int));
        assert(final(rd).remaining_bytes() =~= t.skip(4 + length as int));
        bit_reader::lemma_bytes_bits_len(final(rd).remaining_bytes());
    }
    track_writer.write(buffer.as_slice());
    proof {
        assert(final(track_writer).member_seq() =~= old(track_writer).member_seq() + buffer@);
        assert(final(defl).model().residual =~= Seq::<bool>::empty());
    }
    Ok(())
}

/// Decode one dynamic-Huffman block, entered just after its three header
/// bits: build the two codes, then run the symbol loop into the sink.
#[verifier::loop_isolation(false)]
#[verifier::rlimit(100)]
fn process_dynamic_tree_block(defl: &mut DeflateReader, track_writer: &mut TrackingWriter) -> (r:
    Result<(), DecodeError>)
    requires
        old(defl).wf(),
        old(track_writer).wf(),
    ensures
        final(defl).wf(),
        final(track_writer).wf(),
        final(track_writer).spec_start() == old(track_writer).spec_start(),
        old(track_writer).output_seq().is_prefix_of(final(track_writer).output_seq()),
        final(defl).model().bytes.len() <= old(defl).model().bytes.len(),
        final(defl).model().flat().len() <= old(defl).model().flat().len(),
        r is Ok ==> spec_dynamic_block(old(track_writer).member_seq(), old(defl).model()) == Ok::<
            (Seq<u8>, BitsModel),
            DecodeError,
        >((final(track_writer).member_seq(), final(defl).model())),
        r is Err ==> spec_dynamic_block(old(track_writer).member_seq(), old(defl).model())
            == Err::<(Seq<u8>, BitsModel), DecodeError>(r->Err_0),
{
    let ghost m_in = old(defl).model();
    let ghost w0 = old(track_writer).member_seq();
    let ghost sd = spec_decode_trees(m_in);
    let pair = match huffman_coding::decode_litlen_distance_trees(&mut defl.bit_reader) {
        Ok(p) => p,
        Err(e) => {
            return Err(e);
        },
    };
    let (lit_code, dist_code) = pair;
    let ghost ll = sd->Ok_0.0.0;
    let ghost dd = sd->Ok_0.0.1;
    let ghost lit_entries = lit_code.spec_entries();
    let ghost dist_entries = dist_code.spec_entries();
    let ghost m_start = defl.model();
    loop
        invariant
            defl.wf(),
            track_writer.wf(),
            track_writer.spec_start() == old(track_writer).spec_start(),
            old(track_writer).output_seq().is_prefix_of(track_writer.output_seq()),
            defl.model().bytes.len() <= m_in.bytes.len(),
            defl.model().flat().len() <= m_in.flat().len(),
            lit_entries == canonical_entries::<LitLenToken>(ll, ll.len() as int),
            dist_entries == canonical_entries::<DistanceToken>(dd, dd.len() as int),
            can_build::<LitLenToken>(ll),
            can_build::<DistanceToken>(dd),
            spec_dynamic_block(w0, m_in) == spec_run_symbols(
                lit_entries,
                dist_entries,
                track_writer.member_seq(),
                defl.model(),
            ),
        decreases defl.model().flat().len(),
    {
        let ghost m_a = defl.model();
        let ghost w_a = track_writer.member_seq();
        let tok = match lit_code.read_symbol(&mut defl.bit_reader) {
            Ok(t) => t,
            Err(e) => {
                return Err(e);
            },
        };
        proof {
            huffman_coding::lemma_read_symbol_ok(lit_entries, m_a, 0, 0);
        }
        match tok {
            LitLenToken::Literal(b) => {
                track_writer.write_byte(b);
                proof {
                    assert(track_writer.member_seq() =~= w_a.push(b));
                }
            },
            LitLenToken::EndOfBlock => {
                return Ok(());
            },
            LitLenToken::Length { base, extra_bits } => {
                proof {
                    huffman_coding::lemma_read_symbol_token(lit_entries, m_a, 0, 0);
                    let (bb, bl) = choose|bb: u16, bl: u8|
                        lookup_val(lit_entries, bb, bl) == Some(tok);
                    huffman_coding::lemma_litlen_token_shape(ll, ll.len() as int, bb, bl, tok);
                }
                let ghost m_b = defl.model();
                let eb = match defl.bit_reader.read_bits(extra_bits) {
                    Ok(b) => b,
                    Err(e) => {
                        return Err(e);
                    },
                };
                proof {
                    huffman_coding::lemma_small_value(eb.spec_bits(), extra_bits as u16);
                }
                let size: u16 = base + eb.bits();
                let ghost m_c = defl.model();
                let dt = match dist_code.read_symbol(&mut defl.bit_reader) {
                    Ok(t) => t,
                    Err(e) => {
                        return Err(e);
                    },
                };
                proof {
                    huffman_coding::lemma_read_symbol_ok(dist_entries, m_c, 0, 0);
                    huffman_coding::lemma_read_symbol_token(dist_entries, m_c, 0, 0);
                    let (bb, bl) = choose|bb: u16, bl: u8|
                        lookup_val(dist_entries, bb, bl) == Some(dt);
                    huffman_coding::lemma_distance_token_shape(dd, dd.len() as int, bb, bl, dt);
                }
                let db = match defl.bit_reader.read_bits(dt.extra_bits) {
                    Ok(b) => b,
                    Err(e) => {
                        return Err(e);
                    },
                };
                proof {
                    huffman_coding::lemma_small_value(db.spec_bits(), dt.extra_bits as u16);
                }
                let distance: u16 = dt.base + db.bits();
                let ghost out_a = track_writer.output_seq();
                match track_writer.write_previous(distance as usize, size as usize) {
                    Ok(()) => {
                        proof {
                            tracking_writer::lemma_copy_back_suffix(
                                out_a,
                                old(track_writer).spec_start(),
                                distance as int,
                                size as int,
                            );
                            assert(track_writer.member_seq() =~= w_a + copy_back(
                                w_a,
                                distance as int,
                                size as int,
                            ));
                        }
                    },
                    Err(e) => {
                        return Err(e);
                    },
                }
            },
        }
    }
}


/// Decode blocks until a final block closes the member.
#[verifier::loop_isolation(false)]
fn process_blocks(defl: &mut DeflateReader, track_writer: &mut TrackingWriter) -> (r: Result<
    (),
    DecodeError,
>)
    requires
        old(defl).wf(),
        old(track_writer).wf(),
    ensures
        final(defl).wf(),
        final(track_writer).wf(),
        final(track_writer).spec_start() == old(track_writer).spec_start(),
        old(track_writer).output_seq().is_prefix_of(final(track_writer).output_seq()),
        final(defl).model().bytes.len() <= old(defl).model().bytes.len(),
        r is Ok ==> spec_blocks(old(track_writer).member_seq(), old(defl).model()) == Ok::<
            (Seq<u8>, BitsModel),
            DecodeError,
        >((final(track_writer).member_seq(), final(defl).model())),
        r is Err ==> spec_blocks(old(track_writer).member_seq(), old(defl).model()) == Err::<
            (Seq<u8>, BitsModel),
            DecodeError,
        >(r->Err_0),
{
    let ghost w0 = old(track_writer).member_seq();
    let ghost m0 = old(defl).model();
    loop
        invariant
            defl.wf(),
            track_writer.wf(),
            track_writer.spec_start() == old(track_writer).spec_start(),
            old(track_writer).output_seq().is_prefix_of(track_writer.output_seq()),
            defl.model().bytes.len() <= m0.bytes.len(),
            spec_blocks(w0, m0) == spec_blocks(track_writer.member_seq(), defl.model()),
        decreases defl.model().flat().len(),
    {
        let ghost m_a = defl.model();
        let ghost w_a = track_writer.member_seq();
        let hdr = match defl.next_block() {
            Ok(h) => h,
            Err(e) => {
                return Err(e);
            },
        };
        proof {
            bit_reader::lemma_model_after_read(m_a, 1);
            bit_reader::lemma_model_after_read(model_after_read(m_a, 1), 2);
        }
        match hdr.compression_type {
            CompressionType::Uncompressed => {
                match process_uncompressed_block(defl, track_writer) {
                    Ok(()) => {},
                    Err(e) => {
                        return Err(e);
                    },
                }
            },
            CompressionType::DynamicTree => {
                match process_dynamic_tree_block(defl, track_writer) {
                    Ok(()) => {},
                    Err(e) => {
                        return Err(e);
                    },
                }
            },
            CompressionType::FixedTree => {
                return Err(DecodeError::UnsupportedBlockType);
            },
            CompressionType::Reserved => {
                return Err(DecodeError::ReservedBlockType);
            },
        }
        if hdr.is_final {
            return Ok(());
        }
    }
}

/// Check a member's trailer against what was emitted: the byte count modulo
/// 2^32 first, then the CRC-32 digest.
fn validate_footer_data(track_writer: &TrackingWriter, footer_data: MemberFooter) -> (r: Result<
    (),
    DecodeError,
>)
    requires
        track_writer.wf(),
    ensures
        r is Ok <==> (track_writer.member_seq().len() % 0x1_0000_0000 == footer_data.data_size
            && crc32_of(track_writer.member_seq()) == footer_data.data_crc32),
        r is Err && track_writer.member_seq().len() % 0x1_0000_0000 != footer_data.data_size ==> r
            == Err::<(), DecodeError>(DecodeError::LengthMismatch),
        r is Err && track_writer.member_seq().len() % 0x1_0000_0000 == footer_data.data_size ==> r
            == Err::<(), DecodeError>(DecodeError::Crc32Mismatch),
{
    let byte_count = track_writer.byte_count();
    if (byte_count as u64) % 0x1_0000_0000u64 != footer_data.data_size as u64 {
        return Err(DecodeError::LengthMismatch);
    }
    let crc32 = track_writer.crc32();
    if footer_data.data_crc32 != crc32 {
        return Err(DecodeError::Crc32Mismatch);
    }
    Ok(())
}

/// Decompress a gzip byte stream: every member in turn, each one's header
/// parsed, its blocks decoded, and its trailer checked against the emitted
/// bytes. Succeeds exactly on the streams the stream-level description
/// accepts, and then returns exactly the bytes it prescribes.
#[verifier::loop_isolation(false)]
#[verifier::rlimit(100)]
pub fn decompress(input: Vec<u8>) -> (r: Result<Vec<u8>, DecodeError>)
    ensures
        r is Ok <==> spec_gunzip(input@) is Ok,
        r is Ok ==> r->Ok_0@ == spec_gunzip(input@)->Ok_0,
        r is Err ==> r->Err_0 == spec_gunzip(input@)->Err_0,
{
    let mut gzip_reader = GzipReader::new(ByteReader::new(input));
    let mut track_writer = TrackingWriter::new();
    loop
        invariant
            gzip_reader.wf(),
            track_writer.wf(),
            track_writer.spec_start() == track_writer.output_seq().len(),
            spec_gunzip(input@) == (match spec_gunzip(gzip_reader.remaining()) {
                Ok(o2) => Ok::<Seq<u8>, DecodeError>(track_writer.output_seq() + o2),
                Err(e) => Err::<Seq<u8>, DecodeError>(e),
            }),
        decreases gzip_reader.remaining().len(),
    {
        let ghost s_rem = gzip_reader.remaining();
        let ghost out_before = track_writer.output_seq();
        let hdr_opt = gzip_reader.read_header();
        let hdr_res = match hdr_opt {
            None => {
                proof {
                    assert(out_before + Seq::<u8>::empty() =~= out_before);
                }
                return Ok(track_writer.into_output());
            },
            Some(h) => h,
        };
        let hdr = match hdr_res {
            Ok(v) => v,
            Err(e) => {
                return Err(e);
            },
        };
        let parsed = match gzip_reader.parse_header(hdr.as_slice()) {
            Ok(p) => p,
            Err(e) => {
                proof {
                    assert(hdr@ + s_rem.skip(10) =~= s_rem);
                }
                return Err(e);
            },
        };
        let (_header, member_reader) = parsed;
        proof {
            assert(hdr@ + s_rem.skip(10) =~= s_rem);
        }
        track_writer.reset();
        let ghost consumed = spec_parse_header(s_rem)->Ok_0.1;
        let byte_reader = member_reader.into_inner();
        let mut defl = DeflateReader::new(BitReader::new(byte_reader));
        proof {
            gzip::lemma_parse_header_consumed(s_rem);
            assert(defl.model() =~= (BitsModel {
                residual: Seq::<bool>::empty(),
                bytes: s_rem.skip(consumed),
            }));
        }
        match process_blocks(&mut defl, &mut track_writer) {
            Ok(()) => {},
            Err(e) => {
                return Err(e);
            },
        }
        let ghost member_out = track_writer.member_seq();
        let byte_reader2 = defl.into_byte_reader();
        let member_reader2 = MemberReader::from_reader(byte_reader2);
        let footer_pair = match member_reader2.read_footer() {
            Ok(p) => p,
            Err(e) => {
                return Err(e);
            },
        };
        let (footer, next_gzip) = footer_pair;
        match validate_footer_data(&track_writer, footer) {
            Ok(()) => {},
            Err(e) => {
                return Err(e);
            },
        }
        proof {
            assert(spec_member(s_rem) == Ok::<(Seq<u8>, Seq<u8>), DecodeError>(
                (member_out, next_gzip.remaining()),
            ));
            lemma_member_rest(s_rem);
            assert(track_writer.output_seq() =~= out_before + member_out);
        }
        track_writer.reset();
        gzip_reader = next_gzip;
        proof {
            assert forall|o2: Seq<u8>| #[trigger] (out_before + member_out + o2) == out_before + (
            member_out + o2) by {
                assert(out_before + member_out + o2 =~= out_before + (member_out + o2));
            }
        }
    }
}

} // verus!
