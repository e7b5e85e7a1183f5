use vstd::prelude::*;

use crate::bit_reader::{bits_value, model_after_read, BitReader, BitsModel};
use crate::errors::DecodeError;

verus! {

/// The three-bit header that opens every DEFLATE block.
#[derive(Clone, Copy, Debug, PartialEq, Eq, Structural)]
pub struct BlockHeader {
    pub is_final: bool,
    pub compression_type: CompressionType,
}

/// The block type: stored, fixed-Huffman, dynamic-Huffman, or the reserved
/// value.
#[derive(Clone, Copy, Debug, PartialEq, Eq, Structural)]
pub enum CompressionType {
    Uncompressed,
    FixedTree,
    DynamicTree,
    Reserved,
}

/// The type named by the two-bit BTYPE field.
pub open spec fn spec_compression_type(btype: nat) -> CompressionType {
    if btype == 0 {
        CompressionType::Uncompressed
    } else if btype == 1 {
        CompressionType::FixedTree
    } else if btype == 2 {
        CompressionType::DynamicTree
    } else {
        CompressionType::Reserved
    }
}

/// What reading a block header does to the stream: one BFINAL bit, then two
/// BTYPE bits; fails when fewer than three bits remain.
pub open spec fn spec_next_block(m: BitsModel) -> Result<(BlockHeader, BitsModel), DecodeError> {
    if m.flat().len() < 1 {
        Err(DecodeError::UnexpectedEof)
    } else {
        let is_final = bits_value(m.flat().take(1)) == 1;
        let m1 = model_after_read(m, 1);
        if m1.flat().len() < 2 {
            Err(DecodeError::UnexpectedEof)
        } else {
            let btype = bits_value(m1.flat().take(2));
            let m2 = model_after_read(m1, 2);
            Ok((BlockHeader { is_final, compression_type: spec_compression_type(btype) }, m2))
        }
    }
}

/// Reads DEFLATE block headers from a bit stream and hands the stream to the
/// per-block decoding that follows each header.
pub struct DeflateReader {
    pub bit_reader: BitReader,
}

impl DeflateReader {
    pub open spec fn wf(&self) -> bool {
        self.bit_reader.wf()
    }

    pub open spec fn model(&self) -> BitsModel {
        self.bit_reader.model()
    }

    pub fn new(bit_reader: BitReader) -> (r: Self)
        requires
            bit_reader.wf(),
        ensures
            r.wf(),
            r.model() == bit_reader.model(),
    {
        DeflateReader { bit_reader }
    }

    /// Read the next block's BFINAL bit and BTYPE field.
    pub fn next_block(&mut self) -> (r: Result<BlockHeader, DecodeError>)
        requires
            old(self).wf(),
        ensures
            final(self).wf(),
            final(self).model().bytes.len() <= old(self).model().bytes.len(),
            final(self).model().flat().len() <= old(self).model().flat().len(),
            r is Ok ==> spec_next_block(old(self).model()) == Ok::<
                (BlockHeader, BitsModel),
                DecodeError,
            >((r->Ok_0, final(self).model())),
            r is Err ==> spec_next_block(old(self).model()) == Err::<
                (BlockHeader, BitsModel),
                DecodeError,
            >(r->Err_0),
    {
        proof {
            crate::bit_reader::lemma_bytes_bits_len(self.model().bytes);
        }
        let first = match self.bit_reader.read_bits(1) {
            Ok(b) => b,
            Err(e) => {
                return Err(e);
            },
        };
        proof {
            crate::bit_reader::lemma_model_after_read_mono(old(self).model(), 1);
        }
        let is_final = first.bits() == 1;
        let ty = match self.bit_reader.read_bits(2) {
            Ok(b) => b,
            Err(e) => {
                return Err(e);
            },
        };
        proof {
            crate::bit_reader::lemma_model_after_read_mono(model_after_read(old(self).model(), 1), 2);
        }
        let compression_type = match ty.bits() {
            0 => CompressionType::Uncompressed,
            1 => CompressionType::FixedTree,
            2 => CompressionType::DynamicTree,
            _ => CompressionType::Reserved,
        };
        Ok(BlockHeader { is_final, compression_type })
    }

    /// Discard the bits of the current byte and give the byte source back.
    pub fn into_byte_reader(self) -> (r: crate::byte_reader::ByteReader)
        requires
            self.wf(),
        ensures
            r.wf(),
            r.remaining_bytes() == self.model().bytes,
    {
        self.bit_reader.into_reader()
    }
}

} // verus!
