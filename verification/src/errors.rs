use vstd::prelude::*;

verus! {

/// Every way a gzip member or its DEFLATE payload can be rejected.
/// Each error is fatal to the current member and surfaced to the caller.
#[derive(Clone, Copy, Debug, PartialEq, Eq, Structural)]
pub enum DecodeError {
    /// The first two bytes of a member are not 0x1f 0x8b.
    InvalidMagic,
    /// The header compression method byte is not 8 (DEFLATE).
    UnsupportedCompressionMethod,
    /// FHCRC is set and the stored CRC-16 does not match the header bytes.
    HeaderCrcMismatch,
    /// A read needed more bytes (or bits) than the stream still holds.
    UnexpectedEof,
    /// A stored block whose LEN and NLEN fields are not bitwise complements.
    InvalidStoredBlock,
    /// A block with BTYPE = 11.
    ReservedBlockType,
    /// A block with BTYPE = 01 (fixed Huffman), which this decoder does not decode.
    UnsupportedBlockType,
    /// A code-length array that yields an inconsistent canonical code, or a
    /// bit stream that matches no code within 15 bits.
    InvalidHuffmanCode,
    /// A back-reference whose distance exceeds the bytes emitted so far in the
    /// current member, or 32768.
    InvalidDistance,
    /// The member trailer ISIZE does not equal the emitted byte count.
    LengthMismatch,
    /// The member trailer CRC-32 does not equal the digest of the emitted bytes.
    Crc32Mismatch,
}

} // verus!
