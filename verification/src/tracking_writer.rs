use vstd::prelude::*;

use crate::errors::DecodeError;

verus! {

/// The size of the back-reference window: a copy may reach at most this many
/// bytes behind the write position.
pub const HISTORY_SIZE: usize = 32768;

/// The CRC-32 digest (ISO-HDLC: polynomial 0xEDB88320 reflected, initial
/// value 0xFFFFFFFF, final complement) of a byte sequence.
pub uninterp spec fn crc32_of(data: Seq<u8>) -> u32;

/// Relies on crc::Crc::<u32>::checksum with the CRC-32/ISO-HDLC parameters
/// from the crc catalog: the digest is a function of the input bytes alone.
#[verifier::external_body]
pub(crate) fn crc32_bytes(data: &[u8]) -> (r: u32)
    ensures
        r == crc32_of(data@),
{
    crc::Crc::<u32>::new(&crc::CRC_32_ISO_HDLC).checksum(data)
}

/// The bytes a back-reference emits: `len` bytes drawn cyclically from the
/// last `dist` bytes of `s`, so a distance shorter than the length repeats
/// the tail as a pattern.
pub open spec fn copy_back(s: Seq<u8>, dist: int, len: int) -> Seq<u8> {
    Seq::new(len as nat, |i: int| s[s.len() - dist + (i % dist)])
}

/// A sink that collects every emitted byte and tracks, per member, the byte
/// count and the CRC-32 digest, and serves back-references into the most
/// recently emitted bytes.
pub struct TrackingWriter {
    output: Vec<u8>,
    member_start: usize,
}

impl TrackingWriter {
    /// Everything written since the writer was created.
    pub closed spec fn output_seq(&self) -> Seq<u8> {
        self.output@
    }

    pub closed spec fn spec_start(&self) -> int {
        self.member_start as int
    }

    pub open spec fn wf(&self) -> bool {
        0 <= self.spec_start() <= self.output_seq().len()
    }

    /// The bytes written since the last reset: the current member's output.
    pub open spec fn member_seq(&self) -> Seq<u8> {
        self.output_seq().skip(self.spec_start())
    }

    pub fn new() -> (r: Self)
        ensures
            r.wf(),
            r.output_seq() == Seq::<u8>::empty(),
            r.member_seq() == Seq::<u8>::empty(),
    {
        let r = TrackingWriter { output: Vec::new(), member_start: 0 };
        proof {
            assert(r.member_seq() =~= Seq::<u8>::empty());
        }
        r
    }

    /// Append the bytes of `buf` to the output.
    pub fn write(&mut self, buf: &[u8]) -> (r: usize)
        requires
            old(self).wf(),
        ensures
            final(self).wf(),
            r == buf@.len(),
            final(self).output_seq() == old(self).output_seq() + buf@,
            final(self).spec_start() == old(self).spec_start(),
    {
        let n = buf.len();
        let mut i: usize = 0;
        while i < n
            invariant
                i <= n,
                n == buf@.len(),
                self.member_start == old(self).member_start,
                self.output@ == old(self).output@ + buf@.take(i as int),
            decreases n - i,
        {
            let b = buf[i];
            self.output.push(b);
            i = i + 1;
            proof {
                assert(self.output@ =~= old(self).output@ + buf@.take(i as int));
            }
        }
        proof {
            assert(self.output@ =~= old(self).output@ + buf@);
        }
        n
    }

    /// Append one byte to the output.
    pub fn write_byte(&mut self, b: u8)
        requires
            old(self).wf(),
        ensures
            final(self).wf(),
            final(self).output_seq() == old(self).output_seq().push(b),
            final(self).spec_start() == old(self).spec_start(),
    {
        self.output.push(b);
    }

    /// Emit `len` bytes copied from `dist` bytes behind the write position,
    /// byte by byte, so the copied range may overlap the bytes being written.
    /// Fails, writing nothing, exactly when the distance is zero or reaches
    /// beyond the current member's output or beyond the window size.
    pub fn write_previous(&mut self, dist: usize, len: usize) -> (r: Result<(), DecodeError>)
        requires
            old(self).wf(),
        ensures
            final(self).wf(),
            final(self).spec_start() == old(self).spec_start(),
            (1 <= dist <= old(self).member_seq().len() && dist <= HISTORY_SIZE) <==> r is Ok,
            r is Ok ==> final(self).output_seq() == old(self).output_seq() + copy_back(
                old(self).output_seq(),
                dist as int,
                len as int,
            ),
            r is Err ==> r == Err::<(), DecodeError>(DecodeError::InvalidDistance) && *final(self)
                == *old(self),
    {
        if dist == 0 || dist > self.output.len() - self.member_start || dist > HISTORY_SIZE {
            return Err(DecodeError::InvalidDistance);
        }
        let ghost base = old(self).output_seq();
        let start = self.output.len() - dist;
        let mut i: usize = 0;
        while i < len
            invariant
                i <= len,
                dist >= 1,
                start + dist == base.len(),
                self.member_start == old(self).member_start,
                self.member_start <= start,
                self.output@ == base + copy_back(base, dist as int, i as int),
            decreases len - i,
        {
            let cur = self.output.len();
            let m = i % dist;
            proof {
                vstd::arithmetic::div_mod::lemma_mod_bound(i as int, dist as int);
                assert(start + m < cur);
            }
            let idx = start + m;
            let b = self.output[idx];
            self.output.push(b);
            i = i + 1;
            proof {
                assert(self.output@ =~= base + copy_back(base, dist as int, i as int));
            }
        }
        Ok(())
    }

    /// The bytes written since the last reset.
    pub fn byte_count(&self) -> (r: usize)
        requires
            self.wf(),
        ensures
            r == self.member_seq().len(),
    {
        self.output.len() - self.member_start
    }

    /// The CRC-32 digest of the bytes written since the last reset.
    pub fn crc32(&self) -> (r: u32)
        requires
            self.wf(),
        ensures
            r == crc32_of(self.member_seq()),
    {
        let whole = self.output.as_slice();
        let member = vstd::slice::slice_subrange(whole, self.member_start, self.output.len());
        proof {
            assert(member@ =~= self.member_seq());
        }
        crc32_bytes(member)
    }

    /// Start a new member: the byte count returns to zero, the digest starts
    /// afresh, and back-references can no longer reach earlier output.
    pub fn reset(&mut self)
        requires
            old(self).wf(),
        ensures
            final(self).wf(),
            final(self).output_seq() == old(self).output_seq(),
            final(self).member_seq() == Seq::<u8>::empty(),
    {
        self.member_start = self.output.len();
        proof {
            assert(self.member_seq() =~= Seq::<u8>::empty());
        }
    }

    /// Hand the collected output back to the caller.
    pub fn into_output(self) -> (r: Vec<u8>)
        ensures
            r@ == self.output_seq(),
    {
        self.output
    }
}

/// A back-reference that stays within a suffix reads the same bytes whether
/// taken against the whole output or against that suffix.
pub proof fn lemma_copy_back_suffix(s: Seq<u8>, start: int, d: int, l: int)
    requires
        0 <= start,
        1 <= d,
        start + d <= s.len(),
        0 <= l,
    ensures
        copy_back(s, d, l) == copy_back(s.skip(start), d, l),
{
    assert forall|i: int| 0 <= i < l implies copy_back(s, d, l)[i] == copy_back(
        s.skip(start),
        d,
        l,
    )[i] by {
        vstd::arithmetic::div_mod::lemma_mod_bound(i, d);
    }
    assert(copy_back(s, d, l) =~= copy_back(s.skip(start), d, l));
}

/// Back-reference correctness: what `write_previous` appends is the periodic
/// extension of the last `dist` bytes, truncated to the requested length; in
/// particular a distance of one repeats the final byte.
pub proof fn lemma_copy_back_periodic(s: Seq<u8>, dist: int, len: int)
    requires
        1 <= dist <= s.len(),
        0 <= len,
    ensures
        copy_back(s, dist, len).len() == len,
        forall|i: int|
            0 <= i < len ==> copy_back(s, dist, len)[i] == s.skip(s.len() - dist)[i % dist],
        dist == 1 ==> forall|i: int| 0 <= i < len ==> copy_back(s, dist, len)[i] == s.last(),
{
    assert forall|i: int| 0 <= i < len implies copy_back(s, dist, len)[i] == s.skip(
        s.len() - dist,
    )[i % dist] by {
        let m = i % dist;
        vstd::arithmetic::div_mod::lemma_mod_bound(i, dist);
    }
    if dist == 1 {
        assert forall|i: int| 0 <= i < len implies copy_back(s, dist, len)[i] == s.last() by {
            vstd::arithmetic::div_mod::lemma_mod_bound(i, 1);
        }
    }
}

} // verus!
