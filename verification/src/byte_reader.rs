use vstd::prelude::*;

use crate::errors::DecodeError;

verus! {

/// An owned, in-memory byte source with a read cursor. The whole pipeline
/// draws its input from one of these; the caller supplies the bytes.
pub struct ByteReader {
    data: Vec<u8>,
    pos: usize,
}

impl ByteReader {
    /// The bytes not yet consumed, oldest first.
    pub closed spec fn remaining_bytes(&self) -> Seq<u8> {
        self.data@.skip(self.pos as int)
    }

    pub closed spec fn wf(&self) -> bool {
        self.pos <= self.data@.len()
    }

    pub fn new(data: Vec<u8>) -> (r: Self)
        ensures
            r.wf(),
            r.remaining_bytes() == data@,
    {
        let r = ByteReader { data, pos: 0 };
        proof {
            assert(r.remaining_bytes() =~= r.data@);
        }
        r
    }

    pub fn remaining(&self) -> (r: usize)
        requires
            self.wf(),
        ensures
            r == self.remaining_bytes().len(),
    {
        self.data.len() - self.pos
    }

    /// Consume and return the next byte.
    pub fn read_byte(&mut self) -> (r: Result<u8, DecodeError>)
        requires
            old(self).wf(),
        ensures
            final(self).wf(),
            old(self).remaining_bytes().len() == 0 ==> r == Err::<u8, DecodeError>(
                DecodeError::UnexpectedEof,
            ) && *final(self) == *old(self),
            old(self).remaining_bytes().len() > 0 ==> r == Ok::<u8, DecodeError>(
                old(self).remaining_bytes()[0],
            ) && final(self).remaining_bytes() == old(self).remaining_bytes().skip(1),
    {
        if self.pos < self.data.len() {
            let b = self.data[self.pos];
            self.pos = self.pos + 1;
            proof {
                assert(self.remaining_bytes() =~= old(self).remaining_bytes().skip(1));
            }
            Ok(b)
        } else {
            Err(DecodeError::UnexpectedEof)
        }
    }

    /// Consume and return the next two bytes as a little-endian integer.
    pub fn read_u16_le(&mut self) -> (r: Result<u16, DecodeError>)
        requires
            old(self).wf(),
        ensures
            final(self).wf(),
            old(self).remaining_bytes().len() < 2 ==> r is Err,
            r is Err ==> r == Err::<u16, DecodeError>(DecodeError::UnexpectedEof) && *final(self)
                == *old(self),
            old(self).remaining_bytes().len() >= 2 ==> r == Ok::<u16, DecodeError>(
                le16(old(self).remaining_bytes()[0], old(self).remaining_bytes()[1]),
            ) && final(self).remaining_bytes() == old(self).remaining_bytes().skip(2),
    {
        if self.data.len() - self.pos < 2 {
            return Err(DecodeError::UnexpectedEof);
        }
        let b0 = self.data[self.pos];
        let b1 = self.data[self.pos + 1];
        self.pos = self.pos + 2;
        proof {
            assert(self.remaining_bytes() =~= old(self).remaining_bytes().skip(2));
        }
        Ok(b0 as u16 + 256 * (b1 as u16))
    }

    /// Consume and return the next four bytes as a little-endian integer.
    pub fn read_u32_le(&mut self) -> (r: Result<u32, DecodeError>)
        requires
            old(self).wf(),
        ensures
            final(self).wf(),
            old(self).remaining_bytes().len() < 4 ==> r is Err,
            r is Err ==> r == Err::<u32, DecodeError>(DecodeError::UnexpectedEof) && *final(self)
                == *old(self),
            old(self).remaining_bytes().len() >= 4 ==> r == Ok::<u32, DecodeError>(
                le32(
                    old(self).remaining_bytes()[0],
                    old(self).remaining_bytes()[1],
                    old(self).remaining_bytes()[2],
                    old(self).remaining_bytes()[3],
                ),
            ) && final(self).remaining_bytes() == old(self).remaining_bytes().skip(4),
    {
        if self.data.len() - self.pos < 4 {
            return Err(DecodeError::UnexpectedEof);
        }
        let b0 = self.data[self.pos];
        let b1 = self.data[self.pos + 1];
        let b2 = self.data[self.pos + 2];
        let b3 = self.data[self.pos + 3];
        self.pos = self.pos + 4;
        proof {
            assert(self.remaining_bytes() =~= old(self).remaining_bytes().skip(4));
        }
        Ok(b0 as u32 + 0x100 * (b1 as u32) + 0x1_0000 * (b2 as u32) + 0x100_0000 * (b3 as u32))
    }

    /// Consume exactly `n` bytes and return them.
    pub fn read_exact_vec(&mut self, n: usize) -> (r: Result<Vec<u8>, DecodeError>)
        requires
            old(self).wf(),
        ensures
            final(self).wf(),
            old(self).remaining_bytes().len() < n ==> r == Err::<Vec<u8>, DecodeError>(
                DecodeError::UnexpectedEof,
            ) && *final(self) == *old(self),
            old(self).remaining_bytes().len() >= n ==> r is Ok && r->Ok_0@ == old(
                self,
            ).remaining_bytes().take(n as int) && final(self).remaining_bytes() == old(
                self,
            ).remaining_bytes().skip(n as int),
    {
        if self.data.len() - self.pos < n {
            return Err(DecodeError::UnexpectedEof);
        }
        let mut out: Vec<u8> = Vec::new();
        let mut i: usize = 0;
        while i < n
            invariant
                i <= n,
                self.wf(),
                self.data == old(self).data,
                self.pos == old(self).pos + i,
                old(self).pos + n <= self.data@.len(),
                self.data@.len() <= usize::MAX,
                out@ == old(self).remaining_bytes().take(i as int),
            decreases n - i,
        {
            let b = self.data[self.pos];
            out.push(b);
            self.pos = self.pos + 1;
            i = i + 1;
            proof {
                assert(out@ =~= old(self).remaining_bytes().take(i as int));
            }
        }
        proof {
            assert(self.remaining_bytes() =~= old(self).remaining_bytes().skip(n as int));
        }
        Ok(out)
    }

    /// Consume bytes up to and including the first 0x00, returning the bytes
    /// before the terminator. Fails when no terminator remains.
    pub fn read_until_zero(&mut self) -> (r: Result<Vec<u8>, DecodeError>)
        requires
            old(self).wf(),
        ensures
            final(self).wf(),
            !old(self).remaining_bytes().contains(0u8) ==> r is Err && r == Err::<
                Vec<u8>,
                DecodeError,
            >(DecodeError::UnexpectedEof),
            old(self).remaining_bytes().contains(0u8) ==> {
                let k = zero_index(old(self).remaining_bytes());
                &&& r is Ok
                &&& r->Ok_0@ == old(self).remaining_bytes().take(k)
                &&& final(self).remaining_bytes() == old(self).remaining_bytes().skip(k + 1)
            },
    {
        let ghost rem = old(self).remaining_bytes();
        let dlen = self.data.len();
        proof {
            assert(self.pos + rem.len() == dlen);
        }
        let mut out: Vec<u8> = Vec::new();
        let mut i: usize = 0;
        loop
            invariant
                self.wf(),
                self.data == old(self).data,
                self.pos == old(self).pos,
                i <= rem.len(),
                rem == old(self).remaining_bytes(),
                self.pos + rem.len() == self.data@.len() <= usize::MAX,
                out@ == rem.take(i as int),
                forall|j: int| 0 <= j < i ==> rem[j] != 0u8,
            decreases rem.len() - i,
        {
            if self.pos + i >= self.data.len() {
                proof {
                    assert(forall|j: int| 0 <= j < rem.len() ==> rem[j] != 0u8);
                }
                return Err(DecodeError::UnexpectedEof);
            }
            let b = self.data[self.pos + i];
            if b == 0 {
                self.pos = self.pos + i + 1;
                proof {
                    lemma_zero_index_is_first(rem, i as int);
                    assert(self.remaining_bytes() =~= rem.skip(i + 1));
                }
                return Ok(out);
            }
            out.push(b);
            i = i + 1;
            proof {
                assert(out@ =~= rem.take(i as int));
            }
        }
    }
}

/// The value of two bytes read little-endian.
pub open spec fn le16(b0: u8, b1: u8) -> u16 {
    (b0 + 256 * b1) as u16
}

/// The value of four bytes read little-endian.
pub open spec fn le32(b0: u8, b1: u8, b2: u8, b3: u8) -> u32 {
    (b0 + 0x100 * b1 + 0x1_0000 * b2 + 0x100_0000 * b3) as u32
}

/// The position of the first zero byte of `s`.
pub open spec fn zero_index(s: Seq<u8>) -> int {
    s.index_of_first(0u8)->Some_0
}

proof fn lemma_zero_index_is_first(s: Seq<u8>, i: int)
    requires
        0 <= i < s.len(),
        s[i] == 0u8,
        forall|j: int| 0 <= j < i ==> s[j] != 0u8,
    ensures
        s.contains(0u8),
        zero_index(s) == i,
{
    assert(s.contains(0u8));
    s.index_of_first_ensures(0u8);
}

} // verus!
