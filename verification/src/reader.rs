use vstd::prelude::*;
use vstd::slice::slice_subrange;
use vstd::bytes::{u32_from_le_bytes, u64_from_le_bytes, spec_u32_from_le_bytes, spec_u64_from_le_bytes};
use crate::error::Error;

verus! {

/// The 32-bit word stored little-endian at `off` in `b`.
pub open spec fn word_at(b: Seq<u8>, off: int) -> u32 {
    spec_u32_from_le_bytes(b.subrange(off, off + 4))
}

/// The 64-bit value stored little-endian at `off` in `b`, read back as the
/// signed number it encodes in two's complement.
pub open spec fn long_at(b: Seq<u8>, off: int) -> i64 {
    spec_u64_from_le_bytes(b.subrange(off, off + 8)) as i64
}

/// A cursor over an in-memory byte buffer. All decoding walks one of these;
/// multi-byte integers are stored little-endian.
pub struct Reader {
    data: Vec<u8>,
    pos: usize,
}

impl Reader {
    /// The bytes not yet consumed.
    pub closed spec fn remaining_bytes(self) -> Seq<u8> {
        self.data@.subrange(self.pos as int, self.data@.len() as int)
    }

    pub closed spec fn wf(self) -> bool {
        self.pos <= self.data@.len()
    }

    pub fn new(data: Vec<u8>) -> (r: Self)
        ensures
            r.wf(),
            r.remaining_bytes() == data@,
    {
        let r = Reader { data, pos: 0 };
        proof {
            assert(r.remaining_bytes() =~= r.data@);
        }
        r
    }

    /// How many bytes are left to read.
    pub fn remaining(&self) -> (n: usize)
        requires
            self.wf(),
        ensures
            n == self.remaining_bytes().len(),
    {
        self.data.len() - self.pos
    }

    /// Reads the next four bytes as a little-endian unsigned word.
    pub fn read_u32(&mut self) -> (r: Result<u32, Error>)
        requires
            old(self).wf(),
        ensures
            final(self).wf(),
            old(self).remaining_bytes().len() >= 4 ==> {
                &&& r matches Ok(x) && x == word_at(old(self).remaining_bytes(), 0)
                &&& final(self).remaining_bytes() == old(self).remaining_bytes().skip(4)
            },
            old(self).remaining_bytes().len() < 4 ==> {
                &&& r matches Err(e) && e@ is Eof
                &&& *final(self) == *old(self)
            },
    {
        if self.data.len() - self.pos >= 4 {
            let s = slice_subrange(self.data.as_slice(), self.pos, self.pos + 4);
            let x = u32_from_le_bytes(s);
            proof {
                assert(s@ =~= old(self).remaining_bytes().subrange(0, 4));
            }
            self.pos = self.pos + 4;
            proof {
                assert(self.remaining_bytes() =~= old(self).remaining_bytes().skip(4));
            }
            Ok(x)
        } else {
            Err(Error::UnexpectedEOF(String::new()))
        }
    }

    /// Reads the next eight bytes as a little-endian signed long.
    pub fn read_i64(&mut self) -> (r: Result<i64, Error>)
        requires
            old(self).wf(),
        ensures
            final(self).wf(),
            old(self).remaining_bytes().len() >= 8 ==> {
                &&& r matches Ok(x) && x == long_at(old(self).remaining_bytes(), 0)
                &&& final(self).remaining_bytes() == old(self).remaining_bytes().skip(8)
            },
            old(self).remaining_bytes().len() < 8 ==> {
                &&& r matches Err(e) && e@ is Eof
                &&& *final(self) == *old(self)
            },
    {
        if self.data.len() - self.pos >= 8 {
            let s = slice_subrange(self.data.as_slice(), self.pos, self.pos + 8);
            let x = u64_from_le_bytes(s);
            proof {
                assert(s@ =~= old(self).remaining_bytes().subrange(0, 8));
            }
            self.pos = self.pos + 8;
            proof {
                assert(self.remaining_bytes() =~= old(self).remaining_bytes().skip(8));
            }
            Ok(x as i64)
        } else {
            Err(Error::UnexpectedEOF(String::new()))
        }
    }

    /// Advances past `n` bytes without interpreting them.
    pub fn skip(&mut self, n: usize) -> (r: Result<(), Error>)
        requires
            old(self).wf(),
        ensures
            final(self).wf(),
            old(self).remaining_bytes().len() >= n ==> {
                &&& r is Ok
                &&& final(self).remaining_bytes() == old(self).remaining_bytes().skip(n as int)
            },
            old(self).remaining_bytes().len() < n ==> {
                &&& r matches Err(e) && e@ is Eof
                &&& *final(self) == *old(self)
            },
    {
        if self.data.len() - self.pos >= n {
            self.pos = self.pos + n;
            proof {
                assert(self.remaining_bytes() =~= old(self).remaining_bytes().skip(n as int));
            }
            Ok(())
        } else {
            Err(Error::UnexpectedEOF(String::new()))
        }
    }

    /// Reads the next `n` bytes out as an owned buffer.
    pub fn read_vec(&mut self, n: usize) -> (r: Result<Vec<u8>, Error>)
        requires
            old(self).wf(),
        ensures
            final(self).wf(),
            old(self).remaining_bytes().len() >= n ==> {
                &&& r matches Ok(v) && v@ == old(self).remaining_bytes().take(n as int)
                &&& final(self).remaining_bytes() == old(self).remaining_bytes().skip(n as int)
            },
            old(self).remaining_bytes().len() < n ==> {
                &&& r matches Err(e) && e@ is Eof
                &&& *final(self) == *old(self)
            },
    {
        if self.data.len() - self.pos >= n {
            let s = slice_subrange(self.data.as_slice(), self.pos, self.pos + n);
            let v = vstd::slice::slice_to_vec(s);
            proof {
                assert(s@ =~= old(self).remaining_bytes().take(n as int));
            }
            self.pos = self.pos + n;
            proof {
                assert(self.remaining_bytes() =~= old(self).remaining_bytes().skip(n as int));
            }
            Ok(v)
        } else {
            Err(Error::UnexpectedEOF(String::new()))
        }
    }
}

} // verus!
