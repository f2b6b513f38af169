//! A positioned reader over a borrowed byte slice, with an optional bound so
//! a sub-reader can refuse to read past a packed region.

use vstd::prelude::*;
use crate::error::Error;

verus! {

/// A reader that hands out bytes of a borrowed slice and counts how many it
/// has consumed. `end` bounds the readable region, so a sub-reader over a
/// length-prefixed pack cannot read past it.
pub struct Reader<'de> {
    /// The backing slice.
    pub data: &'de [u8],
    /// Bytes consumed from the origin of the slice.
    pub pos: usize,
    /// The bound of the readable region.
    pub end: usize,
}

impl<'de> Reader<'de> {
    /// The reader is inside its slice and its bound.
    pub open spec fn wf(self) -> bool {
        self.pos <= self.end <= self.data@.len()
    }

    /// The bytes still readable.
    pub open spec fn rem(self) -> Seq<u8> {
        self.data@.subrange(self.pos as int, self.end as int)
    }

    /// The position: bytes consumed from the origin of the slice.
    pub open spec fn spec_pos(self) -> usize {
        self.pos
    }

    /// The bound of the readable region.
    pub open spec fn spec_end(self) -> usize {
        self.end
    }

    /// The whole backing slice.
    pub open spec fn spec_data(self) -> Seq<u8> {
        self.data@
    }

    /// A reader over all of `data`, positioned at its start.
    pub fn new(data: &'de [u8]) -> (r: Reader<'de>)
        ensures
            r.wf(),
            r.spec_pos() == 0,
            r.spec_end() == data@.len(),
            r.spec_data() == data@,
            r.rem() == data@,
    {
        let r = Reader { data, pos: 0, end: data.len() };
        proof {
            assert(r.rem() =~= data@);
        }
        r
    }

    /// The number of bytes consumed so far.
    pub fn pos(&self) -> (r: usize)
        ensures
            r == self.spec_pos(),
    {
        self.pos
    }

    /// The number of bytes still readable.
    pub fn remaining(&self) -> (r: usize)
        requires
            self.wf(),
        ensures
            r == self.rem().len(),
    {
        self.end - self.pos
    }

    /// The next byte; `Truncated` when none is left.
    pub fn read_byte(&mut self) -> (r: Result<u8, Error>)
        requires
            old(self).wf(),
        ensures
            final(self).wf(),
            final(self).spec_data() == old(self).spec_data(),
            final(self).spec_end() == old(self).spec_end(),
            old(self).rem().len() == 0 ==> (r matches Err(e) && e matches Error::Truncated
                && *final(self) == *old(self)),
            old(self).rem().len() > 0 ==> (r matches Ok(b) && b == old(self).rem()[0]
                && final(self).spec_pos() == old(self).spec_pos() + 1
                && final(self).rem() == old(self).rem().skip(1)),
    {
        if self.pos < self.end {
            let b = self.data[self.pos];
            self.pos = self.pos + 1;
            proof {
                assert(self.rem() =~= old(self).rem().skip(1));
            }
            Ok(b)
        } else {
            Err(Error::Truncated)
        }
    }

    /// The next `n` bytes, borrowed from the backing slice; `Truncated` when
    /// fewer are left.
    pub fn read_bytes(&mut self, n: usize) -> (r: Result<&'de [u8], Error>)
        requires
            old(self).wf(),
        ensures
            final(self).wf(),
            final(self).spec_data() == old(self).spec_data(),
            final(self).spec_end() == old(self).spec_end(),
            old(self).rem().len() < n ==> (r matches Err(e) && e matches Error::Truncated
                && *final(self) == *old(self)),
            old(self).rem().len() >= n ==> (r matches Ok(b) && b@ == old(self).rem().take(n as int)
                && final(self).spec_pos() == old(self).spec_pos() + n
                && final(self).rem() == old(self).rem().skip(n as int)),
    {
        if n <= self.end - self.pos {
            let b = vstd::slice::slice_subrange(self.data, self.pos, self.pos + n);
            self.pos = self.pos + n;
            proof {
                assert(b@ =~= old(self).rem().take(n as int));
                assert(self.rem() =~= old(self).rem().skip(n as int));
            }
            Ok(b)
        } else {
            Err(Error::Truncated)
        }
    }

    /// Consume `n` bytes without looking at them; `Truncated` when fewer are
    /// left.
    pub fn skip(&mut self, n: usize) -> (r: Result<(), Error>)
        requires
            old(self).wf(),
        ensures
            final(self).wf(),
            final(self).spec_data() == old(self).spec_data(),
            final(self).spec_end() == old(self).spec_end(),
            old(self).rem().len() < n ==> (r matches Err(e) && e matches Error::Truncated
                && *final(self) == *old(self)),
            old(self).rem().len() >= n ==> (r matches Ok(u)
                && final(self).spec_pos() == old(self).spec_pos() + n
                && final(self).rem() == old(self).rem().skip(n as int)),
    {
        if n <= self.end - self.pos {
            self.pos = self.pos + n;
            proof {
                assert(self.rem() =~= old(self).rem().skip(n as int));
            }
            Ok(())
        } else {
            Err(Error::Truncated)
        }
    }

    /// A sub-reader over the next `n` bytes. This reader itself moves past
    /// those bytes, so it stands immediately past the bounded region however
    /// much of it the sub-reader consumes.
    pub fn limit(&mut self, n: usize) -> (r: Result<Reader<'de>, Error>)
        requires
            old(self).wf(),
        ensures
            final(self).wf(),
            final(self).spec_data() == old(self).spec_data(),
            final(self).spec_end() == old(self).spec_end(),
            old(self).rem().len() < n ==> (r matches Err(e) && e matches Error::Truncated
                && *final(self) == *old(self)),
            old(self).rem().len() >= n ==> (r matches Ok(sub) && sub.wf()
                && sub.spec_pos() == old(self).spec_pos()
                && sub.rem() == old(self).rem().take(n as int)
                && final(self).spec_pos() == old(self).spec_pos() + n
                && final(self).rem() == old(self).rem().skip(n as int)),
    {
        if n <= self.end - self.pos {
            let sub = Reader { data: self.data, pos: self.pos, end: self.pos + n };
            self.pos = self.pos + n;
            proof {
                assert(sub.rem() =~= old(self).rem().take(n as int));
                assert(self.rem() =~= old(self).rem().skip(n as int));
            }
            Ok(sub)
        } else {
            Err(Error::Truncated)
        }
    }
}

} // verus!
