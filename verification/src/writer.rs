//! The writer contract a byte sink implements, and a writer that gathers
//! small writes in a fixed-capacity buffer before handing them on.

use vstd::prelude::*;
use crate::error::Error;

verus! {

/// A byte sink. What has reached the sink is its `out` sequence; a
/// successful write appends exactly the given bytes.
pub trait Writer: Sized {
    /// The bytes the sink has received.
    spec fn out(&self) -> Seq<u8>;

    /// Append `bytes` to the sink.
    fn write_bytes(&mut self, bytes: &[u8]) -> (r: Result<(), Error>)
        ensures
            r is Ok ==> final(self).out() == old(self).out() + bytes@,
    ;

    /// Append an owned buffer of bytes to the sink.
    fn write_buffer(&mut self, buffer: &Vec<u8>) -> (r: Result<(), Error>)
        ensures
            r is Ok ==> final(self).out() == old(self).out() + buffer@,
    ;
}

impl Writer for Vec<u8> {
    open spec fn out(&self) -> Seq<u8> {
        self@
    }

    fn write_bytes(&mut self, bytes: &[u8]) -> (r: Result<(), Error>)
        ensures
            r is Ok,
    {
        push_slice(self, bytes);
        Ok(())
    }

    fn write_buffer(&mut self, buffer: &Vec<u8>) -> (r: Result<(), Error>)
        ensures
            r is Ok,
    {
        push_slice(self, buffer.as_slice());
        Ok(())
    }
}

/// Append every byte of `b` to `out`.
pub(crate) fn push_slice(out: &mut Vec<u8>, b: &[u8])
    ensures
        final(out)@ == old(out)@ + b@,
{
    let mut i: usize = 0;
    while i < b.len()
        invariant
            i <= b@.len(),
            out@ == old(out)@ + b@.take(i as int),
        decreases b@.len() - i,
    {
        out.push(b[i]);
        i = i + 1;
        proof {
            assert(out@ =~= old(out)@ + b@.take(i as int));
        }
    }
    proof {
        assert(out@ =~= old(out)@ + b@);
    }
}

/// A writer that buffers up to `N` bytes inline before its inner writer
/// sees them. [`BufferedWriter::finish`] must be called to flush what the
/// buffer still holds.
pub struct BufferedWriter<const N: usize, W> {
    /// The bytes gathered and not yet handed to the inner writer.
    pub buf: Vec<u8>,
    /// The inner writer.
    pub writer: W,
}

impl<const N: usize, W: Writer> BufferedWriter<N, W> {
    /// The buffer is within its capacity.
    pub open spec fn wf(self) -> bool {
        self.buf@.len() <= N
    }

    /// All bytes written through this writer: what the inner writer has,
    /// then what the buffer still holds.
    pub open spec fn content(self) -> Seq<u8> {
        self.writer.out() + self.buf@
    }

    /// A buffered writer with an empty buffer over `writer`.
    pub fn new(writer: W) -> (r: BufferedWriter<N, W>)
        ensures
            r.wf(),
            r.buf@ == Seq::<u8>::empty(),
            r.writer == writer,
            r.content() == writer.out(),
    {
        let r = BufferedWriter { buf: Vec::new(), writer };
        proof {
            assert(r.content() =~= writer.out());
        }
        r
    }

    /// Flush what the buffer still holds and surrender the inner writer,
    /// which then has received every byte written through this one.
    pub fn finish(self) -> (r: Result<W, Error>)
        ensures
            r matches Ok(w) ==> w.out() == self.content(),
            self.buf@.len() == 0 ==> r is Ok,
    {
        let mut this = self;
        if this.buf.len() > 0 {
            match this.writer.write_bytes(this.buf.as_slice()) {
                Ok(_) => {},
                Err(e) => {
                    return Err(e);
                },
            }
        } else {
            proof {
                assert(this.writer.out() =~= self.content());
            }
        }
        Ok(this.writer)
    }
}

impl<const N: usize, W: Writer> Writer for BufferedWriter<N, W> {
    /// All bytes written through this writer.
    open spec fn out(&self) -> Seq<u8> {
        self.content()
    }

    /// Append `bytes`. When they no longer fit the buffer, the buffer is
    /// flushed to the inner writer first; bytes that alone exceed the
    /// capacity are refused as an overflow. A write that fits the free
    /// space of the buffer cannot fail.
    fn write_bytes(&mut self, bytes: &[u8]) -> (r: Result<(), Error>)
        ensures
            old(self).wf() && r is Ok ==> final(self).wf(),
            old(self).buf@.len() + bytes@.len() <= N ==> (r is Ok && final(self).writer == old(
                self,
            ).writer),
            bytes@.len() > N ==> r is Err,
    {
        let len = self.buf.len();
        let free: usize = if len <= N {
            N - len
        } else {
            0
        };
        if free < bytes.len() {
            match self.writer.write_bytes(self.buf.as_slice()) {
                Ok(_) => {},
                Err(e) => {
                    return Err(e);
                },
            }
            self.buf.clear();
        }
        let len2 = self.buf.len();
        let free2: usize = if len2 <= N {
            N - len2
        } else {
            0
        };
        if bytes.len() > free2 {
            return Err(Error::BufferOverflow);
        }
        push_slice(&mut self.buf, bytes);
        proof {
            assert(self.content() =~= old(self).content() + bytes@);
        }
        Ok(())
    }

    /// Append an owned buffer through the byte path.
    fn write_buffer(&mut self, buffer: &Vec<u8>) -> (r: Result<(), Error>)
        ensures
            old(self).wf() && r is Ok ==> final(self).wf(),
            old(self).buf@.len() + buffer@.len() <= N ==> (r is Ok && final(self).writer == old(
                self,
            ).writer),
            buffer@.len() > N ==> r is Err,
    {
        self.write_bytes(buffer.as_slice())
    }
}

} // verus!
