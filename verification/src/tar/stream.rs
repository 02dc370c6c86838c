//! Where an archive is read from, and where it is written to.

use vstd::prelude::*;

use crate::error::Result;

verus! {

/// Bytes, as the contracts of a stream speak of them.
pub type ByteSeq = Seq<u8>;

/// A byte stream an archive can be read from.
///
/// Deliberately small: implementing it needs no runtime and no allocation.
/// [`rest`](Source::rest) is there for the contracts alone, and nothing calls
/// it when the program runs.
pub trait Source {
    /// The bytes still to come.
    spec fn rest(&self) -> ByteSeq;

    /// Whether every read from here on will succeed.
    open spec fn reliable(&self) -> bool {
        false
    }

    /// Read into `buf`, returning how many bytes were placed there.
    ///
    /// `Ok(0)` for a buffer with room means end of stream.
    fn read(&mut self, buf: &mut [u8]) -> (r: Result<usize>)
        ensures
            final(buf)@.len() == old(buf)@.len(),
            r matches Ok(n) ==> n <= old(buf)@.len(),
            old(self).reliable() ==> r is Ok && final(self).reliable(),
            r matches Ok(n) ==> {
                &&& n <= old(self).rest().len()
                &&& final(buf)@.take(n as int) == old(self).rest().take(n as int)
                &&& final(self).rest() == old(self).rest().skip(n as int)
                &&& n == 0 && old(buf)@.len() > 0 ==> old(self).rest().len() == 0
            },
    ;
}

/// A byte stream an archive can be written to.
///
/// [`written`](Sink::written) is there for the contracts alone, as
/// [`Source::rest`] is.
pub trait Sink {
    /// The bytes written so far.
    spec fn written(&self) -> ByteSeq;

    /// Whether what is written waits for a flush.
    open spec fn buffered() -> bool {
        false
    }

    /// How often it was flushed, for one that waits for it.
    open spec fn flushes(&self) -> nat {
        0
    }

    /// The bytes that are through: all of them, for one that does not wait.
    open spec fn flushed(&self) -> ByteSeq {
        self.written()
    }

    /// Whether every write from here on will succeed.
    open spec fn reliable(&self) -> bool {
        false
    }

    /// Write all of `buf`.
    fn write_all(&mut self, buf: &[u8]) -> (r: Result<()>)
        ensures
            old(self).reliable() ==> r is Ok && final(self).reliable(),
            r is Ok ==> final(self).written() == old(self).written() + buf@,
            r is Ok ==> final(self).flushes() == old(self).flushes(),
            r is Ok && Self::buffered() ==> final(self).flushed() == old(self).flushed(),
    ;

    /// Flush anything buffered. Called once, when the archive is complete.
    fn flush(&mut self) -> (r: Result<()>)
        ensures
            old(self).reliable() ==> r is Ok && final(self).reliable(),
            r is Ok ==> final(self).written() == old(self).written(),
            r is Ok ==> final(self).flushed() == final(self).written(),
            r is Ok ==> final(self).flushes() == old(self).flushes() + (if Self::buffered() {
                1nat
            } else {
                0nat
            }),
    ;
}

/// A [`Source`] over an archive already in memory.
pub struct Bytes<'a> {
    rest: &'a [u8],
}

impl<'a> Bytes<'a> {
    /// The bytes not yet read.
    pub closed spec fn unread(&self) -> Seq<u8> {
        self.rest@
    }

    /// Read an archive from a slice.
    pub fn new(archive: &'a [u8]) -> (r: Self)
        ensures
            r.unread() == archive@,
            r.rest() == archive@,
            r.reliable(),
    {
        Self { rest: archive }
    }
}

impl Source for Bytes<'_> {
    open spec fn rest(&self) -> ByteSeq {
        self.unread()
    }

    open spec fn reliable(&self) -> bool {
        true
    }

    /// Hands over as much as fits, and leaves the buffer past it alone.
    fn read(&mut self, buf: &mut [u8]) -> (r: Result<usize>)
        ensures
            r matches Ok(n) && n == (if old(buf)@.len() < old(self).rest().len() {
                old(buf)@.len()
            } else {
                old(self).rest().len()
            }),
            r matches Ok(n) && final(buf)@ == old(self).rest().take(n as int) + old(buf)@.skip(
                n as int,
            ),
    {
        let n: usize = if buf.len() < self.rest.len() {
            buf.len()
        } else {
            self.rest.len()
        };
        let mut i: usize = 0;
        while i < n
            invariant
                i <= n,
                n <= buf@.len(),
                buf@.len() == old(buf)@.len(),
                self.rest@ == old(self).rest@,
                n <= self.rest@.len(),
                forall|j: int| 0 <= j < i ==> buf@[j] == self.rest@[j],
                forall|j: int| i <= j < buf@.len() ==> buf@[j] == old(buf)@[j],
            decreases n - i,
        {
            buf[i] = self.rest[i];
            i += 1;
        }
        self.rest = vstd::slice::slice_subrange(self.rest, n, self.rest.len());
        assert(self.rest@ =~= old(self).rest@.skip(n as int));
        assert(buf@.take(n as int) =~= old(self).rest@.take(n as int));
        assert(buf@ =~= old(self).rest@.take(n as int) + old(buf)@.skip(n as int));
        Ok(n)
    }
}

impl Sink for Vec<u8> {
    open spec fn written(&self) -> ByteSeq {
        self@
    }

    open spec fn reliable(&self) -> bool {
        true
    }

    fn write_all(&mut self, buf: &[u8]) -> (r: Result<()>) {
        self.extend_from_slice(buf);
        assert(self@ =~= old(self)@ + buf@);
        Ok(())
    }

    /// There is nothing to wait for.
    fn flush(&mut self) -> (r: Result<()>)
        ensures
            r is Ok,
            final(self)@ == old(self)@,
    {
        Ok(())
    }
}

/// Holds a stream of another kind, for an adapter to read or write through.
pub struct Io<T> {
    inner: T,
}

impl<T> Io<T> {
    /// The stream held.
    pub closed spec fn held(&self) -> T {
        self.inner
    }

    /// Wrap a stream.
    pub fn new(inner: T) -> (r: Self)
        ensures
            r.held() == inner,
    {
        Self { inner }
    }

    /// Give the stream back.
    pub fn into_inner(self) -> (r: T)
        ensures
            r == self.held(),
    {
        self.inner
    }
}

} // verus!
