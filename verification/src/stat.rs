//! A byte-counting decorator for I/O diagnostics.
//!
//! `Stat` wraps any reader or writer and accumulates how many bytes have
//! passed through it. The counting state and its arithmetic live here,
//! verified; the surrounding program performs the actual I/O and reports
//! each transferred byte count through [`Stat::record_read`] and
//! [`Stat::record_write`].

use vstd::prelude::*;

verus! {

/// A reader/writer wrapper that collects statistics on reads and writes.
#[derive(Debug)]
pub struct Stat<I> {
    /// The wrapped reader or writer.
    pub inner: I,
    /// The number of bytes read so far.
    pub read_count: u64,
    /// The number of bytes written so far.
    pub write_count: u64,
}

impl<I> Stat<I> {
    /// Constructs a new `Stat` with both counters at zero.
    pub fn new(inner: I) -> (r: Self)
        ensures
            r.inner == inner,
            r.read_count == 0,
            r.write_count == 0,
    {
        Self { inner, read_count: 0, write_count: 0 }
    }

    /// Returns the number of bytes read.
    pub fn read_count(&self) -> (r: u64)
        ensures
            r == self.read_count,
    {
        self.read_count
    }

    /// Returns the number of bytes written.
    pub fn write_count(&self) -> (r: u64)
        ensures
            r == self.write_count,
    {
        self.write_count
    }

    /// Returns the inner reader/writer.
    pub fn into_inner(self) -> (r: I)
        ensures
            r == self.inner,
    {
        self.inner
    }

    /// Records `n` more bytes as read.
    pub fn record_read(&mut self, n: u64)
        requires
            old(self).read_count + n <= u64::MAX,
        ensures
            final(self).read_count == old(self).read_count + n,
            final(self).write_count == old(self).write_count,
            final(self).inner == old(self).inner,
    {
        self.read_count = self.read_count + n;
    }

    /// Records `n` more bytes as written.
    pub fn record_write(&mut self, n: u64)
        requires
            old(self).write_count + n <= u64::MAX,
        ensures
            final(self).write_count == old(self).write_count + n,
            final(self).read_count == old(self).read_count,
            final(self).inner == old(self).inner,
    {
        self.write_count = self.write_count + n;
    }
}

} // verus!
