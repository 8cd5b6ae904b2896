//! The capture buffer: a growable store of raw samples written by the
//! hardware-driven producer callback and drained by the frame loop.
//!
//! The two sides run in different threads; the host wraps one `CaptureBuffer`
//! in a mutex and keeps every lock hold to a single short call here — it
//! copies or drains, releases, and only then runs the transform.  Absence of
//! data is an ordinary observable state, never an error: `drain_front` simply
//! declines when fewer samples are stored than asked for.

use vstd::prelude::*;

verus! {

/// Samples are real values in `[-1, 1]` carried as `FP_ONE`-scaled integers.
pub struct CaptureBuffer {
    data: Vec<i32>,
}

impl View for CaptureBuffer {
    type V = Seq<i32>;

    closed spec fn view(&self) -> Seq<i32> {
        self.data@
    }
}

impl CaptureBuffer {
    pub fn new() -> (r: Self)
        ensures
            r@ == Seq::<i32>::empty(),
    {
        CaptureBuffer { data: Vec::new() }
    }

    /// Producer side: append one chunk of samples at the tail.
    pub fn append(&mut self, samples: &Vec<i32>)
        ensures
            final(self)@ == old(self)@ + samples@,
    {
        let mut i: usize = 0;
        while i < samples.len()
            invariant
                i <= samples@.len(),
                self.data@ == old(self).data@ + samples@.take(i as int),
            decreases samples@.len() - i,
        {
            let s: i32 = samples[i];
            proof {
                assert(samples@.take(i + 1) =~= samples@.take(i as int).push(samples@[i as int]));
            }
            self.data.push(s);
            i = i + 1;
        }
        proof {
            assert(samples@.take(samples@.len() as int) =~= samples@);
        }
    }

    /// Consumer side: how many samples are stored right now.
    pub fn snapshot_len(&self) -> (n: usize)
        ensures
            n == self@.len(),
    {
        self.data.len()
    }

    /// Consumer side: a non-destructive copy of everything stored, for
    /// silence detection and waveform display.
    pub fn snapshot_copy(&self) -> (r: Vec<i32>)
        ensures
            r@ == self@,
    {
        let mut r: Vec<i32> = Vec::new();
        let mut i: usize = 0;
        while i < self.data.len()
            invariant
                i <= self.data@.len(),
                r@ == self.data@.take(i as int),
            decreases self.data@.len() - i,
        {
            let s: i32 = self.data[i];
            proof {
                assert(self.data@.take(i + 1) =~= self.data@.take(i as int).push(
                    self.data@[i as int],
                ));
            }
            r.push(s);
            i = i + 1;
        }
        proof {
            assert(self.data@.take(self.data@.len() as int) =~= self.data@);
        }
        r
    }

    /// Consumer side: remove and return the oldest `n` samples, or decline if
    /// fewer are stored (the caller skips the transform for this frame).
    pub fn drain_front(&mut self, n: usize) -> (r: Option<Vec<i32>>)
        ensures
            old(self)@.len() >= n ==> r is Some && r->0@ == old(self)@.take(n as int),
            old(self)@.len() >= n ==> final(self)@ == old(self)@.skip(n as int),
            old(self)@.len() < n ==> r is None && final(self)@ == old(self)@,
    {
        if self.data.len() < n {
            return None;
        }
        let mut block: Vec<i32> = Vec::new();
        let mut i: usize = 0;
        while i < n
            invariant
                i <= n,
                n <= self.data@.len(),
                block@ == self.data@.take(i as int),
            decreases n - i,
        {
            let s: i32 = self.data[i];
            proof {
                assert(self.data@.take(i + 1) =~= self.data@.take(i as int).push(
                    self.data@[i as int],
                ));
            }
            block.push(s);
            i = i + 1;
        }
        let mut rest: Vec<i32> = Vec::new();
        let mut j: usize = n;
        while j < self.data.len()
            invariant
                n <= j <= self.data@.len(),
                rest@ == self.data@.subrange(n as int, j as int),
            decreases self.data@.len() - j,
        {
            let s: i32 = self.data[j];
            proof {
                assert(self.data@.subrange(n as int, j + 1) =~= self.data@.subrange(
                    n as int,
                    j as int,
                ).push(self.data@[j as int]));
            }
            rest.push(s);
            j = j + 1;
        }
        proof {
            assert(self.data@.subrange(n as int, self.data@.len() as int) =~= self.data@.skip(
                n as int,
            ));
        }
        self.data = rest;
        Some(block)
    }
}

} // verus!
