//! A simulated program break: a contiguous byte region whose upper boundary
//! moves up or down on request, within a fixed limit.
use vstd::prelude::*;

verus! {

/// The abstract state of a heap region: the addresses `base <= brk <= limit`
/// and the bytes held between `base` and `brk`.
pub ghost struct HeapModel {
    pub base: int,
    pub brk: int,
    pub limit: int,
    pub bytes: Seq<u8>,
}

impl HeapModel {
    pub open spec fn valid(self) -> bool {
        &&& 0 <= self.base <= self.brk <= self.limit <= usize::MAX
        &&& self.bytes.len() == self.brk - self.base
    }

    /// The byte stored at address `addr`.
    pub open spec fn byte(self, addr: int) -> u8 {
        self.bytes[addr - self.base]
    }

    /// Whether `addr` lies in the region currently granted.
    pub open spec fn holds(self, addr: int) -> bool {
        self.base <= addr < self.brk
    }

    /// The state after moving the boundary by `delta` bytes, or `None` where
    /// the move would leave `base..=limit`. Bytes gained read as zero; bytes
    /// given back are dropped.
    pub open spec fn adjusted(self, delta: int) -> Option<HeapModel> {
        let nb = self.brk + delta;
        if nb < self.base || nb > self.limit {
            None
        } else if delta >= 0 {
            Some(HeapModel { brk: nb, bytes: self.bytes + Seq::new(delta as nat, |i: int| 0u8), ..self })
        } else {
            Some(HeapModel { brk: nb, bytes: self.bytes.subrange(0, nb - self.base), ..self })
        }
    }
}

/// A growable heap region addressed from `base`; its boundary starts at
/// `base` and may move up to `limit`.
pub struct Heap {
    base: usize,
    brk: usize,
    limit: usize,
    memory: Vec<u8>,
}

impl View for Heap {
    type V = HeapModel;

    closed spec fn view(&self) -> HeapModel {
        HeapModel {
            base: self.base as int,
            brk: self.brk as int,
            limit: self.limit as int,
            bytes: self.memory@,
        }
    }
}

impl Heap {
    pub open spec fn wf(&self) -> bool {
        self@.valid()
    }

    /// An empty region at `base` that can grow by up to `capacity` bytes.
    pub fn new(base: usize, capacity: usize) -> (r: Heap)
        requires
            base + capacity <= usize::MAX,
        ensures
            r.wf(),
            r@ == (HeapModel { base: base as int, brk: base as int, limit: base + capacity, bytes: Seq::empty() }),
    {
        Heap { base, brk: base, limit: base + capacity, memory: Vec::new() }
    }

    /// The lowest address of the region.
    pub fn base(&self) -> (r: usize)
        ensures
            r == self@.base,
    {
        self.base
    }

    /// The current boundary: one past the highest address granted.
    pub fn boundary(&self) -> (r: usize)
        ensures
            r == self@.brk,
    {
        self.brk
    }

    /// Moves the boundary by `delta` bytes (up when positive, down when
    /// negative) and returns the boundary before the move, or `None`, leaving
    /// the region as it was, where the move would pass `base` or `limit`.
    /// A `delta` of zero queries the boundary.
    pub fn adjust(&mut self, delta: isize) -> (r: Option<usize>)
        requires
            old(self).wf(),
        ensures
            final(self).wf(),
            match old(self)@.adjusted(delta as int) {
                Some(m) => r == Some(old(self)@.brk as usize) && final(self)@ == m,
                None => r is None && final(self)@ == old(self)@,
            },
    {
        let prior = self.brk;
        if delta >= 0 {
            let grow = delta as usize;
            if grow > self.limit - self.brk {
                return None;
            }
            let n: usize = self.memory.len() + grow;
            self.memory.resize(n, 0u8);
            self.brk = self.brk + grow;
            assert(self.memory@ =~= old(self)@.bytes + Seq::new(grow as nat, |i: int| 0u8));
        } else {
            let shrink: usize = (0isize - (delta + 1)) as usize + 1;
            if shrink > self.brk - self.base {
                return None;
            }
            let n: usize = self.memory.len() - shrink;
            self.memory.truncate(n);
            self.brk = self.brk - shrink;
        }
        Some(prior)
    }

    /// The byte at `addr`.
    pub fn read(&self, addr: usize) -> (r: u8)
        requires
            self.wf(),
            self@.holds(addr as int),
        ensures
            r == self@.byte(addr as int),
    {
        self.memory[addr - self.base]
    }

    /// Stores `value` at `addr`.
    pub fn write(&mut self, addr: usize, value: u8)
        requires
            old(self).wf(),
            old(self)@.holds(addr as int),
        ensures
            final(self).wf(),
            final(self)@ == (HeapModel { bytes: old(self)@.bytes.update(addr - old(self)@.base, value), ..old(self)@ }),
    {
        let i = addr - self.base;
        self.memory.set(i, value);
    }
}

} // verus!
