//! The output sink: the decoded bytes, with the most recent of them kept in a
//! fixed-capacity ring that serves back-references.
use vstd::prelude::*;

verus! {

/// Capacity of the ring: the largest distance a back-reference may have.
pub const WINDOW_SIZE: usize = 32768;

/// `out` followed by `len` bytes, each one copied from `dist` bytes before it.
/// A copy may overlap the bytes it is producing.
pub open spec fn copy_back(out: Seq<u8>, dist: int, len: nat) -> Seq<u8>
    decreases len,
{
    if len == 0 {
        out
    } else {
        copy_back(out.push(out[out.len() - dist]), dist, (len - 1) as nat)
    }
}

/// Slot of the ring that holds the byte `d` places before the write slot `next`.
pub open spec fn ring_slot(next: int, d: int) -> int {
    if d <= next {
        next - d
    } else {
        next + WINDOW_SIZE - d
    }
}

/// The decoded bytes and the ring of the latest of them.
pub struct Sink {
    out: Vec<u8>,
    window: Vec<u8>,
    next: usize,
}

impl View for Sink {
    type V = Seq<u8>;

    closed spec fn view(&self) -> Seq<u8> {
        self.out@
    }
}

impl Sink {
    pub closed spec fn wf(&self) -> bool {
        &&& self.window@.len() == WINDOW_SIZE
        &&& self.next < WINDOW_SIZE
        &&& forall|d: int|
            1 <= d <= WINDOW_SIZE && d <= self.out@.len() ==> self.window@[ring_slot(
                self.next as int,
                d,
            )] == #[trigger] self.out@[self.out@.len() - d]
    }

    /// An empty sink.
    pub fn new() -> (r: Self)
        ensures
            r.wf(),
            r@ == Seq::<u8>::empty(),
    {
        Sink { out: Vec::new(), window: vec![0u8; WINDOW_SIZE], next: 0 }
    }

    /// Number of bytes produced so far.
    pub fn len(&self) -> (r: usize)
        ensures
            r == self@.len(),
    {
        self.out.len()
    }

    /// Appends one byte to the output and to the ring.
    pub fn output(&mut self, c: u8)
        requires
            old(self).wf(),
        ensures
            final(self).wf(),
            final(self)@ == old(self)@.push(c),
    {
        let ghost old_out = self.out@;
        let ghost old_win = self.window@;
        let ghost old_next = self.next as int;
        self.out.push(c);
        self.window.set(self.next, c);
        if self.next + 1 == WINDOW_SIZE {
            self.next = 0;
        } else {
            self.next = self.next + 1;
        }
        assert forall|d: int|
            1 <= d <= WINDOW_SIZE && d <= self.out@.len() implies self.window@[ring_slot(
                self.next as int,
                d,
            )] == #[trigger] self.out@[self.out@.len() - d] by {
            if d == 1 {
                assert(ring_slot(self.next as int, d) == old_next);
            } else {
                assert(ring_slot(self.next as int, d) == ring_slot(old_next, d - 1));
                assert(old_out[old_out.len() - (d - 1)] == self.out@[self.out@.len() - d]);
            }
        }
    }

    /// The byte `dist` places before the end of the output.
    pub fn back(&self, dist: usize) -> (r: u8)
        requires
            self.wf(),
            1 <= dist <= WINDOW_SIZE,
            dist <= self@.len(),
        ensures
            r == self@[self@.len() - dist],
    {
        let slot = if dist <= self.next {
            self.next - dist
        } else {
            self.next + WINDOW_SIZE - dist
        };
        self.window[slot]
    }

    /// Appends `len` bytes, each copied from `dist` bytes before it.
    pub fn copy(&mut self, dist: usize, len: usize)
        requires
            old(self).wf(),
            1 <= dist <= WINDOW_SIZE,
            dist <= old(self)@.len(),
        ensures
            final(self).wf(),
            final(self)@ == copy_back(old(self)@, dist as int, len as nat),
    {
        let mut k: usize = 0;
        while k < len
            invariant
                self.wf(),
                k <= len,
                1 <= dist <= WINDOW_SIZE,
                dist <= self@.len(),
                copy_back(old(self)@, dist as int, len as nat) == copy_back(
                    self@,
                    dist as int,
                    (len - k) as nat,
                ),
            decreases len - k,
        {
            let c = self.back(dist);
            self.output(c);
            k = k + 1;
        }
    }

    /// The decoded bytes.
    pub fn into_vec(self) -> (r: Vec<u8>)
        ensures
            r@ == self@,
    {
        self.out
    }
}

} // verus!
