//! The storage under every ring: a power-of-two number of cells addressed by wrapping cursors.

use vstd::prelude::*;
use vstd::arithmetic::power2::{pow2, lemma_pow2_adds, lemma_pow2_pos, lemma_pow2_strictly_increases, lemma2_to64};
use vstd::arithmetic::div_mod::{lemma_mod_multiples_basic, lemma_mod_multiples_vanish, lemma_small_mod, lemma_fundamental_div_mod};
use vstd::bits::{low_bits_mask, lemma_u32_low_bits_mask_is_mod};
use crate::collection::ring_buffer::consts::{MAX_CAPACITY, valid_capacity};

verus! {

/// How many distinct values a `u32` cursor takes before it wraps.
pub open spec fn cursor_range() -> int {
    0x1_0000_0000
}

/// `x` advanced by `d` the way a `u32` cursor advances: modulo [`cursor_range`].
pub open spec fn wrapped(x: int, d: int) -> int {
    (x + d) % cursor_range()
}

/// A fixed number of cells; cursor `c` lives in cell `c % capacity`.
pub struct FixedBuffer<T> {
    cells: Vec<Option<T>>,
    mask: u32,
    exponent: Ghost<nat>,
}

impl<T> FixedBuffer<T> {
    /// The capacity is `2^exponent`, at most `2^30`, and there is exactly one cell per slot.
    pub closed spec fn wf(&self) -> bool {
        &&& self.cells@.len() == self.mask as int + 1
        &&& pow2(self.exponent@) == self.mask as int + 1
        &&& self.exponent@ <= 30
    }

    /// Number of cells.
    pub closed spec fn spec_capacity(&self) -> int {
        self.cells@.len() as int
    }

    /// Contents of the cells, by slot.
    pub closed spec fn slots(&self) -> Seq<Option<T>> {
        self.cells@
    }

    /// The slot that cursor `cursor` addresses.
    pub open spec fn slot_of(&self, cursor: int) -> int {
        cursor % self.spec_capacity()
    }

    /// Content of the cell that cursor `cursor` addresses.
    pub open spec fn at(&self, cursor: int) -> Option<T> {
        self.slots()[self.slot_of(cursor)]
    }

    /// The slot `i` positions after cursor `start`.
    pub open spec fn slot_at_offset(&self, start: int, i: int) -> int {
        self.slot_of(start + i)
    }

    /// Content of the cell `i` positions after cursor `start`.
    pub open spec fn at_offset(&self, start: int, i: int) -> Option<T> {
        self.at(start + i)
    }

    /// Facts about a well-formed buffer that every ring relies on.
    pub proof fn lemma_wf(&self)
        requires
            self.wf(),
        ensures
            1 <= self.spec_capacity() <= 0x4000_0000,
            self.spec_capacity() < MAX_CAPACITY,
            cursor_range() % self.spec_capacity() == 0,
            self.slots().len() == self.spec_capacity(),
    {
        let e = self.exponent@;
        lemma2_to64();
        lemma_pow2_pos(e);
        if e < 30 {
            lemma_pow2_strictly_increases(e, 30);
        }
        lemma_pow2_adds(e, (32 - e) as nat);
        lemma_pow2_pos((32 - e) as nat);
        lemma_mod_multiples_basic(pow2((32 - e) as nat) as int, pow2(e) as int);
        assert(pow2(e) * pow2((32 - e) as nat) == pow2(32));
        assert((pow2((32 - e) as nat) as int * pow2(e) as int) == pow2(e) as int * pow2((32 - e) as nat) as int) by (nonlinear_arith);
    }

    /// Wrapping a cursor does not move it to another slot.
    pub proof fn lemma_wrap_slot(&self, a: int, b: int)
        requires
            self.wf(),
        ensures
            self.slot_of((a % cursor_range()) + b) == self.slot_of(a + b),
            self.slot_of(wrapped(a, b)) == self.slot_of(a + b),
    {
        self.lemma_wf();
        let cap = self.spec_capacity();
        let m = cursor_range();
        let r = m / cap;
        let q = a / m;
        lemma_fundamental_div_mod(a, m);
        lemma_fundamental_div_mod(m, cap);
        assert(m == cap * r);
        let k = -(r * q);
        assert(m * q == cap * (r * q)) by (nonlinear_arith)
            requires m == cap * r;
        assert(cap * k == -(m * q)) by (nonlinear_arith)
            requires m * q == cap * (r * q), k == -(r * q);
        assert((a % m) + b == cap * k + (a + b));
        lemma_mod_multiples_vanish(k, a + b, cap);
        let x = a + b;
        let q2 = x / m;
        lemma_fundamental_div_mod(x, m);
        let k2 = -(r * q2);
        assert(m * q2 == cap * (r * q2)) by (nonlinear_arith)
            requires m == cap * r;
        assert(cap * k2 == -(m * q2)) by (nonlinear_arith)
            requires m * q2 == cap * (r * q2), k2 == -(r * q2);
        assert(x % m == cap * k2 + x);
        lemma_mod_multiples_vanish(k2, x, cap);
    }

    /// Fewer than `capacity` consecutive cursors never share a slot.
    pub proof fn lemma_distinct_slots(&self, s: int, i: int, j: int)
        requires
            self.wf(),
            0 <= i < j < self.spec_capacity(),
        ensures
            self.slot_of(s + i) != self.slot_of(s + j),
    {
        self.lemma_wf();
        let cap = self.spec_capacity();
        let x = s + i;
        let y = s + j;
        lemma_fundamental_div_mod(x, cap);
        lemma_fundamental_div_mod(y, cap);
        if x % cap == y % cap {
            let qx = x / cap;
            let qy = y / cap;
            assert(j - i == cap * (qy - qx)) by (nonlinear_arith)
                requires
                    x == cap * qx + x % cap,
                    y == cap * qy + y % cap,
                    x % cap == y % cap,
                    j - i == y - x;
            assert(false) by (nonlinear_arith)
                requires
                    j - i == cap * (qy - qx),
                    0 < j - i < cap,
                    cap > 0;
        }
    }

    /// A buffer of `capacity` empty cells.
    pub fn new(capacity: u32) -> (b: Self)
        requires
            valid_capacity(capacity as int),
        ensures
            b.wf(),
            b.spec_capacity() == capacity,
            forall|i: int| 0 <= i < capacity ==> (#[trigger] b.slots()[i]) is None,
    {
        let ghost e = choose|k: nat| pow2(k) == capacity;
        proof {
            lemma2_to64();
            if e > 30 {
                lemma_pow2_strictly_increases(31, e);
            }
            if e == 31 {
                assert(pow2(31) == 0x8000_0000);
            }
        }
        let mut cells: Vec<Option<T>> = Vec::new();
        let mut i: u32 = 0;
        while i < capacity
            invariant
                i <= capacity,
                cells@.len() == i,
                forall|j: int| 0 <= j < i ==> (#[trigger] cells@[j]) is None,
            decreases capacity - i,
        {
            cells.push(None);
            i = i + 1;
        }
        FixedBuffer { cells, mask: capacity - 1, exponent: Ghost(e) }
    }

    /// Number of cells.
    pub fn capacity(&self) -> (r: usize)
        requires
            self.wf(),
        ensures
            r == self.spec_capacity(),
    {
        proof { self.lemma_wf(); }
        self.mask as usize + 1
    }

    /// `capacity - 1`: and-ing a cursor with it gives the cursor's slot.
    pub fn mask(&self) -> (r: u32)
        requires
            self.wf(),
        ensures
            r == self.spec_capacity() - 1,
    {
        self.mask
    }

    /// The slot of `cursor`, computed with the mask.
    fn index(&self, cursor: u32) -> (r: usize)
        requires
            self.wf(),
        ensures
            r == self.slot_of(cursor as int),
            r < self.spec_capacity(),
    {
        proof {
            self.lemma_wf();
            lemma_u32_low_bits_mask_is_mod(cursor, self.exponent@);
            lemma_pow2_pos(self.exponent@);
            assert(low_bits_mask(self.exponent@) == self.mask);
        }
        (cursor & self.mask) as usize
    }

    /// Puts `val` into the cell of `cursor`, replacing what was there.
    pub fn write(&mut self, cursor: u32, val: T)
        requires
            old(self).wf(),
        ensures
            final(self).wf(),
            final(self).spec_capacity() == old(self).spec_capacity(),
            final(self).slots() == old(self).slots().update(old(self).slot_of(cursor as int), Some(val)),
    {
        let i = self.index(cursor);
        self.cells.set(i, Some(val));
    }

    /// Moves the content of the cell of `cursor` out, leaving the cell empty.
    pub fn take_at(&mut self, cursor: u32) -> (r: Option<T>)
        requires
            old(self).wf(),
        ensures
            final(self).wf(),
            final(self).spec_capacity() == old(self).spec_capacity(),
            r == old(self).at(cursor as int),
            final(self).slots() == old(self).slots().update(old(self).slot_of(cursor as int), None),
    {
        let i = self.index(cursor);
        self.cells[i].take()
    }

    /// The content of the cell of `cursor`.
    pub fn read(&self, cursor: u32) -> (r: &Option<T>)
        requires
            self.wf(),
        ensures
            *r == self.at(cursor as int),
    {
        let i = self.index(cursor);
        &self.cells[i]
    }

    /// Drops the content of the cell of `cursor`, leaving the cell empty.
    pub fn drop_at(&mut self, cursor: u32)
        requires
            old(self).wf(),
        ensures
            final(self).wf(),
            final(self).spec_capacity() == old(self).spec_capacity(),
            final(self).slots() == old(self).slots().update(old(self).slot_of(cursor as int), None),
    {
        let _ = self.take_at(cursor);
    }
}

} // verus!

verus! {

/// How far cursor `to` is ahead of cursor `from`, counting around the wrap.
pub open spec fn distance(from: u32, to: u32) -> int {
    if from <= to {
        to - from
    } else {
        to - from + cursor_range()
    }
}

/// Advancing a cursor twice is advancing it once by the sum.
pub proof fn lemma_wrapped_twice(x: int, a: int, b: int)
    ensures
        wrapped(wrapped(x, a), b) == wrapped(x, a + b),
{
    vstd::arithmetic::div_mod::lemma_add_mod_noop_right(b, x + a, cursor_range());
}

/// Moving `to` ahead by `d` moves it `d` further from `from`, as long as it stays within range.
pub proof fn lemma_distance_advance(from: u32, to: u32, d: int)
    requires
        0 <= d,
        distance(from, to) + d < cursor_range(),
    ensures
        distance(from, wrapped(to as int, d) as u32) == distance(from, to) + d,
        wrapped(to as int, d) == wrapped(from as int, distance(from, to) + d),
{
}

} // verus!
