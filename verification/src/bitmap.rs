//! A growable validity bitmap: one bit per row, `true` meaning the row holds
//! a value and `false` meaning it is null.

use vstd::prelude::*;

verus! {

/// A mutable sequence of validity bits.
pub struct MutableBitmap {
    bits: Vec<bool>,
}

impl View for MutableBitmap {
    type V = Seq<bool>;

    closed spec fn view(&self) -> Seq<bool> {
        self.bits@
    }
}

impl MutableBitmap {
    pub fn new() -> (r: MutableBitmap)
        ensures
            r@ == Seq::<bool>::empty(),
    {
        MutableBitmap { bits: Vec::new() }
    }

    pub fn with_capacity(capacity: usize) -> (r: MutableBitmap)
        ensures
            r@ == Seq::<bool>::empty(),
    {
        MutableBitmap { bits: Vec::with_capacity(capacity) }
    }

    pub fn len(&self) -> (r: usize)
        ensures
            r == self@.len(),
    {
        self.bits.len()
    }

    pub fn get(&self, i: usize) -> (r: bool)
        requires
            i < self@.len(),
        ensures
            r == self@[i as int],
    {
        self.bits[i]
    }

    pub fn set(&mut self, i: usize, value: bool)
        requires
            i < old(self)@.len(),
        ensures
            final(self)@ == old(self)@.update(i as int, value),
    {
        self.bits[i] = value;
    }

    pub fn push(&mut self, value: bool)
        ensures
            final(self)@ == old(self)@.push(value),
    {
        self.bits.push(value);
    }

    pub fn pop(&mut self)
        requires
            old(self)@.len() > 0,
        ensures
            final(self)@ == old(self)@.drop_last(),
    {
        self.bits.pop();
    }

    /// Append `additional` copies of `value`.
    pub fn extend_constant(&mut self, additional: usize, value: bool)
        ensures
            final(self)@ == old(self)@ + Seq::new(additional as nat, |k: int| value),
    {
        let mut i: usize = 0;
        while i < additional
            invariant
                i <= additional,
                self@ == old(self)@ + Seq::new(i as nat, |k: int| value),
            decreases additional - i,
        {
            self.bits.push(value);
            proof {
                assert(old(self)@ + Seq::new((i + 1) as nat, |k: int| value) =~= (old(self)@
                    + Seq::new(i as nat, |k: int| value)).push(value));
            }
            i = i + 1;
        }
    }
}

} // verus!
