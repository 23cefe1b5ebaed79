//! A pair of values, one for the minus (left) side and one for the plus
//! (right) side of a diff.
use vstd::prelude::*;

verus! {

/// Selects one side of a [`MinusPlus`].
#[derive(Clone, Copy, Debug, PartialEq, Eq, Structural)]
pub enum MinusPlusIndex {
    Minus,
    Plus,
}

/// Two values of the same type, indexed by [`MinusPlusIndex`].
#[derive(Clone, Debug, Default, PartialEq, Eq)]
pub struct MinusPlus<T> {
    pub minus: T,
    pub plus: T,
}

impl<T> MinusPlus<T> {
    /// The value stored for `side`.
    pub open spec fn at(&self, side: MinusPlusIndex) -> T {
        match side {
            MinusPlusIndex::Minus => self.minus,
            MinusPlusIndex::Plus => self.plus,
        }
    }

    pub fn new(minus: T, plus: T) -> (r: Self)
        ensures
            r.minus == minus,
            r.plus == plus,
    {
        MinusPlus { minus, plus }
    }

    pub fn get(&self, side: MinusPlusIndex) -> (r: &T)
        ensures
            *r == self.at(side),
    {
        match side {
            MinusPlusIndex::Minus => &self.minus,
            MinusPlusIndex::Plus => &self.plus,
        }
    }

    /// Replace the value stored for `side`.
    pub fn set(&mut self, side: MinusPlusIndex, value: T)
        ensures
            final(self).at(side) == value,
            side == MinusPlusIndex::Minus ==> final(self).plus == old(self).plus,
            side == MinusPlusIndex::Plus ==> final(self).minus == old(self).minus,
    {
        match side {
            MinusPlusIndex::Minus => self.minus = value,
            MinusPlusIndex::Plus => self.plus = value,
        }
    }
}

} // verus!
