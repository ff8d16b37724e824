use vstd::prelude::*;
use crate::engine::UnsignedEngine;
use crate::num::{BigNum, BigNumMut};
use crate::value::{base_pow, le_val};

verus! {

/// Operations composed from the engine's in-place ones.
pub trait BigNumExt: BigNumMut {
    /// The sum of `self` and `other` in a new number of the length of
    /// `self`, truncated to that length where it does not fit.
    fn add<E: UnsignedEngine, S: BigNum<Digit = Self::Digit>>(&self, other: &S) -> (r: Self)
        requires
            self.digits().len() >= other.digits().len(),
        ensures
            r.digits().len() == self.digits().len(),
            le_val(r.digits()) == (le_val(self.digits()) + le_val(other.digits())) % base_pow::<
                Self::Digit,
            >(self.digits().len()),
    ;
}

impl<T: BigNumMut> BigNumExt for T {
    fn add<E: UnsignedEngine, S: BigNum<Digit = Self::Digit>>(&self, other: &S) -> (r: Self) {
        let mut res = self.clone_num();
        let _carry = E::add_accumulate(&mut res, other);
        res
    }
}

} // verus!
