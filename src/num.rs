use vstd::prelude::*;
use crate::digit::UnsignedNumDigit;

verus! {

/// A multi-precision number: a sequence of digits in little-endian order
/// (position 0 is the least significant digit).
pub trait BigNum: Sized {
    /// Type of one digit of this number.
    type Digit: UnsignedNumDigit;

    /// The digits, least significant first.
    spec fn digits(&self) -> Seq<Self::Digit>;

    /// A number whose value is zero; its length is chosen by the storage
    /// (zero digits for a dynamic one).
    fn new_zeroed() -> (r: Self)
        ensures
            forall|i: int| 0 <= i < r.digits().len() ==> (#[trigger] r.digits()[i]).val() == 0,
    ;

    /// The digit at position `pos`.
    fn get_digit(&self, pos: usize) -> (r: Self::Digit)
        requires
            pos < self.digits().len(),
        ensures
            r == self.digits()[pos as int],
    ;

    /// Number of digits.
    fn len(&self) -> (r: usize)
        ensures
            r == self.digits().len(),
    ;

    /// A copy with the same digits.
    fn clone_num(&self) -> (r: Self)
        ensures
            r.digits() == self.digits(),
    ;
}

/// A number whose digits can be changed in place.
pub trait BigNumMut: BigNum {
    /// Sets the digit at position `pos`.
    fn set_digit(&mut self, pos: usize, digit: Self::Digit)
        requires
            pos < old(self).digits().len(),
        ensures
            final(self).digits() == old(self).digits().update(pos as int, digit),
    ;
}

/// `new` is what resizing `old` to `len` digits leaves: the `len` least
/// significant digits of `old`, padded with zero digits where `len` exceeds
/// its length.
pub open spec fn is_resized<D: UnsignedNumDigit>(old: Seq<D>, len: nat, new: Seq<D>) -> bool {
    &&& new.len() == len
    &&& forall|i: int| 0 <= i < len && i < old.len() ==> #[trigger] new[i] == old[i]
    &&& forall|i: int| old.len() <= i < len ==> (#[trigger] new[i]).val() == 0
}

/// Resizing to `n` digits and then to `m <= n` digits leaves the same digits
/// as resizing to `m` directly.
pub proof fn lemma_resize_twice<D: UnsignedNumDigit>(
    s0: Seq<D>,
    n: nat,
    s1: Seq<D>,
    m: nat,
    s2: Seq<D>,
    s3: Seq<D>,
)
    requires
        m <= n,
        is_resized(s0, n, s1),
        is_resized(s1, m, s2),
        is_resized(s0, m, s3),
    ensures
        s2 == s3,
{
    assert forall|i: int| 0 <= i < m implies s2[i] == s3[i] by {
        if i >= s0.len() {
            D::lemma_val_injective(s2[i], s3[i]);
        }
    }
    assert(s2 =~= s3);
}

/// A number that can be resized.
pub trait DynamicBigNum: BigNum {
    /// Resizes the number to `res` digits. A shorter number keeps its `res`
    /// least significant digits, like a truncating cast; a longer one is
    /// padded with zero digits at its most significant end.
    fn resize(&mut self, res: usize)
        ensures
            is_resized(old(self).digits(), res as nat, final(self).digits()),
    ;

    /// A number of `size` digits whose value is zero.
    fn new_zeroed_sized(size: usize) -> (r: Self)
        ensures
            r.digits().len() == size,
            forall|i: int| 0 <= i < size ==> (#[trigger] r.digits()[i]).val() == 0,
    ;
}

/// A number with a sign flag. The flag is independent of the magnitude: it
/// may be set while every digit is zero.
pub trait SignedBigNum: BigNum {
    spec fn minus(&self) -> bool;

    /// True if the minus flag is set.
    fn is_minus(&self) -> (r: bool)
        ensures
            r == self.minus(),
    ;
}

/// A signed number whose digits and sign can be changed.
pub trait SignedBigNumMut: SignedBigNum + BigNumMut {
    /// Sets the minus flag; the digits stay as they are.
    fn set_minus(&mut self, minus: bool)
        ensures
            final(self).minus() == minus,
            final(self).digits() == old(self).digits(),
    ;
}

/// Digit type of a number when none is named.
pub type DefaultBigNumDigit = u32;

/// A growable number held in a `Vec`, least significant digit first.
#[derive(Debug, Clone)]
pub struct VecBigNum<D = DefaultBigNumDigit> {
    pub num: Vec<D>,
}

impl<D> VecBigNum<D> {
    pub open spec fn view_digits(&self) -> Seq<D> {
        self.num@
    }

    /// The digits, least significant first.
    pub fn into_inner(self) -> (r: Vec<D>)
        ensures
            r@ == self.view_digits(),
    {
        self.num
    }

    /// A number made of the given little-endian digits.
    pub fn from_digits(num: Vec<D>) -> (r: Self)
        ensures
            r.view_digits() == num@,
    {
        VecBigNum { num }
    }
}

impl<D> From<Vec<D>> for VecBigNum<D> {
    /// A number made of the given little-endian digits.
    fn from(num: Vec<D>) -> (r: Self) {
        VecBigNum { num }
    }
}

impl<D> vstd::std_specs::convert::FromSpecImpl<Vec<D>> for VecBigNum<D> {
    open spec fn obeys_from_spec() -> bool {
        true
    }

    open spec fn from_spec(v: Vec<D>) -> Self {
        VecBigNum { num: v }
    }
}

impl<D: UnsignedNumDigit> BigNum for VecBigNum<D> {
    type Digit = D;

    open spec fn digits(&self) -> Seq<D> {
        self.view_digits()
    }

    fn new_zeroed() -> (r: Self) {
        VecBigNum { num: Vec::new() }
    }

    fn get_digit(&self, pos: usize) -> (r: D) {
        self.num[pos]
    }

    fn len(&self) -> (r: usize) {
        self.num.len()
    }

    fn clone_num(&self) -> (r: Self) {
        let mut num: Vec<D> = Vec::new();
        let mut i: usize = 0;
        while i < self.num.len()
            invariant
                i <= self.num@.len(),
                num@ == self.num@.take(i as int),
            decreases self.num@.len() - i,
        {
            num.push(self.num[i]);
            i = i + 1;
            assert(num@ =~= self.num@.take(i as int));
        }
        assert(num@ =~= self.num@);
        VecBigNum { num }
    }
}

impl<D: UnsignedNumDigit> BigNumMut for VecBigNum<D> {
    fn set_digit(&mut self, pos: usize, digit: D) {
        self.num.set(pos, digit);
    }
}

impl<D: UnsignedNumDigit> DynamicBigNum for VecBigNum<D> {
    fn resize(&mut self, res: usize) {
        if res <= self.num.len() {
            self.num.truncate(res);
        } else {
            let ghost old_num = self.num@;
            while self.num.len() < res
                invariant
                    old_num.len() <= self.num@.len() <= res,
                    forall|i: int| 0 <= i < old_num.len() ==> #[trigger] self.num@[i] == old_num[i],
                    forall|i: int|
                        old_num.len() <= i < self.num@.len() ==> (#[trigger] self.num@[i]).val()
                            == 0,
                decreases res - self.num@.len(),
            {
                self.num.push(D::zero());
            }
        }
    }

    fn new_zeroed_sized(size: usize) -> (r: Self) {
        let mut r = VecBigNum { num: Vec::new() };
        r.resize(size);
        r
    }
}

} // verus!
