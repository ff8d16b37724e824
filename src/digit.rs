use vstd::prelude::*;
use vstd::arithmetic::power2::pow2;
use vstd::arithmetic::power::{lemma_pow0, lemma_pow1, lemma_pow_adds, pow};

verus! {

/// A primitive-width unsigned integer that serves as one place-value unit
/// of a multi-precision number.
///
/// `base()` is `2^bits()`, and `val()` is the digit's value, in `0..base()`.
/// Every arithmetic operation comes in three flavours: wrapping (the result
/// modulo `base()`), checked (`None` when the result does not fit) and
/// overflowing (the wrapped result and a flag telling whether it wrapped).
pub trait UnsignedNumDigit: Sized + Copy {
    /// The signed digit of the same width.
    type Signed: SignedNumDigit;

    spec fn base() -> nat;

    spec fn bits() -> nat;

    spec fn val(self) -> nat;

    proof fn lemma_base()
        ensures
            Self::base() > 1,
            0 < Self::bits() <= 64,
            Self::base() == pow2(Self::bits()),
    ;

    proof fn lemma_val_bounds(self)
        ensures
            self.val() < Self::base(),
    ;

    proof fn lemma_val_injective(a: Self, b: Self)
        requires
            a.val() == b.val(),
        ensures
            a == b,
    ;

    fn num_bits() -> (r: u32)
        ensures
            r as nat == Self::bits(),
    ;

    fn zero() -> (r: Self)
        ensures
            r.val() == 0,
    ;

    fn one() -> (r: Self)
        ensures
            r.val() == 1,
    ;

    fn max_value() -> (r: Self)
        ensures
            r.val() == Self::base() - 1,
    ;

    fn is_zero(self) -> (r: bool)
        ensures
            r == (self.val() == 0),
    ;

    fn overflowing_add(self, other: Self) -> (r: (Self, bool))
        ensures
            r.0.val() == (self.val() + other.val()) % Self::base(),
            r.1 == (self.val() + other.val() >= Self::base()),
            r.0.val() + (if r.1 { Self::base() } else { 0 }) == self.val() + other.val(),
    ;

    fn overflowing_sub(self, other: Self) -> (r: (Self, bool))
        ensures
            r.0.val() == (self.val() - other.val()) % (Self::base() as int),
            r.1 == (self.val() < other.val()),
            r.0.val() == self.val() - other.val() + (if r.1 { Self::base() } else { 0 }),
    ;

    fn overflowing_mul(self, other: Self) -> (r: (Self, bool))
        ensures
            r.0.val() == (self.val() * other.val()) % Self::base(),
            r.1 == (self.val() * other.val() >= Self::base()),
    ;

    /// The double-width product, split into its high and its low digit.
    fn mul_to_parts(self, other: Self) -> (r: (Self, Self))
        ensures
            r.0.val() * Self::base() + r.1.val() == self.val() * other.val(),
    ;

    /// Shifts left by `s` bits within the digit; bits shifted out are lost.
    fn shl_bits(self, s: u32) -> (r: Self)
        requires
            (s as nat) < Self::bits(),
        ensures
            r.val() == (self.val() * pow2(s as nat)) % Self::base(),
    ;

    /// Shifts right by `s` bits within the digit.
    fn shr_bits(self, s: u32) -> (r: Self)
        requires
            (s as nat) < Self::bits(),
        ensures
            r.val() == self.val() / pow2(s as nat),
    ;

    /// Quotient and remainder.
    fn div_rem(self, other: Self) -> (r: (Self, Self))
        requires
            other.val() > 0,
        ensures
            r.0.val() == self.val() / other.val(),
            r.1.val() == self.val() % other.val(),
    ;

    fn wrapping_add(self, other: Self) -> (r: Self)
        ensures
            r.val() == (self.val() + other.val()) % Self::base(),
    {
        self.overflowing_add(other).0
    }

    /// Unsigned division never overflows; a zero divisor is refused.
    fn wrapping_div(self, other: Self) -> (r: Self)
        requires
            other.val() > 0,
        ensures
            r.val() == self.val() / other.val(),
    {
        self.div_rem(other).0
    }

    fn wrapping_rem(self, other: Self) -> (r: Self)
        requires
            other.val() > 0,
        ensures
            r.val() == self.val() % other.val(),
    {
        self.div_rem(other).1
    }

    fn overflowing_div(self, other: Self) -> (r: (Self, bool))
        requires
            other.val() > 0,
        ensures
            r.0.val() == self.val() / other.val(),
            !r.1,
    {
        (self.div_rem(other).0, false)
    }

    fn overflowing_rem(self, other: Self) -> (r: (Self, bool))
        requires
            other.val() > 0,
        ensures
            r.0.val() == self.val() % other.val(),
            !r.1,
    {
        (self.div_rem(other).1, false)
    }

    /// `None` for a zero divisor.
    fn checked_div(self, other: Self) -> (r: Option<Self>)
        ensures
            r matches Some(v) ==> v.val() == self.val() / other.val(),
            r is None <==> other.val() == 0,
    {
        if other.is_zero() {
            None
        } else {
            Some(self.div_rem(other).0)
        }
    }

    /// `None` for a zero divisor.
    fn checked_rem(self, other: Self) -> (r: Option<Self>)
        ensures
            r matches Some(v) ==> v.val() == self.val() % other.val(),
            r is None <==> other.val() == 0,
    {
        if other.is_zero() {
            None
        } else {
            Some(self.div_rem(other).1)
        }
    }

    /// For unsigned digits Euclidean division is ordinary division.
    fn wrapping_div_euclid(self, other: Self) -> (r: Self)
        requires
            other.val() > 0,
        ensures
            r.val() == self.val() / other.val(),
    {
        self.wrapping_div(other)
    }

    fn wrapping_rem_euclid(self, other: Self) -> (r: Self)
        requires
            other.val() > 0,
        ensures
            r.val() == self.val() % other.val(),
    {
        self.wrapping_rem(other)
    }

    fn overflowing_div_euclid(self, other: Self) -> (r: (Self, bool))
        requires
            other.val() > 0,
        ensures
            r.0.val() == self.val() / other.val(),
            !r.1,
    {
        self.overflowing_div(other)
    }

    fn overflowing_rem_euclid(self, other: Self) -> (r: (Self, bool))
        requires
            other.val() > 0,
        ensures
            r.0.val() == self.val() % other.val(),
            !r.1,
    {
        self.overflowing_rem(other)
    }

    fn checked_div_euclid(self, other: Self) -> (r: Option<Self>)
        ensures
            r matches Some(v) ==> v.val() == self.val() / other.val(),
            r is None <==> other.val() == 0,
    {
        self.checked_div(other)
    }

    fn checked_rem_euclid(self, other: Self) -> (r: Option<Self>)
        ensures
            r matches Some(v) ==> v.val() == self.val() % other.val(),
            r is None <==> other.val() == 0,
    {
        self.checked_rem(other)
    }

    /// Shifts left by `n` modulo the width, and tells whether `n` was at
    /// least the width.
    fn overflowing_shl(self, n: u32) -> (r: (Self, bool))
        ensures
            r.0.val() == (self.val() * pow2((n as nat) % Self::bits())) % Self::base(),
            r.1 == (n as nat >= Self::bits()),
    {
        let bits = Self::num_bits();
        proof {
            Self::lemma_base();
        }
        (self.shl_bits(n % bits), n >= bits)
    }

    /// Shifts right by `n` modulo the width, and tells whether `n` was at
    /// least the width.
    fn overflowing_shr(self, n: u32) -> (r: (Self, bool))
        ensures
            r.0.val() == self.val() / pow2((n as nat) % Self::bits()),
            r.1 == (n as nat >= Self::bits()),
    {
        let bits = Self::num_bits();
        proof {
            Self::lemma_base();
        }
        (self.shr_bits(n % bits), n >= bits)
    }

    fn wrapping_shl(self, n: u32) -> (r: Self)
        ensures
            r.val() == (self.val() * pow2((n as nat) % Self::bits())) % Self::base(),
    {
        self.overflowing_shl(n).0
    }

    fn wrapping_shr(self, n: u32) -> (r: Self)
        ensures
            r.val() == self.val() / pow2((n as nat) % Self::bits()),
    {
        self.overflowing_shr(n).0
    }

    /// `None` when `n` is at least the width.
    fn checked_shl(self, n: u32) -> (r: Option<Self>)
        ensures
            r matches Some(v) ==> v.val() == (self.val() * pow2(n as nat)) % Self::base(),
            r is None <==> n as nat >= Self::bits(),
    {
        let (v, o) = self.overflowing_shl(n);
        proof {
            Self::lemma_base();
            if !o {
                vstd::arithmetic::div_mod::lemma_small_mod(n as nat, Self::bits());
            }
        }
        if o {
            None
        } else {
            Some(v)
        }
    }

    /// `None` when `n` is at least the width.
    fn checked_shr(self, n: u32) -> (r: Option<Self>)
        ensures
            r matches Some(v) ==> v.val() == self.val() / pow2(n as nat),
            r is None <==> n as nat >= Self::bits(),
    {
        let (v, o) = self.overflowing_shr(n);
        proof {
            Self::lemma_base();
            if !o {
                vstd::arithmetic::div_mod::lemma_small_mod(n as nat, Self::bits());
            }
        }
        if o {
            None
        } else {
            Some(v)
        }
    }

    /// `self` to the power `exp`, wrapped, and whether the exact power is
    /// out of range.
    fn overflowing_pow(self, exp: u32) -> (r: (Self, bool))
        ensures
            r.0.val() == pow(self.val() as int, exp as nat) % (Self::base() as int),
            r.1 == (pow(self.val() as int, exp as nat) >= Self::base()),
    {
        proof {
            Self::lemma_base();
            self.lemma_val_bounds();
            lemma_pow0(self.val() as int);
            vstd::arithmetic::div_mod::lemma_small_mod(1, Self::base());
        }
        let mut acc = Self::one();
        let mut over = false;
        let mut i: u32 = 0;
        while i < exp
            invariant
                i <= exp,
                Self::base() > 1,
                self.val() < Self::base(),
                acc.val() == pow(self.val() as int, i as nat) % (Self::base() as int),
                over == (pow(self.val() as int, i as nat) >= Self::base()),
            decreases exp - i,
        {
            let (next, o) = acc.overflowing_mul(self);
            proof {
                let a = self.val() as int;
                let b = Self::base() as int;
                let p = pow(a, i as nat);
                lemma_pow_positive_or_zero(a, i as nat);
                lemma_pow_adds(a, i as nat, 1);
                lemma_pow1(a);
                vstd::arithmetic::div_mod::lemma_mul_mod_noop_left(p, a, b);
                if p < b {
                    vstd::arithmetic::div_mod::lemma_small_mod(p as nat, b as nat);
                } else {
                    assert(a >= 2) by {
                        if a <= 1 {
                            lemma_pow_le_one(a, i as nat);
                        }
                    }
                    assert(p * a >= p * 2) by (nonlinear_arith)
                        requires
                            p >= b,
                            b > 0,
                            a >= 2,
                    ;
                }
            }
            acc = next;
            over = over || o;
            i = i + 1;
        }
        (acc, over)
    }

    fn wrapping_pow(self, exp: u32) -> (r: Self)
        ensures
            r.val() == pow(self.val() as int, exp as nat) % (Self::base() as int),
    {
        self.overflowing_pow(exp).0
    }

    /// `None` when the exact power is out of range.
    fn checked_pow(self, exp: u32) -> (r: Option<Self>)
        ensures
            r matches Some(v) ==> v.val() == pow(self.val() as int, exp as nat),
            r is None <==> pow(self.val() as int, exp as nat) >= Self::base(),
    {
        let (v, o) = self.overflowing_pow(exp);
        proof {
            Self::lemma_base();
            self.lemma_val_bounds();
            lemma_pow_positive_or_zero(self.val() as int, exp as nat);
            if !o {
                vstd::arithmetic::div_mod::lemma_small_mod(
                    pow(self.val() as int, exp as nat) as nat,
                    Self::base(),
                );
            }
        }
        if o {
            None
        } else {
            Some(v)
        }
    }

    fn wrapping_sub(self, other: Self) -> (r: Self)
        ensures
            r.val() == (self.val() - other.val()) % (Self::base() as int),
    {
        self.overflowing_sub(other).0
    }

    fn wrapping_mul(self, other: Self) -> (r: Self)
        ensures
            r.val() == (self.val() * other.val()) % Self::base(),
    {
        self.overflowing_mul(other).0
    }

    fn checked_add(self, other: Self) -> (r: Option<Self>)
        ensures
            r matches Some(v) ==> v.val() == self.val() + other.val(),
            r is None <==> self.val() + other.val() >= Self::base(),
    {
        let (v, o) = self.overflowing_add(other);
        if o {
            None
        } else {
            Some(v)
        }
    }

    fn checked_sub(self, other: Self) -> (r: Option<Self>)
        ensures
            r matches Some(v) ==> v.val() == self.val() - other.val(),
            r is None <==> self.val() < other.val(),
    {
        let (v, o) = self.overflowing_sub(other);
        if o {
            None
        } else {
            Some(v)
        }
    }

    fn checked_mul(self, other: Self) -> (r: Option<Self>)
        ensures
            r matches Some(v) ==> v.val() == self.val() * other.val(),
            r is None <==> self.val() * other.val() >= Self::base(),
    {
        let (v, o) = self.overflowing_mul(other);
        proof {
            Self::lemma_base();
            if !o {
                vstd::arithmetic::div_mod::lemma_small_mod(
                    self.val() * other.val(),
                    Self::base(),
                );
            }
        }
        if o {
            None
        } else {
            Some(v)
        }
    }
}

/// A primitive-width signed integer usable as a digit; values lie in
/// `min_val()..=max_val()`, a range of `2^bits` values.
pub trait SignedNumDigit: Sized + Copy {
    spec fn min_val() -> int;

    spec fn max_val() -> int;

    spec fn ival(self) -> int;

    proof fn lemma_ival_bounds(self)
        ensures
            Self::min_val() <= self.ival() <= Self::max_val(),
            Self::min_val() < 0 < Self::max_val(),
            Self::max_val() - Self::min_val() + 1 == 2 * (Self::max_val() + 1),
    ;

    fn zero() -> (r: Self)
        ensures
            r.ival() == 0,
    ;

    fn one() -> (r: Self)
        ensures
            r.ival() == 1,
    ;

    fn is_negative(self) -> (r: bool)
        ensures
            r == (self.ival() < 0),
    ;

    /// The sum wrapped into range, and whether it was out of range.
    fn overflowing_add(self, other: Self) -> (r: (Self, bool))
        ensures
            r.1 == !(Self::min_val() <= self.ival() + other.ival() <= Self::max_val()),
            r.0.ival() == self.ival() + other.ival() - (if self.ival() + other.ival()
                > Self::max_val() {
                Self::max_val() - Self::min_val() + 1
            } else if self.ival() + other.ival() < Self::min_val() {
                Self::min_val() - Self::max_val() - 1
            } else {
                0
            }),
    ;

    /// The difference wrapped into range, and whether it was out of range.
    fn overflowing_sub(self, other: Self) -> (r: (Self, bool))
        ensures
            r.1 == !(Self::min_val() <= self.ival() - other.ival() <= Self::max_val()),
            r.0.ival() == self.ival() - other.ival() - (if self.ival() - other.ival()
                > Self::max_val() {
                Self::max_val() - Self::min_val() + 1
            } else if self.ival() - other.ival() < Self::min_val() {
                Self::min_val() - Self::max_val() - 1
            } else {
                0
            }),
    ;

    fn wrapping_add(self, other: Self) -> (r: Self)
        ensures
            r.ival() == (self.ival() + other.ival() - Self::min_val()) % (Self::max_val()
                - Self::min_val() + 1) + Self::min_val(),
    {
        let (v, _) = self.overflowing_add(other);
        proof {
            self.lemma_ival_bounds();
            other.lemma_ival_bounds();
            let span = Self::max_val() - Self::min_val() + 1;
            let x = self.ival() + other.ival() - Self::min_val();
            if x >= span {
                lemma_mod_shift(x - span, span, 1);
            } else if x < 0 {
                lemma_mod_shift(x + span, span, -1);
            } else {
                vstd::arithmetic::div_mod::lemma_small_mod(x as nat, span as nat);
            }
        }
        v
    }

    fn wrapping_sub(self, other: Self) -> (r: Self)
        ensures
            r.ival() == (self.ival() - other.ival() - Self::min_val()) % (Self::max_val()
                - Self::min_val() + 1) + Self::min_val(),
    {
        let (v, _) = self.overflowing_sub(other);
        proof {
            self.lemma_ival_bounds();
            other.lemma_ival_bounds();
            let span = Self::max_val() - Self::min_val() + 1;
            let x = self.ival() - other.ival() - Self::min_val();
            if x >= span {
                lemma_mod_shift(x - span, span, 1);
            } else if x < 0 {
                lemma_mod_shift(x + span, span, -1);
            } else {
                vstd::arithmetic::div_mod::lemma_small_mod(x as nat, span as nat);
            }
        }
        v
    }

    fn checked_add(self, other: Self) -> (r: Option<Self>)
        ensures
            r matches Some(v) ==> v.ival() == self.ival() + other.ival(),
            r is None <==> !(Self::min_val() <= self.ival() + other.ival() <= Self::max_val()),
    {
        let (v, o) = self.overflowing_add(other);
        if o {
            None
        } else {
            Some(v)
        }
    }

    fn checked_sub(self, other: Self) -> (r: Option<Self>)
        ensures
            r matches Some(v) ==> v.ival() == self.ival() - other.ival(),
            r is None <==> !(Self::min_val() <= self.ival() - other.ival() <= Self::max_val()),
    {
        let (v, o) = self.overflowing_sub(other);
        if o {
            None
        } else {
            Some(v)
        }
    }
}

/// A power of a non-negative base is non-negative.
proof fn lemma_pow_positive_or_zero(a: int, e: nat)
    requires
        a >= 0,
    ensures
        pow(a, e) >= 0,
    decreases e,
{
    reveal(pow);
    if e > 0 {
        lemma_pow_positive_or_zero(a, (e - 1) as nat);
        assert(a * pow(a, (e - 1) as nat) >= 0) by (nonlinear_arith)
            requires
                a >= 0,
                pow(a, (e - 1) as nat) >= 0,
        ;
    }
}

/// A power of 0 or 1 is at most 1.
proof fn lemma_pow_le_one(a: int, e: nat)
    requires
        0 <= a <= 1,
    ensures
        pow(a, e) <= 1,
    decreases e,
{
    reveal(pow);
    if e > 0 {
        lemma_pow_le_one(a, (e - 1) as nat);
        lemma_pow_positive_or_zero(a, (e - 1) as nat);
        assert(a * pow(a, (e - 1) as nat) <= 1) by (nonlinear_arith)
            requires
                0 <= a <= 1,
                0 <= pow(a, (e - 1) as nat) <= 1,
        ;
    }
}

/// `(r + k * m) % m == r` for `0 <= r < m`.
proof fn lemma_mod_shift(r: int, m: int, k: int)
    requires
        0 <= r < m,
    ensures
        (r + k * m) % m == r,
{
    vstd::arithmetic::div_mod::lemma_mod_multiples_vanish(k, r, m);
    vstd::arithmetic::div_mod::lemma_small_mod(r as nat, m as nat);
    assert(k * m + r == r + k * m);
    assert(m * k == k * m) by (nonlinear_arith);
}

impl SignedNumDigit for i8 {
    open spec fn min_val() -> int {
        i8::MIN as int
    }

    open spec fn max_val() -> int {
        i8::MAX as int
    }

    open spec fn ival(self) -> int {
        self as int
    }

    proof fn lemma_ival_bounds(self) {
    }

    fn zero() -> (r: Self) {
        0
    }

    fn one() -> (r: Self) {
        1
    }

    fn is_negative(self) -> (r: bool) {
        self < 0
    }

    fn overflowing_add(self, other: Self) -> (r: (Self, bool)) {
        let w = self as i16 + other as i16;
        if w > i8::MAX as i16 {
            ((w - 256) as i8, true)
        } else if w < i8::MIN as i16 {
            ((w + 256) as i8, true)
        } else {
            (w as i8, false)
        }
    }

    fn overflowing_sub(self, other: Self) -> (r: (Self, bool)) {
        let w = self as i16 - other as i16;
        if w > i8::MAX as i16 {
            ((w - 256) as i8, true)
        } else if w < i8::MIN as i16 {
            ((w + 256) as i8, true)
        } else {
            (w as i8, false)
        }
    }
}

impl SignedNumDigit for i16 {
    open spec fn min_val() -> int {
        i16::MIN as int
    }

    open spec fn max_val() -> int {
        i16::MAX as int
    }

    open spec fn ival(self) -> int {
        self as int
    }

    proof fn lemma_ival_bounds(self) {
    }

    fn zero() -> (r: Self) {
        0
    }

    fn one() -> (r: Self) {
        1
    }

    fn is_negative(self) -> (r: bool) {
        self < 0
    }

    fn overflowing_add(self, other: Self) -> (r: (Self, bool)) {
        let w = self as i32 + other as i32;
        if w > i16::MAX as i32 {
            ((w - 65536) as i16, true)
        } else if w < i16::MIN as i32 {
            ((w + 65536) as i16, true)
        } else {
            (w as i16, false)
        }
    }

    fn overflowing_sub(self, other: Self) -> (r: (Self, bool)) {
        let w = self as i32 - other as i32;
        if w > i16::MAX as i32 {
            ((w - 65536) as i16, true)
        } else if w < i16::MIN as i32 {
            ((w + 65536) as i16, true)
        } else {
            (w as i16, false)
        }
    }
}

impl SignedNumDigit for i32 {
    open spec fn min_val() -> int {
        i32::MIN as int
    }

    open spec fn max_val() -> int {
        i32::MAX as int
    }

    open spec fn ival(self) -> int {
        self as int
    }

    proof fn lemma_ival_bounds(self) {
    }

    fn zero() -> (r: Self) {
        0
    }

    fn one() -> (r: Self) {
        1
    }

    fn is_negative(self) -> (r: bool) {
        self < 0
    }

    fn overflowing_add(self, other: Self) -> (r: (Self, bool)) {
        let w = self as i64 + other as i64;
        if w > i32::MAX as i64 {
            ((w - 4294967296) as i32, true)
        } else if w < i32::MIN as i64 {
            ((w + 4294967296) as i32, true)
        } else {
            (w as i32, false)
        }
    }

    fn overflowing_sub(self, other: Self) -> (r: (Self, bool)) {
        let w = self as i64 - other as i64;
        if w > i32::MAX as i64 {
            ((w - 4294967296) as i32, true)
        } else if w < i32::MIN as i64 {
            ((w + 4294967296) as i32, true)
        } else {
            (w as i32, false)
        }
    }
}

impl SignedNumDigit for i64 {
    open spec fn min_val() -> int {
        i64::MIN as int
    }

    open spec fn max_val() -> int {
        i64::MAX as int
    }

    open spec fn ival(self) -> int {
        self as int
    }

    proof fn lemma_ival_bounds(self) {
    }

    fn zero() -> (r: Self) {
        0
    }

    fn one() -> (r: Self) {
        1
    }

    fn is_negative(self) -> (r: bool) {
        self < 0
    }

    fn overflowing_add(self, other: Self) -> (r: (Self, bool)) {
        let w = self as i128 + other as i128;
        if w > i64::MAX as i128 {
            ((w - 18446744073709551616) as i64, true)
        } else if w < i64::MIN as i128 {
            ((w + 18446744073709551616) as i64, true)
        } else {
            (w as i64, false)
        }
    }

    fn overflowing_sub(self, other: Self) -> (r: (Self, bool)) {
        let w = self as i128 - other as i128;
        if w > i64::MAX as i128 {
            ((w - 18446744073709551616) as i64, true)
        } else if w < i64::MIN as i128 {
            ((w + 18446744073709551616) as i64, true)
        } else {
            (w as i64, false)
        }
    }
}

impl UnsignedNumDigit for u8 {
    type Signed = i8;

    open spec fn base() -> nat {
        256
    }

    open spec fn bits() -> nat {
        8
    }

    open spec fn val(self) -> nat {
        self as nat
    }

    proof fn lemma_val_bounds(self) {
    }

    proof fn lemma_base() {
        vstd::arithmetic::power2::lemma2_to64();
        vstd::arithmetic::power2::lemma2_to64_rest();
        assert(Self::bits() == 8);
        assert(pow2(8) == 256);
    }

    proof fn lemma_val_injective(a: Self, b: Self) {
    }

    fn num_bits() -> (r: u32) {
        8
    }

    fn zero() -> (r: Self) {
        0
    }

    fn one() -> (r: Self) {
        1
    }

    fn max_value() -> (r: Self) {
        u8::MAX
    }

    fn is_zero(self) -> (r: bool) {
        self == 0
    }

    fn overflowing_add(self, other: Self) -> (r: (Self, bool)) {
        if other > u8::MAX - self {
            (other - (u8::MAX - self) - 1, true)
        } else {
            (self + other, false)
        }
    }

    fn overflowing_sub(self, other: Self) -> (r: (Self, bool)) {
        if self >= other {
            (self - other, false)
        } else {
            (u8::MAX - (other - self) + 1, true)
        }
    }

    fn overflowing_mul(self, other: Self) -> (r: (Self, bool)) {
        let (hi, lo) = self.mul_to_parts(other);
        (lo, hi != 0)
    }

    fn mul_to_parts(self, other: Self) -> (r: (Self, Self)) {
        let a = self as u16;
        let b = other as u16;
        assert(a * b <= u8::MAX as int * u8::MAX as int) by (nonlinear_arith)
            requires
                a <= u8::MAX,
                b <= u8::MAX,
        ;
        let wide = a * b;
        assert(wide / 256 <= u8::MAX as int) by (nonlinear_arith)
            requires
                wide <= u8::MAX as int * u8::MAX as int,
        ;
        ((wide / 256) as u8, (wide % 256) as u8)
    }

    fn shl_bits(self, s: u32) -> (r: Self) {
        proof {
            vstd::arithmetic::power2::lemma2_to64();
            vstd::arithmetic::power2::lemma2_to64_rest();
            vstd::arithmetic::power2::lemma_pow2_strictly_increases(s as nat, 8);
            vstd::bits::lemma_u8_shl_is_mul(1, s as u8);
        }
        let p: u8 = 1 << (s as u8);
        self.wrapping_mul(p)
    }

    fn div_rem(self, other: Self) -> (r: (Self, Self)) {
        (self / other, self % other)
    }

    fn shr_bits(self, s: u32) -> (r: Self) {
        proof {
            vstd::bits::lemma_u8_shr_is_div(self, s as u8);
        }
        self >> (s as u8)
    }
}

impl UnsignedNumDigit for u16 {
    type Signed = i16;

    open spec fn base() -> nat {
        65536
    }

    open spec fn bits() -> nat {
        16
    }

    open spec fn val(self) -> nat {
        self as nat
    }

    proof fn lemma_val_bounds(self) {
    }

    proof fn lemma_base() {
        vstd::arithmetic::power2::lemma2_to64();
        vstd::arithmetic::power2::lemma2_to64_rest();
        assert(Self::bits() == 16);
        assert(pow2(16) == 65536);
    }

    proof fn lemma_val_injective(a: Self, b: Self) {
    }

    fn num_bits() -> (r: u32) {
        16
    }

    fn zero() -> (r: Self) {
        0
    }

    fn one() -> (r: Self) {
        1
    }

    fn max_value() -> (r: Self) {
        u16::MAX
    }

    fn is_zero(self) -> (r: bool) {
        self == 0
    }

    fn overflowing_add(self, other: Self) -> (r: (Self, bool)) {
        if other > u16::MAX - self {
            (other - (u16::MAX - self) - 1, true)
        } else {
            (self + other, false)
        }
    }

    fn overflowing_sub(self, other: Self) -> (r: (Self, bool)) {
        if self >= other {
            (self - other, false)
        } else {
            (u16::MAX - (other - self) + 1, true)
        }
    }

    fn overflowing_mul(self, other: Self) -> (r: (Self, bool)) {
        let (hi, lo) = self.mul_to_parts(other);
        (lo, hi != 0)
    }

    fn mul_to_parts(self, other: Self) -> (r: (Self, Self)) {
        let a = self as u32;
        let b = other as u32;
        assert(a * b <= u16::MAX as int * u16::MAX as int) by (nonlinear_arith)
            requires
                a <= u16::MAX,
                b <= u16::MAX,
        ;
        let wide = a * b;
        assert(wide / 65536 <= u16::MAX as int) by (nonlinear_arith)
            requires
                wide <= u16::MAX as int * u16::MAX as int,
        ;
        ((wide / 65536) as u16, (wide % 65536) as u16)
    }

    fn shl_bits(self, s: u32) -> (r: Self) {
        proof {
            vstd::arithmetic::power2::lemma2_to64();
            vstd::arithmetic::power2::lemma2_to64_rest();
            vstd::arithmetic::power2::lemma_pow2_strictly_increases(s as nat, 16);
            vstd::bits::lemma_u16_shl_is_mul(1, s as u16);
        }
        let p: u16 = 1 << (s as u16);
        self.wrapping_mul(p)
    }

    fn div_rem(self, other: Self) -> (r: (Self, Self)) {
        (self / other, self % other)
    }

    fn shr_bits(self, s: u32) -> (r: Self) {
        proof {
            vstd::bits::lemma_u16_shr_is_div(self, s as u16);
        }
        self >> (s as u16)
    }
}

impl UnsignedNumDigit for u32 {
    type Signed = i32;

    open spec fn base() -> nat {
        4294967296
    }

    open spec fn bits() -> nat {
        32
    }

    open spec fn val(self) -> nat {
        self as nat
    }

    proof fn lemma_val_bounds(self) {
    }

    proof fn lemma_base() {
        vstd::arithmetic::power2::lemma2_to64();
        vstd::arithmetic::power2::lemma2_to64_rest();
        assert(Self::bits() == 32);
        assert(pow2(32) == 4294967296);
    }

    proof fn lemma_val_injective(a: Self, b: Self) {
    }

    fn num_bits() -> (r: u32) {
        32
    }

    fn zero() -> (r: Self) {
        0
    }

    fn one() -> (r: Self) {
        1
    }

    fn max_value() -> (r: Self) {
        u32::MAX
    }

    fn is_zero(self) -> (r: bool) {
        self == 0
    }

    fn overflowing_add(self, other: Self) -> (r: (Self, bool)) {
        if other > u32::MAX - self {
            (other - (u32::MAX - self) - 1, true)
        } else {
            (self + other, false)
        }
    }

    fn overflowing_sub(self, other: Self) -> (r: (Self, bool)) {
        if self >= other {
            (self - other, false)
        } else {
            (u32::MAX - (other - self) + 1, true)
        }
    }

    fn overflowing_mul(self, other: Self) -> (r: (Self, bool)) {
        let (hi, lo) = self.mul_to_parts(other);
        (lo, hi != 0)
    }

    fn mul_to_parts(self, other: Self) -> (r: (Self, Self)) {
        let a = self as u64;
        let b = other as u64;
        assert(a * b <= u32::MAX as int * u32::MAX as int) by (nonlinear_arith)
            requires
                a <= u32::MAX,
                b <= u32::MAX,
        ;
        let wide = a * b;
        assert(wide / 4294967296 <= u32::MAX as int) by (nonlinear_arith)
            requires
                wide <= u32::MAX as int * u32::MAX as int,
        ;
        ((wide / 4294967296) as u32, (wide % 4294967296) as u32)
    }

    fn shl_bits(self, s: u32) -> (r: Self) {
        proof {
            vstd::arithmetic::power2::lemma2_to64();
            vstd::arithmetic::power2::lemma2_to64_rest();
            vstd::arithmetic::power2::lemma_pow2_strictly_increases(s as nat, 32);
            vstd::bits::lemma_u32_shl_is_mul(1, s as u32);
        }
        let p: u32 = 1 << (s as u32);
        self.wrapping_mul(p)
    }

    fn div_rem(self, other: Self) -> (r: (Self, Self)) {
        (self / other, self % other)
    }

    fn shr_bits(self, s: u32) -> (r: Self) {
        proof {
            vstd::bits::lemma_u32_shr_is_div(self, s as u32);
        }
        self >> (s as u32)
    }
}

impl UnsignedNumDigit for u64 {
    type Signed = i64;

    open spec fn base() -> nat {
        18446744073709551616
    }

    open spec fn bits() -> nat {
        64
    }

    open spec fn val(self) -> nat {
        self as nat
    }

    proof fn lemma_val_bounds(self) {
    }

    proof fn lemma_base() {
        vstd::arithmetic::power2::lemma2_to64();
        vstd::arithmetic::power2::lemma2_to64_rest();
        assert(Self::bits() == 64);
        assert(pow2(64) == 18446744073709551616);
    }

    proof fn lemma_val_injective(a: Self, b: Self) {
    }

    fn num_bits() -> (r: u32) {
        64
    }

    fn zero() -> (r: Self) {
        0
    }

    fn one() -> (r: Self) {
        1
    }

    fn max_value() -> (r: Self) {
        u64::MAX
    }

    fn is_zero(self) -> (r: bool) {
        self == 0
    }

    fn overflowing_add(self, other: Self) -> (r: (Self, bool)) {
        if other > u64::MAX - self {
            (other - (u64::MAX - self) - 1, true)
        } else {
            (self + other, false)
        }
    }

    fn overflowing_sub(self, other: Self) -> (r: (Self, bool)) {
        if self >= other {
            (self - other, false)
        } else {
            (u64::MAX - (other - self) + 1, true)
        }
    }

    fn overflowing_mul(self, other: Self) -> (r: (Self, bool)) {
        let (hi, lo) = self.mul_to_parts(other);
        (lo, hi != 0)
    }

    fn mul_to_parts(self, other: Self) -> (r: (Self, Self)) {
        let a = self as u128;
        let b = other as u128;
        assert(a * b <= u64::MAX as int * u64::MAX as int) by (nonlinear_arith)
            requires
                a <= u64::MAX,
                b <= u64::MAX,
        ;
        let wide = a * b;
        assert(wide / 18446744073709551616 <= u64::MAX as int) by (nonlinear_arith)
            requires
                wide <= u64::MAX as int * u64::MAX as int,
        ;
        ((wide / 18446744073709551616) as u64, (wide % 18446744073709551616) as u64)
    }

    fn shl_bits(self, s: u32) -> (r: Self) {
        proof {
            vstd::arithmetic::power2::lemma2_to64();
            vstd::arithmetic::power2::lemma2_to64_rest();
            vstd::arithmetic::power2::lemma_pow2_strictly_increases(s as nat, 64);
            vstd::bits::lemma_u64_shl_is_mul(1, s as u64);
        }
        let p: u64 = 1 << (s as u64);
        self.wrapping_mul(p)
    }

    fn div_rem(self, other: Self) -> (r: (Self, Self)) {
        (self / other, self % other)
    }

    fn shr_bits(self, s: u32) -> (r: Self) {
        proof {
            vstd::bits::lemma_u64_shr_is_div(self, s as u64);
        }
        self >> (s as u64)
    }
}

} // verus!
