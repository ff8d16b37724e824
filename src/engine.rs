use vstd::prelude::*;
use vstd::arithmetic::power2::pow2;
use crate::digit::UnsignedNumDigit;
use crate::num::{BigNum, BigNumMut, DynamicBigNum};
use crate::value::{
    base_pow, le_val, lemma_base_pow_add, lemma_base_pow_is_pow2, lemma_base_pow_le,
    lemma_base_pow_pos, lemma_le_val_bound, lemma_le_val_head, lemma_le_val_prefix,
    lemma_le_val_shifted, lemma_le_val_split, lemma_le_val_update, lemma_le_val_zero_extend,
    lemma_mod_once, significant_len,
};

verus! {

/// Arithmetic on unsigned little-endian numbers.
pub trait UnsignedEngine {
    /// Adds `rhs` into `res`, aligned at position 0; the carry runs on
    /// through the digits of `res` above `rhs`.
    ///
    /// Returns `true` when the sum does not fit `res`, which then holds the
    /// sum truncated to its length.
    fn add_accumulate<D: UnsignedNumDigit, R: BigNumMut<Digit = D>, S: BigNum<Digit = D>>(
        res: &mut R,
        rhs: &S,
    ) -> (r: bool)
        requires
            old(res).digits().len() >= rhs.digits().len(),
        ensures
            final(res).digits().len() == old(res).digits().len(),
            le_val(final(res).digits()) == (le_val(old(res).digits()) + le_val(rhs.digits()))
                % base_pow::<D>(old(res).digits().len()),
            r == (le_val(old(res).digits()) + le_val(rhs.digits()) >= base_pow::<D>(
                old(res).digits().len(),
            )),
    ;

    /// Subtracts `rhs` from `res`, aligned at position 0; the borrow runs on
    /// through the digits of `res` above `rhs`.
    ///
    /// Returns `true` when a borrow is left over past the most significant
    /// digit of `res`, that is when `rhs` is greater than `res`; `res` then
    /// holds the difference modulo `base^len`.
    fn sub_accumulate<D: UnsignedNumDigit, R: BigNumMut<Digit = D>, S: BigNum<Digit = D>>(
        res: &mut R,
        rhs: &S,
    ) -> (r: bool)
        requires
            old(res).digits().len() >= rhs.digits().len(),
        ensures
            final(res).digits().len() == old(res).digits().len(),
            le_val(final(res).digits()) == (le_val(old(res).digits()) - le_val(rhs.digits()))
                % (base_pow::<D>(old(res).digits().len()) as int),
            r == (le_val(old(res).digits()) < le_val(rhs.digits())),
    ;

    /// Multiplies `lhs` by `rhs` with the schoolbook method and adds the
    /// product into `res`, truncated to the length of `res`.
    ///
    /// Returns `true` when the result does not fit `res`.
    fn mul_accumulate<
        D: UnsignedNumDigit,
        R: BigNumMut<Digit = D>,
        S: BigNum<Digit = D>,
        T: BigNum<Digit = D>,
    >(
        res: &mut R,
        lhs: &S,
        rhs: &T,
    ) -> (r: bool)
        ensures
            final(res).digits().len() == old(res).digits().len(),
            le_val(final(res).digits()) == (le_val(old(res).digits()) + le_val(lhs.digits())
                * le_val(rhs.digits())) % base_pow::<D>(old(res).digits().len()),
            r == (le_val(old(res).digits()) + le_val(lhs.digits()) * le_val(rhs.digits())
                >= base_pow::<D>(old(res).digits().len())),
    ;

    /// Multiplies `lhs` by `rhs` and adds the product into `res`, first
    /// growing `res` to the sum of the significant lengths of the operands
    /// (their lengths without most significant zero digits), which the
    /// product always fits.
    fn mul_resize<
        D: UnsignedNumDigit,
        M: DynamicBigNum<Digit = D> + BigNumMut<Digit = D>,
        S: BigNum<Digit = D>,
        T: BigNum<Digit = D>,
    >(
        res: &mut M,
        lhs: &S,
        rhs: &T,
    )
        requires
            lhs.digits().len() + rhs.digits().len() <= usize::MAX,
        ensures
            final(res).digits().len() == max_len(
                old(res).digits().len(),
                significant_len(lhs.digits()) + significant_len(rhs.digits()),
            ),
            le_val(lhs.digits()) * le_val(rhs.digits()) < base_pow::<D>(final(res).digits().len()),
            le_val(final(res).digits()) == (le_val(old(res).digits()) + le_val(lhs.digits())
                * le_val(rhs.digits())) % base_pow::<D>(final(res).digits().len()),
    ;

    /// Shifts the value in `res` left by `n` bits without growing `res`; bits
    /// shifted past the most significant digit are lost. As with the
    /// overflowing shift of a primitive integer, the shift count is taken
    /// modulo the width of `res` in bits.
    ///
    /// Returns `true` when the shift moves the whole value out of `res`, that
    /// is when `n / bits >= len`.
    fn shift_left_u32<D: UnsignedNumDigit, R: BigNumMut<Digit = D>>(res: &mut R, n: u32) -> (r: bool)
        ensures
            final(res).digits().len() == old(res).digits().len(),
            old(res).digits().len() == 0 ==> final(res).digits() == old(res).digits(),
            old(res).digits().len() > 0 ==> le_val(final(res).digits()) == (le_val(
                old(res).digits(),
            ) * pow2((n as nat) % (old(res).digits().len() * D::bits()))) % base_pow::<D>(
                old(res).digits().len(),
            ),
            r == ((n as nat) / D::bits() >= old(res).digits().len()),
    ;

    /// Shifts the value in `res` right by `n` bits: the result is the value
    /// divided by `2^n`, rounded down. Vacated high digits are zero-filled and
    /// a count of `len * bits` or more leaves zero. A right shift cannot grow
    /// the value, so nothing is ever reported: the result is always `false`.
    fn shift_right_u32<D: UnsignedNumDigit, R: BigNumMut<Digit = D>>(res: &mut R, n: u32) -> (r: bool)
        ensures
            final(res).digits().len() == old(res).digits().len(),
            le_val(final(res).digits()) == le_val(old(res).digits()) / pow2(n as nat),
            !r,
    ;

    /// Subtracts `rhs` from `res`, first growing `res` to the length of
    /// `rhs` where it is shorter. A borrow left over is reported, never
    /// resolved by growth.
    ///
    /// Returns `true` when `rhs` is greater than `res`; `res` then holds the
    /// difference modulo `base^len`.
    fn sub_resize<
        D: UnsignedNumDigit,
        M: DynamicBigNum<Digit = D> + BigNumMut<Digit = D>,
        S: BigNum<Digit = D>,
    >(
        res: &mut M,
        rhs: &S,
    ) -> (r: bool)
        ensures
            final(res).digits().len() == max_len(old(res).digits().len(), rhs.digits().len()),
            le_val(final(res).digits()) == (le_val(old(res).digits()) - le_val(rhs.digits()))
                % (base_pow::<D>(final(res).digits().len()) as int),
            r == (le_val(old(res).digits()) < le_val(rhs.digits())),
    ;

    /// Adds `rhs` to `res`, growing `res` so that the sum always fits: first
    /// to the length of `rhs`, then by one more digit where a carry is left.
    fn add_resize<
        D: UnsignedNumDigit,
        M: DynamicBigNum<Digit = D> + BigNumMut<Digit = D>,
        S: BigNum<Digit = D>,
    >(
        res: &mut M,
        rhs: &S,
    )
        requires
            old(res).digits().len() < usize::MAX,
            rhs.digits().len() < usize::MAX,
        ensures
            le_val(final(res).digits()) == le_val(old(res).digits()) + le_val(rhs.digits()),
            final(res).digits().len() == if le_val(old(res).digits()) + le_val(rhs.digits())
                < base_pow::<D>(max_len(old(res).digits().len(), rhs.digits().len())) {
                max_len(old(res).digits().len(), rhs.digits().len())
            } else {
                max_len(old(res).digits().len(), rhs.digits().len()) + 1
            },
    ;
}

/// The larger of two lengths.
pub open spec fn max_len(a: nat, b: nat) -> nat {
    if a >= b {
        a
    } else {
        b
    }
}

/// Adds `lhs * d * base^offset` into `res`, carrying from digit to digit;
/// what falls beyond the length of `res` is lost.
///
/// Returns `true` when the exact result does not fit `res`.
fn mul_accumulate_digit<D: UnsignedNumDigit, R: BigNumMut<Digit = D>, S: BigNum<Digit = D>>(
    res: &mut R,
    lhs: &S,
    d: D,
    offset: usize,
) -> (r: bool)
    ensures
        final(res).digits().len() == old(res).digits().len(),
        le_val(final(res).digits()) == (le_val(old(res).digits()) + le_val(lhs.digits()) * d.val()
            * base_pow::<D>(offset as nat)) % base_pow::<D>(old(res).digits().len()),
        r == (le_val(old(res).digits()) + le_val(lhs.digits()) * d.val() * base_pow::<D>(
            offset as nat,
        ) >= base_pow::<D>(old(res).digits().len())),
{
    let n = res.len();
    let an = lhs.len();
    let ghost old_res = res.digits();
    let ghost m = base_pow::<D>(n as nat) as int;
    let ghost po = base_pow::<D>(offset as nat) as int;
    let ghost y = d.val() as int;
    let ghost mut over: int = 0;
    proof {
        D::lemma_base();
        lemma_base_pow_pos::<D>(n as nat);
        lemma_base_pow_pos::<D>(offset as nat);
        assert(lhs.digits().take(0).len() == 0);
        assert(le_val(lhs.digits().take(0)) == 0);
        let z = le_val(lhs.digits().take(0)) as int;
        assert(z * y * po == 0) by (nonlinear_arith)
            requires
                z == 0,
        ;
        assert(over * m == 0);
    }
    let mut carry = D::zero();
    let mut overflow = false;
    let mut i: usize = 0;
    while i < an
        invariant
            n == res.digits().len(),
            n == old_res.len(),
            an == lhs.digits().len(),
            i <= an,
            m == base_pow::<D>(n as nat),
            po == base_pow::<D>(offset as nat),
            y == d.val(),
            m > 0,
            D::base() > 1,
            over >= 0,
            overflow == (over != 0),
            le_val(res.digits()) + carry.val() * base_pow::<D>((offset + i) as nat) + over * m
                == le_val(old_res) + le_val(lhs.digits().take(i as int)) * y * po,
        decreases an - i,
    {
        let x = lhs.get_digit(i);
        let ghost t_before = le_val(lhs.digits().take(i as int)) as int;
        let ghost w = base_pow::<D>((offset + i) as nat) as int;
        let ghost xv = x.val() as int;
        let ghost cv = carry.val() as int;
        proof {
            lemma_le_val_prefix(lhs.digits(), i as int);
            lemma_base_pow_add::<D>(offset as nat, i as nat);
            lemma_base_pow_pos::<D>((offset + i) as nat);
            x.lemma_val_bounds();
            d.lemma_val_bounds();
            carry.lemma_val_bounds();
            assert((t_before + xv * base_pow::<D>(i as nat)) * y * po == t_before * y * po + xv * y
                * w) by (nonlinear_arith)
                requires
                    w == po * base_pow::<D>(i as nat),
            ;
        }
        if offset < n && i < n - offset {
            let j = offset + i;
            let (hi, lo) = x.mul_to_parts(d);
            let l = res.get_digit(j);
            let (z1, o1) = l.overflowing_add(lo);
            let (z2, o2) = z1.overflowing_add(carry);
            let ghost r0 = le_val(res.digits()) as int;
            proof {
                lemma_le_val_update(res.digits(), j as int, z2);
                l.lemma_val_bounds();
                let bb = D::base() as int;
                let e1: int = if o1 { 1 } else { 0 };
                let e2: int = if o2 { 1 } else { 0 };
                let h = hi.val() as int;
                assert(xv * y <= (bb - 1) * (bb - 1)) by (nonlinear_arith)
                    requires
                        0 <= xv < bb,
                        0 <= y < bb,
                ;
                assert((h + e1 + e2) * bb == h * bb + e1 * bb + e2 * bb) by (nonlinear_arith);
                assert(z2.val() + (h + e1 + e2) * bb == l.val() + cv + xv * y);
                assert(h + e1 + e2 < bb) by (nonlinear_arith)
                    requires
                        z2.val() + (h + e1 + e2) * bb == l.val() + cv + xv * y,
                        xv * y <= (bb - 1) * (bb - 1),
                        l.val() < bb,
                        cv < bb,
                        z2.val() >= 0,
                        bb > 1,
                ;
            }
            res.set_digit(j, z2);
            let (c1, _) = hi.overflowing_add(if o1 { D::one() } else { D::zero() });
            let (c2, _) = c1.overflowing_add(if o2 { D::one() } else { D::zero() });
            proof {
                let bb = D::base() as int;
                let nc = c2.val() as int;
                assert(base_pow::<D>((offset + i + 1) as nat) == bb * w);
                assert((z2.val() - l.val()) * w + nc * (bb * w) == cv * w + xv * y * w)
                    by (nonlinear_arith)
                    requires
                        z2.val() + nc * bb == l.val() + cv + xv * y,
                ;
            }
            carry = c2;
        } else {
            proof {
                let e = base_pow::<D>((offset + i - n) as nat) as int;
                lemma_base_pow_add::<D>((offset + i - n) as nat, n as nat);
                lemma_base_pow_pos::<D>((offset + i - n) as nat);
                let extra = (xv * y + cv) * e;
                assert(extra * m == xv * y * w + cv * w) by (nonlinear_arith)
                    requires
                        w == e * m,
                        extra == (xv * y + cv) * e,
                ;
                assert(xv * y >= 0 && (xv * y == 0) == (xv == 0 || y == 0)) by (nonlinear_arith)
                    requires
                        xv >= 0,
                        y >= 0,
                ;
                assert(extra >= 0 && (extra == 0) == (xv * y + cv == 0)) by (nonlinear_arith)
                    requires
                        extra == (xv * y + cv) * e,
                        e > 0,
                        xv * y + cv >= 0,
                ;
                assert((over + extra) * m == over * m + extra * m) by (nonlinear_arith);
                over = over + extra;
            }
            if (!x.is_zero() && !d.is_zero()) || !carry.is_zero() {
                overflow = true;
            }
            carry = D::zero();
        }
        i = i + 1;
    }
    assert(lhs.digits().take(an as int) =~= lhs.digits());
    if !carry.is_zero() {
        if offset < n && an < n - offset {
            let mut j = offset + an;
            while j < n && !carry.is_zero()
                invariant
                    n == res.digits().len(),
                    j <= n,
                    m == base_pow::<D>(n as nat),
                    over >= 0,
                    overflow == (over != 0),
                    le_val(res.digits()) + carry.val() * base_pow::<D>(j as nat) + over * m
                        == le_val(old_res) + le_val(lhs.digits()) * y * po,
                decreases n - j,
            {
                let l = res.get_digit(j);
                let (z, o) = l.overflowing_add(carry);
                let ghost cv = carry.val() as int;
                proof {
                    lemma_le_val_update(res.digits(), j as int, z);
                    let p = base_pow::<D>(j as nat) as int;
                    let bb = D::base() as int;
                    let e: int = if o { 1 } else { 0 };
                    assert(base_pow::<D>((j + 1) as nat) == bb * p);
                    assert((z.val() - l.val()) * p + e * (bb * p) == cv * p) by (nonlinear_arith)
                        requires
                            z.val() + e * bb == l.val() + cv,
                    ;
                }
                res.set_digit(j, z);
                carry = if o { D::one() } else { D::zero() };
                j = j + 1;
            }
            if !carry.is_zero() {
                proof {
                    let cv = carry.val() as int;
                    assert(j == n);
                    assert((over + cv) * m == over * m + cv * m) by (nonlinear_arith);
                    over = over + cv;
                }
                overflow = true;
            }
        } else {
            proof {
                let q = (offset + an) as int;
                let e = base_pow::<D>((q - n) as nat) as int;
                lemma_base_pow_add::<D>((q - n) as nat, n as nat);
                lemma_base_pow_pos::<D>((q - n) as nat);
                let cv = carry.val() as int;
                assert(cv * base_pow::<D>(q as nat) == (cv * e) * m && cv * e > 0) by (nonlinear_arith)
                    requires
                        base_pow::<D>(q as nat) == e * m,
                        e > 0,
                        cv > 0,
                ;
                assert((over + cv * e) * m == over * m + (cv * e) * m) by (nonlinear_arith);
                over = over + cv * e;
            }
            overflow = true;
        }
    }
    proof {
        let total = le_val(old_res) + le_val(lhs.digits()) * y * po;
        assert(carry.val() == 0 ==> carry.val() * base_pow::<D>((offset + an) as nat) == 0);
        lemma_le_val_bound(res.digits());
        vstd::arithmetic::div_mod::lemma_fundamental_div_mod_converse(
            total,
            m,
            over,
            le_val(res.digits()) as int,
        );
        if over > 0 {
            assert(over * m >= m) by (nonlinear_arith)
                requires
                    over >= 1,
                    m > 0,
            ;
        }
    }
    overflow
}

/// The significant length of `s`: its length without most significant
/// zero digits. The value of `s` is below `base` to that power.
fn real_len<D: UnsignedNumDigit, S: BigNum<Digit = D>>(s: &S) -> (r: usize)
    ensures
        r == significant_len(s.digits()),
        r <= s.digits().len(),
        le_val(s.digits()) < base_pow::<D>(r as nat),
{
    let mut k = s.len();
    assert(s.digits().take(k as int) =~= s.digits());
    while k > 0 && s.get_digit(k - 1).is_zero()
        invariant
            k <= s.digits().len(),
            significant_len(s.digits().take(k as int)) == significant_len(s.digits()),
            forall|i: int| k <= i < s.digits().len() ==> (#[trigger] s.digits()[i]).val() == 0,
        decreases k,
    {
        assert(s.digits().take(k as int).drop_last() =~= s.digits().take(k - 1));
        k = k - 1;
    }
    proof {
        assert(s.digits().take(s.digits().len() as int) =~= s.digits());
        lemma_le_val_zero_extend(s.digits().take(k as int), s.digits());
        lemma_le_val_bound(s.digits().take(k as int));
    }
    k
}

/// On one-digit operands the engine's accumulating operations agree with the
/// digit's own overflowing arithmetic: the value and flag that
/// `add_accumulate`, `sub_accumulate` and `mul_accumulate` (into a zero
/// digit) promise are those that `overflowing_add`, `overflowing_sub` and
/// `overflowing_mul` promise.
pub proof fn lemma_one_digit_matches_native<D: UnsignedNumDigit>(a: D, b: D, z: D)
    requires
        z.val() == 0,
    ensures
        (le_val(seq![a]) + le_val(seq![b])) % base_pow::<D>(1) == (a.val() + b.val()) % D::base(),
        (le_val(seq![a]) + le_val(seq![b]) >= base_pow::<D>(1)) == (a.val() + b.val()
            >= D::base()),
        (le_val(seq![a]) - le_val(seq![b])) % (base_pow::<D>(1) as int) == (a.val() - b.val())
            % (D::base() as int),
        (le_val(seq![a]) < le_val(seq![b])) == (a.val() < b.val()),
        (le_val(seq![z]) + le_val(seq![a]) * le_val(seq![b])) % base_pow::<D>(1) == (a.val()
            * b.val()) % D::base(),
        (le_val(seq![z]) + le_val(seq![a]) * le_val(seq![b]) >= base_pow::<D>(1)) == (a.val()
            * b.val() >= D::base()),
{
    lemma_le_val_one(a);
    lemma_le_val_one(b);
    lemma_le_val_one(z);
}

proof fn lemma_le_val_one<D: UnsignedNumDigit>(a: D)
    ensures
        le_val(seq![a]) == a.val(),
        base_pow::<D>(1) == D::base(),
{
    assert(seq![a].drop_last() =~= Seq::<D>::empty());
    assert(le_val(Seq::<D>::empty()) == 0);
    assert(base_pow::<D>(0) == 1);
    assert(base_pow::<D>(1) == D::base() * base_pow::<D>(0));
    assert(seq![a].last() == a);
    assert(le_val(seq![a]) == le_val(seq![a].drop_last()) + a.val() * base_pow::<D>(0));
}

/// Moves every digit of `res` up by `k` positions and fills the `k` lowest
/// positions with zero digits; digits moved past the end are lost.
fn shift_digits_up<D: UnsignedNumDigit, R: BigNumMut<Digit = D>>(res: &mut R, k: usize)
    requires
        k <= old(res).digits().len(),
    ensures
        final(res).digits().len() == old(res).digits().len(),
        le_val(final(res).digits()) == (le_val(old(res).digits()) * base_pow::<D>(k as nat))
            % base_pow::<D>(old(res).digits().len()),
{
    let len = res.len();
    let ghost old_res = res.digits();
    let mut i = len;
    while i > k
        invariant
            len == res.digits().len(),
            len == old_res.len(),
            k <= i <= len,
            forall|j: int| 0 <= j < i ==> #[trigger] res.digits()[j] == old_res[j],
            forall|j: int| i <= j < len ==> #[trigger] res.digits()[j] == old_res[j - k],
        decreases i,
    {
        let d = res.get_digit(i - 1 - k);
        res.set_digit(i - 1, d);
        i = i - 1;
    }
    let mut i: usize = 0;
    while i < k
        invariant
            len == res.digits().len(),
            len == old_res.len(),
            i <= k <= len,
            forall|j: int| 0 <= j < i ==> (#[trigger] res.digits()[j]).val() == 0,
            forall|j: int| k <= j < len ==> #[trigger] res.digits()[j] == old_res[j - k],
        decreases k - i,
    {
        res.set_digit(i, D::zero());
        i = i + 1;
    }
    proof {
        let t = old_res.take(len - k);
        lemma_le_val_shifted(t, res.digits(), k as nat);
        lemma_le_val_split(old_res, len - k);
        lemma_base_pow_add::<D>((len - k) as nat, k as nat);
        lemma_base_pow_pos::<D>(len as nat);
        lemma_base_pow_pos::<D>(k as nat);
        lemma_le_val_bound(t);
        let a = base_pow::<D>(k as nat) as int;
        let b = base_pow::<D>((len - k) as nat) as int;
        let m = base_pow::<D>(len as nat) as int;
        let lo = le_val(t) as int;
        let hi = le_val(old_res.skip(len - k)) as int;
        assert((lo + b * hi) * a == hi * m + a * lo) by (nonlinear_arith)
            requires
                m == b * a,
        ;
        assert(0 <= a * lo < m) by (nonlinear_arith)
            requires
                m == b * a,
                0 <= lo < b,
                a > 0,
        ;
        vstd::arithmetic::div_mod::lemma_fundamental_div_mod_converse(
            (lo + b * hi) * a,
            m,
            hi,
            a * lo,
        );
    }
}

/// Multiplies the value of `res` by the digit `p` in place, carrying from
/// digit to digit; what falls past the end is lost.
fn mul_digit_in_place<D: UnsignedNumDigit, R: BigNumMut<Digit = D>>(res: &mut R, p: D)
    ensures
        final(res).digits().len() == old(res).digits().len(),
        le_val(final(res).digits()) == (le_val(old(res).digits()) * p.val()) % base_pow::<D>(
            old(res).digits().len(),
        ),
{
    let len = res.len();
    let ghost old_res = res.digits();
    let ghost pv = p.val() as int;
    proof {
        D::lemma_base();
        p.lemma_val_bounds();
        assert(le_val(old_res.take(0)) == 0);
    }
    let mut carry = D::zero();
    let mut i: usize = 0;
    while i < len
        invariant
            len == res.digits().len(),
            len == old_res.len(),
            i <= len,
            pv == p.val(),
            0 <= pv < D::base(),
            D::base() > 1,
            forall|j: int| i <= j < len ==> #[trigger] res.digits()[j] == old_res[j],
            le_val(res.digits()) + carry.val() * base_pow::<D>(i as nat) == le_val(old_res) + (pv
                - 1) * le_val(old_res.take(i as int)),
        decreases len - i,
    {
        let d = res.get_digit(i);
        let (hi, lo) = d.mul_to_parts(p);
        let (z, o) = lo.overflowing_add(carry);
        let ghost w = base_pow::<D>(i as nat) as int;
        let ghost cv = carry.val() as int;
        let ghost dv = d.val() as int;
        let ghost e: int = if o { 1 } else { 0 };
        proof {
            d.lemma_val_bounds();
            carry.lemma_val_bounds();
            lemma_le_val_update(res.digits(), i as int, z);
            lemma_le_val_prefix(old_res, i as int);
            let bb = D::base() as int;
            let h = hi.val() as int;
            assert(dv * pv <= (bb - 1) * (bb - 1)) by (nonlinear_arith)
                requires
                    0 <= dv < bb,
                    0 <= pv < bb,
            ;
            assert(e * bb == (if o { bb } else { 0 })) by (nonlinear_arith)
                requires
                    e == (if o { 1int } else { 0 }),
            ;
            assert((h + e) * bb == h * bb + e * bb) by (nonlinear_arith);
            assert(h + e < bb) by (nonlinear_arith)
                requires
                    z.val() + (h + e) * bb == dv * pv + cv,
                    dv * pv <= (bb - 1) * (bb - 1),
                    cv < bb,
                    z.val() >= 0,
                    bb > 1,
            ;
        }
        res.set_digit(i, z);
        let (c, _) = hi.overflowing_add(if o { D::one() } else { D::zero() });
        proof {
            let bb = D::base() as int;
            let nc = c.val() as int;
            let prev = le_val(old_res.take(i as int)) as int;
            assert(base_pow::<D>((i + 1) as nat) == bb * w);
            assert((z.val() - dv) * w + nc * (bb * w) == (dv * pv + cv - dv) * w) by (nonlinear_arith)
                requires
                    z.val() + nc * bb == dv * pv + cv,
            ;
            assert((pv - 1) * (prev + dv * w) == (pv - 1) * prev + (dv * pv - dv) * w)
                by (nonlinear_arith);
            assert((dv * pv + cv - dv) * w == (dv * pv - dv) * w + cv * w) by (nonlinear_arith);
        }
        carry = c;
        i = i + 1;
    }
    proof {
        assert(old_res.take(len as int) =~= old_res);
        let v = le_val(old_res) as int;
        let m = base_pow::<D>(len as nat) as int;
        assert(v + (pv - 1) * v == v * pv) by (nonlinear_arith);
        lemma_le_val_bound(res.digits());
        vstd::arithmetic::div_mod::lemma_fundamental_div_mod_converse(
            v * pv,
            m,
            carry.val() as int,
            le_val(res.digits()) as int,
        );
        assert(carry.val() * m == m * carry.val()) by (nonlinear_arith);
    }
}

/// Moves every digit of `res` down by `k` positions and fills the `k`
/// highest positions with zero digits; the `k` lowest digits are lost.
fn shift_digits_down<D: UnsignedNumDigit, R: BigNumMut<Digit = D>>(res: &mut R, k: usize)
    requires
        k <= old(res).digits().len(),
    ensures
        final(res).digits().len() == old(res).digits().len(),
        le_val(final(res).digits()) == le_val(old(res).digits()) / base_pow::<D>(k as nat),
{
    let len = res.len();
    let ghost old_res = res.digits();
    let mut i: usize = 0;
    while i < len - k
        invariant
            len == res.digits().len(),
            len == old_res.len(),
            k <= len,
            i <= len - k,
            forall|j: int| 0 <= j < i ==> #[trigger] res.digits()[j] == old_res[j + k],
            forall|j: int| i <= j < len ==> #[trigger] res.digits()[j] == old_res[j],
        decreases len - k - i,
    {
        let d = res.get_digit(i + k);
        res.set_digit(i, d);
        i = i + 1;
    }
    while i < len
        invariant
            len == res.digits().len(),
            len == old_res.len(),
            k <= len,
            len - k <= i <= len,
            forall|j: int| 0 <= j < len - k ==> #[trigger] res.digits()[j] == old_res[j + k],
            forall|j: int| len - k <= j < i ==> (#[trigger] res.digits()[j]).val() == 0,
        decreases len - i,
    {
        res.set_digit(i, D::zero());
        i = i + 1;
    }
    proof {
        let high = old_res.skip(k as int);
        lemma_le_val_zero_extend(high, res.digits());
        lemma_le_val_split(old_res, k as int);
        lemma_le_val_bound(old_res.take(k as int));
        lemma_base_pow_pos::<D>(k as nat);
        let bk = base_pow::<D>(k as nat) as int;
        assert(bk * le_val(high) == le_val(high) * bk) by (nonlinear_arith);
        vstd::arithmetic::div_mod::lemma_fundamental_div_mod_converse(
            le_val(old_res) as int,
            base_pow::<D>(k as nat) as int,
            le_val(high) as int,
            le_val(old_res.take(k as int)) as int,
        );
    }
}

/// Divides the value of `res` by `2^s` in place, rounding down, passing the
/// bits shifted out of each digit into the digit below.
fn shift_bits_down<D: UnsignedNumDigit, R: BigNumMut<Digit = D>>(res: &mut R, s: u32)
    requires
        0 < s < D::bits(),
    ensures
        final(res).digits().len() == old(res).digits().len(),
        le_val(final(res).digits()) == le_val(old(res).digits()) / pow2(s as nat),
{
    let len = res.len();
    let ghost old_res = res.digits();
    let bits = D::num_bits();
    let ghost p = pow2(s as nat) as int;
    let ghost u = pow2((D::bits() - s) as nat) as int;
    proof {
        D::lemma_base();
        vstd::arithmetic::power2::lemma_pow2_adds(s as nat, (D::bits() - s) as nat);
        vstd::arithmetic::power2::lemma_pow2_pos(s as nat);
        vstd::arithmetic::power2::lemma_pow2_pos((D::bits() - s) as nat);
        assert(old_res.skip(len as int).len() == 0);
        assert(le_val(old_res.skip(len as int)) == 0);
        assert(res.digits().skip(len as int).len() == 0);
        assert(le_val(res.digits().skip(len as int)) == 0);
    }
    let mut rem = D::zero();
    let mut i = len;
    while i > 0
        invariant
            len == res.digits().len(),
            len == old_res.len(),
            i <= len,
            bits == D::bits(),
            0 < s < bits,
            p == pow2(s as nat),
            u == pow2((D::bits() - s) as nat),
            p * u == D::base(),
            p > 0,
            u > 0,
            rem.val() < p,
            forall|j: int| 0 <= j < i ==> #[trigger] res.digits()[j] == old_res[j],
            le_val(res.digits().skip(i as int)) * p + rem.val() == le_val(
                old_res.skip(i as int),
            ),
        decreases i,
    {
        let d = res.get_digit(i - 1);
        let top = d.shr_bits(s);
        let back = top.shl_bits(s);
        let carried = rem.shl_bits(bits - s);
        let ghost dv = d.val() as int;
        let ghost rv = rem.val() as int;
        let ghost tv = top.val() as int;
        let ghost bb = D::base() as int;
        proof {
            d.lemma_val_bounds();
            assert(tv * p <= dv) by (nonlinear_arith)
                requires
                    tv == dv / p,
                    p > 0,
                    dv >= 0,
            ;
            assert(dv - tv * p < p) by (nonlinear_arith)
                requires
                    tv == dv / p,
                    p > 0,
                    dv >= 0,
            ;
            assert(0 <= tv * p < bb);
            vstd::arithmetic::div_mod::lemma_small_mod((tv * p) as nat, bb as nat);
            assert(rv * u < bb) by (nonlinear_arith)
                requires
                    0 <= rv < p,
                    p * u == bb,
                    u > 0,
            ;
            assert(0 <= rv * u);
            vstd::arithmetic::div_mod::lemma_small_mod((rv * u) as nat, bb as nat);
            assert(tv < u) by (nonlinear_arith)
                requires
                    tv == dv / p,
                    dv < bb,
                    p * u == bb,
                    p > 0,
            ;
            assert(rv * u <= (p - 1) * u) by (nonlinear_arith)
                requires
                    0 <= rv <= p - 1,
                    u > 0,
            ;
            assert((p - 1) * u == p * u - u) by (nonlinear_arith);
            assert(rv * u + tv < bb);
        }
        let (nd, _) = carried.overflowing_add(top);
        let (nr, _) = d.overflowing_sub(back);
        proof {
            let old_suffix = old_res.skip(i - 1);
            let new_seq = res.digits().update(i - 1, nd);
            lemma_le_val_head(old_suffix);
            assert(old_suffix.skip(1) =~= old_res.skip(i as int));
            assert(old_suffix[0] == d);
            lemma_le_val_head(new_seq.skip(i - 1));
            assert(new_seq.skip(i - 1).skip(1) =~= res.digits().skip(i as int));
            let hv = le_val(res.digits().skip(i as int)) as int;
            assert((nd.val() + bb * hv) * p + nr.val() == dv + bb * (hv * p + rv)) by (nonlinear_arith)
                requires
                    nd.val() == rv * u + tv,
                    nr.val() == dv - tv * p,
                    p * u == bb,
            ;
        }
        res.set_digit(i - 1, nd);
        rem = nr;
        i = i - 1;
    }
    proof {
        assert(res.digits().skip(0) =~= res.digits());
        assert(old_res.skip(0) =~= old_res);
        vstd::arithmetic::div_mod::lemma_fundamental_div_mod_converse(
            le_val(old_res) as int,
            p,
            le_val(res.digits()) as int,
            rem.val() as int,
        );
    }
}

/// Adding the same number `k` times with `add_resize`, whose sums are
/// exact, gives the first value plus `k` times the number added.
pub proof fn lemma_repeated_add_is_multiplication<D: UnsignedNumDigit>(
    values: Seq<Seq<D>>,
    rhs: Seq<D>,
)
    requires
        values.len() > 0,
        forall|i: int|
            0 <= i < values.len() - 1 ==> le_val(#[trigger] values[i + 1]) == le_val(values[i])
                + le_val(rhs),
    ensures
        le_val(values.last()) == le_val(values[0]) + (values.len() - 1) * le_val(rhs),
    decreases values.len(),
{
    if values.len() > 1 {
        let front = values.drop_last();
        assert forall|i: int| 0 <= i < front.len() - 1 implies le_val(#[trigger] front[i + 1])
            == le_val(front[i]) + le_val(rhs) by {
            assert(front[i + 1] == values[i + 1]);
            assert(front[i] == values[i]);
        }
        lemma_repeated_add_is_multiplication(front, rhs);
        let j = values.len() - 2;
        assert(le_val(values[j + 1]) == le_val(values[j]) + le_val(rhs));
        assert(front.last() == values[j]);
        assert(values.last() == values[j + 1]);
        let k = values.len() - 1;
        assert((k - 1) * le_val(rhs) + le_val(rhs) == k * le_val(rhs)) by (nonlinear_arith);
    } else {
        assert((values.len() - 1) * le_val(rhs) == 0) by (nonlinear_arith)
            requires
                values.len() == 1,
        ;
    }
}

/// Grows `res` to `len` digits where it is shorter; the value stays.
fn grow_to<D: UnsignedNumDigit, M: DynamicBigNum<Digit = D>>(res: &mut M, len: usize)
    ensures
        final(res).digits().len() == max_len(old(res).digits().len(), len as nat),
        le_val(final(res).digits()) == le_val(old(res).digits()),
{
    if res.len() < len {
        let ghost before = res.digits();
        res.resize(len);
        proof {
            lemma_le_val_zero_extend(before, res.digits());
        }
    }
}

/// Performs every operation in the plainest way, without heap allocation.
pub struct SimpleEngine {}

impl UnsignedEngine for SimpleEngine {
    fn add_accumulate<D: UnsignedNumDigit, R: BigNumMut<Digit = D>, S: BigNum<Digit = D>>(
        res: &mut R,
        rhs: &S,
    ) -> (r: bool) {
        let n = res.len();
        let m = rhs.len();
        let ghost old_res = res.digits();
        let mut carry = false;
        let mut i: usize = 0;
        while i < m
            invariant
                n == res.digits().len(),
                n == old_res.len(),
                m == rhs.digits().len(),
                m <= n,
                i <= m,
                forall|j: int| i <= j < n ==> res.digits()[j] == old_res[j],
                le_val(res.digits()) + (if carry { base_pow::<D>(i as nat) } else { 0 }) == le_val(
                    old_res,
                ) + le_val(rhs.digits().take(i as int)),
            decreases m - i,
        {
            let l = res.get_digit(i);
            let d = rhs.get_digit(i);
            let (s1, o1) = l.overflowing_add(d);
            let c = if carry { D::one() } else { D::zero() };
            let (s2, o2) = s1.overflowing_add(c);
            proof {
                D::lemma_base();
                l.lemma_val_bounds();
                d.lemma_val_bounds();
                lemma_le_val_update(res.digits(), i as int, s2);
                lemma_le_val_prefix(rhs.digits(), i as int);
                let p = base_pow::<D>(i as nat);
                let b = D::base();
                assert((s2.val() - l.val()) * p + (if o1 || o2 { b * p } else { 0 }) == d.val() * p
                    + (if carry { p } else { 0 })) by (nonlinear_arith)
                    requires
                        s1.val() + (if o1 { b } else { 0 }) == l.val() + d.val(),
                        s2.val() + (if o2 { b } else { 0 }) == s1.val() + c.val(),
                        c.val() == (if carry { 1int } else { 0 }),
                        !(o1 && o2),
                ;
            }
            res.set_digit(i, s2);
            carry = o1 || o2;
            i = i + 1;
        }
        assert(rhs.digits().take(m as int) =~= rhs.digits());
        while i < n && carry
            invariant
                n == res.digits().len(),
                n == old_res.len(),
                m <= i <= n,
                forall|j: int| i <= j < n ==> res.digits()[j] == old_res[j],
                le_val(res.digits()) + (if carry { base_pow::<D>(i as nat) } else { 0 }) == le_val(
                    old_res,
                ) + le_val(rhs.digits()),
            decreases n - i,
        {
            let l = res.get_digit(i);
            let (s, o) = l.overflowing_add(D::one());
            proof {
                lemma_le_val_update(res.digits(), i as int, s);
                let p = base_pow::<D>(i as nat);
                let b = D::base();
                assert((s.val() - l.val()) * p + (if o { b * p } else { 0 }) == p) by (nonlinear_arith)
                    requires
                        s.val() + (if o { b } else { 0 }) == l.val() + 1,
                ;
            }
            res.set_digit(i, s);
            carry = o;
            i = i + 1;
        }
        proof {
            lemma_le_val_bound(res.digits());
            lemma_mod_once(le_val(res.digits()) as int, base_pow::<D>(n as nat) as int);
        }
        carry
    }

    fn sub_accumulate<D: UnsignedNumDigit, R: BigNumMut<Digit = D>, S: BigNum<Digit = D>>(
        res: &mut R,
        rhs: &S,
    ) -> (r: bool) {
        let n = res.len();
        let m = rhs.len();
        let ghost old_res = res.digits();
        let mut borrow = false;
        let mut i: usize = 0;
        while i < m
            invariant
                n == res.digits().len(),
                n == old_res.len(),
                m == rhs.digits().len(),
                m <= n,
                i <= m,
                forall|j: int| i <= j < n ==> res.digits()[j] == old_res[j],
                le_val(res.digits()) - (if borrow { base_pow::<D>(i as nat) } else { 0 }) == le_val(
                    old_res,
                ) - le_val(rhs.digits().take(i as int)),
            decreases m - i,
        {
            let l = res.get_digit(i);
            let d = rhs.get_digit(i);
            let c = if borrow { D::one() } else { D::zero() };
            let (s1, o1) = l.overflowing_sub(c);
            let (s2, o2) = s1.overflowing_sub(d);
            proof {
                D::lemma_base();
                l.lemma_val_bounds();
                d.lemma_val_bounds();
                lemma_le_val_update(res.digits(), i as int, s2);
                lemma_le_val_prefix(rhs.digits(), i as int);
                let p = base_pow::<D>(i as nat);
                let b = D::base() as int;
                assert((s2.val() - l.val()) * p - (if o1 || o2 { b * p } else { 0 }) == -(d.val()
                    * p) - (if borrow { p as int } else { 0 })) by (nonlinear_arith)
                    requires
                        s1.val() == l.val() - c.val() + (if o1 { b } else { 0 }),
                        s2.val() == s1.val() - d.val() + (if o2 { b } else { 0 }),
                        c.val() == (if borrow { 1int } else { 0 }),
                        !(o1 && o2),
                ;
            }
            res.set_digit(i, s2);
            borrow = o1 || o2;
            i = i + 1;
        }
        assert(rhs.digits().take(m as int) =~= rhs.digits());
        while i < n && borrow
            invariant
                n == res.digits().len(),
                n == old_res.len(),
                m <= i <= n,
                forall|j: int| i <= j < n ==> res.digits()[j] == old_res[j],
                le_val(res.digits()) - (if borrow { base_pow::<D>(i as nat) } else { 0 }) == le_val(
                    old_res,
                ) - le_val(rhs.digits()),
            decreases n - i,
        {
            let l = res.get_digit(i);
            let (s, o) = l.overflowing_sub(D::one());
            proof {
                lemma_le_val_update(res.digits(), i as int, s);
                let p = base_pow::<D>(i as nat);
                let b = D::base() as int;
                assert((s.val() - l.val()) * p - (if o { b * p } else { 0 }) == -p) by (nonlinear_arith)
                    requires
                        s.val() == l.val() - 1 + (if o { b } else { 0 }),
                ;
            }
            res.set_digit(i, s);
            borrow = o;
            i = i + 1;
        }
        proof {
            lemma_le_val_bound(res.digits());
            lemma_mod_once(le_val(res.digits()) as int, base_pow::<D>(n as nat) as int);
        }
        borrow
    }

    fn mul_accumulate<
        D: UnsignedNumDigit,
        R: BigNumMut<Digit = D>,
        S: BigNum<Digit = D>,
        T: BigNum<Digit = D>,
    >(
        res: &mut R,
        lhs: &S,
        rhs: &T,
    ) -> (r: bool) {
        let n = res.len();
        let bn = rhs.len();
        let ghost old_res = res.digits();
        let ghost m = base_pow::<D>(n as nat) as int;
        let ghost lv = le_val(lhs.digits()) as int;
        let ghost mut over: int = 0;
        proof {
            lemma_base_pow_pos::<D>(n as nat);
            assert(rhs.digits().take(0).len() == 0);
            assert(le_val(rhs.digits().take(0)) == 0);
            assert(lv * le_val(rhs.digits().take(0)) == 0);
            assert(over * m == 0);
        }
        let mut overflow = false;
        let mut i: usize = 0;
        while i < bn
            invariant
                n == res.digits().len(),
                n == old_res.len(),
                bn == rhs.digits().len(),
                i <= bn,
                m == base_pow::<D>(n as nat),
                m > 0,
                lv == le_val(lhs.digits()),
                over >= 0,
                overflow == (over != 0),
                le_val(res.digits()) + over * m == le_val(old_res) + lv * le_val(
                    rhs.digits().take(i as int),
                ),
            decreases bn - i,
        {
            let d = rhs.get_digit(i);
            let ghost r0 = le_val(res.digits()) as int;
            let o = mul_accumulate_digit(res, lhs, d, i);
            proof {
                lemma_le_val_prefix(rhs.digits(), i as int);
                let p = base_pow::<D>(i as nat) as int;
                let yy = r0 + lv * d.val() * p;
                let q = yy / m;
                vstd::arithmetic::div_mod::lemma_fundamental_div_mod(yy, m);
                let rr = yy % m;
                assert(0 <= rr < m);
                assert(q >= 0 && (q == 0) == (yy < m)) by (nonlinear_arith)
                    requires
                        yy == m * q + rr,
                        0 <= rr < m,
                        yy >= 0,
                ;
                let prev = le_val(rhs.digits().take(i as int)) as int;
                assert(lv * (prev + d.val() * p) == lv * prev + lv * d.val() * p) by (nonlinear_arith);
                assert((over + q) * m == over * m + m * q) by (nonlinear_arith);
                over = over + q;
            }
            overflow = overflow || o;
            i = i + 1;
        }
        proof {
            assert(rhs.digits().take(bn as int) =~= rhs.digits());
            let total = le_val(old_res) + lv * le_val(rhs.digits());
            lemma_le_val_bound(res.digits());
            vstd::arithmetic::div_mod::lemma_fundamental_div_mod_converse(
                total,
                m,
                over,
                le_val(res.digits()) as int,
            );
            if over > 0 {
                assert(over * m >= m) by (nonlinear_arith)
                    requires
                        over >= 1,
                        m > 0,
                ;
            }
        }
        overflow
    }

    fn mul_resize<
        D: UnsignedNumDigit,
        M: DynamicBigNum<Digit = D> + BigNumMut<Digit = D>,
        S: BigNum<Digit = D>,
        T: BigNum<Digit = D>,
    >(
        res: &mut M,
        lhs: &S,
        rhs: &T,
    ) {
        let ls = real_len(lhs);
        let rs = real_len(rhs);
        grow_to(res, ls + rs);
        let ghost grown = res.digits();
        let _overflow = Self::mul_accumulate(res, lhs, rhs);
        proof {
            lemma_base_pow_add::<D>(ls as nat, rs as nat);
            lemma_base_pow_le::<D>((ls + rs) as nat, res.digits().len());
            let a = le_val(lhs.digits()) as int;
            let b = le_val(rhs.digits()) as int;
            assert(a * b < base_pow::<D>(ls as nat) * base_pow::<D>(rs as nat)) by (nonlinear_arith)
                requires
                    0 <= a < base_pow::<D>(ls as nat),
                    0 <= b < base_pow::<D>(rs as nat),
            ;
        }
    }

    fn shift_left_u32<D: UnsignedNumDigit, R: BigNumMut<Digit = D>>(res: &mut R, n: u32) -> (r: bool) {
        let len = res.len();
        let bits = D::num_bits();
        proof {
            D::lemma_base();
        }
        let overflow = (n / bits) as usize >= len;
        if len == 0 {
            return overflow;
        }
        let eff: u32 = if len > (u32::MAX / bits) as usize {
            proof {
                assert((n as nat) < (len as nat) * D::bits()) by (nonlinear_arith)
                    requires
                        len > (u32::MAX as int) / (bits as int),
                        n <= u32::MAX,
                        bits > 0,
                        bits == D::bits(),
                ;
                vstd::arithmetic::div_mod::lemma_small_mod(n as nat, (len as nat) * D::bits());
            }
            n
        } else {
            proof {
                assert(0 < len * bits <= u32::MAX) by (nonlinear_arith)
                    requires
                        len <= (u32::MAX as int) / (bits as int),
                        bits > 0,
                        len > 0,
                ;
            }
            n % (len as u32 * bits)
        };
        let k = (eff / bits) as usize;
        let s = eff % bits;
        let ghost m = base_pow::<D>(len as nat) as int;
        let ghost v = le_val(res.digits()) as int;
        proof {
            assert((eff as int) < len * bits) by (nonlinear_arith)
                requires
                    eff == (n as nat) % ((len as nat) * D::bits()),
                    bits == D::bits(),
                    len > 0,
                    bits > 0,
            ;
            assert(k < len) by (nonlinear_arith)
                requires
                    k == eff / bits,
                    eff < len * bits,
                    bits > 0,
            ;
            vstd::arithmetic::div_mod::lemma_fundamental_div_mod(eff as int, bits as int);
        }
        shift_digits_up(res, k);
        let ghost v1 = le_val(res.digits()) as int;
        let p = D::one().shl_bits(s);
        proof {
            vstd::arithmetic::power2::lemma_pow2_strictly_increases(s as nat, D::bits());
            vstd::arithmetic::power2::lemma_pow2_pos(s as nat);
            vstd::arithmetic::div_mod::lemma_small_mod(pow2(s as nat), D::base());
        }
        mul_digit_in_place(res, p);
        proof {
            lemma_base_pow_is_pow2::<D>(k as nat);
            lemma_base_pow_pos::<D>(len as nat);
            vstd::arithmetic::power2::lemma_pow2_adds(D::bits() * k as nat, s as nat);
            assert(D::bits() * k as nat + s as nat == eff as nat) by (nonlinear_arith)
                requires
                    eff as int == bits * (eff as int / bits as int) + eff as int % bits as int,
                    k == eff as int / bits as int,
                    s == eff as int % bits as int,
                    bits == D::bits(),
            ;
            let a = base_pow::<D>(k as nat) as int;
            let q = pow2(s as nat) as int;
            vstd::arithmetic::div_mod::lemma_mul_mod_noop_left(v * a, q, m);
            assert(v * a * q == v * (a * q)) by (nonlinear_arith);
        }
        overflow
    }

    fn shift_right_u32<D: UnsignedNumDigit, R: BigNumMut<Digit = D>>(res: &mut R, n: u32) -> (r: bool) {
        let len = res.len();
        let bits = D::num_bits();
        proof {
            D::lemma_base();
        }
        let k = (n / bits) as usize;
        let s = n % bits;
        let ghost v = le_val(res.digits()) as int;
        proof {
            vstd::arithmetic::div_mod::lemma_fundamental_div_mod(n as int, bits as int);
            vstd::arithmetic::power2::lemma_pow2_adds(D::bits() * k as nat, s as nat);
            assert(D::bits() * k as nat + s as nat == n as nat) by (nonlinear_arith)
                requires
                    n as int == bits * (n as int / bits as int) + n as int % bits as int,
                    k == n as int / bits as int,
                    s == n as int % bits as int,
                    bits == D::bits(),
            ;
            lemma_base_pow_is_pow2::<D>(k as nat);
            vstd::arithmetic::power2::lemma_pow2_pos(s as nat);
        }
        if k >= len {
            let ghost old_res = res.digits();
            let mut i: usize = 0;
            while i < len
                invariant
                    len == res.digits().len(),
                    i <= len,
                    forall|j: int| 0 <= j < i ==> (#[trigger] res.digits()[j]).val() == 0,
                decreases len - i,
            {
                res.set_digit(i, D::zero());
                i = i + 1;
            }
            proof {
                lemma_le_val_zero_extend(Seq::<D>::empty(), res.digits());
                assert(le_val(Seq::<D>::empty()) == 0);
                lemma_le_val_bound(old_res);
                lemma_base_pow_le::<D>(len as nat, k as nat);
                let a = base_pow::<D>(k as nat) as int;
                let q = pow2(s as nat) as int;
                assert(a <= a * q) by (nonlinear_arith)
                    requires
                        a >= 0,
                        q >= 1,
                ;
                vstd::arithmetic::div_mod::lemma_basic_div(v, a * q);
            }
        } else {
            shift_digits_down(res, k);
            if s > 0 {
                shift_bits_down(res, s);
            }
            proof {
                let a = base_pow::<D>(k as nat) as int;
                let q = pow2(s as nat) as int;
                lemma_base_pow_pos::<D>(k as nat);
                vstd::arithmetic::div_mod::lemma_div_denominator(v, a, q);
                if s == 0 {
                    assert(q == 1) by {
                        vstd::arithmetic::power2::lemma2_to64();
                    }
                    assert(a * q == a);
                }
            }
        }
        false
    }

    fn sub_resize<
        D: UnsignedNumDigit,
        M: DynamicBigNum<Digit = D> + BigNumMut<Digit = D>,
        S: BigNum<Digit = D>,
    >(
        res: &mut M,
        rhs: &S,
    ) -> (r: bool) {
        grow_to(res, rhs.len());
        Self::sub_accumulate(res, rhs)
    }

    fn add_resize<
        D: UnsignedNumDigit,
        M: DynamicBigNum<Digit = D> + BigNumMut<Digit = D>,
        S: BigNum<Digit = D>,
    >(
        res: &mut M,
        rhs: &S,
    ) {
        grow_to(res, rhs.len());
        let ghost grown = res.digits();
        let carry = Self::add_accumulate(res, rhs);
        if carry {
            let n = res.len();
            let ghost summed = res.digits();
            res.resize(n + 1);
            res.set_digit(n, D::one());
            proof {
                lemma_le_val_prefix(res.digits(), n as int);
                assert(res.digits().take(n as int) =~= summed);
                assert(res.digits()[n as int].val() == 1);
                assert(res.digits()[n as int].val() * base_pow::<D>(n as nat) == base_pow::<D>(n as nat));
                assert(res.digits().take(n as int + 1) =~= res.digits());
                lemma_le_val_bound(summed);
                lemma_le_val_bound(grown);
                lemma_le_val_bound(rhs.digits());
                lemma_base_pow_le::<D>(rhs.digits().len(), n as nat);
                lemma_mod_once(
                    le_val(grown) + le_val(rhs.digits()) - base_pow::<D>(n as nat),
                    base_pow::<D>(n as nat) as int,
                );
                assert(le_val(summed) == le_val(grown) + le_val(rhs.digits()) - base_pow::<D>(n as nat));
            }
        } else {
            proof {
                lemma_le_val_bound(res.digits());
                lemma_le_val_bound(grown);
                vstd::arithmetic::div_mod::lemma_small_mod(
                    le_val(grown) + le_val(rhs.digits()),
                    base_pow::<D>(res.digits().len()),
                );
            }
        }
    }
}

} // verus!
