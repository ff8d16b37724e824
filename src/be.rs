use vstd::prelude::*;
use crate::digit::UnsignedNumDigit;
use core::cmp::Ordering;
use crate::value::{
    base_pow, be_val, lemma_base_pow_add, lemma_base_pow_le, lemma_base_pow_pos, lemma_be_val_bound,
    lemma_be_val_leading_zeros, lemma_be_val_lex, lemma_be_val_lower, lemma_be_val_suffix,
    lemma_be_val_update, lemma_mod_once,
};

verus! {

/// Adds `rhs` into `res`; both are big-endian (index 0 most significant)
/// and aligned at their least significant ends. The carry runs on through
/// the digits of `res` above `rhs`.
///
/// Returns `true` when the sum does not fit `res`; `res` then holds the sum
/// truncated to its length.
pub fn add_unsigned_in_place<D: UnsignedNumDigit>(res: &mut [D], rhs: &[D]) -> (r: bool)
    requires
        old(res)@.len() >= rhs@.len(),
    ensures
        final(res)@.len() == old(res)@.len(),
        be_val(final(res)@) == (be_val(old(res)@) + be_val(rhs@)) % base_pow::<D>(
            old(res)@.len(),
        ),
        r == (be_val(old(res)@) + be_val(rhs@) >= base_pow::<D>(old(res)@.len())),
{
    let n = res.len();
    let m = rhs.len();
    let ghost old_res = res@;
    let mut carry = false;
    let mut k: usize = 0;
    while k < m
        invariant
            n == res@.len(),
            n == old_res.len(),
            m == rhs@.len(),
            m <= n,
            k <= m,
            forall|j: int| 0 <= j < n - k ==> res@[j] == old_res[j],
            be_val(res@) + (if carry { base_pow::<D>(k as nat) } else { 0 }) == be_val(old_res)
                + be_val(rhs@.subrange(m - k, m as int)),
        decreases m - k,
    {
        let i = n - 1 - k;
        let j = m - 1 - k;
        let l = res[i];
        let d = rhs[j];
        let (s1, o1) = l.overflowing_add(d);
        let c = if carry { D::one() } else { D::zero() };
        let (s2, o2) = s1.overflowing_add(c);
        proof {
            D::lemma_base();
            l.lemma_val_bounds();
            d.lemma_val_bounds();
            lemma_be_val_update(res@, i as int, s2);
            lemma_be_val_suffix(rhs@, j as int);
            let p = base_pow::<D>(k as nat);
            let b = D::base();
            assert((s2.val() - l.val()) * p + (if o1 || o2 { b * p } else { 0 }) == d.val() * p
                + (if carry { p } else { 0 })) by (nonlinear_arith)
                requires
                    s1.val() + (if o1 { b } else { 0 }) == l.val() + d.val(),
                    s2.val() + (if o2 { b } else { 0 }) == s1.val() + c.val(),
                    c.val() == (if carry { 1int } else { 0 }),
                    !(o1 && o2),
            ;
        }
        res[i] = s2;
        carry = o1 || o2;
        k = k + 1;
    }
    assert(rhs@.subrange(0, m as int) =~= rhs@);
    while k < n && carry
        invariant
            n == res@.len(),
            n == old_res.len(),
            m <= k <= n,
            forall|j: int| 0 <= j < n - k ==> res@[j] == old_res[j],
            be_val(res@) + (if carry { base_pow::<D>(k as nat) } else { 0 }) == be_val(old_res)
                + be_val(rhs@),
        decreases n - k,
    {
        let i = n - 1 - k;
        let l = res[i];
        let (s, o) = l.overflowing_add(D::one());
        proof {
            lemma_be_val_update(res@, i as int, s);
            let p = base_pow::<D>(k as nat);
            let b = D::base();
            assert((s.val() - l.val()) * p + (if o { b * p } else { 0 }) == p) by (nonlinear_arith)
                requires
                    s.val() + (if o { b } else { 0 }) == l.val() + 1,
            ;
        }
        res[i] = s;
        carry = o;
        k = k + 1;
    }
    proof {
        lemma_be_val_bound(res@);
        lemma_mod_once(be_val(res@) as int, base_pow::<D>(n as nat) as int);
    }
    carry
}

} // verus!

verus! {

/// Subtracts `rhs` from `res`; both are big-endian and aligned at their
/// least significant ends. The borrow runs on through the digits of `res`
/// above `rhs`.
///
/// Returns `true` when a borrow is left over past the most significant digit
/// of `res`, that is when `rhs` is greater than `res`; `res` then holds the
/// difference modulo `256^len`.
pub fn sub_unsigned_in_place(res: &mut [u8], rhs: &[u8]) -> (r: bool)
    requires
        old(res)@.len() >= rhs@.len(),
    ensures
        final(res)@.len() == old(res)@.len(),
        be_val(final(res)@) == (be_val(old(res)@) - be_val(rhs@)) % (base_pow::<u8>(
            old(res)@.len(),
        ) as int),
        r == (be_val(old(res)@) < be_val(rhs@)),
{
    let n = res.len();
    let m = rhs.len();
    let ghost old_res = res@;
    let mut borrow = false;
    let mut k: usize = 0;
    while k < m
        invariant
            n == res@.len(),
            n == old_res.len(),
            m == rhs@.len(),
            m <= n,
            k <= m,
            forall|j: int| 0 <= j < n - k ==> res@[j] == old_res[j],
            be_val(res@) - (if borrow { base_pow::<u8>(k as nat) } else { 0 }) == be_val(old_res)
                - be_val(rhs@.subrange(m - k, m as int)),
        decreases m - k,
    {
        let i = n - 1 - k;
        let j = m - 1 - k;
        let l = res[i];
        let d = rhs[j];
        let (s1, o1) = UnsignedNumDigit::overflowing_sub(l, d);
        let c: u8 = if borrow { 1 } else { 0 };
        let (s2, o2) = UnsignedNumDigit::overflowing_sub(s1, c);
        proof {
            lemma_be_val_update(res@, i as int, s2);
            lemma_be_val_suffix(rhs@, j as int);
            let p = base_pow::<u8>(k as nat);
            assert((s2 - l) * p - (if o1 || o2 { 256 * p } else { 0 }) == -(d * p) - (if borrow {
                p
            } else {
                0
            })) by (nonlinear_arith)
                requires
                    s1 == l - d + (if o1 { 256int } else { 0 }),
                    s2 == s1 - c + (if o2 { 256int } else { 0 }),
                    c == (if borrow { 1int } else { 0 }),
                    !(o1 && o2),
            ;
        }
        res[i] = s2;
        borrow = o1 || o2;
        k = k + 1;
    }
    assert(rhs@.subrange(0, m as int) =~= rhs@);
    while k < n && borrow
        invariant
            n == res@.len(),
            n == old_res.len(),
            m <= k <= n,
            forall|j: int| 0 <= j < n - k ==> res@[j] == old_res[j],
            be_val(res@) - (if borrow { base_pow::<u8>(k as nat) } else { 0 }) == be_val(old_res)
                - be_val(rhs@),
        decreases n - k,
    {
        let i = n - 1 - k;
        let l = res[i];
        let (s, o) = UnsignedNumDigit::overflowing_sub(l, 1u8);
        proof {
            lemma_be_val_update(res@, i as int, s);
            let p = base_pow::<u8>(k as nat);
            assert((s - l) * p - (if o { 256 * p } else { 0 }) == -p) by (nonlinear_arith)
                requires
                    s == l - 1 + (if o { 256int } else { 0 }),
            ;
        }
        res[i] = s;
        borrow = o;
        k = k + 1;
    }
    proof {
        lemma_be_val_bound(res@);
        lemma_mod_once(be_val(res@) as int, base_pow::<u8>(n as nat) as int);
    }
    borrow
}

/// Writes `lhs` into the low end of `res` and zeroes the digits above it,
/// so that `res` holds the value of `lhs`.
fn place_right_aligned(res: &mut [u8], lhs: &[u8])
    requires
        old(res)@.len() >= lhs@.len(),
    ensures
        final(res)@.len() == old(res)@.len(),
        be_val(final(res)@) == be_val(lhs@),
{
    let n = res.len();
    let delta = n - lhs.len();
    let mut i: usize = 0;
    while i < lhs.len()
        invariant
            n == res@.len(),
            delta + lhs@.len() == n,
            i <= lhs@.len(),
            forall|j: int| 0 <= j < i ==> res@[delta + j] == lhs@[j],
        decreases lhs@.len() - i,
    {
        res[delta + i] = lhs[i];
        i = i + 1;
    }
    let mut i: usize = 0;
    while i < delta
        invariant
            n == res@.len(),
            delta + lhs@.len() == n,
            i <= delta,
            forall|j: int| 0 <= j < lhs@.len() ==> res@[delta + j] == lhs@[j],
            forall|j: int| 0 <= j < i ==> res@[j] == 0,
        decreases delta - i,
    {
        res[i] = 0;
        i = i + 1;
    }
    proof {
        lemma_be_val_leading_zeros(res@, delta as int);
        assert(res@.subrange(delta as int, n as int) =~= lhs@);
    }
}

/// Adds `lhs` and `rhs` into `res`, all three big-endian. `res` first takes
/// the value of `lhs`, zero-extended at its most significant end.
///
/// Returns `true` when the sum does not fit `res`; `res` then holds the sum
/// truncated to its length.
pub fn add_unsigned(res: &mut [u8], lhs: &[u8], rhs: &[u8]) -> (r: bool)
    requires
        old(res)@.len() >= lhs@.len(),
        old(res)@.len() >= rhs@.len(),
    ensures
        final(res)@.len() == old(res)@.len(),
        be_val(final(res)@) == (be_val(lhs@) + be_val(rhs@)) % base_pow::<u8>(old(res)@.len()),
        r == (be_val(lhs@) + be_val(rhs@) >= base_pow::<u8>(old(res)@.len())),
{
    place_right_aligned(res, lhs);
    add_unsigned_in_place(res, rhs)
}

/// Subtracts `rhs` from `lhs` into `res`, all three big-endian. `res` first
/// takes the value of `lhs`, zero-extended at its most significant end.
///
/// Returns `true` when `rhs` is greater than `lhs`; `res` then holds the
/// difference modulo `256^len`.
pub fn sub_unsigned(res: &mut [u8], lhs: &[u8], rhs: &[u8]) -> (r: bool)
    requires
        old(res)@.len() >= lhs@.len(),
        old(res)@.len() >= rhs@.len(),
    ensures
        final(res)@.len() == old(res)@.len(),
        be_val(final(res)@) == (be_val(lhs@) - be_val(rhs@)) % (base_pow::<u8>(
            old(res)@.len(),
        ) as int),
        r == (be_val(lhs@) < be_val(rhs@)),
{
    place_right_aligned(res, lhs);
    sub_unsigned_in_place(res, rhs)
}

} // verus!

verus! {

/// Index of the first non-zero byte of `s`, or `s.len()` when there is none.
fn skip_leading_zeros(s: &[u8]) -> (r: usize)
    ensures
        r <= s@.len(),
        forall|i: int| 0 <= i < r ==> s@[i] == 0,
        r < s@.len() ==> s@[r as int] != 0,
{
    let mut i: usize = 0;
    while i < s.len() && s[i] == 0
        invariant
            i <= s@.len(),
            forall|j: int| 0 <= j < i ==> s@[j] == 0,
        decreases s@.len() - i,
    {
        i = i + 1;
    }
    i
}

/// Zero bytes put before a big-endian number leave its value, and so its
/// place in the order of `compare_unsigned`, as it was.
pub proof fn lemma_zero_padding_keeps_value(s: Seq<u8>, k: nat)
    ensures
        be_val(Seq::new(k, |i: int| 0u8) + s) == be_val(s),
{
    let t = Seq::new(k, |i: int| 0u8) + s;
    lemma_be_val_leading_zeros(t, k as int);
    assert(t.subrange(k as int, t.len() as int) =~= s);
}

/// Compares two big-endian unsigned numbers by value: leading zero bytes
/// and the lengths of the buffers play no part. Two empty buffers are equal.
pub fn compare_unsigned(lhs: &[u8], rhs: &[u8]) -> (r: Ordering)
    ensures
        (r == Ordering::Less) == (be_val(lhs@) < be_val(rhs@)),
        (r == Ordering::Equal) == (be_val(lhs@) == be_val(rhs@)),
        (r == Ordering::Greater) == (be_val(lhs@) > be_val(rhs@)),
{
    let li = skip_leading_zeros(lhs);
    let ri = skip_leading_zeros(rhs);
    let ghost a = lhs@.subrange(li as int, lhs@.len() as int);
    let ghost b = rhs@.subrange(ri as int, rhs@.len() as int);
    proof {
        lemma_be_val_leading_zeros(lhs@, li as int);
        lemma_be_val_leading_zeros(rhs@, ri as int);
        lemma_be_val_bound(a);
        lemma_be_val_bound(b);
        if a.len() > 0 {
            lemma_be_val_lower(a);
        }
        if b.len() > 0 {
            lemma_be_val_lower(b);
        }
    }
    let la = lhs.len() - li;
    let lb = rhs.len() - ri;
    if la < lb {
        proof {
            lemma_base_pow_le::<u8>(a.len(), (b.len() - 1) as nat);
        }
        return Ordering::Less;
    }
    if la > lb {
        proof {
            lemma_base_pow_le::<u8>(b.len(), (a.len() - 1) as nat);
        }
        return Ordering::Greater;
    }
    let mut t: usize = 0;
    while t < la
        invariant
            la == lb,
            la == a.len(),
            lb == b.len(),
            li + la == lhs.len(),
            ri + lb == rhs.len(),
            be_val(lhs@) == be_val(a),
            be_val(rhs@) == be_val(b),
            a == lhs@.subrange(li as int, lhs@.len() as int),
            b == rhs@.subrange(ri as int, rhs@.len() as int),
            t <= la,
            forall|i: int| 0 <= i < t ==> a[i] == b[i],
        decreases la - t,
    {
        let x = lhs[li + t];
        let y = rhs[ri + t];
        if x < y {
            proof {
                lemma_be_val_lex(a, b, t as int);
            }
            return Ordering::Less;
        }
        if x > y {
            proof {
                lemma_be_val_lex(b, a, t as int);
            }
            return Ordering::Greater;
        }
        t = t + 1;
    }
    assert(a =~= b);
    Ordering::Equal
}

} // verus!

verus! {

/// Adds the digit `x` at big-endian position `pos` of `res` and carries
/// toward the most significant end. Returns `true` when a carry is left over
/// past index 0.
fn add_at_index<D: UnsignedNumDigit>(res: &mut [D], pos: usize, x: D) -> (r: bool)
    requires
        pos < old(res)@.len(),
    ensures
        final(res)@.len() == old(res)@.len(),
        be_val(final(res)@) + (if r { base_pow::<D>(old(res)@.len()) } else { 0 }) == be_val(
            old(res)@,
        ) + x.val() * base_pow::<D>((old(res)@.len() - 1 - pos) as nat),
{
    let n = res.len();
    let ghost old_res = res@;
    let ghost w = base_pow::<D>((n - 1 - pos) as nat);
    let l = res[pos];
    let (s, o) = l.overflowing_add(x);
    proof {
        lemma_be_val_update(res@, pos as int, s);
        let b = D::base();
        assert((s.val() - l.val()) * w + (if o { b * w } else { 0 }) == x.val() * w)
            by (nonlinear_arith)
            requires
                s.val() + (if o { b } else { 0 }) == l.val() + x.val(),
        ;
    }
    res[pos] = s;
    let mut carry = o;
    let mut i = pos;
    while carry && i > 0
        invariant
            n == res@.len(),
            n == old_res.len(),
            i <= pos < n,
            be_val(res@) + (if carry { base_pow::<D>((n - i) as nat) } else { 0 }) == be_val(
                old_res,
            ) + x.val() * w,
        decreases i,
    {
        i = i - 1;
        let l = res[i];
        let (s, o) = l.overflowing_add(D::one());
        proof {
            lemma_be_val_update(res@, i as int, s);
            let p = base_pow::<D>((n - 1 - i) as nat);
            let b = D::base();
            assert((s.val() - l.val()) * p + (if o { b * p } else { 0 }) == p) by (nonlinear_arith)
                requires
                    s.val() + (if o { b } else { 0 }) == l.val() + 1,
            ;
        }
        res[i] = s;
        carry = o;
    }
    carry
}

/// Multiplies the big-endian number `a` by the digit `b` and adds the product
/// into `res`, aligned at the least significant ends; the result is truncated
/// to the length of `res`.
///
/// Returns `true` when the exact result fits `res`, `false` otherwise.
pub fn multiply_accumulate_digit<D: UnsignedNumDigit>(res: &mut [D], a: &[D], b: D) -> (r: bool)
    ensures
        final(res)@.len() == old(res)@.len(),
        be_val(final(res)@) == (be_val(old(res)@) + be_val(a@) * b.val()) % base_pow::<D>(
            old(res)@.len(),
        ),
        r == (be_val(old(res)@) + be_val(a@) * b.val() < base_pow::<D>(old(res)@.len())),
{
    let n = res.len();
    let an = a.len();
    let ghost old_res = res@;
    let ghost m = base_pow::<D>(n as nat) as int;
    let ghost mut over: int = 0;
    proof {
        assert(over * m == 0);
        lemma_base_pow_pos::<D>(n as nat);
        D::lemma_base();
    }
    let mut fits = true;
    let mut k: usize = 0;
    assert(a@.subrange(an - k, an as int).len() == 0);
    assert(be_val(a@.subrange(an - k, an as int)) == 0);
    assert(be_val(a@.subrange(an - k, an as int)) * b.val() == 0);
    while k < an && k < n
        invariant
            n == res@.len(),
            n == old_res.len(),
            an == a@.len(),
            k <= an,
            k <= n,
            m == base_pow::<D>(n as nat),
            D::base() > 1,
            over >= 0,
            be_val(res@) + over * m == be_val(old_res) + be_val(a@.subrange(an - k, an as int))
                * b.val(),
            fits == (over == 0),
        decreases n - k,
    {
        let i = n - 1 - k;
        let ai = an - 1 - k;
        let ghost rest = be_val(a@.subrange(an - k, an as int)) as int;
        let ghost r0 = be_val(res@) as int;
        let (hi, lo) = a[ai].mul_to_parts(b);
        let ghost w = base_pow::<D>(k as nat) as int;
        let c1 = add_at_index(res, i, lo);
        let ghost r1 = be_val(res@) as int;
        let mut c2 = false;
        if i >= 1 {
            c2 = add_at_index(res, i - 1, hi);
        }
        proof {
            lemma_be_val_suffix(a@, ai as int);
            let bb = D::base() as int;
            let x = a@[ai as int].val() as int;
            let y = b.val() as int;
            let h = hi.val() as int;
            let rest2 = be_val(a@.subrange(an - k - 1, an as int)) as int;
            assert(rest2 * y == rest * y + lo.val() * w + h * (bb * w)) by (nonlinear_arith)
                requires
                    rest2 == x * w + rest,
                    h * bb + lo.val() == x * y,
            ;
            assert(base_pow::<D>((n - 1 - i) as nat) == w);
            assert(base_pow::<D>((k + 1) as nat) == bb * w);
            let e1: int = if c1 { 1 } else { 0 };
            assert(r0 + over * m == be_val(old_res) + rest * y);
            assert(e1 * m == (if c1 { m } else { 0 })) by (nonlinear_arith)
                requires
                    e1 == (if c1 { 1int } else { 0 }),
            ;
            assert(r1 + e1 * m == r0 + lo.val() * w);
            if i == 0 {
                assert(bb * w == m);
                assert((over + e1 + h) * m == over * m + e1 * m + h * m) by (nonlinear_arith);
                over = over + e1 + h;
                assert(be_val(res@) == r1);
                assert(h * m == h * (bb * w));
                assert(be_val(res@) + over * m == be_val(old_res) + rest2 * y);
            } else {
                assert(base_pow::<D>((n - 1 - (i - 1)) as nat) == bb * w);
                let e2: int = if c2 { 1 } else { 0 };
                assert((over + e1 + e2) * m == over * m + e1 * m + e2 * m) by (nonlinear_arith);
                over = over + e1 + e2;
                assert(e2 * m == (if c2 { m } else { 0 })) by (nonlinear_arith)
                requires
                    e2 == (if c2 { 1int } else { 0 }),
            ;
                assert(h * base_pow::<D>((n - 1 - (i - 1)) as nat) == h * (bb * w));
                assert(be_val(res@) + e2 * m == r1 + h * (bb * w));
                assert(be_val(res@) + over * m == be_val(old_res) + rest2 * y);
            }
        }
        fits = fits && !c1 && !c2 && !(i == 0 && !hi.is_zero());
        k = k + 1;
    }
    while k < an
        invariant
            n == res@.len(),
            n == old_res.len(),
            an == a@.len(),
            k <= an,
            n <= k || k == an,
            m == base_pow::<D>(n as nat),
            over >= 0,
            be_val(res@) + over * m == be_val(old_res) + be_val(a@.subrange(an - k, an as int))
                * b.val(),
            fits == (over == 0),
        decreases an - k,
    {
        let ai = an - 1 - k;
        let ghost rest = be_val(a@.subrange(an - k, an as int)) as int;
        let x = a[ai];
        proof {
            lemma_be_val_suffix(a@, ai as int);
            lemma_base_pow_add::<D>((k - n) as nat, n as nat);
            lemma_base_pow_pos::<D>((k - n) as nat);
            let v = x.val() as int;
            let y = b.val() as int;
            let e = base_pow::<D>((k - n) as nat) as int;
            let rest2 = be_val(a@.subrange(an - k - 1, an as int)) as int;
            assert(rest2 * y == rest * y + (v * y * e) * m) by (nonlinear_arith)
                requires
                    rest2 == v * (e * m) + rest,
            ;
            assert((v * y * e == 0) == (v == 0 || y == 0)) by (nonlinear_arith)
                requires
                    e > 0, v >= 0, y >= 0,
            ;
            assert(v * y * e >= 0) by (nonlinear_arith)
                requires
                    e > 0, v >= 0, y >= 0,
            ;
            assert((over + v * y * e) * m == over * m + (v * y * e) * m) by (nonlinear_arith);
            over = over + v * y * e;
        }
        if !x.is_zero() && !b.is_zero() {
            fits = false;
        }
        k = k + 1;
    }
    proof {
        assert(a@.subrange(0, an as int) =~= a@);
        lemma_be_val_bound(res@);
        vstd::arithmetic::div_mod::lemma_fundamental_div_mod_converse(
            (be_val(old_res) + be_val(a@) * b.val()) as int,
            m,
            over,
            be_val(res@) as int,
        );
        if over > 0 {
            assert(over * m >= m) by (nonlinear_arith)
                requires
                    over >= 1,
                    m > 0,
            ;
        }
    }
    fits
}

} // verus!
