use vstd::prelude::*;
use crate::digit::UnsignedNumDigit;
use vstd::arithmetic::power2::pow2;

verus! {

/// `base^k` for the digit type `D`.
pub open spec fn base_pow<D: UnsignedNumDigit>(k: nat) -> nat
    decreases k,
{
    if k == 0 {
        1
    } else {
        D::base() * base_pow::<D>((k - 1) as nat)
    }
}

/// Value of a little-endian digit sequence: index 0 is least significant.
pub open spec fn le_val<D: UnsignedNumDigit>(s: Seq<D>) -> nat
    decreases s.len(),
{
    if s.len() == 0 {
        0
    } else {
        le_val(s.drop_last()) + s.last().val() * base_pow::<D>((s.len() - 1) as nat)
    }
}

/// Value of a big-endian digit sequence: index 0 is most significant.
pub open spec fn be_val<D: UnsignedNumDigit>(s: Seq<D>) -> nat
    decreases s.len(),
{
    if s.len() == 0 {
        0
    } else {
        s[0].val() * base_pow::<D>((s.len() - 1) as nat) + be_val(s.subrange(1, s.len() as int))
    }
}

pub proof fn lemma_base_pow_pos<D: UnsignedNumDigit>(k: nat)
    ensures
        base_pow::<D>(k) > 0,
    decreases k,
{
    D::lemma_base();
    if k > 0 {
        lemma_base_pow_pos::<D>((k - 1) as nat);
        vstd::arithmetic::mul::lemma_mul_strictly_positive(
            D::base() as int,
            base_pow::<D>((k - 1) as nat) as int,
        );
    }
}

pub proof fn lemma_base_pow_le<D: UnsignedNumDigit>(a: nat, b: nat)
    requires
        a <= b,
    ensures
        base_pow::<D>(a) <= base_pow::<D>(b),
    decreases b,
{
    D::lemma_base();
    if a < b {
        lemma_base_pow_le::<D>(a, (b - 1) as nat);
        lemma_base_pow_pos::<D>((b - 1) as nat);
        let p = base_pow::<D>((b - 1) as nat);
        assert(p <= D::base() * p) by (nonlinear_arith)
            requires
                D::base() > 1,
        ;
    }
}

/// A digit times `base^k` plus anything below `base^k` stays below `base^(k+1)`.
proof fn lemma_digit_place_bound<D: UnsignedNumDigit>(d: D, k: nat, rest: nat)
    requires
        rest < base_pow::<D>(k),
    ensures
        d.val() * base_pow::<D>(k) + rest < base_pow::<D>(k + 1),
{
    D::lemma_base();
    d.lemma_val_bounds();
    let p = base_pow::<D>(k);
    let v = d.val();
    assert(v * p + rest < D::base() * p) by (nonlinear_arith)
        requires
            v + 1 <= D::base(),
            rest < p,
    ;
}

pub proof fn lemma_le_val_bound<D: UnsignedNumDigit>(s: Seq<D>)
    ensures
        le_val(s) < base_pow::<D>(s.len()),
    decreases s.len(),
{
    if s.len() > 0 {
        lemma_le_val_bound(s.drop_last());
        lemma_digit_place_bound::<D>(s.last(), (s.len() - 1) as nat, le_val(s.drop_last()));
    }
}

pub proof fn lemma_be_val_bound<D: UnsignedNumDigit>(s: Seq<D>)
    ensures
        be_val(s) < base_pow::<D>(s.len()),
    decreases s.len(),
{
    if s.len() > 0 {
        lemma_be_val_bound(s.subrange(1, s.len() as int));
        lemma_digit_place_bound::<D>(
            s[0],
            (s.len() - 1) as nat,
            be_val(s.subrange(1, s.len() as int)),
        );
    }
}

/// Replacing the digit at little-endian position `i` changes the value by
/// the difference of the two digits times `base^i`.
pub proof fn lemma_le_val_update<D: UnsignedNumDigit>(s: Seq<D>, i: int, x: D)
    requires
        0 <= i < s.len(),
    ensures
        le_val(s.update(i, x)) == le_val(s) + (x.val() - s[i].val()) * base_pow::<D>(i as nat),
    decreases s.len(),
{
    let t = s.update(i, x);
    if i == s.len() - 1 {
        assert(t.drop_last() =~= s.drop_last());
        assert(le_val(t) == le_val(s) + (x.val() - s[i].val()) * base_pow::<D>(i as nat))
            by (nonlinear_arith)
            requires
                le_val(t) == le_val(s.drop_last()) + x.val() * base_pow::<D>(i as nat),
                le_val(s) == le_val(s.drop_last()) + s[i].val() * base_pow::<D>(i as nat),
        ;
    } else {
        assert(t.drop_last() =~= s.drop_last().update(i, x));
        lemma_le_val_update(s.drop_last(), i, x);
    }
}

/// Replacing the digit at big-endian position `i` changes the value by
/// the difference of the two digits times `base^(len - 1 - i)`.
pub proof fn lemma_be_val_update<D: UnsignedNumDigit>(s: Seq<D>, i: int, x: D)
    requires
        0 <= i < s.len(),
    ensures
        be_val(s.update(i, x)) == be_val(s) + (x.val() - s[i].val()) * base_pow::<D>(
            (s.len() - 1 - i) as nat,
        ),
    decreases s.len(),
{
    let t = s.update(i, x);
    let n = s.len() as int;
    if i == 0 {
        assert(t.subrange(1, n) =~= s.subrange(1, n));
        let p = base_pow::<D>((n - 1) as nat);
        assert(x.val() * p == s[0].val() * p + (x.val() - s[0].val()) * p) by (nonlinear_arith);
    } else {
        assert(t.subrange(1, n) =~= s.subrange(1, n).update(i - 1, x));
        lemma_be_val_update(s.subrange(1, n), i - 1, x);
    }
}

/// The suffix starting at big-endian position `i` splits into its first
/// digit and the suffix after it.
pub proof fn lemma_be_val_suffix<D: UnsignedNumDigit>(s: Seq<D>, i: int)
    requires
        0 <= i < s.len(),
    ensures
        be_val(s.subrange(i, s.len() as int)) == s[i].val() * base_pow::<D>(
            (s.len() - 1 - i) as nat,
        ) + be_val(s.subrange(i + 1, s.len() as int)),
{
    let t = s.subrange(i, s.len() as int);
    assert(t.subrange(1, t.len() as int) =~= s.subrange(i + 1, s.len() as int));
}

/// The prefix of length `i + 1` of a little-endian sequence is the prefix of
/// length `i` plus the digit at `i` in its place.
pub proof fn lemma_le_val_prefix<D: UnsignedNumDigit>(s: Seq<D>, i: int)
    requires
        0 <= i < s.len(),
    ensures
        le_val(s.take(i + 1)) == le_val(s.take(i)) + s[i].val() * base_pow::<D>(i as nat),
{
    assert(s.take(i + 1).drop_last() =~= s.take(i));
}

/// Leading (most significant) zero digits do not change a big-endian value.
pub proof fn lemma_be_val_leading_zeros<D: UnsignedNumDigit>(s: Seq<D>, k: int)
    requires
        0 <= k <= s.len(),
        forall|i: int| 0 <= i < k ==> (#[trigger] s[i]).val() == 0,
    ensures
        be_val(s) == be_val(s.subrange(k, s.len() as int)),
    decreases k,
{
    let n = s.len() as int;
    if k == 0 {
        assert(s.subrange(0, n) =~= s);
    } else {
        let t = s.subrange(1, n);
        assert(s[0].val() == 0);
        assert forall|i: int| 0 <= i < k - 1 implies (#[trigger] t[i]).val() == 0 by {
            assert(t[i] == s[i + 1]);
        }
        lemma_be_val_leading_zeros(t, k - 1);
        assert(t.subrange(k - 1, t.len() as int) =~= s.subrange(k, n));
    }
}

/// A big-endian sequence whose most significant digit is not zero is at
/// least `base^(len - 1)`.
pub proof fn lemma_be_val_lower<D: UnsignedNumDigit>(s: Seq<D>)
    requires
        s.len() > 0,
        s[0].val() != 0,
    ensures
        be_val(s) >= base_pow::<D>((s.len() - 1) as nat),
{
    let p = base_pow::<D>((s.len() - 1) as nat);
    let v = s[0].val();
    assert(v * p >= p) by (nonlinear_arith)
        requires
            v >= 1,
    ;
}

/// Two big-endian sequences of one length that agree before position `j`
/// and differ at `j` compare as their digits at `j` do.
pub proof fn lemma_be_val_lex<D: UnsignedNumDigit>(a: Seq<D>, b: Seq<D>, j: int)
    requires
        a.len() == b.len(),
        0 <= j < a.len(),
        forall|i: int| 0 <= i < j ==> a[i] == b[i],
        a[j].val() < b[j].val(),
    ensures
        be_val(a) < be_val(b),
    decreases j,
{
    let n = a.len() as int;
    if j == 0 {
        let p = base_pow::<D>((n - 1) as nat);
        lemma_be_val_bound(a.subrange(1, n));
        let x = a[0].val();
        let y = b[0].val();
        let ra = be_val(a.subrange(1, n));
        let rb = be_val(b.subrange(1, n));
        assert(x * p + ra < y * p + rb) by (nonlinear_arith)
            requires
                x + 1 <= y,
                ra < p,
        ;
    } else {
        lemma_be_val_lex(a.subrange(1, n), b.subrange(1, n), j - 1);
    }
}

pub proof fn lemma_base_pow_add<D: UnsignedNumDigit>(a: nat, b: nat)
    ensures
        base_pow::<D>(a + b) == base_pow::<D>(a) * base_pow::<D>(b),
    decreases a,
{
    if a == 0 {
        assert(base_pow::<D>(0) == 1);
        assert(a + b == b);
    } else {
        lemma_base_pow_add::<D>((a - 1) as nat, b);
        assert(((a + b) - 1) as nat == ((a - 1) as nat + b) as nat);
        assert(base_pow::<D>(a) == D::base() * base_pow::<D>((a - 1) as nat));
        assert(base_pow::<D>(a + b) == D::base() * base_pow::<D>(((a - 1) as nat + b) as nat));
        let x = base_pow::<D>((a - 1) as nat);
        let y = base_pow::<D>(b);
        let z = base_pow::<D>(((a - 1) as nat + b) as nat);
        assert(D::base() * z == (D::base() * x) * y) by (nonlinear_arith)
            requires
                z == x * y,
        ;
    }
}

/// Zero digits added at the most significant end of a little-endian
/// sequence do not change its value.
pub proof fn lemma_le_val_zero_extend<D: UnsignedNumDigit>(s: Seq<D>, t: Seq<D>)
    requires
        t.len() >= s.len(),
        forall|i: int| 0 <= i < s.len() ==> t[i] == s[i],
        forall|i: int| s.len() <= i < t.len() ==> (#[trigger] t[i]).val() == 0,
    ensures
        le_val(t) == le_val(s),
    decreases t.len(),
{
    if t.len() == s.len() {
        assert(t =~= s);
    } else {
        lemma_le_val_zero_extend(s, t.drop_last());
        assert(t.last().val() == 0);
    }
}

/// Number of digits of a little-endian sequence up to and including its
/// most significant non-zero digit.
pub open spec fn significant_len<D: UnsignedNumDigit>(s: Seq<D>) -> nat
    decreases s.len(),
{
    if s.len() == 0 {
        0
    } else if s.last().val() == 0 {
        significant_len(s.drop_last())
    } else {
        s.len()
    }
}

/// A little-endian value splits at position `j` into its low part and its
/// high part times `base^j`.
pub proof fn lemma_le_val_split<D: UnsignedNumDigit>(s: Seq<D>, j: int)
    requires
        0 <= j <= s.len(),
    ensures
        le_val(s) == le_val(s.take(j)) + base_pow::<D>(j as nat) * le_val(s.skip(j)),
    decreases s.len(),
{
    let n = s.len() as int;
    if n == j {
        assert(s.take(j) =~= s);
        assert(s.skip(j).len() == 0);
        assert(le_val(s.skip(j)) == 0);
        assert(base_pow::<D>(j as nat) * 0 == 0);
    } else {
        let dl = s.drop_last();
        lemma_le_val_split(dl, j);
        assert(dl.take(j) =~= s.take(j));
        assert(dl.skip(j) =~= s.skip(j).drop_last());
        assert(s.skip(j).last() == s.last());
        lemma_base_pow_add::<D>(j as nat, (n - 1 - j) as nat);
        let a = base_pow::<D>(j as nat) as int;
        let b = base_pow::<D>((n - 1 - j) as nat) as int;
        let x = le_val(dl.skip(j)) as int;
        let l = s.last().val() as int;
        assert(a * (x + l * b) == a * x + l * (a * b)) by (nonlinear_arith);
    }
}

/// A little-endian sequence moved up by `k` positions, with zero digits
/// below, has `base^k` times the value.
pub proof fn lemma_le_val_shifted<D: UnsignedNumDigit>(t: Seq<D>, u: Seq<D>, k: nat)
    requires
        u.len() == t.len() + k,
        forall|j: int| 0 <= j < k ==> (#[trigger] u[j]).val() == 0,
        forall|j: int| k <= j < u.len() ==> #[trigger] u[j] == t[j - k],
    ensures
        le_val(u) == base_pow::<D>(k) * le_val(t),
    decreases t.len(),
{
    if t.len() == 0 {
        lemma_le_val_zero_extend(Seq::<D>::empty(), u);
        assert(le_val(Seq::<D>::empty()) == 0);
        assert(base_pow::<D>(k) * 0 == 0);
    } else {
        let n = t.len() as int;
        lemma_le_val_shifted(t.drop_last(), u.drop_last(), k);
        assert(u.last() == t.last());
        lemma_base_pow_add::<D>(k, (n - 1) as nat);
        assert((u.len() - 1) as nat == (k + (n - 1)) as nat);
        let a = base_pow::<D>(k) as int;
        let b = base_pow::<D>((n - 1) as nat) as int;
        let x = le_val(t.drop_last()) as int;
        let l = t.last().val() as int;
        assert(a * (x + l * b) == a * x + l * (a * b)) by (nonlinear_arith);
    }
}

/// A non-empty little-endian value is its lowest digit plus `base` times
/// the value of the digits above it.
pub proof fn lemma_le_val_head<D: UnsignedNumDigit>(s: Seq<D>)
    requires
        s.len() > 0,
    ensures
        le_val(s) == s[0].val() + D::base() * le_val(s.skip(1)),
{
    lemma_le_val_split(s, 1);
    assert(s.take(1).drop_last() =~= Seq::<D>::empty());
    assert(le_val(Seq::<D>::empty()) == 0);
    assert(base_pow::<D>(0) == 1);
    assert(base_pow::<D>(1) == D::base() * base_pow::<D>(0));
    assert(s.take(1).last() == s[0]);
    assert(le_val(s.take(1)) == le_val(s.take(1).drop_last()) + s[0].val() * base_pow::<D>(0));
    let x = s[0].val();
    let one = base_pow::<D>(0);
    assert(x * one == x) by (nonlinear_arith)
        requires
            one == 1,
    ;
    assert(base_pow::<D>(1) == D::base());
}

/// `base^k` is `2^(bits * k)`.
pub proof fn lemma_base_pow_is_pow2<D: UnsignedNumDigit>(k: nat)
    ensures
        base_pow::<D>(k) == pow2(D::bits() * k),
    decreases k,
{
    D::lemma_base();
    if k == 0 {
        assert(D::bits() * 0 == 0);
        vstd::arithmetic::power2::lemma_pow2(0);
        vstd::arithmetic::power::lemma_pow0(2);
    } else {
        lemma_base_pow_is_pow2::<D>((k - 1) as nat);
        assert(D::bits() * k == D::bits() + D::bits() * (k - 1) as nat) by (nonlinear_arith)
            requires
                k >= 1,
        ;
        vstd::arithmetic::power2::lemma_pow2_adds(D::bits(), D::bits() * (k - 1) as nat);
    }
}

/// `(v + m) % m == v` and `v % m == v` for `v < m`.
pub proof fn lemma_mod_once(v: int, m: int)
    requires
        0 <= v < m,
    ensures
        v % m == v,
        (v + m) % m == v,
        (v - m) % m == v,
{
    vstd::arithmetic::div_mod::lemma_small_mod(v as nat, m as nat);
    vstd::arithmetic::div_mod::lemma_mod_add_multiples_vanish(v, m);
    vstd::arithmetic::div_mod::lemma_mod_sub_multiples_vanish(v, m);
}

} // verus!
