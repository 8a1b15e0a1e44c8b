//! Rounding.

use vstd::prelude::*;

verus! {

/// `value` rounded up to a multiple of `align`.
#[verifier::opaque]
pub open spec fn rounded_up(value: int, align: int) -> int {
    (value + align - 1) / align * align
}

/// `value` rounded down to a multiple of `align`.
#[verifier::opaque]
pub open spec fn rounded_down(value: int, align: int) -> int {
    value / align * align
}

/// Rounding up gives a multiple of `align` less than `align` above `value`.
pub proof fn law_rounded_up(value: int, align: int)
    requires
        align > 0,
    ensures
        rounded_up(value, align) % align == 0,
        value <= rounded_up(value, align) < value + align,
        value % align == 0 ==> rounded_up(value, align) == value,
{
    reveal(rounded_up);
    let q = (value + align - 1) / align;
    vstd::arithmetic::div_mod::lemma_fundamental_div_mod(value + align - 1, align);
    vstd::arithmetic::div_mod::lemma_mod_bound(value + align - 1, align);
    assert(q * align == align * q) by (nonlinear_arith);
    vstd::arithmetic::div_mod::lemma_mod_multiples_basic(q, align);
    if value % align == 0 {
        law_rounded_up_least(value, align, value);
    }
}

/// No multiple of `align` lies between `value` and what it is rounded up to.
pub proof fn law_rounded_up_least(value: int, align: int, m: int)
    requires
        align > 0,
        m % align == 0,
        m >= value,
    ensures
        rounded_up(value, align) <= m,
{
    reveal(rounded_up);
    let q = (value + align - 1) / align;
    let t = m / align;
    vstd::arithmetic::div_mod::lemma_fundamental_div_mod(value + align - 1, align);
    vstd::arithmetic::div_mod::lemma_mod_bound(value + align - 1, align);
    vstd::arithmetic::div_mod::lemma_fundamental_div_mod(m, align);
    if q > t {
        assert(align * q >= align * t + align) by (nonlinear_arith)
            requires
                q >= t + 1,
                align > 0,
        ;
        let r = (value + align - 1) % align;
        assert(r >= 0);
    }
    assert(q * align <= t * align) by (nonlinear_arith)
        requires
            q <= t,
            align > 0,
    ;
    assert(t * align == align * t) by (nonlinear_arith);
}

/// Rounding down gives the greatest multiple of `align` that is not above
/// `value`.
pub proof fn law_rounded_down(value: int, align: int)
    requires
        align > 0,
    ensures
        rounded_down(value, align) % align == 0,
        value - align < rounded_down(value, align) <= value,
{
    reveal(rounded_down);
    let q = value / align;
    vstd::arithmetic::div_mod::lemma_fundamental_div_mod(value, align);
    vstd::arithmetic::div_mod::lemma_mod_bound(value, align);
    assert(q * align == align * q) by (nonlinear_arith);
    vstd::arithmetic::div_mod::lemma_mod_multiples_basic(q, align);
}

/// `value` rounded up to a multiple of `align`.
pub fn align_up(value: u64, align: u64) -> (r: u64)
    requires
        align > 0,
        value + align - 1 <= u64::MAX,
    ensures
        r == rounded_up(value as int, align as int),
{
    proof {
        reveal(rounded_down);
    }
    proof {
        reveal(rounded_up);
    }
    let sum: u64 = value + (align - 1);
    proof {
        law_rounded_down(sum as int, align as int);
    }
    sum / align * align
}

/// `value` rounded up to a multiple of `align`, where that fits in 64 bits.
pub fn checked_align_up(value: u64, align: u64) -> (r: Option<u64>)
    requires
        align > 0,
    ensures
        r is None <==> rounded_up(value as int, align as int) > u64::MAX,
        r matches Some(v) ==> v == rounded_up(value as int, align as int),
{
    let over: u64 = value % align;
    proof {
        let v = value as int;
        let a = align as int;
        law_rounded_up(v, a);
        vstd::arithmetic::div_mod::lemma_fundamental_div_mod(v, a);
        vstd::arithmetic::div_mod::lemma_fundamental_div_mod(rounded_up(v, a), a);
        let q = v / a;
        let t = rounded_up(v, a) / a;
        if over != 0 {
            assert(t == q + 1) by (nonlinear_arith)
                requires
                    a > 0,
                    v == a * q + over,
                    0 < over < a,
                    v <= a * t < v + a,
            ;
            assert(a * (q + 1) == a * q + a) by (nonlinear_arith);
        }
    }
    if over == 0 {
        Some(value)
    } else {
        value.checked_add(align - over)
    }
}

/// `value` rounded down to a multiple of `align`.
pub fn round_down(value: u64, align: u64) -> (r: u64)
    requires
        align > 0,
    ensures
        r == rounded_down(value as int, align as int),
{
    proof {
        reveal(rounded_down);
    }
    proof {
        law_rounded_down(value as int, align as int);
    }
    value / align * align
}

/// `a / b`, rounded up.
pub fn ceil_div(a: u64, b: u64) -> (r: u64)
    requires
        b > 0,
        a + b - 1 <= u64::MAX,
    ensures
        r == (a + b - 1) / b as int,
        r * b >= a,
        a > 0 ==> (r - 1) * b < a,
{
    proof {
        let s = a + b - 1;
        let q = s / b as int;
        vstd::arithmetic::div_mod::lemma_fundamental_div_mod(s, b as int);
        vstd::arithmetic::div_mod::lemma_mod_bound(s, b as int);
        assert(q * b == b * q && (q - 1) * b == b * q - b) by (nonlinear_arith);
    }
    (a + (b - 1)) / b
}

} // verus!
