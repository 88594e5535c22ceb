//! Whole powers of real numbers, and the order laws that the lookup-table
//! generators rest on.
use vstd::prelude::*;

verus! {

/// `x` multiplied with itself `n` times.
pub open spec fn rpow(x: real, n: nat) -> real
    decreases n,
{
    if n == 0 {
        1real
    } else {
        x * rpow(x, (n - 1) as nat)
    }
}

pub proof fn lemma_rpow_nonneg(x: real, n: nat)
    requires
        0real <= x,
    ensures
        0real <= rpow(x, n),
    decreases n,
{
    if n > 0 {
        let m = (n - 1) as nat;
        lemma_rpow_nonneg(x, m);
        let r = rpow(x, m);
        assert(0real <= x * r) by (nonlinear_arith)
            requires
                0real <= x,
                0real <= r,
        ;
    }
}

pub proof fn lemma_rpow_positive(x: real, n: nat)
    requires
        0real < x,
    ensures
        0real < rpow(x, n),
    decreases n,
{
    if n > 0 {
        let m = (n - 1) as nat;
        lemma_rpow_positive(x, m);
        let r = rpow(x, m);
        assert(0real < x * r) by (nonlinear_arith)
            requires
                0real < x,
                0real < r,
        ;
    }
}

pub proof fn lemma_rpow_base_one(n: nat)
    ensures
        rpow(1real, n) == 1real,
    decreases n,
{
    if n > 0 {
        lemma_rpow_base_one((n - 1) as nat);
    }
}

pub proof fn lemma_rpow_base_zero(n: nat)
    requires
        n > 0,
    ensures
        rpow(0real, n) == 0real,
{
    let r = rpow(0real, (n - 1) as nat);
    assert(0real * r == 0real) by (nonlinear_arith);
}

pub proof fn lemma_rpow_add(x: real, m: nat, n: nat)
    ensures
        rpow(x, m + n) == rpow(x, m) * rpow(x, n),
    decreases m,
{
    if m > 0 {
        let k = (m - 1) as nat;
        lemma_rpow_add(x, k, n);
        let a = rpow(x, k);
        let b = rpow(x, n);
        assert((m + n - 1) as nat == k + n);
        assert(x * (a * b) == (x * a) * b) by (nonlinear_arith);
    }
}

pub proof fn lemma_rpow_mul(x: real, y: real, n: nat)
    ensures
        rpow(x * y, n) == rpow(x, n) * rpow(y, n),
    decreases n,
{
    if n > 0 {
        let k = (n - 1) as nat;
        lemma_rpow_mul(x, y, k);
        let a = rpow(x, k);
        let b = rpow(y, k);
        assert((x * y) * (a * b) == (x * a) * (y * b)) by (nonlinear_arith);
    }
}

pub proof fn lemma_rpow_monotone(x: real, y: real, n: nat)
    requires
        0real <= x <= y,
    ensures
        rpow(x, n) <= rpow(y, n),
    decreases n,
{
    if n > 0 {
        let k = (n - 1) as nat;
        lemma_rpow_monotone(x, y, k);
        lemma_rpow_nonneg(x, k);
        let a = rpow(x, k);
        let b = rpow(y, k);
        assert(x * a <= y * b) by (nonlinear_arith)
            requires
                0real <= x <= y,
                0real <= a <= b,
        ;
    }
}

pub proof fn lemma_rpow_strict(x: real, y: real, n: nat)
    requires
        0real <= x < y,
        n > 0,
    ensures
        rpow(x, n) < rpow(y, n),
    decreases n,
{
    let k = (n - 1) as nat;
    lemma_rpow_monotone(x, y, k);
    lemma_rpow_nonneg(x, k);
    lemma_rpow_positive(y, k);
    let a = rpow(x, k);
    let b = rpow(y, k);
    assert(x * a < y * b) by (nonlinear_arith)
        requires
            0real <= x < y,
            0real <= a <= b,
            0real < b,
    ;
}

/// A power that does not exceed another power of the same exponent has a base
/// that does not exceed the other's base.
pub proof fn lemma_rpow_order(x: real, y: real, n: nat)
    requires
        0real <= x,
        0real <= y,
        n > 0,
        rpow(x, n) <= rpow(y, n),
    ensures
        x <= y,
{
    if y < x {
        lemma_rpow_strict(y, x, n);
    }
}

pub proof fn lemma_rpow_square(x: real)
    ensures
        rpow(x, 2) == x * x,
{
    reveal_with_fuel(rpow, 3);
}

pub proof fn lemma_rpow_double(x: real, n: nat)
    ensures
        rpow(x, 2 * n) == rpow(x * x, n),
        rpow(x, 2 * n) == rpow(x, n) * rpow(x, n),
{
    lemma_rpow_mul(x, x, n);
    lemma_rpow_add(x, n, n);
}

pub proof fn lemma_rpow_product(x: real, m: nat, n: nat)
    ensures
        rpow(x, m * n) == rpow(rpow(x, m), n),
    decreases n,
{
    if n > 0 {
        let k = (n - 1) as nat;
        lemma_rpow_product(x, m, k);
        assert(m * n == m + m * k) by (nonlinear_arith)
            requires
                n == k + 1,
        ;
        lemma_rpow_add(x, m, m * k);
    } else {
        assert(m * 0 == 0) by (nonlinear_arith);
    }
}

/// Powers of a base of at most one do not grow with the exponent.
pub proof fn lemma_rpow_at_most_one(x: real, n: nat)
    requires
        0real <= x <= 1real,
    ensures
        0real <= rpow(x, n) <= 1real,
{
    lemma_rpow_nonneg(x, n);
    lemma_rpow_monotone(x, 1real, n);
    lemma_rpow_base_one(n);
}

} // verus!
