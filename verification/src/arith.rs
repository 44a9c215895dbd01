use vstd::prelude::*;

verus! {

/// A quotient is at least `q` exactly when the dividend is at least `q`
/// times the divisor.
pub proof fn lemma_div_at_least(a: int, d: int, q: int)
    requires
        d > 0,
    ensures
        a / d >= q <==> a >= q * d,
{
    vstd::arithmetic::div_mod::lemma_fundamental_div_mod(a, d);
    vstd::arithmetic::div_mod::lemma_mod_bound(a, d);
    let x = a / d;
    assert(x >= q ==> x * d >= q * d) by (nonlinear_arith)
        requires
            d > 0,
    ;
    assert(x < q ==> x * d + d <= q * d) by (nonlinear_arith)
        requires
            d > 0,
    ;
    assert(d * x == x * d) by (nonlinear_arith);
}

/// A square is bounded by the square of a bound on its root.
pub proof fn lemma_square_bound(d: int, m: int)
    requires
        -m <= d <= m,
    ensures
        0 <= d * d <= m * m,
{
    assert(0 <= d * d <= m * m) by (nonlinear_arith)
        requires
            -m <= d <= m,
    ;
}

} // verus!
