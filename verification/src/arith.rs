//! Number theory for exact rationals: the greatest common divisor divides
//! its arguments and is divided by every common divisor, reduction to lowest
//! terms is unique, and exact addition on canonical forms does not depend on
//! the order in which amounts arrive.

use vstd::prelude::*;
use vstd::arithmetic::div_mod::{
    lemma_fundamental_div_mod, lemma_fundamental_div_mod_converse_div,
    lemma_fundamental_div_mod_converse_mod,
};
use crate::rational::{abs_nat, gcd, rat_add, rat_canon, rat_reduced, Rat};

verus! {

/// `d` divides `n` exactly.
pub open spec fn divides(d: int, n: int) -> bool {
    exists|k: int| n == #[trigger] (d * k)
}

/// The greatest common divisor divides both its arguments.
proof fn lemma_gcd_divides(a: nat, b: nat)
    ensures
        divides(gcd(a, b) as int, a as int),
        divides(gcd(a, b) as int, b as int),
    decreases b,
{
    if b == 0 {
        assert(a as int == gcd(a, b) as int * 1);
        assert(b as int == gcd(a, b) as int * 0);
    } else {
        lemma_gcd_divides(b, a % b);
        let g = gcd(b, a % b) as int;
        assert(gcd(a, b) == gcd(b, a % b));
        let k1 = choose|k: int| b as int == #[trigger] (g * k);
        let k2 = choose|k: int| (a % b) as int == #[trigger] (g * k);
        lemma_fundamental_div_mod(a as int, b as int);
        let q = a as int / b as int;
        assert(a as int == b as int * q + (a % b) as int);
        assert(a as int == g * (k1 * q + k2)) by (nonlinear_arith)
            requires
                a as int == b as int * q + (a % b) as int,
                b as int == g * k1,
                (a % b) as int == g * k2,
        ;
    }
}

/// Every common divisor of two numbers divides their greatest common
/// divisor.
proof fn lemma_gcd_greatest(a: nat, b: nat, c: int)
    requires
        divides(c, a as int),
        divides(c, b as int),
    ensures
        divides(c, gcd(a, b) as int),
    decreases b,
{
    if b == 0 {
        assert(gcd(a, b) == a);
    } else {
        let ka = choose|k: int| a as int == #[trigger] (c * k);
        let kb = choose|k: int| b as int == #[trigger] (c * k);
        lemma_fundamental_div_mod(a as int, b as int);
        let q = a as int / b as int;
        assert((a % b) as int == c * (ka - kb * q)) by (nonlinear_arith)
            requires
                a as int == b as int * q + (a % b) as int,
                a as int == c * ka,
                b as int == c * kb,
        ;
        lemma_gcd_greatest(b, a % b, c);
        assert(gcd(a, b) == gcd(b, a % b));
    }
}

/// The greatest common divisor distributes over a common factor.
proof fn lemma_gcd_mul(k: nat, a: nat, b: nat)
    ensures
        gcd(k * a, k * b) == k * gcd(a, b),
    decreases b,
{
    if b == 0 {
        assert(k * b == 0);
        assert(gcd(k * a, 0) == k * a);
        assert(gcd(a, 0) == a);
    } else if k == 0 {
        assert(k * a == 0 && k * b == 0);
        assert(gcd(0, 0) == 0);
    } else {
        lemma_fundamental_div_mod(a as int, b as int);
        let q = a as int / b as int;
        let r = (a % b) as int;
        assert(a as int == b as int * q + r);
        assert(0 <= r < b);
        assert(k * a == q * (k * b) + k * r && 0 <= k * r < k * b) by (nonlinear_arith)
            requires
                a as int == b as int * q + r,
                0 <= r < b as int,
                k >= 1,
        ;
        lemma_fundamental_div_mod_converse_mod((k * a) as int, (k * b) as int, q, (k * r) as int);
        assert(((k * a) % (k * b)) as int == k * r);
        assert(gcd(k * a, k * b) == gcd(k * b, (k * a) % (k * b)));
        lemma_gcd_mul(k, b, a % b);
        assert(gcd(k * b, k * ((a % b) as nat)) == k * gcd(b, a % b));
        assert(gcd(a, b) == gcd(b, a % b));
    }
}

/// Two fractions in lowest terms with the same value are the same pair:
/// reduction is canonical.
proof fn lemma_unique_reduced(n1: int, d1: int, n2: int, d2: int)
    requires
        d1 >= 1,
        d2 >= 1,
        gcd(abs_nat(n1), d1 as nat) == 1,
        gcd(abs_nat(n2), d2 as nat) == 1,
        n1 * d2 == n2 * d1,
    ensures
        n1 == n2,
        d1 == d2,
{
    if n1 == 0 {
        assert(n2 * d1 == 0);
        assert(n2 == 0) by (nonlinear_arith)
            requires
                n2 * d1 == 0,
                d1 >= 1,
        ;
        assert(abs_nat(0) == 0);
        assert(gcd(0, d1 as nat) == gcd(d1 as nat, 0nat % d1 as nat));
        assert(0nat % d1 as nat == 0) by (nonlinear_arith)
            requires
                d1 >= 1,
        ;
        assert(gcd(d1 as nat, 0) == d1 as nat);
        assert(gcd(0, d2 as nat) == gcd(d2 as nat, 0nat % d2 as nat));
        assert(gcd(d2 as nat, 0) == d2 as nat);
    } else {
        let a1 = abs_nat(n1);
        let a2 = abs_nat(n2);
        assert(a1 >= 1);
        assert(a1 as int * d2 == a2 as int * d1) by (nonlinear_arith)
            requires
                n1 * d2 == n2 * d1,
                d1 >= 1,
                d2 >= 1,
                n1 != 0,
                a1 == abs_nat(n1),
                a2 == abs_nat(n2),
                (n1 < 0 ==> a1 as int == -n1) && (n1 >= 0 ==> a1 as int == n1),
                (n2 < 0 ==> a2 as int == -n2) && (n2 >= 0 ==> a2 as int == n2),
        ;
        let d1n = d1 as nat;
        let d2n = d2 as nat;
        lemma_gcd_mul(d2n, a1, d1n);
        lemma_gcd_mul(d1n, a2, d2n);
        assert(gcd(d2n * a1, d2n * d1n) == d2n * gcd(a1, d1n));
        assert(gcd(d1n * a2, d1n * d2n) == d1n * gcd(a2, d2n));
        assert(d2n * a1 == d1n * a2) by (nonlinear_arith)
            requires
                a1 as int * d2 == a2 as int * d1,
                d1n == d1,
                d2n == d2,
        ;
        assert(d2n * d1n == d1n * d2n);
        assert(d2n * gcd(a1, d1n) == d2n * 1);
        assert(d1 == d2) by (nonlinear_arith)
            requires
                d2n * 1 == d1n * 1,
                d1n == d1,
                d2n == d2,
        ;
        assert(n1 == n2) by (nonlinear_arith)
            requires
                n1 * d2 == n2 * d1,
                d1 == d2,
                d1 >= 1,
        ;
    }
}

/// Reducing a fraction with a positive denominator yields a fraction in
/// lowest terms with the same value.
pub proof fn lemma_canon_reduced(n: int, d: int)
    requires
        d >= 1,
    ensures
        rat_reduced(rat_canon(n, d)),
        rat_canon(n, d).num * d == n * rat_canon(n, d).den,
{
    let an = abs_nat(n);
    let dn = d as nat;
    assert(abs_nat(d) == dn);
    let g = gcd(an, dn);
    lemma_gcd_divides(an, dn);
    let k1 = choose|k: int| an as int == #[trigger] (g as int * k);
    let k2 = choose|k: int| d == #[trigger] (g as int * k);
    assert(g >= 1) by (nonlinear_arith)
        requires
            d == g as int * k2,
            d >= 1,
            g >= 0,
    ;
    assert(k2 >= 1) by (nonlinear_arith)
        requires
            d == g as int * k2,
            d >= 1,
            g >= 1,
    ;
    assert(k1 >= 0) by (nonlinear_arith)
        requires
            an as int == g as int * k1,
            an >= 0,
            g >= 1,
    ;
    lemma_fundamental_div_mod_converse_div(d, g as int, k2, 0);
    assert(d / g as int == k2);
    let c = rat_canon(n, d);
    assert(c.den == k2);
    if n >= 0 {
        assert(an as int == n);
        lemma_fundamental_div_mod_converse_div(n, g as int, k1, 0);
        assert(c.num == k1);
    } else {
        assert(an as int == -n);
        assert(n == (-k1) * g as int + 0) by (nonlinear_arith)
            requires
                an as int == g as int * k1,
                an as int == -n,
        ;
        lemma_fundamental_div_mod_converse_div(n, g as int, -k1, 0);
        assert(c.num == -k1);
    }
    // the value is preserved
    assert(c.num * d == n * c.den) by (nonlinear_arith)
        requires
            d == g as int * k2,
            an as int == g as int * k1,
            c.den == k2,
            (n >= 0 ==> c.num == k1 && an as int == n) && (n < 0 ==> c.num == -k1 && an as int
                == -n),
    ;
    // the result is in lowest terms
    assert(abs_nat(c.num) == k1 as nat);
    let h = gcd(k1 as nat, k2 as nat);
    lemma_gcd_divides(k1 as nat, k2 as nat);
    let m1 = choose|m: int| k1 == #[trigger] (h as int * m);
    let m2 = choose|m: int| k2 == #[trigger] (h as int * m);
    assert(an as int == (g * h) as int * m1 && d == (g * h) as int * m2) by (nonlinear_arith)
        requires
            an as int == g as int * k1,
            d == g as int * k2,
            k1 == h as int * m1,
            k2 == h as int * m2,
    ;
    assert(divides((g * h) as int, an as int));
    assert(divides((g * h) as int, dn as int));
    lemma_gcd_greatest(an, dn, (g * h) as int);
    let t = choose|t: int| g as int == #[trigger] ((g * h) as int * t);
    assert(h == 1) by (nonlinear_arith)
        requires
            g as int == (g * h) as int * t,
            g >= 1,
            h >= 0,
    ;
    assert(rat_reduced(c));
}

/// Adding two reduced fractions gives a reduced fraction whose value is the
/// exact sum.
pub proof fn lemma_rat_add_value(a: Rat, b: Rat)
    requires
        rat_reduced(a),
        rat_reduced(b),
    ensures
        rat_reduced(rat_add(a, b)),
        rat_add(a, b).num * (a.den * b.den) == (a.num * b.den + b.num * a.den) * rat_add(
            a,
            b,
        ).den,
{
    assert(a.den * b.den >= 1) by (nonlinear_arith)
        requires
            a.den >= 1,
            b.den >= 1,
    ;
    lemma_canon_reduced(a.num * b.den + b.num * a.den, a.den * b.den);
}

/// Exact addition is commutative.
pub proof fn lemma_rat_add_comm(a: Rat, b: Rat)
    ensures
        rat_add(a, b) == rat_add(b, a),
{
    assert(a.num * b.den + b.num * a.den == b.num * a.den + a.num * b.den);
    assert(a.den * b.den == b.den * a.den) by (nonlinear_arith);
}

/// Adding two amounts to a running total gives the same result in either
/// order.
pub proof fn lemma_rat_add_swap(v: Rat, x: Rat, y: Rat)
    requires
        rat_reduced(v),
        rat_reduced(x),
        rat_reduced(y),
    ensures
        rat_add(rat_add(v, x), y) == rat_add(rat_add(v, y), x),
{
    let nn = v.num * (x.den * y.den) + x.num * (v.den * y.den) + y.num * (v.den * x.den);
    let dd = v.den * (x.den * y.den);
    assert(dd >= 1) by (nonlinear_arith)
        requires
            dd == v.den * (x.den * y.den),
            v.den >= 1,
            x.den >= 1,
            y.den >= 1,
    ;
    let lhs = rat_add(rat_add(v, x), y);
    lemma_add_chain_value(v, x, y);
    let rhs = rat_add(rat_add(v, y), x);
    lemma_add_chain_value(v, y, x);
    // the three-way numerator and denominator are symmetric in the last two
    assert(v.num * (y.den * x.den) + y.num * (v.den * x.den) + x.num * (v.den * y.den) == nn)
        by (nonlinear_arith)
        requires
            nn == v.num * (x.den * y.den) + x.num * (v.den * y.den) + y.num * (v.den * x.den),
    ;
    assert(v.den * (y.den * x.den) == dd) by (nonlinear_arith)
        requires
            dd == v.den * (x.den * y.den),
    ;
    assert(lhs.num * rhs.den == rhs.num * lhs.den) by (nonlinear_arith)
        requires
            lhs.num * dd == nn * lhs.den,
            rhs.num * dd == nn * rhs.den,
            dd >= 1,
    ;
    lemma_unique_reduced(lhs.num, lhs.den, rhs.num, rhs.den);
}

/// The value of `(a + b) + c`: the common-denominator sum of the three,
/// still in lowest terms.
#[verifier::rlimit(100)]
proof fn lemma_add_chain_value(a: Rat, b: Rat, c: Rat)
    requires
        rat_reduced(a),
        rat_reduced(b),
        rat_reduced(c),
    ensures
        rat_reduced(rat_add(rat_add(a, b), c)),
        rat_add(rat_add(a, b), c).num * (a.den * (b.den * c.den)) == (a.num * (b.den * c.den)
            + b.num * (a.den * c.den) + c.num * (a.den * b.den)) * rat_add(rat_add(a, b), c).den,
{
    let p = a.num * b.den + b.num * a.den;
    let q = a.den * b.den;
    let s = rat_add(a, b);
    lemma_rat_add_value(a, b);
    assert(s.num * q == p * s.den);
    let t = rat_add(s, c);
    lemma_rat_add_value(s, c);
    assert(t.num * (s.den * c.den) == (s.num * c.den + c.num * s.den) * t.den);
    let nn = a.num * (b.den * c.den) + b.num * (a.den * c.den) + c.num * (a.den * b.den);
    let dd = a.den * (b.den * c.den);
    // multiply the t identity through by q and fold in the s identity
    assert(t.num * (s.den * c.den) * q == (s.num * c.den + c.num * s.den) * t.den * q)
        by (nonlinear_arith)
        requires
            t.num * (s.den * c.den) == (s.num * c.den + c.num * s.den) * t.den,
    ;
    assert((s.num * c.den + c.num * s.den) * t.den * q == s.den * ((p * c.den + c.num * q)
        * t.den)) by (nonlinear_arith)
        requires
            s.num * q == p * s.den,
    ;
    assert(t.num * (s.den * c.den) * q == s.den * (t.num * (q * c.den))) by (nonlinear_arith);
    assert(t.num * (q * c.den) == (p * c.den + c.num * q) * t.den) by (nonlinear_arith)
        requires
            s.den >= 1,
            s.den * (t.num * (q * c.den)) == s.den * ((p * c.den + c.num * q) * t.den),
    ;
    // rewrite in terms of the three-way sum
    assert(p * c.den + c.num * q == nn) by (nonlinear_arith)
        requires
            p == a.num * b.den + b.num * a.den,
            q == a.den * b.den,
            nn == a.num * (b.den * c.den) + b.num * (a.den * c.den) + c.num * (a.den * b.den),
    ;
    assert(q * c.den == dd) by (nonlinear_arith)
        requires
            q == a.den * b.den,
            dd == a.den * (b.den * c.den),
    ;
}

} // verus!
