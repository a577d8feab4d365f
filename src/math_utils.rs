use vstd::prelude::*;

verus! {

/// Greatest common divisor, by Euclid's rule.
pub open spec fn gcd(a: nat, b: nat) -> nat
    decreases b,
{
    if b == 0 {
        a
    } else {
        gcd(b, a % b)
    }
}

/// The coefficients `(x, y)` that the extended Euclidean algorithm finds,
/// with `a * x + b * y == gcd(a, b)`.
pub open spec fn bezout(a: nat, b: nat) -> (int, int)
    decreases b,
{
    if b == 0 {
        (1, 0)
    } else {
        let (x, y) = bezout(b, a % b);
        (y, x - (a / b) as int * y)
    }
}

/// The magnitude of `x`.
pub open spec fn abs(x: int) -> int {
    if x < 0 {
        -x
    } else {
        x
    }
}

/// `x`, or one where `x` is zero: the bound on a Bezout coefficient.
pub open spec fn max1(x: nat) -> int {
    if x == 0 {
        1
    } else {
        x as int
    }
}

/// The Bezout coefficients satisfy Bezout's identity and are small.
pub proof fn lemma_bezout(a: nat, b: nat)
    ensures
        a * bezout(a, b).0 + b * bezout(a, b).1 == gcd(a, b),
        abs(bezout(a, b).0) <= max1(b),
        abs(bezout(a, b).1) <= max1(a),
        b == 0 ==> bezout(a, b) == (1int, 0int),
        gcd(a, b) <= a || gcd(a, b) <= b,
        a > 0 || b > 0 ==> gcd(a, b) > 0,
    decreases b,
{
    if b > 0 {
        let r = a % b;
        let q = a / b;
        lemma_bezout(b, r);
        let (x1, y1) = bezout(b, r);
        assert(bezout(a, b) == (y1, x1 - q * y1));
        vstd::arithmetic::div_mod::lemma_fundamental_div_mod(a as int, b as int);
        assert(0 <= r < b);
        assert(q >= 0) by (nonlinear_arith)
            requires
                a == b * q + r,
                0 <= r < b,
                a >= 0,
        ;
        assert(a * y1 + b * (x1 - q * y1) == b * x1 + r * y1) by (nonlinear_arith)
            requires
                a == b * q + r,
        ;
        if r == 0 {
            assert(y1 == 0 && x1 == 1);
            assert(q * y1 == 0) by (nonlinear_arith)
                requires
                    y1 == 0,
            ;
        } else if q == 0 {
            assert(a == r) by (nonlinear_arith)
                requires
                    a == b * q + r,
                    q == 0,
            ;
            assert(q * y1 == 0) by (nonlinear_arith)
                requires
                    q == 0,
            ;
        } else {
            assert(abs(q * y1) <= q * b) by (nonlinear_arith)
                requires
                    abs(y1) <= b,
                    q >= 1,
            ;
            assert(q * b + r == a) by (nonlinear_arith)
                requires
                    a == b * q + r,
            ;
        }
    }
}

/// Two numbers below `w * h` that agree modulo coprime `w` and `h` are equal.
pub proof fn lemma_crt_unique(w: nat, h: nat, a: int, b: int)
    requires
        w > 0,
        h > 0,
        gcd(w, h) == 1,
        0 <= a < w * h,
        0 <= b < w * h,
        a % (w as int) == b % (w as int),
        a % (h as int) == b % (h as int),
    ensures
        a == b,
{
    lemma_bezout(w, h);
    let (x, y) = bezout(w, h);
    let wi = w as int;
    let hi = h as int;
    vstd::arithmetic::div_mod::lemma_fundamental_div_mod(a, wi);
    vstd::arithmetic::div_mod::lemma_fundamental_div_mod(b, wi);
    vstd::arithmetic::div_mod::lemma_fundamental_div_mod(a, hi);
    vstd::arithmetic::div_mod::lemma_fundamental_div_mod(b, hi);
    let n = a / wi - b / wi;
    let m = a / hi - b / hi;
    let d = a - b;
    assert(d == wi * n) by (nonlinear_arith)
        requires
            a == wi * (a / wi) + a % wi,
            b == wi * (b / wi) + b % wi,
            a % wi == b % wi,
            d == a - b,
            n == a / wi - b / wi,
    ;
    assert(d == hi * m) by (nonlinear_arith)
        requires
            a == hi * (a / hi) + a % hi,
            b == hi * (b / hi) + b % hi,
            a % hi == b % hi,
            d == a - b,
            m == a / hi - b / hi,
    ;
    assert(d == d * (wi * x) + d * (hi * y)) by (nonlinear_arith)
        requires
            wi * x + hi * y == 1,
    ;
    assert(d * (wi * x) == wi * hi * (m * x)) by (nonlinear_arith)
        requires
            d == hi * m,
    ;
    assert(d * (hi * y) == wi * hi * (n * y)) by (nonlinear_arith)
        requires
            d == wi * n,
    ;
    assert(wi * hi * (m * x) + wi * hi * (n * y) == wi * hi * (m * x + n * y)) by (nonlinear_arith);
    assert(d == 0) by (nonlinear_arith)
        requires
            d == wi * hi * (m * x + n * y),
            -(wi * hi) < d < wi * hi,
            wi * hi > 0,
    ;
}

/// For coprime `w` and `h`, `w` divides `c * h` only where it divides `c`;
/// below `w` in magnitude, only where `c` is zero.
pub proof fn lemma_coprime_cancel(w: nat, h: nat, c: int, t: int)
    requires
        w > 0,
        gcd(w, h) == 1,
        c * (h as int) == (w as int) * t,
        -(w as int) < c < w as int,
    ensures
        c == 0,
{
    lemma_bezout(w, h);
    let (x, y) = bezout(w, h);
    let wi = w as int;
    let hi = h as int;
    assert(c == c * (wi * x) + c * (hi * y)) by (nonlinear_arith)
        requires
            wi * x + hi * y == 1,
    ;
    assert(c * (hi * y) == wi * (t * y)) by (nonlinear_arith)
        requires
            c * hi == wi * t,
    ;
    assert(c * (wi * x) + wi * (t * y) == wi * (c * x + t * y)) by (nonlinear_arith);
    assert(c == 0) by (nonlinear_arith)
        requires
            c == wi * (c * x + t * y),
            -wi < c < wi,
    ;
}

/// Computes `(g, x, y)` with `g` the greatest common divisor of `a` and `b`
/// and `a * x + b * y == g`.
pub fn extended_euclidean_algorithm(a: i128, b: i128) -> (r: (i128, i128, i128))
    requires
        a >= 0,
        b >= 0,
    ensures
        r.0 == gcd(a as nat, b as nat) as int,
        (r.1 as int, r.2 as int) == bezout(a as nat, b as nat),
        a * r.1 + b * r.2 == r.0,
    decreases b,
{
    proof {
        lemma_bezout(a as nat, b as nat);
    }
    if b == 0 {
        (a, 1, 0)
    } else {
        let (g, x, y) = extended_euclidean_algorithm(b, a % b);
        let q = a / b;
        proof {
            lemma_bezout(b as nat, (a % b) as nat);
            assert(q >= 0);
            assert(abs(q * y) <= q * b) by (nonlinear_arith)
                requires
                    abs(y as int) <= max1(b as nat),
                    q >= 0,
                    b > 0,
            ;
            assert(q * b <= a) by (nonlinear_arith)
                requires
                    q == a / b,
                    a >= 0,
                    b > 0,
            ;
        }
        (g, y, x - q * y)
    }
}

} // verus!
