//! Lowest terms: the greatest common divisor of a list of parts, and the list
//! divided by it.
use vstd::prelude::*;
use vstd::arithmetic::div_mod::{
    lemma_div_multiples_vanish, lemma_fundamental_div_mod, lemma_mod_multiples_basic,
    lemma_small_mod,
};

verus! {

/// `d` divides `a` (only zero is divided by zero).
pub open spec fn divides(d: int, a: int) -> bool {
    if d == 0 {
        a == 0
    } else {
        a % d == 0
    }
}

pub open spec fn abs(a: int) -> nat {
    if a < 0 {
        (-a) as nat
    } else {
        a as nat
    }
}

/// Greatest common divisor, by Euclid's rule.
pub open spec fn gcd(a: nat, b: nat) -> nat
    decreases b,
{
    if b == 0 {
        a
    } else {
        gcd(b, a % b)
    }
}

/// Greatest common divisor of the first `k` parts.
pub open spec fn gcd_upto(s: Seq<int>, k: int) -> nat
    decreases k,
{
    if k <= 0 {
        0
    } else {
        gcd(gcd_upto(s, k - 1), abs(s[k - 1]))
    }
}

pub open spec fn gcd_all(s: Seq<int>) -> nat {
    gcd_upto(s, s.len() as int)
}

/// `d` divides every part of `s`.
pub open spec fn common_divisor(d: int, s: Seq<int>) -> bool {
    forall|i: int| 0 <= i < s.len() ==> divides(d, #[trigger] s[i])
}

/// No divisor above one is common to all parts.
pub open spec fn lowest(s: Seq<int>) -> bool {
    forall|d: int| d > 1 ==> !#[trigger] common_divisor(d, s)
}

/// The parts divided by their greatest common divisor.
pub open spec fn reduced(s: Seq<int>) -> Seq<int> {
    Seq::new(s.len(), |i: int| s[i] / (gcd_all(s) as int))
}

proof fn lemma_multiple_divides(d: int, k: int)
    requires
        d > 0,
    ensures
        divides(d, d * k),
{
    lemma_mod_multiples_basic(k, d);
    assert(k * d == d * k) by (nonlinear_arith);
}

proof fn lemma_divides_exact(d: int, a: int)
    requires
        d > 0,
        divides(d, a),
    ensures
        a == d * (a / d),
{
    lemma_fundamental_div_mod(a, d);
}

proof fn lemma_divides_abs(d: int, a: int)
    requires
        d > 0,
    ensures
        divides(d, a) <==> divides(d, abs(a) as int),
{
    if divides(d, a) {
        lemma_divides_exact(d, a);
        lemma_multiple_divides(d, -(a / d));
        assert(-a == d * (-(a / d))) by (nonlinear_arith)
            requires a == d * (a / d);
    }
    if divides(d, abs(a) as int) {
        let b = abs(a) as int;
        lemma_divides_exact(d, b);
        lemma_multiple_divides(d, -(b / d));
        assert(-b == d * (-(b / d))) by (nonlinear_arith)
            requires b == d * (b / d);
    }
}

proof fn lemma_divides_trans(d: int, a: int, b: int)
    requires
        d >= 0,
        a >= 0,
        divides(d, a),
        divides(a, b),
    ensures
        divides(d, b),
{
    if a == 0 {
    } else if d == 0 {
    } else {
        lemma_divides_exact(d, a);
        lemma_divides_exact(a, b);
        let k = (a / d) * (b / a);
        assert(b == d * k) by (nonlinear_arith)
            requires a == d * (a / d), b == a * (b / a), k == (a / d) * (b / a);
        lemma_multiple_divides(d, k);
    }
}

/// The gcd divides both its arguments.
proof fn lemma_gcd_divides(a: nat, b: nat)
    ensures
        divides(gcd(a, b) as int, a as int),
        divides(gcd(a, b) as int, b as int),
    decreases b,
{
    if b == 0 {
        if a > 0 {
            lemma_multiple_divides(a as int, 1);
            lemma_multiple_divides(a as int, 0);
        }
    } else {
        let r = (a % b) as nat;
        lemma_gcd_divides(b, r);
        let g = gcd(b, r) as int;
        let ai = a as int;
        let bi = b as int;
        let ri = r as int;
        assert(g > 0);
        lemma_divides_exact(g, bi);
        lemma_divides_exact(g, ri);
        lemma_fundamental_div_mod(ai, bi);
        let k = (ai / bi) * (bi / g) + ri / g;
        assert(ai == g * k) by (nonlinear_arith)
            requires
                ai == bi * (ai / bi) + ri,
                bi == g * (bi / g),
                ri == g * (ri / g),
                k == (ai / bi) * (bi / g) + ri / g;
        lemma_multiple_divides(g, k);
    }
}

/// Every common divisor of two numbers divides their gcd.
proof fn lemma_gcd_greatest(a: nat, b: nat, d: int)
    requires
        d > 0,
        divides(d, a as int),
        divides(d, b as int),
    ensures
        divides(d, gcd(a, b) as int),
    decreases b,
{
    if b > 0 {
        let r = (a % b) as nat;
        let ai = a as int;
        let bi = b as int;
        let ri = r as int;
        lemma_divides_exact(d, ai);
        lemma_divides_exact(d, bi);
        lemma_fundamental_div_mod(ai, bi);
        let k = ai / d - (ai / bi) * (bi / d);
        assert(ri == d * k) by (nonlinear_arith)
            requires
                ai == bi * (ai / bi) + ri,
                ai == d * (ai / d),
                bi == d * (bi / d),
                k == ai / d - (ai / bi) * (bi / d);
        lemma_multiple_divides(d, k);
        lemma_gcd_greatest(b, r, d);
    }
}

proof fn lemma_gcd_upto_divides(s: Seq<int>, k: int)
    requires
        0 <= k <= s.len(),
    ensures
        forall|i: int| 0 <= i < k ==> divides(gcd_upto(s, k) as int, #[trigger] s[i]),
    decreases k,
{
    if k > 0 {
        lemma_gcd_upto_divides(s, k - 1);
        let h = gcd_upto(s, k - 1);
        let g = gcd(h, abs(s[k - 1]));
        lemma_gcd_divides(h, abs(s[k - 1]));
        assert forall|i: int| 0 <= i < k implies divides(g as int, #[trigger] s[i]) by {
            if i < k - 1 {
                lemma_divides_trans(g as int, h as int, s[i]);
            } else if g > 0 {
                lemma_divides_abs(g as int, s[i]);
            }
        }
    }
}

proof fn lemma_gcd_upto_greatest(s: Seq<int>, k: int, d: int)
    requires
        0 <= k <= s.len(),
        d > 0,
        forall|i: int| 0 <= i < k ==> divides(d, #[trigger] s[i]),
    ensures
        divides(d, gcd_upto(s, k) as int),
    decreases k,
{
    if k > 0 {
        lemma_gcd_upto_greatest(s, k - 1, d);
        lemma_divides_abs(d, s[k - 1]);
        lemma_gcd_greatest(gcd_upto(s, k - 1), abs(s[k - 1]), d);
    } else {
        lemma_multiple_divides(d, 0);
    }
}

/// A list with a part other than zero has a positive gcd that divides every
/// part, and the list divided by it is in lowest terms and proportional to
/// it: `reduced(s)[i] * gcd == s[i]`.
pub proof fn lemma_reduced(s: Seq<int>, j: int)
    requires
        0 <= j < s.len(),
        s[j] != 0,
    ensures
        gcd_all(s) > 0,
        lowest(reduced(s)),
        reduced(s).len() == s.len(),
        forall|i: int| 0 <= i < s.len() ==> #[trigger] s[i] == gcd_all(s) * reduced(s)[i],
        forall|i: int| 0 <= i < s.len() ==> abs(#[trigger] reduced(s)[i]) <= abs(s[i]),
        forall|i: int| 0 <= i < s.len() ==> (s[i] > 0 <==> #[trigger] reduced(s)[i] > 0),
        forall|i: int| 0 <= i < s.len() ==> (s[i] >= 0 <==> #[trigger] reduced(s)[i] >= 0),
{
    let n = s.len() as int;
    let g = gcd_all(s) as int;
    let r = reduced(s);
    lemma_gcd_upto_divides(s, n);
    assert(divides(g, s[j]));
    assert(g > 0);
    assert forall|i: int| 0 <= i < n implies #[trigger] s[i] == g * r[i] by {
        assert(divides(g, s[i]));
        lemma_divides_exact(g, s[i]);
    }
    assert forall|i: int| 0 <= i < n implies abs(#[trigger] r[i]) <= abs(s[i]) && (s[i] > 0 <==> r[i]
        > 0) && (s[i] >= 0 <==> r[i] >= 0) by {
        let ri = r[i];
        let si = s[i];
        assert(si == g * ri);
        assert(abs(ri) <= abs(si) && (si > 0 <==> ri > 0) && (si >= 0 <==> ri >= 0))
            by (nonlinear_arith)
            requires si == g * ri, g > 0;
    }
    assert forall|d: int| d > 1 implies !#[trigger] common_divisor(d, r) by {
        if common_divisor(d, r) {
            assert forall|i: int| 0 <= i < n implies divides(d * g, #[trigger] s[i]) by {
                assert(divides(d, r[i]));
                lemma_divides_exact(d, r[i]);
                let k = r[i] / d;
                assert(s[i] == (d * g) * k) by (nonlinear_arith)
                    requires s[i] == g * r[i], r[i] == d * k;
                assert(d * g > 0) by (nonlinear_arith)
                    requires d > 1, g > 0;
                lemma_multiple_divides(d * g, k);
            }
            assert(d * g > g) by (nonlinear_arith)
                requires d > 1, g > 0;
            lemma_gcd_upto_greatest(s, n, d * g);
            lemma_small_mod(g as nat, (d * g) as nat);
        }
    }
}

/// Greatest common divisor of two numbers.
fn gcd_of(a: u128, b: u128) -> (r: u128)
    ensures
        r == gcd(a as nat, b as nat),
{
    let mut x = a;
    let mut y = b;
    while y != 0
        invariant
            gcd(x as nat, y as nat) == gcd(a as nat, b as nat),
        decreases y,
    {
        let t = x % y;
        x = y;
        y = t;
    }
    x
}

/// The parts in lowest terms: each divided by the gcd of all of them. A part
/// other than zero is needed.
pub fn reduce(parts: &Vec<i128>) -> (r: Vec<i128>)
    requires
        exists|j: int| 0 <= j < parts@.len() && parts@[j] != 0,
        forall|i: int| 0 <= i < parts@.len() ==> i128::MIN < #[trigger] parts@[i],
    ensures
        r@.len() == parts@.len(),
        forall|i: int| 0 <= i < r@.len() ==> #[trigger] r@[i] == reduced(parts@.map_values(|v: i128| v as int))[i],
{
    let ghost s = parts@.map_values(|v: i128| v as int);
    let n = parts.len();
    let mut g: u128 = 0;
    let mut i: usize = 0;
    while i < n
        invariant
            n == parts@.len(),
            s == parts@.map_values(|v: i128| v as int),
            i <= n,
            g == gcd_upto(s, i as int),
            forall|k: int| 0 <= k < parts@.len() ==> i128::MIN < #[trigger] parts@[k],
        decreases n - i,
    {
        let v = parts[i];
        let a: u128 = if v < 0 {
            (-v) as u128
        } else {
            v as u128
        };
        proof {
            assert(s[i as int] == v);
        }
        g = gcd_of(g, a);
        i = i + 1;
    }
    let ghost j = choose|j: int| 0 <= j < parts@.len() && parts@[j] != 0;
    proof {
        assert(s[j] != 0);
        lemma_reduced(s, j);
    }
    let mut r: Vec<i128> = Vec::new();
    let mut i: usize = 0;
    while i < n
        invariant
            n == parts@.len(),
            s == parts@.map_values(|v: i128| v as int),
            g == gcd_all(s),
            g > 0,
            i <= n,
            r@.len() == i,
            forall|k: int| 0 <= k < n ==> #[trigger] s[k] == g * reduced(s)[k],
            forall|k: int| 0 <= k < i ==> #[trigger] r@[k] == reduced(s)[k],
            forall|k: int| 0 <= k < parts@.len() ==> i128::MIN < #[trigger] parts@[k],
        decreases n - i,
    {
        let v = parts[i];
        let ghost q = reduced(s)[i as int];
        proof {
            assert(s[i as int] == v);
            assert(v == g * q);
            lemma_div_multiples_vanish(q, g as int);
        }
        let w: i128 = if v < 0 {
            proof {
                assert((-v) == g * (-q)) by (nonlinear_arith)
                    requires v == g * q;
                lemma_div_multiples_vanish(-q, g as int);
            }
            -(((-v) as u128 / g) as i128)
        } else {
            ((v as u128) / g) as i128
        };
        r.push(w);
        i = i + 1;
    }
    r
}

} // verus!
