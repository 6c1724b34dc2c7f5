//! The mathematical model of a mass: a non-negative rational number,
//! represented in specifications as a numerator/denominator pair of
//! unbounded integers, compared and combined up to rational equivalence.

use vstd::prelude::*;

verus! {

/// A rational number as it appears in specifications: `n / d`.
pub struct Rat {
    pub n: int,
    pub d: int,
}

/// A well-formed rational is non-negative with a positive denominator.
pub open spec fn rat_wf(a: Rat) -> bool {
    a.d >= 1 && a.n >= 0
}

pub open spec fn rat_zero() -> Rat {
    Rat { n: 0, d: 1 }
}

pub open spec fn rat_one() -> Rat {
    Rat { n: 1, d: 1 }
}

pub open spec fn rat_from_int(n: int) -> Rat {
    Rat { n, d: 1 }
}

/// Equality of the rationals the pairs stand for: `a.n/a.d == b.n/b.d`.
pub open spec fn rat_eq(a: Rat, b: Rat) -> bool {
    a.n * b.d == b.n * a.d
}

pub open spec fn rat_add(a: Rat, b: Rat) -> Rat {
    Rat { n: a.n * b.d + b.n * a.d, d: a.d * b.d }
}

pub open spec fn rat_mul(a: Rat, b: Rat) -> Rat {
    Rat { n: a.n * b.n, d: a.d * b.d }
}

/// The quotient `a / b`; well-formed only when `b` is non-zero.
pub open spec fn rat_div(a: Rat, b: Rat) -> Rat {
    Rat { n: a.n * b.d, d: a.d * b.n }
}

/// `a <= b` on the rationals the pairs stand for (denominators positive).
pub open spec fn rat_le(a: Rat, b: Rat) -> bool {
    a.n * b.d <= b.n * a.d
}

pub open spec fn rat_lt(a: Rat, b: Rat) -> bool {
    a.n * b.d < b.n * a.d
}

pub open spec fn rat_pow(a: Rat, k: nat) -> Rat
    decreases k,
{
    if k == 0 {
        rat_one()
    } else {
        rat_mul(rat_pow(a, (k - 1) as nat), a)
    }
}

/// The sum of a sequence of rationals, folded from the left.
pub open spec fn seq_sum(s: Seq<Rat>) -> Rat
    decreases s.len(),
{
    if s.len() == 0 {
        rat_zero()
    } else {
        rat_add(seq_sum(s.drop_last()), s.last())
    }
}

/// The greatest common divisor, by Euclid's recursion.
pub open spec fn gcd(a: nat, b: nat) -> nat
    decreases b,
{
    if b == 0 {
        a
    } else {
        gcd(b, a % b)
    }
}

/// The canonical representative of a rational: numerator and denominator
/// divided by their greatest common divisor.
pub open spec fn rat_norm(a: Rat) -> Rat
    recommends
        rat_wf(a),
{
    let g = gcd(a.n as nat, a.d as nat) as int;
    Rat { n: a.n / g, d: a.d / g }
}

/// Whether a rational's representation fits the machine word the library
/// stores masses in.
pub open spec fn rat_fits(a: Rat) -> bool {
    a.n <= u64::MAX && a.d <= u64::MAX
}

pub proof fn lemma_rat_eq_sym(a: Rat, b: Rat)
    ensures
        rat_eq(a, b) == rat_eq(b, a),
{
}

pub proof fn lemma_rat_eq_trans(a: Rat, b: Rat, c: Rat)
    requires
        b.d >= 1,
        rat_eq(a, b),
        rat_eq(b, c),
    ensures
        rat_eq(a, c),
{
    assert(a.n * c.d == c.n * a.d) by (nonlinear_arith)
        requires
            b.d >= 1,
            a.n * b.d == b.n * a.d,
            b.n * c.d == c.n * b.d,
    ;
}

pub proof fn lemma_rat_add_wf(a: Rat, b: Rat)
    requires
        rat_wf(a),
        rat_wf(b),
    ensures
        rat_wf(rat_add(a, b)),
{
    assert(a.n * b.d + b.n * a.d >= 0 && a.d * b.d >= 1) by (nonlinear_arith)
        requires
            a.d >= 1 && a.n >= 0 && b.d >= 1 && b.n >= 0,
    ;
}

pub proof fn lemma_rat_mul_wf(a: Rat, b: Rat)
    requires
        rat_wf(a),
        rat_wf(b),
    ensures
        rat_wf(rat_mul(a, b)),
{
    assert(a.n * b.n >= 0 && a.d * b.d >= 1) by (nonlinear_arith)
        requires
            a.d >= 1 && a.n >= 0 && b.d >= 1 && b.n >= 0,
    ;
}

/// Addition respects rational equivalence in its left argument.
#[verifier::rlimit(50)]
pub proof fn lemma_rat_add_congr_left(a1: Rat, a2: Rat, b: Rat)
    requires
        a1.d >= 1,
        a2.d >= 1,
        b.d >= 1,
        rat_eq(a1, a2),
    ensures
        rat_eq(rat_add(a1, b), rat_add(a2, b)),
{
    assert((a1.n * b.d + b.n * a1.d) * (a2.d * b.d) == (a2.n * b.d + b.n * a2.d) * (a1.d * b.d))
        by (nonlinear_arith)
        requires
            a1.n * a2.d == a2.n * a1.d,
    ;
}

/// Addition respects rational equivalence in its right argument.
#[verifier::rlimit(50)]
pub proof fn lemma_rat_add_congr_right(a: Rat, b1: Rat, b2: Rat)
    requires
        a.d >= 1,
        b1.d >= 1,
        b2.d >= 1,
        rat_eq(b1, b2),
    ensures
        rat_eq(rat_add(a, b1), rat_add(a, b2)),
{
    assert((a.n * b1.d + b1.n * a.d) * (a.d * b2.d) == (a.n * b2.d + b2.n * a.d) * (a.d * b1.d))
        by (nonlinear_arith)
        requires
            b1.n * b2.d == b2.n * b1.d,
    ;
}

/// Multiplication respects rational equivalence in both arguments.
#[verifier::rlimit(50)]
pub proof fn lemma_rat_mul_congr(a1: Rat, a2: Rat, b1: Rat, b2: Rat)
    requires
        a1.d >= 1,
        a2.d >= 1,
        b1.d >= 1,
        b2.d >= 1,
        rat_eq(a1, a2),
        rat_eq(b1, b2),
    ensures
        rat_eq(rat_mul(a1, b1), rat_mul(a2, b2)),
{
    assert((a1.n * b1.n) * (a2.d * b2.d) == (a2.n * b2.n) * (a1.d * b1.d)) by (nonlinear_arith)
        requires
            a1.n * a2.d == a2.n * a1.d,
            b1.n * b2.d == b2.n * b1.d,
    ;
}

pub proof fn lemma_rat_add_zero(a: Rat)
    ensures
        rat_eq(rat_add(a, rat_zero()), a),
        rat_eq(rat_add(rat_zero(), a), a),
{
}

/// Distributes a common factor over a sum.
#[verifier::rlimit(100)]
pub proof fn lemma_rat_mul_distributes(a: Rat, b: Rat, f: Rat)
    ensures
        rat_eq(rat_mul(rat_add(a, b), f), rat_add(rat_mul(a, f), rat_mul(b, f))),
{
    let x = rat_mul(rat_add(a, b), f);
    let y = rat_add(rat_mul(a, f), rat_mul(b, f));
    let p = a.n * b.d;
    let q = b.n * a.d;
    assert((a.n * f.n) * (b.d * f.d) == (p * f.n) * f.d) by (nonlinear_arith)
        requires
            p == a.n * b.d,
    ;
    assert((b.n * f.n) * (a.d * f.d) == (q * f.n) * f.d) by (nonlinear_arith)
        requires
            q == b.n * a.d,
    ;
    assert((p * f.n) * f.d + (q * f.n) * f.d == ((p + q) * f.n) * f.d) by (nonlinear_arith);
    assert((a.d * f.d) * (b.d * f.d) == ((a.d * b.d) * f.d) * f.d) by (nonlinear_arith);
    assert(x.n * y.d == y.n * x.d) by (nonlinear_arith)
        requires
            y.n == x.n * f.d,
            y.d == x.d * f.d,
    ;
}

/// Cancellation: `t * (f / t) == f` whenever `t` is non-zero.
#[verifier::rlimit(50)]
pub proof fn lemma_rat_mul_div_cancel(t: Rat, f: Rat)
    requires
        t.d >= 1,
        f.d >= 1,
        t.n >= 1,
    ensures
        rat_eq(rat_mul(t, rat_div(f, t)), f),
{
    assert((t.n * (f.n * t.d)) * f.d == f.n * (t.d * (f.d * t.n))) by (nonlinear_arith);
}

/// An exactly divisible non-negative integer is its divisor times the quotient.
pub proof fn lemma_exact_division(x: int, g: int)
    requires
        g >= 1,
        x % g == 0,
    ensures
        x == g * (x / g),
{
    vstd::arithmetic::div_mod::lemma_fundamental_div_mod(x, g);
}

/// Euclid's algorithm yields a positive common divisor of its arguments.
pub proof fn lemma_gcd_properties(a: nat, b: nat)
    requires
        a > 0 || b > 0,
    ensures
        gcd(a, b) >= 1,
        a % gcd(a, b) == 0,
        b % gcd(a, b) == 0,
    decreases b,
{
    let g = gcd(a, b) as int;
    if b == 0 {
        vstd::arithmetic::div_mod::lemma_mod_multiples_basic(1, a as int);
        vstd::arithmetic::div_mod::lemma_small_mod(0, a);
    } else {
        lemma_gcd_properties(b, a % b);
        let r = (a % b) as int;
        vstd::arithmetic::div_mod::lemma_fundamental_div_mod(a as int, b as int);
        lemma_exact_division(b as int, g);
        lemma_exact_division(r, g);
        let k = (b as int / g) * (a as int / b as int) + r / g;
        assert(a as int == k * g) by (nonlinear_arith)
            requires
                a as int == b as int * (a as int / b as int) + r,
                b as int == g * (b as int / g),
                r == g * (r / g),
                k == (b as int / g) * (a as int / b as int) + r / g,
        ;
        vstd::arithmetic::div_mod::lemma_mod_multiples_basic(k, g);
    }
}

/// Reducing by the greatest common divisor keeps the rational's value and
/// never enlarges the representation.
pub proof fn lemma_rat_norm(a: Rat)
    requires
        rat_wf(a),
    ensures
        rat_wf(rat_norm(a)),
        rat_eq(rat_norm(a), a),
        rat_norm(a).n <= a.n,
        1 <= rat_norm(a).d <= a.d,
        a.n == gcd(a.n as nat, a.d as nat) * rat_norm(a).n,
        a.d == gcd(a.n as nat, a.d as nat) * rat_norm(a).d,
{
    lemma_gcd_properties(a.n as nat, a.d as nat);
    let g = gcd(a.n as nat, a.d as nat) as int;
    lemma_exact_division(a.n, g);
    lemma_exact_division(a.d, g);
    let b = rat_norm(a);
    assert(b.n >= 0 && b.d >= 1 && b.n <= a.n && b.d <= a.d && b.n * a.d == a.n * b.d)
        by (nonlinear_arith)
        requires
            g >= 1,
            a.n >= 0,
            a.d >= 1,
            a.n == g * b.n,
            a.d == g * b.d,
    ;
    assert(a.n == g * b.n && a.d == g * b.d);
}

pub proof fn lemma_seq_sum_wf(s: Seq<Rat>)
    requires
        forall|i: int| 0 <= i < s.len() ==> rat_wf(#[trigger] s[i]),
    ensures
        rat_wf(seq_sum(s)),
    decreases s.len(),
{
    if s.len() > 0 {
        lemma_seq_sum_wf(s.drop_last());
        lemma_rat_add_wf(seq_sum(s.drop_last()), s.last());
    }
}

/// Sums of pointwise equivalent sequences are equivalent.
pub proof fn lemma_seq_sum_congr(s: Seq<Rat>, t: Seq<Rat>)
    requires
        s.len() == t.len(),
        forall|i: int| 0 <= i < s.len() ==> rat_wf(#[trigger] s[i]),
        forall|i: int| 0 <= i < t.len() ==> rat_wf(#[trigger] t[i]),
        forall|i: int| 0 <= i < s.len() ==> rat_eq(#[trigger] s[i], t[i]),
    ensures
        rat_eq(seq_sum(s), seq_sum(t)),
    decreases s.len(),
{
    if s.len() > 0 {
        let sd = s.drop_last();
        let td = t.drop_last();
        assert forall|i: int| 0 <= i < sd.len() implies rat_wf(#[trigger] sd[i]) by {
            assert(sd[i] == s[i]);
        }
        assert forall|i: int| 0 <= i < td.len() implies rat_wf(#[trigger] td[i]) by {
            assert(td[i] == t[i]);
        }
        assert forall|i: int| 0 <= i < sd.len() implies rat_eq(#[trigger] sd[i], td[i]) by {
            assert(sd[i] == s[i] && td[i] == t[i]);
        }
        lemma_seq_sum_congr(sd, td);
        lemma_seq_sum_wf(sd);
        lemma_seq_sum_wf(td);
        let u = rat_add(seq_sum(sd), s.last());
        let v = rat_add(seq_sum(td), s.last());
        let w = rat_add(seq_sum(td), t.last());
        lemma_rat_add_congr_left(seq_sum(sd), seq_sum(td), s.last());
        lemma_rat_add_congr_right(seq_sum(td), s.last(), t.last());
        lemma_rat_add_wf(seq_sum(td), s.last());
        lemma_rat_eq_trans(u, v, w);
    }
}

/// Every mass of a sequence scaled by a common factor.
pub open spec fn scale_seq(s: Seq<Rat>, f: Rat) -> Seq<Rat> {
    s.map_values(|r: Rat| rat_mul(r, f))
}

/// Scaling every summand by a common factor scales the sum by that factor.
pub proof fn lemma_seq_sum_scale(s: Seq<Rat>, f: Rat)
    requires
        rat_wf(f),
        forall|i: int| 0 <= i < s.len() ==> rat_wf(#[trigger] s[i]),
    ensures
        rat_eq(seq_sum(scale_seq(s, f)), rat_mul(seq_sum(s), f)),
    decreases s.len(),
{
    let m = scale_seq(s, f);
    assert forall|i: int| 0 <= i < m.len() implies #[trigger] m[i] == rat_mul(s[i], f) && rat_wf(
        m[i],
    ) by {
        lemma_rat_mul_wf(s[i], f);
    }
    if s.len() == 0 {
        assert(m.len() == 0);
        assert(seq_sum(m) == rat_zero() && seq_sum(s) == rat_zero());
        assert(rat_eq(rat_zero(), rat_mul(rat_zero(), f))) by (nonlinear_arith);
    } else {
        let sd = s.drop_last();
        assert forall|i: int| 0 <= i < sd.len() implies rat_wf(#[trigger] sd[i]) by {
            assert(sd[i] == s[i]);
        }
        let md = scale_seq(sd, f);
        assert forall|i: int| 0 <= i < md.len() implies #[trigger] md[i] == rat_mul(sd[i], f) by {
        }
        assert(m.drop_last() =~= md);
        assert(m.last() == rat_mul(s.last(), f));
        lemma_seq_sum_scale(sd, f);
        lemma_seq_sum_wf(sd);
        assert forall|i: int| 0 <= i < md.len() implies rat_wf(#[trigger] md[i]) by {
            lemma_rat_mul_wf(sd[i], f);
        }
        lemma_seq_sum_wf(md);
        let a = seq_sum(sd);
        let b = s.last();
        lemma_rat_mul_wf(b, f);
        lemma_rat_mul_wf(a, f);
        lemma_rat_add_wf(rat_mul(a, f), rat_mul(b, f));
        lemma_rat_add_congr_left(seq_sum(md), rat_mul(a, f), rat_mul(b, f));
        lemma_rat_mul_distributes(a, b, f);
        lemma_rat_eq_sym(rat_mul(rat_add(a, b), f), rat_add(rat_mul(a, f), rat_mul(b, f)));
        assert(seq_sum(s) == rat_add(a, b));
        assert(seq_sum(m) == rat_add(seq_sum(md), rat_mul(b, f)));
        lemma_rat_eq_trans(
            seq_sum(m),
            rat_add(rat_mul(a, f), rat_mul(b, f)),
            rat_mul(rat_add(a, b), f),
        );
    }
}

pub proof fn lemma_rat_le_trans(a: Rat, b: Rat, c: Rat)
    requires
        a.d >= 1,
        b.d >= 1,
        c.d >= 1,
        rat_le(a, b),
        rat_le(b, c),
    ensures
        rat_le(a, c),
{
    assert(a.n * c.d <= c.n * a.d) by (nonlinear_arith)
        requires
            a.d >= 1 && b.d >= 1 && c.d >= 1,
            a.n * b.d <= b.n * a.d,
            b.n * c.d <= c.n * b.d,
    ;
}

/// Order is invariant under rational equivalence.
#[verifier::rlimit(50)]
pub proof fn lemma_rat_le_congr(a1: Rat, a2: Rat, b1: Rat, b2: Rat)
    requires
        a1.d >= 1,
        a2.d >= 1,
        b1.d >= 1,
        b2.d >= 1,
        rat_eq(a1, a2),
        rat_eq(b1, b2),
    ensures
        rat_le(a1, b1) == rat_le(a2, b2),
        rat_lt(a1, b1) == rat_lt(a2, b2),
{
    assert((a1.n * b1.d <= b1.n * a1.d) == (a2.n * b2.d <= b2.n * a2.d) && (a1.n * b1.d < b1.n
        * a1.d) == (a2.n * b2.d < b2.n * a2.d)) by (nonlinear_arith)
        requires
            a1.d >= 1 && a2.d >= 1 && b1.d >= 1 && b2.d >= 1,
            a1.n * a2.d == a2.n * a1.d,
            b1.n * b2.d == b2.n * b1.d,
    ;
}


/// Addition over a common denominator reduced by the denominators' greatest
/// common divisor, as the executable sum computes it.
pub open spec fn rat_add_cross(a: Rat, b: Rat) -> Rat {
    let g = gcd(a.d as nat, b.d as nat) as int;
    Rat { n: a.n * (b.d / g) + b.n * (a.d / g), d: a.d * (b.d / g) }
}

/// The cross-reduced sum is the sum.
#[verifier::rlimit(50)]
pub proof fn lemma_rat_add_cross(a: Rat, b: Rat)
    requires
        rat_wf(a),
        rat_wf(b),
    ensures
        rat_wf(rat_add_cross(a, b)),
        rat_eq(rat_add_cross(a, b), rat_add(a, b)),
{
    lemma_gcd_properties(a.d as nat, b.d as nat);
    let g = gcd(a.d as nat, b.d as nat) as int;
    lemma_exact_division(a.d, g);
    lemma_exact_division(b.d, g);
    let ap = a.d / g;
    let bp = b.d / g;
    assert(ap >= 1 && bp >= 1) by (nonlinear_arith)
        requires
            g >= 1 && a.d >= 1 && b.d >= 1 && a.d == g * ap && b.d == g * bp,
    ;
    let c = rat_add_cross(a, b);
    assert(c.n >= 0 && c.d >= 1) by (nonlinear_arith)
        requires
            c.n == a.n * bp + b.n * ap && c.d == a.d * bp && a.n >= 0 && b.n >= 0 && ap >= 1 && bp
                >= 1 && a.d >= 1,
    ;
    assert((a.n * bp) * (a.d * b.d) == (a.n * b.d) * (a.d * bp)) by (nonlinear_arith)
        requires
            b.d == g * bp,
    ;
    assert((b.n * ap) * (a.d * b.d) == (b.n * a.d) * (a.d * bp)) by (nonlinear_arith)
        requires
            a.d == g * ap && b.d == g * bp,
    ;
    assert((a.n * bp + b.n * ap) * (a.d * b.d) == (a.n * b.d + b.n * a.d) * (a.d * bp))
        by (nonlinear_arith)
        requires
            (a.n * bp) * (a.d * b.d) == (a.n * b.d) * (a.d * bp),
            (b.n * ap) * (a.d * b.d) == (b.n * a.d) * (a.d * bp),
    ;
}

/// The chain of reduced multiplications the executable power runs: the exact
/// value after each step, or nothing once a step no longer fits the word size.
pub open spec fn rat_pow_steps(a: Rat, k: nat) -> Option<Rat>
    decreases k,
{
    if k == 0 {
        Some(rat_one())
    } else {
        match rat_pow_steps(a, (k - 1) as nat) {
            Some(acc) => {
                let m = rat_norm(rat_mul(acc, a));
                if rat_fits(m) {
                    Some(m)
                } else {
                    None
                }
            },
            None => None,
        }
    }
}

/// Once a power step fails to fit, every later step fails too.
pub proof fn lemma_rat_pow_steps_none(a: Rat, i: nat, k: nat)
    requires
        i <= k,
        rat_pow_steps(a, i) is None,
    ensures
        rat_pow_steps(a, k) is None,
    decreases k,
{
    if k > i {
        lemma_rat_pow_steps_none(a, i, (k - 1) as nat);
    }
}

pub proof fn lemma_rat_pow_wf(a: Rat, k: nat)
    requires
        rat_wf(a),
    ensures
        rat_wf(rat_pow(a, k)),
    decreases k,
{
    if k > 0 {
        lemma_rat_pow_wf(a, (k - 1) as nat);
        lemma_rat_mul_wf(rat_pow(a, (k - 1) as nat), a);
    }
}

pub proof fn lemma_rat_div_wf(a: Rat, b: Rat)
    requires
        rat_wf(a),
        rat_wf(b),
        b.n >= 1,
    ensures
        rat_wf(rat_div(a, b)),
{
    assert(a.n * b.d >= 0 && a.d * b.n >= 1) by (nonlinear_arith)
        requires
            a.n >= 0 && a.d >= 1 && b.d >= 1 && b.n >= 1,
    ;
}

/// Adding a rational whose numerator is zero changes nothing.
pub proof fn lemma_rat_add_zero_num(a: Rat, b: Rat)
    requires
        b.n == 0,
        b.d >= 1,
    ensures
        rat_eq(rat_add(a, b), a),
{
    assert((a.n * b.d + 0 * a.d) * a.d == a.n * (a.d * b.d)) by (nonlinear_arith);
}

/// The chain of reduced additions a left-to-right summation runs: the exact
/// stored value after each partial sum, or nothing once one no longer fits
/// the word size.
pub open spec fn sum_steps(s: Seq<Rat>) -> Option<Rat>
    decreases s.len(),
{
    if s.len() == 0 {
        Some(rat_zero())
    } else {
        match sum_steps(s.drop_last()) {
            Some(acc) => {
                let m = rat_norm(rat_add_cross(acc, s.last()));
                if rat_fits(m) {
                    Some(m)
                } else {
                    None
                }
            },
            None => None,
        }
    }
}

/// A completed summation chain carries the exact sum.
pub proof fn lemma_sum_steps_eq(s: Seq<Rat>, v: Rat)
    requires
        forall|i: int| 0 <= i < s.len() ==> rat_wf(#[trigger] s[i]),
        sum_steps(s) == Some(v),
    ensures
        rat_wf(v),
        rat_eq(v, seq_sum(s)),
    decreases s.len(),
{
    if s.len() == 0 {
        assert(v == rat_zero());
    } else {
        let sd = s.drop_last();
        assert forall|i: int| 0 <= i < sd.len() implies rat_wf(#[trigger] sd[i]) by {
            assert(sd[i] == s[i]);
        }
        let acc = match sum_steps(sd) {
            Some(a) => a,
            None => rat_zero(),
        };
        lemma_sum_steps_eq(sd, acc);
        lemma_seq_sum_wf(sd);
        let cross = rat_add_cross(acc, s.last());
        lemma_rat_add_cross(acc, s.last());
        lemma_rat_norm(cross);
        assert(v == rat_norm(cross));
        lemma_rat_add_wf(acc, s.last());
        lemma_rat_eq_trans(v, cross, rat_add(acc, s.last()));
        lemma_rat_add_congr_left(acc, seq_sum(sd), s.last());
        lemma_rat_eq_trans(v, rat_add(acc, s.last()), rat_add(seq_sum(sd), s.last()));
    }
}

/// Once a partial sum fails to fit, the whole summation fails.
pub proof fn lemma_sum_steps_prefix_none(s: Seq<Rat>, j: int)
    requires
        0 <= j <= s.len(),
        sum_steps(s.take(j)) is None,
    ensures
        sum_steps(s) is None,
    decreases s.len() - j,
{
    if j == s.len() {
        assert(s.take(j) =~= s);
    } else {
        assert(s.take(j + 1).drop_last() =~= s.take(j));
        lemma_sum_steps_prefix_none(s, j + 1);
    }
}

/// Rescaling these masses to the given total meets an exact intermediate that
/// does not fit the word size: the running total, the scale factor, or a
/// scaled mass.
pub open spec fn rescale_overflows(ms: Seq<Rat>, fraction: Rat) -> bool {
    match sum_steps(ms) {
        None => true,
        Some(t) => !rat_eq(t, rat_zero()) && {
            let factor = rat_norm(rat_div(fraction, t));
            !rat_fits(factor) || exists|i: int|
                0 <= i < ms.len() && !rat_fits(rat_norm(rat_mul(#[trigger] ms[i], factor)))
        },
    }
}

/// The total of these masses is exactly computable and zero.
pub open spec fn sum_steps_zero(ms: Seq<Rat>) -> bool {
    match sum_steps(ms) {
        Some(t) => rat_eq(t, rat_zero()),
        None => false,
    }
}

/// A non-negative term never decreases a sum.
pub proof fn lemma_rat_le_add_right(a: Rat, b: Rat)
    requires
        rat_wf(a),
        rat_wf(b),
    ensures
        rat_le(a, rat_add(a, b)),
{
    assert(a.n * (a.d * b.d) <= (a.n * b.d + b.n * a.d) * a.d) by (nonlinear_arith)
        requires
            a.n >= 0 && a.d >= 1 && b.n >= 0 && b.d >= 1,
    ;
}

/// Multiplying by a common non-negative factor preserves order, on either
/// side.
pub proof fn lemma_rat_le_mul_mono(a: Rat, b: Rat, c: Rat)
    requires
        rat_wf(a),
        rat_wf(b),
        rat_wf(c),
        rat_le(a, b),
    ensures
        rat_le(rat_mul(a, c), rat_mul(b, c)),
        rat_le(rat_mul(c, a), rat_mul(c, b)),
{
    assert((a.n * c.n) * (b.d * c.d) <= (b.n * c.n) * (a.d * c.d) && (c.n * a.n) * (c.d * b.d) <= (
    c.n * b.n) * (c.d * a.d)) by (nonlinear_arith)
        requires
            a.n >= 0 && a.d >= 1 && b.n >= 0 && b.d >= 1 && c.n >= 0 && c.d >= 1,
            a.n * b.d <= b.n * a.d,
    ;
}

/// Raising both sides of an inequality to the same power preserves it.
pub proof fn lemma_rat_pow_mono(a: Rat, b: Rat, k: nat)
    requires
        rat_wf(a),
        rat_wf(b),
        rat_le(a, b),
    ensures
        rat_le(rat_pow(a, k), rat_pow(b, k)),
    decreases k,
{
    if k > 0 {
        lemma_rat_pow_mono(a, b, (k - 1) as nat);
        lemma_rat_pow_wf(a, (k - 1) as nat);
        lemma_rat_pow_wf(b, (k - 1) as nat);
        let pa = rat_pow(a, (k - 1) as nat);
        let pb = rat_pow(b, (k - 1) as nat);
        lemma_rat_le_mul_mono(pa, pb, a);
        lemma_rat_le_mul_mono(a, b, pb);
        lemma_rat_mul_wf(pb, a);
        lemma_rat_mul_wf(pa, a);
        lemma_rat_mul_wf(pb, b);
        lemma_rat_le_trans(rat_mul(pa, a), rat_mul(pb, a), rat_mul(pb, b));
    }
}

/// Multiplication is associative on the representations themselves.
pub proof fn lemma_rat_mul_assoc(a: Rat, b: Rat, c: Rat)
    ensures
        rat_mul(rat_mul(a, b), c) == rat_mul(a, rat_mul(b, c)),
{
    assert((a.n * b.n) * c.n == a.n * (b.n * c.n) && (a.d * b.d) * c.d == a.d * (b.d * c.d))
        by (nonlinear_arith);
}

} // verus!
