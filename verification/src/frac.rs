//! The executable mass type: an exact non-negative rational held as a
//! numerator/denominator pair of 64-bit words, always stored reduced by the
//! greatest common divisor. Every operation either returns the exact
//! rational result or reports that its reduced representation does not fit.

use crate::rat::{
    gcd, lemma_exact_division, lemma_gcd_properties, lemma_rat_add_cross, lemma_rat_eq_trans,
    lemma_rat_mul_congr, lemma_rat_mul_wf, lemma_rat_norm, lemma_rat_pow_steps_none,
    lemma_rat_pow_wf, rat_add, rat_add_cross, rat_div, rat_eq, rat_fits, rat_from_int, rat_le,
    rat_lt, rat_mul, rat_norm, rat_one, rat_pow, rat_pow_steps, rat_wf, rat_zero, Rat,
};
use vstd::prelude::*;

verus! {

/// An exact non-negative rational mass.
#[derive(Clone, Copy, Debug)]
pub struct Frac {
    n: u64,
    d: u64,
}

impl View for Frac {
    type V = Rat;

    closed spec fn view(&self) -> Rat {
        Rat { n: self.n as int, d: self.d as int }
    }
}

impl Frac {
    /// A mass is well-formed when its denominator is positive.
    pub open spec fn wf(self) -> bool {
        rat_wf(self@)
    }

    /// The exact rational `n / d`.
    pub fn new(n: u64, d: u64) -> (r: Frac)
        requires
            d >= 1,
        ensures
            r.wf(),
            r@ == rat_norm(Rat { n: n as int, d: d as int }),
            rat_eq(r@, Rat { n: n as int, d: d as int }),
    {
        proof {
            lemma_rat_norm(Rat { n: n as int, d: d as int });
        }
        match reduce_words(n as u128, d as u128) {
            Some(f) => f,
            None => {
                proof {
                    assert(false);
                }
                Frac { n: 0, d: 1 }
            },
        }
    }

    /// The exact rational `n / 1`.
    pub fn from_u64(n: u64) -> (r: Frac)
        ensures
            r.wf(),
            r@ == rat_from_int(n as int),
    {
        Frac { n, d: 1 }
    }

    pub fn zero() -> (r: Frac)
        ensures
            r.wf(),
            r@ == rat_zero(),
    {
        Frac { n: 0, d: 1 }
    }

    pub fn one() -> (r: Frac)
        ensures
            r.wf(),
            r@ == rat_one(),
    {
        Frac { n: 1, d: 1 }
    }

    pub fn num(&self) -> (r: u64)
        ensures
            r == self@.n,
    {
        self.n
    }

    pub fn den(&self) -> (r: u64)
        ensures
            r == self@.d,
    {
        self.d
    }

    /// Whether the mass is exactly zero.
    pub fn is_zero(&self) -> (r: bool)
        requires
            self.wf(),
        ensures
            r == rat_eq(self@, rat_zero()),
    {
        self.n == 0
    }

    /// The exact sum, reduced; `None` exactly when the reduced sum does not
    /// fit the word size. The denominators are first divided by their
    /// greatest common divisor, so the sum is formed over the least common
    /// multiple.
    pub fn checked_add(&self, other: &Frac) -> (r: Option<Frac>)
        requires
            self.wf(),
            other.wf(),
        ensures
            match r {
                Some(f) => f.wf() && f@ == rat_norm(rat_add_cross(self@, other@)) && rat_eq(
                    f@,
                    rat_add(self@, other@),
                ),
                None => !rat_fits(rat_norm(rat_add_cross(self@, other@))),
            },
    {
        let g0 = gcd_words(self.d as u128, other.d as u128);
        proof {
            lemma_gcd_properties(self.d as nat, other.d as nat);
            lemma_exact_division(self.d as int, g0 as int);
            lemma_exact_division(other.d as int, g0 as int);
            assert(self.d as u128 / g0 >= 1 && other.d as u128 / g0 >= 1 && self.d as u128 / g0
                <= u64::MAX && other.d as u128 / g0 <= u64::MAX) by (nonlinear_arith)
                requires
                    g0 >= 1,
                    1 <= self.d as int <= u64::MAX,
                    1 <= other.d as int <= u64::MAX,
                    self.d as int == g0 as int * (self.d as int / g0 as int),
                    other.d as int == g0 as int * (other.d as int / g0 as int),
                    self.d as u128 / g0 == self.d as int / g0 as int,
                    other.d as u128 / g0 == other.d as int / g0 as int,
            ;
        }
        let dp1 = (self.d as u128 / g0) as u64;
        let dp2 = (other.d as u128 / g0) as u64;
        let a = mul_words(self.n, dp2);
        let b = mul_words(other.n, dp1);
        let den = mul_words(self.d, dp2);
        let r = reduce_sum(a, b, den);
        proof {
            lemma_rat_add_cross(self@, other@);
            let c = rat_add_cross(self@, other@);
            assert(c.n == a + b && c.d == den);
            if let Some(f) = r {
                lemma_rat_norm(c);
                lemma_rat_eq_trans(f@, c, rat_add(self@, other@));
            }
        }
        r
    }

    /// The exact product, reduced; `None` when it does not fit the word size.
    pub fn checked_mul(&self, other: &Frac) -> (r: Option<Frac>)
        requires
            self.wf(),
            other.wf(),
        ensures
            match r {
                Some(f) => f.wf() && f@ == rat_norm(rat_mul(self@, other@)),
                None => !rat_fits(rat_norm(rat_mul(self@, other@))),
            },
    {
        reduce_words(mul_words(self.n, other.n), mul_words(self.d, other.d))
    }

    /// The exact quotient, reduced; `None` when the divisor is zero or the
    /// quotient does not fit the word size.
    pub fn checked_div(&self, other: &Frac) -> (r: Option<Frac>)
        requires
            self.wf(),
            other.wf(),
        ensures
            match r {
                Some(f) => f.wf() && f@ == rat_norm(rat_div(self@, other@)) && other@.n != 0,
                None => other@.n == 0 || !rat_fits(rat_norm(rat_div(self@, other@))),
            },
    {
        if other.n == 0 {
            return None;
        }
        reduce_words(mul_words(self.n, other.d), mul_words(self.d, other.n))
    }

    /// Every stored mass fits the word size, with non-negative components.
    pub proof fn lemma_fits(self)
        ensures
            rat_fits(self@),
            self@.n >= 0,
            self@.d >= 0,
    {
    }

    /// Decides `self <= other` on the exact rationals.
    pub fn le(&self, other: &Frac) -> (r: bool)
        requires
            self.wf(),
            other.wf(),
        ensures
            r == rat_le(self@, other@),
    {
        mul_words(self.n, other.d) <= mul_words(other.n, self.d)
    }

    /// The exact `k`-th power, reduced after every step; `None` exactly when
    /// some step's reduced value no longer fits the word size.
    pub fn checked_pow(&self, k: u32) -> (r: Option<Frac>)
        requires
            self.wf(),
        ensures
            match r {
                Some(f) => f.wf() && rat_pow_steps(self@, k as nat) == Some(f@) && rat_eq(
                    f@,
                    rat_pow(self@, k as nat),
                ),
                None => rat_pow_steps(self@, k as nat) is None,
            },
    {
        let mut acc = Frac { n: 1, d: 1 };
        let mut i: u32 = 0;
        while i < k
            invariant
                self.wf(),
                acc.wf(),
                i <= k,
                rat_pow_steps(self@, i as nat) == Some(acc@),
                rat_eq(acc@, rat_pow(self@, i as nat)),
            decreases k - i,
        {
            let next = acc.checked_mul(self);
            proof {
                lemma_rat_pow_wf(self@, i as nat);
                lemma_rat_pow_wf(self@, (i + 1) as nat);
                lemma_rat_mul_wf(acc@, self@);
                lemma_rat_norm(rat_mul(acc@, self@));
                lemma_rat_mul_congr(acc@, rat_pow(self@, i as nat), self@, self@);
            }
            match next {
                Some(f) => {
                    proof {
                        lemma_rat_eq_trans(
                            f@,
                            rat_mul(acc@, self@),
                            rat_mul(rat_pow(self@, i as nat), self@),
                        );
                    }
                    acc = f;
                },
                None => {
                    proof {
                        assert(rat_pow_steps(self@, (i + 1) as nat) is None);
                        lemma_rat_pow_steps_none(self@, (i + 1) as nat, k as nat);
                    }
                    return None;
                },
            }
            i = i + 1;
        }
        Some(acc)
    }

    /// Decides `self < other` on the exact rationals.
    pub fn lt(&self, other: &Frac) -> (r: bool)
        requires
            self.wf(),
            other.wf(),
        ensures
            r == rat_lt(self@, other@),
    {
        mul_words(self.n, other.d) < mul_words(other.n, self.d)
    }
}

/// Decides equality of the exact rationals the two masses stand for.
impl PartialEq for Frac {
    fn eq(&self, other: &Frac) -> (r: bool) {
        mul_words(self.n, other.d) == mul_words(other.n, self.d)
    }
}

impl vstd::std_specs::cmp::PartialEqSpecImpl for Frac {
    open spec fn obeys_eq_spec() -> bool {
        true
    }

    open spec fn eq_spec(&self, other: &Frac) -> bool {
        rat_eq(self@, other@)
    }
}

/// The product of two 64-bit words, exact in 128 bits.
fn mul_words(a: u64, b: u64) -> (r: u128)
    ensures
        r == a as int * b as int,
        a >= 1 && b >= 1 ==> r >= 1,
{
    proof {
        assert(a as int * b as int <= u128::MAX && a as int * b as int >= 0 && (a >= 1 && b >= 1
            ==> a as int * b as int >= 1)) by (nonlinear_arith)
            requires
                0 <= a as int <= u64::MAX,
                0 <= b as int <= u64::MAX,
        ;
    }
    a as u128 * b as u128
}

/// Euclid's algorithm on machine words.
fn gcd_words(a: u128, b: u128) -> (g: u128)
    ensures
        g == gcd(a as nat, b as nat),
{
    let mut x = a;
    let mut y = b;
    while y != 0
        invariant
            gcd(x as nat, y as nat) == gcd(a as nat, b as nat),
        decreases y,
    {
        let t = x % y;
        x = y;
        y = t;
    }
    x
}

/// The sum of two 128-bit terms over a positive denominator, divided by the
/// greatest common divisor of sum and denominator; exact even where the raw
/// sum needs 129 bits.
fn reduce_sum(a: u128, b: u128, d: u128) -> (r: Option<Frac>)
    requires
        d >= 1,
    ensures
        ({
            let exact = Rat { n: a as int + b as int, d: d as int };
            match r {
                Some(f) => f.wf() && f@ == rat_norm(exact),
                None => !rat_fits(rat_norm(exact)),
            }
        }),
{
    let ghost exact = Rat { n: a as int + b as int, d: d as int };
    let ra = a % d;
    let rb = b % d;
    let rem = if rb >= 1 && ra >= d - rb {
        ra - (d - rb)
    } else {
        ra + rb
    };
    proof {
        vstd::arithmetic::div_mod::lemma_add_mod_noop(a as int, b as int, d as int);
        if rb >= 1 && ra >= d - rb {
            vstd::arithmetic::div_mod::lemma_fundamental_div_mod_converse_mod(
                ra as int + rb as int,
                d as int,
                1,
                rem as int,
            );
        } else {
            vstd::arithmetic::div_mod::lemma_small_mod((ra + rb) as nat, d as nat);
        }
        assert(rem as int == exact.n % (d as int));
        assert(rem as nat == exact.n as nat % (d as nat));
    }
    let g = gcd_words(d, rem);
    proof {
        assert(gcd(exact.n as nat, d as nat) == gcd(d as nat, exact.n as nat % (d as nat)));
        assert(g == gcd(exact.n as nat, d as nat));
        lemma_gcd_properties(exact.n as nat, d as nat);
        lemma_rat_norm(exact);
        assert(exact.n % (g as int) == 0 && (d as int) % (g as int) == 0);
    }
    let qa = a / g;
    let ra2 = a % g;
    let qb = b / g;
    let rb2 = b % g;
    proof {
        vstd::arithmetic::div_mod::lemma_fundamental_div_mod(a as int, g as int);
        vstd::arithmetic::div_mod::lemma_fundamental_div_mod(b as int, g as int);
        assert(exact.n == g as int * (qa as int + qb as int) + (ra2 as int + rb2 as int))
            by (nonlinear_arith)
            requires
                a as int == g as int * (qa as int) + ra2 as int,
                b as int == g as int * (qb as int) + rb2 as int,
                exact.n == a as int + b as int,
        ;
        vstd::arithmetic::div_mod::lemma_mod_multiples_vanish(
            qa as int + qb as int,
            ra2 as int + rb2 as int,
            g as int,
        );
        assert((ra2 as int + rb2 as int) % (g as int) == 0);
        if ra2 + rb2 < g {
            vstd::arithmetic::div_mod::lemma_small_mod((ra2 + rb2) as nat, g as nat);
            assert(ra2 as int + rb2 as int == 0);
        } else {
            vstd::arithmetic::div_mod::lemma_fundamental_div_mod_converse_mod(
                ra2 as int + rb2 as int,
                g as int,
                1,
                ra2 as int + rb2 as int - g as int,
            );
            assert(ra2 as int + rb2 as int == g as int);
        }
    }
    let carry: u128 = if ra2 >= g - rb2 {
        1
    } else {
        0
    };
    proof {
        assert(ra2 as int + rb2 as int == g as int * (carry as int));
        assert(exact.n == g as int * (qa as int + qb as int + carry as int)) by (nonlinear_arith)
            requires
                exact.n == g as int * (qa as int + qb as int) + (ra2 as int + rb2 as int),
                ra2 as int + rb2 as int == g as int * (carry as int),
        ;
        vstd::arithmetic::div_mod::lemma_fundamental_div_mod(exact.n, g as int);
        assert(qa as int + qb as int + carry as int == exact.n / (g as int)) by (nonlinear_arith)
            requires
                g >= 1,
                exact.n == g as int * (qa as int + qb as int + carry as int),
                exact.n == g as int * (exact.n / (g as int)) + exact.n % (g as int),
                exact.n % (g as int) == 0,
        ;
    }
    if qa > u64::MAX as u128 || qb > u64::MAX as u128 {
        return None;
    }
    let nn = qa + qb + carry;
    let dd = d / g;
    if nn <= u64::MAX as u128 && dd <= u64::MAX as u128 {
        Some(Frac { n: nn as u64, d: dd as u64 })
    } else {
        None
    }
}

/// Divides numerator and denominator by their greatest common divisor and
/// returns the reduced pair when it fits the word size.
pub(crate) fn reduce_words(n: u128, d: u128) -> (r: Option<Frac>)
    requires
        d >= 1,
    ensures
        match r {
            Some(f) => f.wf() && f@ == rat_norm(Rat { n: n as int, d: d as int }),
            None => !rat_fits(rat_norm(Rat { n: n as int, d: d as int })),
        },
{
    let g = gcd_words(n, d);
    proof {
        lemma_gcd_properties(n as nat, d as nat);
        lemma_rat_norm(Rat { n: n as int, d: d as int });
    }
    let nn = n / g;
    let dd = d / g;
    if nn <= u64::MAX as u128 && dd <= u64::MAX as u128 {
        Some(Frac { n: nn as u64, d: dd as u64 })
    } else {
        None
    }
}

} // verus!
