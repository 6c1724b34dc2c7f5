//! The cumulative distribution function: an immutable snapshot of a `Pmf`'s
//! keys in ascending order, each paired with the running total of the masses
//! at or below it.

use crate::frac::Frac;
use crate::pmf::{pairs_sorted, Pmf};
use crate::rat::{
    lemma_rat_eq_trans, lemma_rat_le_congr, lemma_rat_mul_congr, lemma_rat_norm, rat_add,
    rat_div, rat_eq, rat_fits,
    rat_from_int, rat_le, rat_lt, rat_mul, rat_norm, rat_one, rat_pow, rat_wf, rat_zero, seq_sum,
    sum_steps, Rat,
};
use crate::Error;
use vstd::prelude::*;

verus! {

/// A cumulative distribution over `u64` values: keys strictly ascending,
/// each with a well-formed cumulative mass.
pub struct Cdf {
    xs: Vec<u64>,
    ps: Vec<Frac>,
}

impl Cdf {
    pub closed spec fn len(self) -> nat {
        self.xs@.len()
    }

    pub closed spec fn key_at(self, i: int) -> u64 {
        self.xs@[i]
    }

    /// The cumulative mass at an index.
    pub closed spec fn cum_at(self, i: int) -> Rat {
        self.ps@[i]@
    }

    pub closed spec fn wf(self) -> bool {
        &&& self.xs@.len() == self.ps@.len()
        &&& self.xs@.len() >= 1
        &&& forall|a: int, b: int|
            0 <= a < b < self.xs@.len() ==> self.key_at(a) < self.key_at(b)
        &&& forall|i: int| 0 <= i < self.xs@.len() ==> rat_wf(#[trigger] self.cum_at(i))
        &&& forall|i: int|
            0 <= i < self.xs@.len() - 1 ==> rat_le(#[trigger] self.cum_at(i), self.cum_at(i + 1))
    }

    pub open spec fn has_key(self, k: u64) -> bool {
        exists|i: int| 0 <= i < self.len() && self.key_at(i) == k
    }

    /// The position where `x` sits (or would be inserted): everything before
    /// it is smaller, it and everything after are at least `x`.
    pub open spec fn is_insertion_point(self, x: u64, n: int) -> bool {
        &&& 0 <= n < self.len()
        &&& forall|i: int| 0 <= i < n ==> #[trigger] self.key_at(i) < x
        &&& self.key_at(n) >= x
    }

    /// CDF(x): zero below the smallest key, one above the largest, otherwise
    /// the cumulative mass at the insertion point of `x`.
    pub open spec fn prob_rat(self, x: u64) -> Rat {
        if x < self.key_at(0) {
            rat_zero()
        } else if x > self.key_at(self.len() - 1) {
            rat_one()
        } else {
            self.cum_at(choose|n: int| self.is_insertion_point(x, n))
        }
    }

    /// `x` names a key whose cumulative mass reaches `q`, and no earlier key
    /// reaches `q` — the quantile of `q`.
    pub open spec fn is_quantile(self, q: Rat, x: u64) -> bool {
        exists|n: int|
            #![trigger self.key_at(n)]
            0 <= n < self.len() && self.key_at(n) == x && rat_le(q, self.cum_at(n)) && forall|
                i: int,
            | 0 <= i < n ==> rat_lt(#[trigger] self.cum_at(i), q)
    }

    /// A well-formed snapshot holds only well-formed cumulative masses.
    pub proof fn lemma_wf_cums(self)
        requires
            self.wf(),
        ensures
            self.len() >= 1,
            forall|i: int| 0 <= i < self.len() ==> rat_wf(#[trigger] self.cum_at(i)),
            forall|i: int|
                0 <= i < self.len() - 1 ==> rat_le(#[trigger] self.cum_at(i), self.cum_at(i + 1)),
    {
    }

    /// A well-formed snapshot's keys strictly ascend.
    pub proof fn lemma_wf_keys_sorted(self)
        requires
            self.wf(),
        ensures
            self.len() >= 1,
            forall|a: int, b: int| 0 <= a < b < self.len() ==> self.key_at(a) < self.key_at(b),
    {
    }

    /// Insertion points are unique on strictly ascending keys.
    pub proof fn lemma_insertion_point_unique(self, x: u64, n: int)
        requires
            self.wf(),
            self.is_insertion_point(x, n),
        ensures
            (choose|m: int| self.is_insertion_point(x, m)) == n,
    {
        let m = choose|m: int| self.is_insertion_point(x, m);
        assert(self.is_insertion_point(x, m));
        if m < n {
            assert(self.key_at(m) < x);
        } else if n < m {
            assert(self.key_at(n) < x);
        }
    }

    /// CDF(x), by binary search for the insertion point of `x`.
    pub fn prob(&self, x: u64) -> (r: Frac)
        requires
            self.wf(),
        ensures
            r.wf(),
            r@ == self.prob_rat(x),
    {
        proof {
            assert(rat_wf(self.cum_at(0)));
        }
        if x < self.xs[0] {
            Frac::zero()
        } else if x > self.xs[self.xs.len() - 1] {
            Frac::one()
        } else {
            let mut lo: usize = 0;
            let mut hi: usize = self.xs.len() - 1;
            while lo < hi
                invariant
                    self.wf(),
                    lo <= hi < self.len(),
                    forall|i: int| 0 <= i < lo ==> #[trigger] self.key_at(i) < x,
                    self.key_at(hi as int) >= x,
                decreases hi - lo,
            {
                let mid = lo + (hi - lo) / 2;
                if self.xs[mid] < x {
                    proof {
                        assert forall|i: int| 0 <= i < mid + 1 implies #[trigger] self.key_at(i)
                            < x by {
                            if i < mid {
                                assert(self.key_at(i) < self.key_at(mid as int));
                            }
                        }
                    }
                    lo = mid + 1;
                } else {
                    hi = mid;
                }
            }
            proof {
                assert(self.is_insertion_point(x, lo as int));
                self.lemma_insertion_point_unique(x, lo as int);
                assert(rat_wf(self.cum_at(lo as int)));
                assert(self.ps@[lo as int]@ == self.cum_at(lo as int));
            }
            self.ps[lo]
        }
    }

    /// The cumulative mass of the largest key — the snapshot's total.
    pub fn total_mass(&self) -> (r: Frac)
        requires
            self.wf(),
        ensures
            r.wf(),
            r@ == self.cum_at(self.len() - 1),
    {
        proof {
            assert(rat_wf(self.cum_at(self.len() - 1)));
            assert(self.ps@[self.len() - 1]@ == self.cum_at(self.len() - 1));
        }
        self.ps[self.ps.len() - 1]
    }

    /// InverseCDF(p): the first key whose cumulative mass reaches `p`.
    /// Rejects a probability above one as out of range.
    pub fn value(&self, p: &Frac) -> (r: Result<u64, Error>)
        requires
            self.wf(),
            p.wf(),
            rat_le(p@, rat_one()) ==> rat_le(p@, self.cum_at(self.len() - 1)),
        ensures
            rat_le(p@, rat_one()) ==> r is Ok,
            rat_lt(rat_one(), p@) ==> r is Err,
            match r {
                Ok(x) => self.is_quantile(p@, x),
                Err(e) => e == Error::Range && rat_lt(rat_one(), p@),
            },
    {
        let one = Frac::one();
        if one.lt(p) {
            return Err(Error::Range);
        }
        let mut i: usize = 0;
        while i < self.ps.len()
            invariant
                self.wf(),
                p.wf(),
                !rat_lt(rat_one(), p@),
                i <= self.len(),
                forall|j: int| 0 <= j < i ==> rat_lt(#[trigger] self.cum_at(j), p@),
            decreases self.ps@.len() - i,
        {
            proof {
                assert(rat_wf(self.cum_at(i as int)));
                assert(self.ps@[i as int]@ == self.cum_at(i as int));
            }
            if p.le(&self.ps[i]) {
                proof {
                    let n = i as int;
                    assert(0 <= n < self.len() && self.key_at(n) == self.xs@[n] && rat_le(
                        p@,
                        self.cum_at(n),
                    ) && (forall|j: int| 0 <= j < n ==> rat_lt(#[trigger] self.cum_at(j), p@)));
                    assert(self.is_quantile(p@, self.xs@[n]));
                }
                return Ok(self.xs[i]);
            }
            i = i + 1;
        }
        proof {
            assert(rat_lt(self.cum_at(self.len() - 1), p@));
            assert(false);
        }
        Err(Error::Range)
    }

    /// The value at percentile `p`, a percentage in `[0, 100]`: the quantile
    /// of `p / 100`. Fails if and only if the percentage lies above 100
    /// (`Error::Range`) or the reduced quotient does not fit the word size
    /// (`Error::Overflow`).
    pub fn percentile(&self, p: &Frac) -> (r: Result<u64, Error>)
        requires
            self.wf(),
            p.wf(),
            rat_le(p@, rat_from_int(100)) ==> rat_le(
                rat_div(p@, rat_from_int(100)),
                self.cum_at(self.len() - 1),
            ),
        ensures
            r is Err <==> rat_lt(rat_from_int(100), p@) || !rat_fits(
                rat_norm(rat_div(p@, rat_from_int(100))),
            ),
            match r {
                Ok(x) => self.is_quantile(rat_div(p@, rat_from_int(100)), x),
                Err(e) => (e == Error::Range && rat_lt(rat_from_int(100), p@)) || (e
                    == Error::Overflow && !rat_fits(rat_norm(rat_div(p@, rat_from_int(100))))),
            },
    {
        let hundred = Frac::from_u64(100);
        if hundred.lt(p) {
            return Err(Error::Range);
        }
        let q = match p.checked_div(&hundred) {
            Some(q) => q,
            None => {
                return Err(Error::Overflow);
            },
        };
        proof {
            q.lemma_fits();
            self.lemma_div_by_100(p@, q@);
        }
        match self.value(&q) {
            Ok(x) => {
                proof {
                    self.lemma_quantile_congr(q@, rat_div(p@, rat_from_int(100)), x);
                }
                Ok(x)
            },
            Err(e) => {
                proof {
                    assert(false);
                }
                Err(e)
            },
        }
    }

    /// The reduced quotient by one hundred keeps every fact `value` needs.
    proof fn lemma_div_by_100(self, p: Rat, q: Rat)
        requires
            self.wf(),
            rat_wf(p),
            rat_wf(q),
            q == crate::rat::rat_norm(rat_div(p, rat_from_int(100))),
            rat_le(p, rat_from_int(100)),
            rat_le(rat_div(p, rat_from_int(100)), self.cum_at(self.len() - 1)),
        ensures
            rat_le(q, rat_one()),
            rat_le(q, self.cum_at(self.len() - 1)),
            rat_eq(q, rat_div(p, rat_from_int(100))),
    {
        let d = rat_div(p, rat_from_int(100));
        crate::rat::lemma_rat_div_wf(p, rat_from_int(100));
        lemma_rat_norm(d);
        crate::rat::lemma_rat_eq_sym(q, d);
        lemma_rat_le_congr(q, d, rat_one(), rat_one());
        lemma_rat_le_congr(
            q,
            d,
            self.cum_at(self.len() - 1),
            self.cum_at(self.len() - 1),
        );
        assert(rat_le(d, rat_one()));
    }

    /// Quantiles are invariant under rational equivalence of the probability.
    pub proof fn lemma_quantile_congr(self, q1: Rat, q2: Rat, x: u64)
        requires
            self.wf(),
            rat_wf(q1),
            rat_wf(q2),
            rat_eq(q1, q2),
            self.is_quantile(q1, x),
        ensures
            self.is_quantile(q2, x),
    {
        let n = choose|n: int|
            #![trigger self.key_at(n)]
            0 <= n < self.len() && self.key_at(n) == x && rat_le(q1, self.cum_at(n)) && forall|
                i: int,
            | 0 <= i < n ==> rat_lt(#[trigger] self.cum_at(i), q1);
        assert(rat_wf(self.cum_at(n)));
        lemma_rat_le_congr(q1, q2, self.cum_at(n), self.cum_at(n));
        assert forall|i: int| 0 <= i < n implies rat_lt(#[trigger] self.cum_at(i), q2) by {
            assert(rat_wf(self.cum_at(i)));
            lemma_rat_le_congr(self.cum_at(i), self.cum_at(i), q1, q2);
        }
        assert(self.key_at(n) == x && rat_le(q2, self.cum_at(n)));
    }

    /// The central credible interval holding `pct` percent of the mass: the
    /// values at probabilities `(100 - pct)/200` and `(100 + pct)/200`.
    /// Fails if and only if the percentage lies above 100 (`Error::Range`)
    /// or a reduced bound does not fit the word size (`Error::Overflow`).
    pub fn credible_interval(&self, pct: &Frac) -> (r: Result<(u64, u64), Error>)
        requires
            self.wf(),
            pct.wf(),
            rat_le(pct@, rat_from_int(100)) ==> rat_le(
                Rat { n: 100 * pct@.d + pct@.n, d: 200 * pct@.d },
                self.cum_at(self.len() - 1),
            ),
            rat_le(pct@, rat_from_int(100)) ==> rat_le(
                Rat { n: 100 * pct@.d - pct@.n, d: 200 * pct@.d },
                self.cum_at(self.len() - 1),
            ),
        ensures
            r is Err <==> rat_lt(rat_from_int(100), pct@) || !rat_fits(
                rat_norm(Rat { n: 100 * pct@.d - pct@.n, d: 200 * pct@.d }),
            ) || !rat_fits(rat_norm(Rat { n: 100 * pct@.d + pct@.n, d: 200 * pct@.d })),
            match r {
                Ok((lo, hi)) => self.is_quantile(
                    Rat { n: 100 * pct@.d - pct@.n, d: 200 * pct@.d },
                    lo,
                ) && self.is_quantile(Rat { n: 100 * pct@.d + pct@.n, d: 200 * pct@.d }, hi),
                Err(e) => (e == Error::Range && rat_lt(rat_from_int(100), pct@)) || (e
                    == Error::Overflow && (!rat_fits(
                    rat_norm(Rat { n: 100 * pct@.d - pct@.n, d: 200 * pct@.d }),
                ) || !rat_fits(rat_norm(Rat { n: 100 * pct@.d + pct@.n, d: 200 * pct@.d })))),
            },
    {
        let hundred = Frac::from_u64(100);
        if hundred.lt(pct) {
            return Err(Error::Range);
        }
        let n = pct.num();
        let d = pct.den();
        let ghost rlow = Rat { n: 100 * pct@.d - pct@.n, d: 200 * pct@.d };
        let ghost rhigh = Rat { n: 100 * pct@.d + pct@.n, d: 200 * pct@.d };
        // pct <= 100 makes both bounds exact non-negative rationals
        let plow = match crate::frac::reduce_words(
            100 * (d as u128) - (n as u128),
            200 * (d as u128),
        ) {
            Some(f) => f,
            None => {
                return Err(Error::Overflow);
            },
        };
        let phigh = match crate::frac::reduce_words(
            100 * (d as u128) + (n as u128),
            200 * (d as u128),
        ) {
            Some(f) => f,
            None => {
                return Err(Error::Overflow);
            },
        };
        proof {
            self.lemma_wf_cums();
            plow.lemma_fits();
            phigh.lemma_fits();
            lemma_rat_norm(rlow);
            lemma_rat_norm(rhigh);
            lemma_rat_le_congr(plow@, rlow, rat_one(), rat_one());
            lemma_rat_le_congr(phigh@, rhigh, rat_one(), rat_one());
            assert(rat_le(rlow, rat_one()));
            assert(rat_le(rhigh, rat_one()));
            lemma_rat_le_congr(
                plow@,
                rlow,
                self.cum_at(self.len() - 1),
                self.cum_at(self.len() - 1),
            );
            lemma_rat_le_congr(
                phigh@,
                rhigh,
                self.cum_at(self.len() - 1),
                self.cum_at(self.len() - 1),
            );
        }
        let lo = match self.value(&plow) {
            Ok(v) => v,
            Err(_) => {
                proof {
                    assert(false);
                }
                0
            },
        };
        let hi = match self.value(&phigh) {
            Ok(v) => v,
            Err(_) => {
                proof {
                    assert(false);
                }
                0
            },
        };
        proof {
            self.lemma_quantile_congr(plow@, rlow, lo);
            self.lemma_quantile_congr(phigh@, rhigh, hi);
        }
        Ok((lo, hi))
    }

    /// The distribution of the maximum of `k` independent draws: the same
    /// keys, each cumulative mass raised to the `k`-th power, exactly. Fails
    /// if and only if some exact reduced power does not fit the word size.
    pub fn max(&self, k: u32) -> (r: Result<Cdf, Error>)
        requires
            self.wf(),
        ensures
            r is Err <==> exists|i: int|
                0 <= i < self.len() && crate::rat::rat_pow_steps(
                    #[trigger] self.cum_at(i),
                    k as nat,
                ) is None,
            match r {
                Ok(c) => c.wf() && c.len() == self.len() && (forall|i: int|
                    0 <= i < self.len() ==> #[trigger] c.key_at(i) == self.key_at(i)) && (forall|
                    i: int,
                |
                    0 <= i < self.len() ==> rat_eq(
                        #[trigger] c.cum_at(i),
                        rat_pow(self.cum_at(i), k as nat),
                    )),
                Err(e) => e == Error::Overflow,
            },
    {
        let mut xs: Vec<u64> = Vec::new();
        let mut ps: Vec<Frac> = Vec::new();
        let mut i: usize = 0;
        while i < self.xs.len()
            invariant
                self.wf(),
                i <= self.len(),
                xs@.len() == i,
                ps@.len() == i,
                forall|j: int| 0 <= j < i ==> #[trigger] xs@[j] == self.key_at(j),
                forall|j: int|
                    0 <= j < i ==> rat_wf(#[trigger] ps@[j]@) && rat_eq(
                        ps@[j]@,
                        rat_pow(self.cum_at(j), k as nat),
                    ),
                forall|j: int|
                    0 <= j < i ==> crate::rat::rat_pow_steps(
                        #[trigger] self.cum_at(j),
                        k as nat,
                    ) is Some,
                forall|j: int| 0 <= j < i - 1 ==> rat_le(#[trigger] ps@[j]@, ps@[j + 1]@),
            decreases self.xs@.len() - i,
        {
            proof {
                assert(rat_wf(self.cum_at(i as int)));
                assert(self.ps@[i as int]@ == self.cum_at(i as int));
            }
            match self.ps[i].checked_pow(k) {
                Some(f) => {
                    proof {
                        if i > 0 {
                            // the previous power is no larger than this one
                            let a = self.cum_at(i as int - 1);
                            let b = self.cum_at(i as int);
                            assert(rat_wf(a) && rat_le(a, b));
                            crate::rat::lemma_rat_pow_mono(a, b, k as nat);
                            crate::rat::lemma_rat_pow_wf(a, k as nat);
                            crate::rat::lemma_rat_pow_wf(b, k as nat);
                            crate::rat::lemma_rat_le_congr(
                                ps@[i as int - 1]@,
                                rat_pow(a, k as nat),
                                f@,
                                rat_pow(b, k as nat),
                            );
                        }
                    }
                    xs.push(self.xs[i]);
                    ps.push(f);
                },
                None => {
                    proof {
                        assert(crate::rat::rat_pow_steps(self.cum_at(i as int), k as nat)
                            is None);
                    }
                    return Err(Error::Overflow);
                },
            }
            i = i + 1;
        }
        let c = Cdf { xs, ps };
        proof {
            assert(forall|j: int| 0 <= j < c.len() ==> #[trigger] c.key_at(j) == self.key_at(j));
            assert(forall|j: int| 0 <= j < c.len() ==> #[trigger] c.cum_at(j) == c.ps@[j]@);
            assert(c.wf());
        }
        Ok(c)
    }
}

/// Raising a cumulative distribution to the `k`-th power raises CDF(x) to
/// the `k`-th power at every point, for every `k >= 1` — exactly.
pub proof fn lemma_max_prob_pow(c: Cdf, m: Cdf, k: u32, x: u64)
    requires
        c.wf(),
        m.wf(),
        k >= 1,
        m.len() == c.len(),
        forall|i: int| 0 <= i < c.len() ==> #[trigger] m.key_at(i) == c.key_at(i),
        forall|i: int|
            0 <= i < c.len() ==> rat_eq(#[trigger] m.cum_at(i), rat_pow(c.cum_at(i), k as nat)),
    ensures
        rat_eq(m.prob_rat(x), rat_pow(c.prob_rat(x), k as nat)),
{
    assert(m.key_at(0) == c.key_at(0) && m.key_at(m.len() - 1) == c.key_at(c.len() - 1));
    if x < c.key_at(0) {
        // zero to any positive power is zero
        let p = rat_pow(rat_zero(), k as nat);
        assert(p == rat_mul(rat_pow(rat_zero(), (k - 1) as nat), rat_zero()));
        assert(p.n == rat_pow(rat_zero(), (k - 1) as nat).n * 0);
        assert(rat_eq(rat_zero(), p));
    } else if x > c.key_at(c.len() - 1) {
        lemma_rat_pow_of_one(k as nat);
    } else {
        lemma_insertion_point_exists(c, x);
        let n = choose|n: int| c.is_insertion_point(x, n);
        assert(c.is_insertion_point(x, n));
        assert forall|i: int| 0 <= i < n implies #[trigger] m.key_at(i) < x by {
            assert(c.key_at(i) < x);
        }
        assert(m.is_insertion_point(x, n));
        c.lemma_insertion_point_unique(x, n);
        m.lemma_insertion_point_unique(x, n);
    }
}

/// One to any power is one.
pub proof fn lemma_rat_pow_of_one(k: nat)
    ensures
        rat_eq(rat_pow(rat_one(), k), rat_one()),
    decreases k,
{
    if k > 0 {
        lemma_rat_pow_of_one((k - 1) as nat);
        let p = rat_pow(rat_one(), (k - 1) as nat);
        assert(rat_pow(rat_one(), k) == rat_mul(p, rat_one()));
        assert(rat_mul(p, rat_one()).n == p.n * 1 && rat_mul(p, rat_one()).d == p.d * 1);
    }
}

/// Between the smallest and largest key, an insertion point exists.
pub proof fn lemma_insertion_point_exists(c: Cdf, x: u64)
    requires
        c.wf(),
        x <= c.key_at(c.len() - 1),
    ensures
        exists|n: int| c.is_insertion_point(x, n),
{
    lemma_insertion_point_from(c, x, 0);
}

proof fn lemma_insertion_point_from(c: Cdf, x: u64, j: int)
    requires
        c.wf(),
        x <= c.key_at(c.len() - 1),
        0 <= j < c.len(),
        forall|i: int| 0 <= i < j ==> #[trigger] c.key_at(i) < x,
    ensures
        exists|n: int| c.is_insertion_point(x, n),
    decreases c.len() - j,
{
    if c.key_at(j) >= x {
        assert(c.is_insertion_point(x, j));
    } else {
        assert(j < c.len() - 1) by {
            if j == c.len() - 1 {
                assert(c.key_at(j) >= x);
            }
        }
        lemma_insertion_point_from(c, x, j + 1);
    }
}

/// Quantile correctness, round trip: the value at probability `q` is a key
/// whose own CDF reaches `q`, and the CDF of every smaller key falls short
/// of `q`.
pub proof fn lemma_quantile_round_trip(c: Cdf, q: Rat, x: u64)
    requires
        c.wf(),
        rat_wf(q),
        c.is_quantile(q, x),
    ensures
        rat_le(q, c.prob_rat(x)),
        forall|w: u64| c.has_key(w) && w < x ==> rat_lt(#[trigger] c.prob_rat(w), q),
{
    let n = choose|n: int|
        #![trigger c.key_at(n)]
        0 <= n < c.len() && c.key_at(n) == x && rat_le(q, c.cum_at(n)) && forall|i: int|
            0 <= i < n ==> rat_lt(#[trigger] c.cum_at(i), q);
    assert(c.is_insertion_point(x, n)) by {
        assert forall|i: int| 0 <= i < n implies #[trigger] c.key_at(i) < x by {
            assert(c.key_at(i) < c.key_at(n));
        }
    }
    c.lemma_insertion_point_unique(x, n);
    assert(x >= c.key_at(0)) by {
        if n > 0 {
            assert(c.key_at(0) < c.key_at(n));
        }
    }
    assert(x <= c.key_at(c.len() - 1)) by {
        if n < c.len() - 1 {
            assert(c.key_at(n) < c.key_at(c.len() - 1));
        }
    }
    assert(c.prob_rat(x) == c.cum_at(n));
    assert forall|w: u64| c.has_key(w) && w < x implies rat_lt(#[trigger] c.prob_rat(w), q) by {
        let j = choose|j: int| 0 <= j < c.len() && #[trigger] c.key_at(j) == w;
        assert(j < n) by {
            if j >= n {
                if j > n {
                    assert(c.key_at(n) < c.key_at(j));
                }
            }
        }
        assert(c.is_insertion_point(w, j)) by {
            assert forall|i: int| 0 <= i < j implies #[trigger] c.key_at(i) < w by {
                assert(c.key_at(i) < c.key_at(j));
            }
        }
        c.lemma_insertion_point_unique(w, j);
        assert(w >= c.key_at(0)) by {
            if j > 0 {
                assert(c.key_at(0) < c.key_at(j));
            }
        }
        assert(w <= c.key_at(c.len() - 1)) by {
            if j < c.len() - 1 {
                assert(c.key_at(j) < c.key_at(c.len() - 1));
            }
        }
        assert(c.prob_rat(w) == c.cum_at(j));
        assert(rat_lt(c.cum_at(j), q));
    }
}

impl Pmf<u64> {
    /// `s` lists this mapping's entries in strictly ascending key order.
    pub open spec fn is_sorted_snapshot(self, s: Seq<(u64, Frac)>) -> bool {
        &&& s.len() == self.len()
        &&& pairs_sorted(s)
        &&& forall|j: int|
            0 <= j < s.len() ==> self.has_key((#[trigger] s[j]).0) && s[j].1@ == self.mass_of(
                s[j].0,
            )
        &&& forall|k: u64|
            #[trigger] self.has_key(k) ==> exists|j: int|
                0 <= j < s.len() && (#[trigger] s[j]).0 == k
    }

    /// The cumulative snapshot of this mapping: keys ascending, each paired
    /// with the exact sum of the masses at or below it. Fails with
    /// `Error::EmptyCollection` exactly on an empty mapping, and with
    /// `Error::Overflow` only when a reduced running sum over the ascending
    /// entries does not fit the word size.
    pub fn make_cdf(&self) -> (r: Result<Cdf, Error>)
        requires
            self.wf(),
        ensures
            self.len() == 0 ==> r is Err,
            match r {
                Ok(c) => c.wf() && c.len() == self.len() && (forall|j: int|
                    0 <= j < c.len() ==> self.has_key(#[trigger] c.key_at(j))) && (forall|k: u64|
                    #[trigger] self.has_key(k) ==> c.has_key(k)) && (forall|j: int|
                    0 <= j < c.len() ==> rat_eq(
                        #[trigger] c.cum_at(j),
                        seq_sum(Seq::new((j + 1) as nat, |t: int| self.mass_of(c.key_at(t)))),
                    )),
                Err(e) => (e == Error::EmptyCollection <==> self.len() == 0) && (e
                    == Error::EmptyCollection || (e == Error::Overflow && exists|
                    s: Seq<(u64, Frac)>,
                |
                    #[trigger] self.is_sorted_snapshot(s) && sum_steps(
                        cum_prefix(s, s.len() as int),
                    ) is None)),
            },
    {
        if self.values().len() == 0 {
            return Err(Error::EmptyCollection);
        }
        let sorted = self.sorted_items();
        proof {
            assert(self.is_sorted_snapshot(sorted@));
        }
        let mut xs: Vec<u64> = Vec::new();
        let mut ps: Vec<Frac> = Vec::new();
        let mut acc = Frac::zero();
        let mut i: usize = 0;
        proof {
            assert(cum_prefix(sorted@, 0) =~= Seq::<Rat>::empty());
        }
        while i < sorted.len()
            invariant
                self.wf(),
                self.is_sorted_snapshot(sorted@),
                pairs_sorted(sorted@),
                forall|j: int|
                    0 <= j < sorted@.len() ==> self.has_key((#[trigger] sorted@[j]).0)
                        && sorted@[j].1@ == self.mass_of(sorted@[j].0) && sorted@[j].1.wf(),
                i <= sorted@.len(),
                xs@.len() == i,
                ps@.len() == i,
                acc.wf(),
                Some(acc@) == sum_steps(cum_prefix(sorted@, i as int)),
                rat_eq(acc@, seq_sum(cum_prefix(sorted@, i as int))),
                i > 0 ==> ps@[i as int - 1]@ == acc@,
                forall|j: int| 0 <= j < i - 1 ==> rat_le(#[trigger] ps@[j]@, ps@[j + 1]@),
                forall|j: int| 0 <= j < i ==> #[trigger] xs@[j] == sorted@[j].0,
                forall|j: int|
                    0 <= j < i ==> rat_wf(#[trigger] ps@[j]@) && rat_eq(
                        ps@[j]@,
                        seq_sum(cum_prefix(sorted@, j + 1)),
                    ),
            decreases sorted@.len() - i,
        {
            let ghost pre = cum_prefix(sorted@, i as int);
            let ghost post = cum_prefix(sorted@, i as int + 1);
            proof {
                assert(post.drop_last() =~= pre);
                assert(post.last() == sorted@[i as int].1@);
            }
            match acc.checked_add(&sorted[i].1) {
                Some(f) => {
                    proof {
                        f.lemma_fits();
                        assert(sum_steps(post) == Some(f@));
                        assert forall|j: int| 0 <= j < pre.len() implies rat_wf(
                            #[trigger] pre[j],
                        ) by {
                            assert(pre[j] == sorted@[j].1@);
                        }
                        crate::rat::lemma_seq_sum_wf(pre);
                        crate::rat::lemma_rat_add_congr_left(acc@, seq_sum(pre), sorted@[i as int].1@);
                        crate::rat::lemma_rat_add_wf(acc@, sorted@[i as int].1@);
                        assert(seq_sum(post) == rat_add(seq_sum(pre), sorted@[i as int].1@));
                        lemma_rat_eq_trans(
                            f@,
                            rat_add(acc@, sorted@[i as int].1@),
                            seq_sum(post),
                        );
                        // the running total never decreases
                        crate::rat::lemma_rat_le_add_right(acc@, sorted@[i as int].1@);
                        crate::rat::lemma_rat_add_wf(acc@, sorted@[i as int].1@);
                        crate::rat::lemma_rat_le_congr(
                            acc@,
                            acc@,
                            rat_add(acc@, sorted@[i as int].1@),
                            f@,
                        );
                    }
                    xs.push(sorted[i].0);
                    ps.push(f);
                    acc = f;
                },
                None => {
                    proof {
                        assert(sum_steps(post) is None);
                        let whole = cum_prefix(sorted@, sorted@.len() as int);
                        assert(whole.take(i as int + 1) =~= post);
                        crate::rat::lemma_sum_steps_prefix_none(whole, i as int + 1);
                    }
                    return Err(Error::Overflow);
                },
            }
            i = i + 1;
        }
        let c = Cdf { xs, ps };
        proof {
            assert(forall|j: int| 0 <= j < c.len() ==> #[trigger] c.key_at(j) == sorted@[j].0);
            assert(forall|j: int| 0 <= j < c.len() ==> #[trigger] c.cum_at(j) == c.ps@[j]@);
            assert(c.wf());
            assert forall|k: u64| #[trigger] self.has_key(k) implies c.has_key(k) by {
                let j = choose|j: int| 0 <= j < sorted@.len() && (#[trigger] sorted@[j]).0 == k;
                assert(c.key_at(j) == k);
            }
            assert forall|j: int| 0 <= j < c.len() implies rat_eq(
                #[trigger] c.cum_at(j),
                seq_sum(Seq::new((j + 1) as nat, |t: int| self.mass_of(c.key_at(t)))),
            ) by {
                assert(Seq::new((j + 1) as nat, |t: int| self.mass_of(c.key_at(t))) =~= cum_prefix(
                    sorted@,
                    j + 1,
                ));
            }
        }
        Ok(c)
    }
}

impl Pmf<u64> {
    /// Whether `c` is this mapping's cumulative snapshot: the same keys in
    /// ascending order, each with the running total of the masses at or
    /// below it.
    pub open spec fn is_snapshot(self, c: Cdf) -> bool {
        &&& c.wf()
        &&& c.len() == self.len()
        &&& forall|j: int| 0 <= j < c.len() ==> self.has_key(#[trigger] c.key_at(j))
        &&& forall|k: u64| #[trigger] self.has_key(k) ==> c.has_key(k)
        &&& forall|j: int|
            0 <= j < c.len() ==> rat_eq(
                #[trigger] c.cum_at(j),
                seq_sum(Seq::new((j + 1) as nat, |t: int| self.mass_of(c.key_at(t)))),
            )
    }

    /// `v` is the value the percentile walk yields at cumulative probability
    /// `q`: the quantile of `q` in this mapping's cumulative snapshot, or the
    /// largest key when no prefix reaches `q`.
    pub open spec fn is_percentile_of(self, q: Rat, v: u64) -> bool {
        &&& self.has_key(v)
        &&& exists|c: Cdf|
            #[trigger] self.is_snapshot(c) && (c.is_quantile(q, v) || (v == c.key_at(
                c.len() - 1,
            ) && forall|i: int| 0 <= i < c.len() ==> rat_lt(#[trigger] c.cum_at(i), q)))
    }

    /// The percentile result is invariant under rational equivalence of the
    /// probability.
    pub proof fn lemma_percentile_of_congr(self, q1: Rat, q2: Rat, v: u64)
        requires
            rat_wf(q1),
            rat_wf(q2),
            rat_eq(q1, q2),
            self.is_percentile_of(q1, v),
        ensures
            self.is_percentile_of(q2, v),
    {
        let c = choose|c: Cdf|
            #[trigger] self.is_snapshot(c) && (c.is_quantile(q1, v) || (v == c.key_at(
                c.len() - 1,
            ) && forall|i: int| 0 <= i < c.len() ==> rat_lt(#[trigger] c.cum_at(i), q1)));
        if c.is_quantile(q1, v) {
            c.lemma_quantile_congr(q1, q2, v);
            assert(self.is_snapshot(c) && c.is_quantile(q2, v));
        } else {
            c.lemma_wf_cums();
            assert forall|i: int| 0 <= i < c.len() implies rat_lt(#[trigger] c.cum_at(i), q2) by {
                lemma_rat_le_congr(c.cum_at(i), c.cum_at(i), q1, q2);
            }
            assert(self.is_snapshot(c) && v == c.key_at(c.len() - 1));
        }
    }

    /// The value at percentile `p`, a percentage: walks the keys in
    /// ascending order accumulating mass until the running total reaches
    /// `p / 100`, or the largest key when no prefix does. Fails with
    /// `Error::EmptyCollection` exactly on an empty mapping, and with
    /// `Error::Overflow` only when a reduced running sum or the reduced
    /// quotient by one hundred does not fit the word size.
    pub fn percentile(&self, percentage: &Frac) -> (r: Result<u64, Error>)
        requires
            self.wf(),
            percentage.wf(),
        ensures
            self.len() == 0 ==> r is Err,
            match r {
                Ok(v) => self.is_percentile_of(rat_div(percentage@, rat_from_int(100)), v),
                Err(e) => (e == Error::EmptyCollection <==> self.len() == 0) && (e
                    == Error::EmptyCollection || (e == Error::Overflow && ((exists|
                    s: Seq<(u64, Frac)>,
                |
                    #[trigger] self.is_sorted_snapshot(s) && sum_steps(
                        cum_prefix(s, s.len() as int),
                    ) is None) || !rat_fits(
                    rat_norm(rat_div(percentage@, rat_from_int(100))),
                )))),
            },
    {
        let c = match self.make_cdf() {
            Ok(c) => c,
            Err(e) => {
                return Err(e);
            },
        };
        proof {
            assert(self.is_snapshot(c));
            c.lemma_wf_cums();
        }
        let hundred = Frac::from_u64(100);
        let q = match percentage.checked_div(&hundred) {
            Some(q) => q,
            None => {
                return Err(Error::Overflow);
            },
        };
        let ghost ideal = rat_div(percentage@, rat_from_int(100));
        proof {
            crate::rat::lemma_rat_div_wf(percentage@, rat_from_int(100));
            lemma_rat_norm(ideal);
        }
        let mut i: usize = 0;
        while i < c.ps.len()
            invariant
                self.wf(),
                c.wf(),
                self.is_snapshot(c),
                q.wf(),
                rat_eq(q@, ideal),
                rat_wf(ideal),
                ideal == rat_div(percentage@, rat_from_int(100)),
                i <= c.len(),
                forall|j: int| 0 <= j < i ==> rat_lt(#[trigger] c.cum_at(j), q@),
            decreases c.ps@.len() - i,
        {
            proof {
                assert(rat_wf(c.cum_at(i as int)));
                assert(c.ps@[i as int]@ == c.cum_at(i as int));
            }
            if q.le(&c.ps[i]) {
                proof {
                    let n = i as int;
                    assert(0 <= n < c.len() && c.key_at(n) == c.xs@[n] && rat_le(
                        q@,
                        c.cum_at(n),
                    ) && (forall|j: int| 0 <= j < n ==> rat_lt(#[trigger] c.cum_at(j), q@)));
                    assert(c.is_quantile(q@, c.xs@[n]));
                    c.lemma_quantile_congr(q@, ideal, c.xs@[n]);
                    assert(self.has_key(c.key_at(n)));
                    assert(self.is_percentile_of(ideal, c.xs@[n]));
                }
                return Ok(c.xs[i]);
            }
            i = i + 1;
        }
        proof {
            assert forall|j: int| 0 <= j < c.len() implies rat_lt(#[trigger] c.cum_at(j), ideal) by {
                assert(rat_wf(c.cum_at(j)));
                crate::rat::lemma_rat_le_congr(q@, ideal, c.cum_at(j), c.cum_at(j));
            }
            assert(self.has_key(c.key_at(c.len() - 1)));
            assert(self.is_percentile_of(ideal, c.xs@[c.len() - 1]));
        }
        Ok(c.xs[c.xs.len() - 1])
    }

    /// The central credible interval holding `pct` percent of the mass: the
    /// values at percentiles `(100 - pct)/2` and `100 - (100 - pct)/2`, that
    /// is at cumulative probabilities `(100 - pct)/200` and `(100 + pct)/200`.
    /// Rejects a percentage above 100 as out of range; fails otherwise only
    /// as `percentile` does, or when a reduced bound does not fit the word.
    pub fn credible_interval(&self, pct: &Frac) -> (r: Result<(u64, u64), Error>)
        requires
            self.wf(),
            pct.wf(),
        ensures
            match r {
                Ok((lo, hi)) => self.is_percentile_of(
                    Rat { n: 100 * pct@.d - pct@.n, d: 200 * pct@.d },
                    lo,
                ) && self.is_percentile_of(
                    Rat { n: 100 * pct@.d + pct@.n, d: 200 * pct@.d },
                    hi,
                ),
                Err(e) => (e == Error::Range && rat_lt(rat_from_int(100), pct@)) || (e
                    == Error::EmptyCollection && self.len() == 0) || (e == Error::Overflow && (
                !rat_fits(rat_norm(Rat { n: 100 * pct@.d - pct@.n, d: 2 * pct@.d })) || !rat_fits(
                    rat_norm(Rat { n: 100 * pct@.d + pct@.n, d: 2 * pct@.d }),
                ) || (exists|s: Seq<(u64, Frac)>|
                    #[trigger] self.is_sorted_snapshot(s) && sum_steps(
                        cum_prefix(s, s.len() as int),
                    ) is None) || !rat_fits(
                    rat_norm(
                        rat_div(
                            rat_norm(Rat { n: 100 * pct@.d - pct@.n, d: 2 * pct@.d }),
                            rat_from_int(100),
                        ),
                    ),
                ) || !rat_fits(
                    rat_norm(
                        rat_div(
                            rat_norm(Rat { n: 100 * pct@.d + pct@.n, d: 2 * pct@.d }),
                            rat_from_int(100),
                        ),
                    ),
                ))),
            },
    {
        let hundred = Frac::from_u64(100);
        if hundred.lt(pct) {
            return Err(Error::Range);
        }
        let n = pct.num();
        let d = pct.den();
        let ghost rlow = Rat { n: 100 * pct@.d - pct@.n, d: 2 * pct@.d };
        let ghost rhigh = Rat { n: 100 * pct@.d + pct@.n, d: 2 * pct@.d };
        let lowpct = match crate::frac::reduce_words(
            100 * (d as u128) - (n as u128),
            2 * (d as u128),
        ) {
            Some(f) => f,
            None => {
                return Err(Error::Overflow);
            },
        };
        let highpct = match crate::frac::reduce_words(
            100 * (d as u128) + (n as u128),
            2 * (d as u128),
        ) {
            Some(f) => f,
            None => {
                return Err(Error::Overflow);
            },
        };
        proof {
            lemma_rat_norm(rlow);
            lemma_rat_norm(rhigh);
            crate::rat::lemma_rat_div_wf(lowpct@, rat_from_int(100));
            crate::rat::lemma_rat_div_wf(highpct@, rat_from_int(100));
        }
        let lo = match self.percentile(&lowpct) {
            Ok(v) => v,
            Err(e) => {
                return Err(e);
            },
        };
        let hi = match self.percentile(&highpct) {
            Ok(v) => v,
            Err(e) => {
                return Err(e);
            },
        };
        proof {
            // lift the percentile facts from the reduced bounds to the
            // stated probabilities: dividing the bound by one hundred is
            // exactly the stated rational
            let flip = Rat { n: 1, d: 100 };
            assert(rat_div(lowpct@, rat_from_int(100)) == rat_mul(lowpct@, flip));
            assert(rat_div(rlow, rat_from_int(100)) == rat_mul(rlow, flip));
            lemma_rat_mul_congr(lowpct@, rlow, flip, flip);
            assert(rat_mul(rlow, flip) == Rat { n: 100 * pct@.d - pct@.n, d: 200 * pct@.d });
            self.lemma_percentile_of_congr(
                rat_div(lowpct@, rat_from_int(100)),
                Rat { n: 100 * pct@.d - pct@.n, d: 200 * pct@.d },
                lo,
            );
            assert(rat_div(highpct@, rat_from_int(100)) == rat_mul(highpct@, flip));
            assert(rat_div(rhigh, rat_from_int(100)) == rat_mul(rhigh, flip));
            lemma_rat_mul_congr(highpct@, rhigh, flip, flip);
            assert(rat_mul(rhigh, flip) == Rat { n: 100 * pct@.d + pct@.n, d: 200 * pct@.d });
            self.lemma_percentile_of_congr(
                rat_div(highpct@, rat_from_int(100)),
                Rat { n: 100 * pct@.d + pct@.n, d: 200 * pct@.d },
                hi,
            );
        }
        Ok((lo, hi))
    }
}

/// At an existing key, the CDF probability is exactly the running total of
/// the source mapping's masses at the keys up to and including it.
pub proof fn lemma_prob_at_key(p: Pmf<u64>, c: Cdf, x: u64)
    requires
        p.wf(),
        p.is_snapshot(c),
        c.has_key(x),
    ensures
        exists|n: int|
            0 <= n < c.len() && #[trigger] c.key_at(n) == x && rat_eq(
                c.prob_rat(x),
                seq_sum(Seq::new((n + 1) as nat, |t: int| p.mass_of(c.key_at(t)))),
            ),
{
    let n = choose|n: int| 0 <= n < c.len() && #[trigger] c.key_at(n) == x;
    c.lemma_wf_keys_sorted();
    assert(c.is_insertion_point(x, n)) by {
        assert forall|i: int| 0 <= i < n implies #[trigger] c.key_at(i) < x by {
            assert(c.key_at(i) < c.key_at(n));
        }
    }
    c.lemma_insertion_point_unique(x, n);
    assert(x >= c.key_at(0)) by {
        if n > 0 {
            assert(c.key_at(0) < c.key_at(n));
        }
    }
    assert(x <= c.key_at(c.len() - 1)) by {
        if n < c.len() - 1 {
            assert(c.key_at(n) < c.key_at(c.len() - 1));
        }
    }
    assert(c.prob_rat(x) == c.cum_at(n));
    assert(rat_eq(c.cum_at(n), seq_sum(Seq::new((n + 1) as nat, |t: int| p.mass_of(c.key_at(t))))));
}

/// The masses of the first `upto` pairs.
pub open spec fn cum_prefix(s: Seq<(u64, Frac)>, upto: int) -> Seq<Rat> {
    Seq::new(upto as nat, |t: int| s[t].1@)
}

} // verus!
