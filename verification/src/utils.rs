//! Conversions between probabilities and odds, exact on rational masses.

use crate::frac::Frac;
use crate::rat::{rat_eq, rat_fits, rat_lt, rat_norm, rat_one, rat_wf, Rat};
use crate::Error;
use vstd::prelude::*;

verus! {

/// The odds `p / (1 - p)` for a probability `p`.
///
/// A probability above one is rejected as out of range; the odds of a
/// certain event (`p == 1`) are infinite and reported as a domain failure.
pub fn odds(p: &Frac) -> (r: Result<Frac, Error>)
    requires
        p.wf(),
    ensures
        rat_lt(p@, rat_one()) ==> r is Ok,
        match r {
            Ok(o) => o.wf() && rat_lt(p@, rat_one()) && o@ == rat_norm(
                Rat { n: p@.n, d: p@.d - p@.n },
            ) && rat_eq(o@, Rat { n: p@.n, d: p@.d - p@.n }),
            Err(e) => (e == Error::Range && rat_lt(rat_one(), p@)) || (e == Error::Domain
                && rat_eq(p@, rat_one())),
        },
{
    let n = p.num();
    let d = p.den();
    if n > d {
        Err(Error::Range)
    } else if n == d {
        Err(Error::Domain)
    } else {
        Ok(Frac::new(n, d - n))
    }
}

/// The probability `o / (o + 1)` for odds `o`.
///
/// Fails only when the exact sum `o.n + o.d` exceeds the word size.
pub fn probability(o: &Frac) -> (r: Result<Frac, Error>)
    requires
        o.wf(),
    ensures
        match r {
            Ok(p) => p.wf() && rat_eq(p@, Rat { n: o@.n, d: o@.n + o@.d }),
            Err(e) => e == Error::Overflow && o@.n + o@.d > u64::MAX,
        },
{
    let n = o.num();
    let d = o.den();
    if n > u64::MAX - d {
        Err(Error::Overflow)
    } else {
        Ok(Frac::new(n, n + d))
    }
}

/// The probability `yes / (yes + no)` for the odds `yes : no`.
///
/// Rejects the undefined case `yes == no == 0` as a domain failure.
pub fn probability2(yes: u64, no: u64) -> (r: Result<Frac, Error>)
    ensures
        match r {
            Ok(p) => p.wf() && rat_eq(p@, Rat { n: yes as int, d: yes as int + no as int }),
            Err(e) => (e == Error::Domain && yes == 0 && no == 0) || (e == Error::Overflow && yes
                as int + no as int > u64::MAX),
        },
{
    if yes == 0 && no == 0 {
        Err(Error::Domain)
    } else if yes > u64::MAX - no {
        Err(Error::Overflow)
    } else {
        Ok(Frac::new(yes, yes + no))
    }
}

/// On the reduced odds `odds` returns for a representable probability below
/// one, `probability` cannot overflow: the reduced numerator and denominator
/// sum to at most the probability's own denominator.
pub proof fn lemma_odds_probability_total(p: Rat)
    requires
        rat_wf(p),
        rat_fits(p),
        rat_lt(p, rat_one()),
    ensures
        ({
            let o = rat_norm(Rat { n: p.n, d: p.d - p.n });
            &&& o.n + o.d <= u64::MAX
            &&& rat_eq(Rat { n: o.n, d: o.n + o.d }, p)
        }),
{
    let q = Rat { n: p.n, d: p.d - p.n };
    crate::rat::lemma_rat_norm(q);
    let o = rat_norm(q);
    lemma_odds_probability_roundtrip(p, o, Rat { n: o.n, d: o.n + o.d });
}

/// Converting a probability below one to odds and back yields the same
/// probability: `probability(odds(p)) == p`, up to rational equivalence.
///
/// `o` stands for any value `odds` may return for `p`, and `r` for any value
/// `probability` may then return for `o`, as the two contracts describe them.
pub proof fn lemma_odds_probability_roundtrip(p: Rat, o: Rat, r: Rat)
    requires
        rat_wf(p),
        rat_wf(o),
        rat_wf(r),
        rat_lt(p, rat_one()),
        rat_eq(o, Rat { n: p.n, d: p.d - p.n }),
        rat_eq(r, Rat { n: o.n, d: o.n + o.d }),
    ensures
        rat_eq(r, p),
{
    let q = Rat { n: p.n, d: p.d - p.n };
    assert(o.n * (q.n + q.d) == q.n * (o.n + o.d)) by (nonlinear_arith)
        requires
            o.n * q.d == q.n * o.d,
    ;
    crate::rat::lemma_rat_eq_trans(
        r,
        Rat { n: o.n, d: o.n + o.d },
        Rat { n: q.n, d: q.n + q.d },
    );
    assert(q.n + q.d == p.d);
    crate::rat::lemma_rat_eq_trans(r, Rat { n: q.n, d: q.n + q.d }, p);
}

} // verus!
