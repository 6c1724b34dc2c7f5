//! Bayesian belief updates: a suite pairs a mapping of hypotheses with a
//! problem-specific likelihood function. One update multiplies every
//! hypothesis's mass by the likelihood of the observed data and renormalizes
//! to a total of one — Bayes' rule, posterior proportional to prior times
//! likelihood.

use crate::frac::Frac;
use crate::pmf::{Key, Pmf};
use crate::rat::{
    lemma_rat_div_wf, lemma_rat_eq_trans, lemma_rat_mul_assoc, lemma_rat_mul_congr,
    lemma_rat_mul_wf, lemma_rat_norm, lemma_seq_sum_congr, lemma_seq_sum_wf, rat_div, rat_eq,
    rat_fits, rat_mul, rat_norm, rat_one, rat_wf, rat_zero, rescale_overflows, seq_sum,
    sum_steps_zero, Rat,
};
use crate::Error;
use vstd::prelude::*;

verus! {

/// The problem-specific half of a Bayesian update: how likely the observed
/// data is under a hypothesis. An implementation returns a mass proportional
/// to the probability of the data given the hypothesis.
pub trait Suite<D, V: Key> {
    fn likelihood(&self, data: &D, hypo: &V) -> (l: Frac)
        ensures
            l.wf(),
    ;
}

/// Each entry's mass scaled by the aligned factor.
pub open spec fn scaled_masses<V: Key>(p: Pmf<V>, ls: Seq<Rat>) -> Seq<Rat> {
    Seq::new(p.len(), |i: int| rat_mul(p.mass_at(i), ls[i]))
}

/// Each entry's reduced stored mass after scaling by the aligned factor.
pub open spec fn norm_masses<V: Key>(p: Pmf<V>, ls: Seq<Rat>) -> Seq<Rat> {
    Seq::new(p.len(), |i: int| rat_norm(rat_mul(p.mass_at(i), ls[i])))
}

/// Some reduced scaled mass does not fit the word size.
pub open spec fn scaling_overflows<V: Key>(p: Pmf<V>, ls: Seq<Rat>) -> bool {
    exists|i: int|
        0 <= i < p.len() && !rat_fits(rat_norm(rat_mul(#[trigger] p.mass_at(i), ls[i])))
}

/// The stored scaled masses sum to the same rational as the raw products.
proof fn lemma_scaled_sum_congr<V: Key>(prior: Pmf<V>, mid: Pmf<V>, ls: Seq<Rat>)
    requires
        prior.wf(),
        mid.wf(),
        ls.len() == prior.len(),
        mid.len() == prior.len(),
        forall|i: int| 0 <= i < ls.len() ==> rat_wf(#[trigger] ls[i]),
        forall|i: int|
            0 <= i < prior.len() ==> #[trigger] mid.mass_at(i) == rat_norm(
                rat_mul(prior.mass_at(i), ls[i]),
            ),
    ensures
        rat_eq(seq_sum(mid.masses()), seq_sum(scaled_masses(prior, ls))),
        rat_wf(seq_sum(mid.masses())),
{
    let scaled = scaled_masses(prior, ls);
    prior.lemma_wf_masses();
    mid.lemma_wf_masses();
    assert forall|i: int| 0 <= i < mid.len() implies rat_wf(#[trigger] mid.masses()[i]) by {
        assert(mid.masses()[i] == mid.mass_at(i));
    }
    assert forall|i: int| 0 <= i < scaled.len() implies rat_wf(#[trigger] scaled[i]) by {
        assert(scaled[i] == rat_mul(prior.mass_at(i), ls[i]));
        lemma_rat_mul_wf(prior.mass_at(i), ls[i]);
    }
    assert forall|i: int| 0 <= i < mid.len() implies rat_eq(
        #[trigger] mid.masses()[i],
        scaled[i],
    ) by {
        assert(mid.masses()[i] == mid.mass_at(i));
        assert(scaled[i] == rat_mul(prior.mass_at(i), ls[i]));
        lemma_rat_mul_wf(prior.mass_at(i), ls[i]);
        lemma_rat_norm(rat_mul(prior.mass_at(i), ls[i]));
    }
    lemma_seq_sum_congr(mid.masses(), scaled);
    lemma_seq_sum_wf(mid.masses());
}

/// One Bayes step over raw likelihood values aligned with the mapping's
/// entries: scale every mass by its likelihood, then renormalize to one.
/// Returns the normalizing constant — the total scaled mass, the prior
/// probability of the data. Fails if and only if some exact intermediate
/// does not fit the word size (`Error::Overflow`) or the scaled total is
/// zero, the data being impossible under every hypothesis (`Error::Domain`).
pub fn update_with_likelihoods<V: Key>(pmf: &mut Pmf<V>, likes: &Vec<Frac>) -> (r: Result<
    Frac,
    Error,
>)
    requires
        old(pmf).wf(),
        likes@.len() == old(pmf).len(),
        forall|i: int| 0 <= i < likes@.len() ==> (#[trigger] likes@[i]).wf(),
    ensures
        r is Err <==> scaling_overflows(*old(pmf), rats_of(likes@)) || sum_steps_zero(
            norm_masses(*old(pmf), rats_of(likes@)),
        ) || rescale_overflows(norm_masses(*old(pmf), rats_of(likes@)), rat_one()),
        match r {
            Ok(t) => t.wf() && !rat_eq(t@, rat_zero()) && final (pmf).wf() && final (pmf).len()
                == old(pmf).len() && (forall|i: int|
                0 <= i < old(pmf).len() ==> #[trigger] final (pmf).key_at(i) == old(pmf).key_at(i))
                && rat_eq(t@, seq_sum(scaled_masses(*old(pmf), rats_of(likes@)))) && (forall|i: int|
                0 <= i < old(pmf).len() ==> rat_eq(
                    #[trigger] final (pmf).mass_at(i),
                    rat_mul(
                        rat_mul(old(pmf).mass_at(i), likes@[i]@),
                        rat_div(rat_one(), t@),
                    ),
                )) && rat_eq(final (pmf).total_rat(), rat_one()),
            Err(e) => (e == Error::Domain && rat_eq(
                seq_sum(scaled_masses(*old(pmf), rats_of(likes@))),
                rat_zero(),
            )) || (e == Error::Overflow && (scaling_overflows(*old(pmf), rats_of(likes@))
                || rescale_overflows(norm_masses(*old(pmf), rats_of(likes@)), rat_one()))),
        },
{
    let ghost prior = *pmf;
    let ghost ls = rats_of(likes@);
    match pmf.scale_masses(likes) {
        Ok(()) => {},
        Err(e) => {
            proof {
                let i = choose|i: int|
                    0 <= i < prior.len() && !rat_fits(
                        rat_norm(rat_mul(#[trigger] prior.mass_at(i), likes@[i]@)),
                    );
                assert(ls[i] == likes@[i]@);
                assert(scaling_overflows(prior, ls));
            }
            return Err(e);
        },
    }
    let ghost mid = *pmf;
    proof {
        assert(mid.masses() =~= norm_masses(prior, ls)) by {
            assert forall|i: int| 0 <= i < mid.len() implies #[trigger] mid.masses()[i]
                == norm_masses(prior, ls)[i] by {
                assert(mid.masses()[i] == mid.mass_at(i));
                assert(ls[i] == likes@[i]@);
            }
        }
        assert(!scaling_overflows(prior, ls)) by {
            if scaling_overflows(prior, ls) {
                let i = choose|i: int|
                    0 <= i < prior.len() && !rat_fits(
                        rat_norm(rat_mul(#[trigger] prior.mass_at(i), ls[i])),
                    );
                assert(!rat_fits(rat_norm(rat_mul(prior.mass_at(i), likes@[i]@))));
            }
        }
    }
    let one = Frac::one();
    let t = match pmf.normalize(&one) {
        Ok(t) => t,
        Err(e) => {
            proof {
                if e == Error::Domain {
                    // the scaled total is exactly zero
                    lemma_scaled_sum_congr(prior, mid, ls);
                    crate::rat::lemma_rat_eq_sym(
                        seq_sum(mid.masses()),
                        seq_sum(scaled_masses(prior, ls)),
                    );
                    lemma_rat_eq_trans(
                        seq_sum(scaled_masses(prior, ls)),
                        seq_sum(mid.masses()),
                        rat_zero(),
                    );
                }
            }
            return Err(e);
        },
    };
    proof {
        let scaled = scaled_masses(prior, ls);
        prior.lemma_wf_masses();
        mid.lemma_wf_masses();
        // the normalizing constant is the total scaled mass
        lemma_scaled_sum_congr(prior, mid, ls);
        lemma_rat_eq_trans(t@, mid.total_rat(), seq_sum(scaled));
        // each posterior mass is prior times likelihood over the constant
        assert(t@.n >= 1);
        lemma_rat_div_wf(rat_one(), t@);
        assert forall|i: int| 0 <= i < prior.len() implies rat_eq(
            #[trigger] pmf.mass_at(i),
            rat_mul(rat_mul(prior.mass_at(i), likes@[i]@), rat_div(rat_one(), t@)),
        ) by {
            lemma_rat_mul_wf(prior.mass_at(i), likes@[i]@);
            lemma_rat_mul_congr(
                mid.mass_at(i),
                rat_mul(prior.mass_at(i), likes@[i]@),
                rat_div(rat_one(), t@),
                rat_div(rat_one(), t@),
            );
            lemma_rat_mul_wf(mid.mass_at(i), rat_div(rat_one(), t@));
            lemma_rat_eq_trans(
                pmf.mass_at(i),
                rat_mul(mid.mass_at(i), rat_div(rat_one(), t@)),
                rat_mul(rat_mul(prior.mass_at(i), likes@[i]@), rat_div(rat_one(), t@)),
            );
        }
    }
    Ok(t)
}

/// The rationals a vector of masses stands for.
pub open spec fn rats_of(likes: Seq<Frac>) -> Seq<Rat> {
    Seq::new(likes.len(), |i: int| likes[i]@)
}

/// Updates each hypothesis with one observation: multiply by the likelihood
/// of `data`, then renormalize. Returns the normalizing constant. Fails with
/// `Error::Domain` when the data is impossible under every hypothesis.
pub fn update<D, V: Key, S: Suite<D, V>>(suite: &S, pmf: &mut Pmf<V>, data: &D) -> (r: Result<
    Frac,
    Error,
>)
    requires
        old(pmf).wf(),
    ensures
        match r {
            Ok(t) => t.wf() && !rat_eq(t@, rat_zero()) && final (pmf).wf() && final (pmf).len()
                == old(pmf).len() && (forall|i: int|
                0 <= i < old(pmf).len() ==> #[trigger] final (pmf).key_at(i) == old(pmf).key_at(i))
                && (exists|ls: Seq<Rat>|
                (#[trigger] ls.len()) == old(pmf).len() && (forall|i: int|
                    0 <= i < ls.len() ==> rat_wf(#[trigger] ls[i])) && rat_eq(
                    t@,
                    seq_sum(scaled_masses(*old(pmf), ls)),
                ) && (forall|i: int|
                    0 <= i < old(pmf).len() ==> rat_eq(
                        #[trigger] final (pmf).mass_at(i),
                        rat_mul(rat_mul(old(pmf).mass_at(i), ls[i]), rat_div(rat_one(), t@)),
                    ))) && rat_eq(final (pmf).total_rat(), rat_one()),
            Err(e) => e == Error::Domain || e == Error::Overflow,
        },
{
    let values = pmf.values();
    let mut likes: Vec<Frac> = Vec::new();
    let mut i: usize = 0;
    while i < values.len()
        invariant
            i <= values@.len(),
            likes@.len() == i,
            forall|j: int| 0 <= j < i ==> (#[trigger] likes@[j]).wf(),
        decreases values@.len() - i,
    {
        likes.push(suite.likelihood(data, &values[i]));
        i = i + 1;
    }
    let r = update_with_likelihoods(pmf, &likes);
    proof {
        if let Ok(t) = r {
            let ls = rats_of(likes@);
            assert(ls.len() == old(pmf).len());
        }
    }
    r
}

/// Updates each hypothesis with a whole dataset, renormalizing only once at
/// the end — equivalent to repeated single updates (multiplication of
/// non-negative masses commutes and associates), as long as no exact
/// intermediate overflows the word size. Returns the normalizing constant.
pub fn update_set<D, V: Key, S: Suite<D, V>>(suite: &S, pmf: &mut Pmf<V>, dataset: &Vec<D>) -> (r:
    Result<Frac, Error>)
    requires
        old(pmf).wf(),
    ensures
        match r {
            Ok(t) => t.wf() && !rat_eq(t@, rat_zero()) && final (pmf).wf() && final (pmf).len()
                == old(pmf).len() && (forall|i: int|
                0 <= i < old(pmf).len() ==> #[trigger] final (pmf).key_at(i) == old(pmf).key_at(i))
                && (exists|ls: Seq<Rat>|
                (#[trigger] ls.len()) == old(pmf).len() && (forall|i: int|
                    0 <= i < ls.len() ==> rat_wf(#[trigger] ls[i])) && rat_eq(
                    t@,
                    seq_sum(scaled_masses(*old(pmf), ls)),
                ) && (forall|i: int|
                    0 <= i < old(pmf).len() ==> rat_eq(
                        #[trigger] final (pmf).mass_at(i),
                        rat_mul(rat_mul(old(pmf).mass_at(i), ls[i]), rat_div(rat_one(), t@)),
                    ))) && rat_eq(final (pmf).total_rat(), rat_one()),
            Err(e) => e == Error::Domain || e == Error::Overflow,
        },
{
    let ghost prior = *pmf;
    let ghost mut ls: Seq<Rat> = Seq::new(prior.len(), |i: int| rat_one());
    let values = pmf.values();
    let mut d: usize = 0;
    proof {
        assert forall|i: int| 0 <= i < prior.len() implies rat_eq(
            #[trigger] pmf.mass_at(i),
            rat_mul(prior.mass_at(i), ls[i]),
        ) by {
            assert(ls[i] == rat_one());
            assert(rat_mul(prior.mass_at(i), rat_one()).n == prior.mass_at(i).n * 1);
            assert(rat_mul(prior.mass_at(i), rat_one()).d == prior.mass_at(i).d * 1);
        }
    }
    while d < dataset.len()
        invariant
            prior.wf(),
            pmf.wf(),
            d <= dataset@.len(),
            pmf.len() == prior.len(),
            values@.len() == prior.len(),
            forall|i: int| 0 <= i < prior.len() ==> #[trigger] pmf.key_at(i) == prior.key_at(i),
            forall|i: int| 0 <= i < values@.len() ==> #[trigger] values@[i]@ == prior.key_at(i),
            ls.len() == prior.len(),
            forall|i: int| 0 <= i < ls.len() ==> rat_wf(#[trigger] ls[i]),
            forall|i: int|
                0 <= i < prior.len() ==> rat_eq(
                    #[trigger] pmf.mass_at(i),
                    rat_mul(prior.mass_at(i), ls[i]),
                ),
        decreases dataset@.len() - d,
    {
        let ghost cur = *pmf;
        let ghost ls_before = ls;
        let mut likes: Vec<Frac> = Vec::new();
        let mut i: usize = 0;
        while i < values.len()
            invariant
                d < dataset@.len(),
                i <= values@.len(),
                likes@.len() == i,
                forall|j: int| 0 <= j < i ==> (#[trigger] likes@[j]).wf(),
            decreases values@.len() - i,
        {
            likes.push(suite.likelihood(&dataset[d], &values[i]));
            i = i + 1;
        }
        match pmf.scale_masses(&likes) {
            Ok(()) => {},
            Err(e) => {
                return Err(e);
            },
        }
        proof {
            ls = Seq::new(prior.len(), |i: int| rat_mul(ls_before[i], likes@[i]@));
            assert forall|i: int| 0 <= i < ls.len() implies rat_wf(#[trigger] ls[i]) by {
                lemma_rat_mul_wf(ls_before[i], likes@[i]@);
            }
            assert forall|i: int| 0 <= i < prior.len() implies rat_eq(
                #[trigger] pmf.mass_at(i),
                rat_mul(prior.mass_at(i), ls[i]),
            ) by {
                // the new mass is the old scaled by the round's likelihood
                cur.lemma_wf_masses();
                prior.lemma_wf_masses();
                lemma_rat_mul_wf(cur.mass_at(i), likes@[i]@);
                lemma_rat_norm(rat_mul(cur.mass_at(i), likes@[i]@));
                lemma_rat_mul_wf(prior.mass_at(i), ls_before[i]);
                lemma_rat_mul_congr(
                    cur.mass_at(i),
                    rat_mul(prior.mass_at(i), ls_before[i]),
                    likes@[i]@,
                    likes@[i]@,
                );
                lemma_rat_mul_wf(rat_mul(prior.mass_at(i), ls_before[i]), likes@[i]@);
                lemma_rat_mul_assoc(prior.mass_at(i), ls_before[i], likes@[i]@);
                lemma_rat_eq_trans(
                    pmf.mass_at(i),
                    rat_mul(cur.mass_at(i), likes@[i]@),
                    rat_mul(rat_mul(prior.mass_at(i), ls_before[i]), likes@[i]@),
                );
            }
        }
        d = d + 1;
    }
    let ghost mid = *pmf;
    let one = Frac::one();
    let t = match pmf.normalize(&one) {
        Ok(t) => t,
        Err(e) => {
            return Err(e);
        },
    };
    proof {
        let scaled = scaled_masses(prior, ls);
        prior.lemma_wf_masses();
        mid.lemma_wf_masses();
        assert forall|i: int| 0 <= i < mid.len() implies rat_wf(#[trigger] mid.masses()[i]) by {
            assert(mid.masses()[i] == mid.mass_at(i));
        }
        assert forall|i: int| 0 <= i < scaled.len() implies rat_wf(#[trigger] scaled[i]) by {
            assert(scaled[i] == rat_mul(prior.mass_at(i), ls[i]));
            lemma_rat_mul_wf(prior.mass_at(i), ls[i]);
        }
        assert forall|i: int| 0 <= i < mid.len() implies rat_eq(
            #[trigger] mid.masses()[i],
            scaled[i],
        ) by {
            assert(mid.masses()[i] == mid.mass_at(i));
            assert(scaled[i] == rat_mul(prior.mass_at(i), ls[i]));
        }
        lemma_seq_sum_congr(mid.masses(), scaled);
        lemma_seq_sum_wf(mid.masses());
        lemma_rat_eq_trans(t@, mid.total_rat(), seq_sum(scaled));
        assert(t@.n >= 1);
        lemma_rat_div_wf(rat_one(), t@);
        assert forall|i: int| 0 <= i < prior.len() implies rat_eq(
            #[trigger] pmf.mass_at(i),
            rat_mul(rat_mul(prior.mass_at(i), ls[i]), rat_div(rat_one(), t@)),
        ) by {
            lemma_rat_mul_wf(prior.mass_at(i), ls[i]);
            lemma_rat_mul_congr(
                mid.mass_at(i),
                rat_mul(prior.mass_at(i), ls[i]),
                rat_div(rat_one(), t@),
                rat_div(rat_one(), t@),
            );
            lemma_rat_mul_wf(mid.mass_at(i), rat_div(rat_one(), t@));
            lemma_rat_eq_trans(
                pmf.mass_at(i),
                rat_mul(mid.mass_at(i), rat_div(rat_one(), t@)),
                rat_mul(rat_mul(prior.mass_at(i), ls[i]), rat_div(rat_one(), t@)),
            );
        }
    }
    Ok(t)
}

} // verus!
