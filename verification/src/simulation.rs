//! Monte Carlo combination of distributions: random draws from a cumulative
//! snapshot, sums of one draw from each of several distributions, and exact
//! mixtures of weighted mappings.

use crate::cdf::Cdf;
use crate::frac::Frac;
use crate::pmf::{Key, Pmf};
use crate::cdf::cum_prefix;
use crate::rat::{
    gcd, lemma_rat_add_wf, lemma_rat_add_congr_left, lemma_rat_add_congr_right,
    lemma_rat_add_zero, lemma_rat_add_zero_num, lemma_rat_eq_sym, lemma_rat_eq_trans,
    lemma_rat_le_congr, lemma_rat_le_trans, lemma_rat_mul_congr, lemma_rat_mul_wf, lemma_rat_norm,
    rat_add, rat_add_cross, rat_eq, rat_fits, rat_le, rat_lt, rat_norm, rat_mul, rat_one, rat_wf,
    rat_zero, sum_steps, Rat,
};
use crate::Error;
use vstd::prelude::*;

verus! {

/// Relies on rand::random: a 32-bit word from the thread-local generator,
/// uniformly distributed; nothing is assumed of the value.
#[verifier::external_body]
fn random_word() -> (r: u32) {
    rand::random::<u32>()
}

impl Cdf {
    /// One random draw: the quantile of a uniform probability below one.
    /// The snapshot's total must reach one (a normalized source), so every
    /// draw finds its quantile.
    pub fn random(&self) -> (r: u64)
        requires
            self.wf(),
            rat_le(rat_one(), self.cum_at(self.len() - 1)),
        ensures
            self.has_key(r),
            exists|p: Rat| rat_wf(p) && rat_lt(p, rat_one()) && #[trigger] self.is_quantile(p, r),
    {
        let w = random_word();
        let p = Frac::new(w as u64, 4294967296);
        proof {
            self.lemma_wf_cums();
            let raw = Rat { n: w as int, d: 4294967296 };
            assert(rat_lt(raw, rat_one()));
            lemma_rat_le_congr(p@, raw, rat_one(), rat_one());
            assert(rat_wf(self.cum_at(self.len() - 1)));
            assert(rat_le(p@, rat_one()));
            lemma_rat_le_trans(p@, rat_one(), self.cum_at(self.len() - 1));
        }
        match self.value(&p) {
            Ok(x) => {
                proof {
                    let n = choose|n: int|
                        #![trigger self.key_at(n)]
                        0 <= n < self.len() && self.key_at(n) == x && rat_le(
                            p@,
                            self.cum_at(n),
                        ) && forall|i: int| 0 <= i < n ==> rat_lt(#[trigger] self.cum_at(i), p@);
                    assert(self.key_at(n) == x);
                    assert(rat_wf(p@) && rat_lt(p@, rat_one()) && self.is_quantile(p@, x));
                }
                x
            },
            Err(_) => {
                proof {
                    assert(false);
                }
                0
            },
        }
    }

    /// `n` independent random draws.
    pub fn sample(&self, n: usize) -> (r: Vec<u64>)
        requires
            self.wf(),
            rat_le(rat_one(), self.cum_at(self.len() - 1)),
        ensures
            r@.len() == n,
            forall|i: int| 0 <= i < n ==> self.has_key(#[trigger] r@[i]),
    {
        let mut out: Vec<u64> = Vec::new();
        let mut i: usize = 0;
        while i < n
            invariant
                self.wf(),
                rat_le(rat_one(), self.cum_at(self.len() - 1)),
                i <= n,
                out@.len() == i,
                forall|j: int| 0 <= j < i ==> self.has_key(#[trigger] out@[j]),
            decreases n - i,
        {
            out.push(self.random());
            i = i + 1;
        }
        out
    }
}

/// The sum of a sequence of draws.
pub open spec fn u64_sum(s: Seq<u64>) -> int
    decreases s.len(),
{
    if s.len() == 0 {
        0
    } else {
        u64_sum(s.drop_last()) + s.last()
    }
}

/// One random draw from each snapshot, summed. Every snapshot must be
/// normalized; the sum of one support value from each is returned. Fails
/// only when the drawn support values really overflow the word size.
pub fn random_sum(dists: &Vec<Cdf>) -> (r: Result<u64, Error>)
    requires
        dists@.len() >= 1,
        forall|j: int|
            0 <= j < dists@.len() ==> (#[trigger] dists@[j]).wf() && rat_le(
                rat_one(),
                dists@[j].cum_at(dists@[j].len() - 1),
            ),
    ensures
        match r {
            Ok(s) => exists|picks: Seq<u64>|
                (#[trigger] picks.len()) == dists@.len() && (forall|j: int|
                    0 <= j < picks.len() ==> dists@[j].has_key(#[trigger] picks[j])) && s == u64_sum(
                    picks,
                ),
            Err(e) => e == Error::Overflow && exists|picks: Seq<u64>|
                (#[trigger] picks.len()) <= dists@.len() && (forall|j: int|
                    0 <= j < picks.len() ==> dists@[j].has_key(#[trigger] picks[j])) && u64_sum(
                    picks,
                ) > u64::MAX,
        },
{
    let mut s: u64 = 0;
    let ghost mut picks: Seq<u64> = Seq::empty();
    let mut j: usize = 0;
    proof {
        assert(u64_sum(picks) == 0);
    }
    while j < dists.len()
        invariant
            dists@.len() >= 1,
            forall|q: int|
                0 <= q < dists@.len() ==> (#[trigger] dists@[q]).wf() && rat_le(
                    rat_one(),
                    dists@[q].cum_at(dists@[q].len() - 1),
                ),
            j <= dists@.len(),
            picks.len() == j,
            forall|q: int| 0 <= q < j ==> dists@[q].has_key(#[trigger] picks[q]),
            s == u64_sum(picks),
        decreases dists@.len() - j,
    {
        let v = dists[j].random();
        if s > u64::MAX - v {
            proof {
                let over = picks.push(v);
                assert(over.drop_last() =~= picks);
                assert(over.last() == v);
                assert(u64_sum(over) == s + v);
                assert(forall|q: int| 0 <= q < over.len() ==> dists@[q].has_key(#[trigger] over[q]));
            }
            return Err(Error::Overflow);
        }
        proof {
            let ghost picks2 = picks.push(v);
            assert(picks2.drop_last() =~= picks);
            assert(picks2.last() == v);
            picks = picks2;
        }
        s = s + v;
        j = j + 1;
    }
    Ok(s)
}

/// Adding one to a whole-number mass yields the next whole number, exactly.
proof fn lemma_count_incr(c: Rat)
    requires
        c.d == 1,
        c.n >= 0,
    ensures
        rat_norm(rat_add_cross(c, rat_one())) == (Rat { n: c.n + 1, d: 1 }),
{
    assert(gcd(1nat, 1nat) == gcd(1nat, 0nat));
    assert(gcd(1nat, 0nat) == 1nat);
    let g = gcd(c.d as nat, rat_one().d as nat) as int;
    assert(g == 1);
    vstd::arithmetic::div_mod::lemma_div_basics(rat_one().d);
    vstd::arithmetic::div_mod::lemma_div_basics(c.d);
    let cross = rat_add_cross(c, rat_one());
    assert(rat_one().d / g == 1 && c.d / g == 1);
    assert(cross.n == c.n * 1 + 1 * 1 && cross.d == c.d * 1);
    assert(cross == Rat { n: c.n + 1, d: 1 });
    assert(((c.n + 1) as nat) % 1nat == 0nat) by {
        vstd::arithmetic::div_mod::lemma_mod_multiples_basic(c.n + 1, 1int);
    }
    assert(gcd((c.n + 1) as nat, 1nat) == gcd(1nat, ((c.n + 1) as nat) % 1nat));
    assert(gcd((c.n + 1) as nat, 1nat) == 1nat);
    vstd::arithmetic::div_mod::lemma_div_basics(c.n + 1);
}

/// A Monte Carlo approximation of the distribution of the sum: `n` rounds of
/// one draw from each mapping's cumulative snapshot, each round's sum
/// counted with mass one. Every key of the result is a sum of one support
/// value from each input, and every mass is a whole-number count of at most
/// `n`. Fails with `Error::EmptyCollection` only when some input is empty,
/// with `Error::Domain` only when some input's snapshot totals less than
/// one, and with `Error::Overflow` only when an exact intermediate really
/// overflows the word size.
pub fn sample_sum(dists: &Vec<Pmf<u64>>, n: usize) -> (r: Result<Pmf<u64>, Error>)
    requires
        dists@.len() >= 1,
        forall|j: int| 0 <= j < dists@.len() ==> (#[trigger] dists@[j]).wf(),
    ensures
        match r {
            Ok(p) => p.wf() && (forall|k: u64|
                #[trigger] p.has_key(k) ==> exists|picks: Seq<u64>|
                    (#[trigger] picks.len()) == dists@.len() && (forall|j: int|
                        0 <= j < picks.len() ==> dists@[j].has_key(#[trigger] picks[j])) && k
                        == u64_sum(picks)) && (forall|k: u64|
                (#[trigger] p.mass_of(k)).d == 1 && 0 <= (p.mass_of(k)).n <= n as int),
            Err(e) => (e == Error::EmptyCollection && exists|q: int|
                0 <= q < dists@.len() && (#[trigger] dists@[q]).len() == 0) || (e == Error::Domain
                && exists|q: int|
                0 <= q < dists@.len() && exists|c: Cdf|
                    (#[trigger] dists@[q]).is_snapshot(c) && rat_lt(
                        c.cum_at(c.len() - 1),
                        rat_one(),
                    )) || (e == Error::Overflow && ((exists|q: int, sn: Seq<(u64, Frac)>|
                0 <= q < dists@.len() && #[trigger] dists@[q].is_sorted_snapshot(sn) && sum_steps(
                    cum_prefix(sn, sn.len() as int),
                ) is None) || (exists|
                picks: Seq<u64>,
            |
                (#[trigger] picks.len()) <= dists@.len() && (forall|j: int|
                    0 <= j < picks.len() ==> dists@[j].has_key(#[trigger] picks[j]))
                    && u64_sum(picks) > u64::MAX))),
        },
{
    let mut cdfs: Vec<Cdf> = Vec::new();
    let mut j: usize = 0;
    while j < dists.len()
        invariant
            forall|q: int| 0 <= q < dists@.len() ==> (#[trigger] dists@[q]).wf(),
            j <= dists@.len(),
            cdfs@.len() == j,
            forall|q: int|
                0 <= q < j ==> (#[trigger] cdfs@[q]).wf() && rat_le(
                    rat_one(),
                    cdfs@[q].cum_at(cdfs@[q].len() - 1),
                ),
            forall|q: int|
                0 <= q < j ==> forall|k: u64|
                    (#[trigger] cdfs@[q]).has_key(k) ==> dists@[q].has_key(k),
        decreases dists@.len() - j,
    {
        let c = match dists[j].make_cdf() {
            Ok(c) => c,
            Err(e) => {
                proof {
                    if e == Error::Overflow {
                        let sn = choose|sn: Seq<(u64, Frac)>|
                            #[trigger] dists@[j as int].is_sorted_snapshot(sn) && sum_steps(
                                cum_prefix(sn, sn.len() as int),
                            ) is None;
                        assert(dists@[j as int].is_sorted_snapshot(sn) && sum_steps(
                            cum_prefix(sn, sn.len() as int),
                        ) is None);
                    }
                }
                return Err(e);
            },
        };
        proof {
            assert(dists@[j as int].is_snapshot(c));
        }
        let one = Frac::one();
        let tm = c.total_mass();
        if !one.le(&tm) {
            proof {
                assert(rat_lt(c.cum_at(c.len() - 1), rat_one()));
            }
            return Err(Error::Domain);
        }
        cdfs.push(c);
        j = j + 1;
    }
    let mut out = Pmf::<u64>::new();
    let one = Frac::one();
    let mut i: usize = 0;
    while i < n
        invariant
            dists@.len() >= 1,
            cdfs@.len() == dists@.len(),
            forall|q: int|
                0 <= q < cdfs@.len() ==> (#[trigger] cdfs@[q]).wf() && rat_le(
                    rat_one(),
                    cdfs@[q].cum_at(cdfs@[q].len() - 1),
                ),
            forall|q: int|
                0 <= q < cdfs@.len() ==> forall|k: u64|
                    (#[trigger] cdfs@[q]).has_key(k) ==> dists@[q].has_key(k),
            i <= n,
            out.wf(),
            one.wf(),
            one@ == rat_one(),
            forall|k: u64|
                #[trigger] out.has_key(k) ==> exists|picks: Seq<u64>|
                    (#[trigger] picks.len()) == dists@.len() && (forall|j2: int|
                        0 <= j2 < picks.len() ==> dists@[j2].has_key(#[trigger] picks[j2])) && k
                        == u64_sum(picks),
            forall|k: u64|
                (#[trigger] out.mass_of(k)).d == 1 && 0 <= (out.mass_of(k)).n <= i as int,
        decreases n - i,
    {
        let v = match random_sum(&cdfs) {
            Ok(v) => v,
            Err(e) => {
                return Err(e);
            },
        };
        proof {
            let cpicks = choose|picks: Seq<u64>|
                (#[trigger] picks.len()) == cdfs@.len() && (forall|j2: int|
                    0 <= j2 < picks.len() ==> cdfs@[j2].has_key(#[trigger] picks[j2])) && v
                    == u64_sum(picks);
            assert(forall|j2: int|
                0 <= j2 < cpicks.len() ==> dists@[j2].has_key(#[trigger] cpicks[j2]));
        }
        let ghost before = out;
        proof {
            // a count of at most i plus one still fits the word
            lemma_count_incr(before.mass_of(v as u64));
        }
        match out.incr(v, &one) {
            Ok(()) => {},
            Err(_) => {
                proof {
                    assert(false);
                }
                return Err(Error::Overflow);
            },
        }
        proof {
            assert forall|k: u64| #[trigger] out.has_key(k) implies exists|picks: Seq<u64>|
                (#[trigger] picks.len()) == dists@.len() && (forall|j2: int|
                    0 <= j2 < picks.len() ==> dists@[j2].has_key(#[trigger] picks[j2])) && k
                    == u64_sum(picks) by {
                if k != v {
                    assert(before.has_key(k));
                }
            }
            assert forall|k: u64| (#[trigger] out.mass_of(k)).d == 1 && 0 <= (out.mass_of(
                k,
            )).n <= i as int + 1 by {
                if k == v {
                    assert(out.mass_of(k) == Rat { n: before.mass_of(v as u64).n + 1, d: 1 });
                } else {
                    assert(out.mass_of(k) == before.mass_of(k));
                }
            }
        }
        i = i + 1;
    }
    Ok(out)
}

/// The mixture mass at `k` of the first `upto` weighted mappings: the sum of
/// each weight times that mapping's mass at `k`.
pub open spec fn mixture_mass<V: Key>(
    ds: Seq<(Pmf<V>, Frac)>,
    k: <V as View>::V,
    upto: int,
) -> Rat
    decreases upto,
{
    if upto <= 0 {
        rat_zero()
    } else {
        rat_add(
            mixture_mass(ds, k, upto - 1),
            rat_mul(ds[upto - 1].1@, ds[upto - 1].0.mass_of(k)),
        )
    }
}

/// The mixture mass of well-formed inputs is well-formed.
pub proof fn lemma_mixture_wf<V: Key>(ds: Seq<(Pmf<V>, Frac)>, k: <V as View>::V, upto: int)
    requires
        upto <= ds.len(),
        forall|i: int|
            0 <= i < ds.len() ==> (#[trigger] ds[i]).0.wf() && ds[i].1.wf(),
    ensures
        rat_wf(mixture_mass(ds, k, upto)),
    decreases upto,
{
    if upto > 0 {
        lemma_mixture_wf(ds, k, upto - 1);
        ds[upto - 1].0.lemma_mass_of_wf(k);
        lemma_rat_mul_wf(ds[upto - 1].1@, ds[upto - 1].0.mass_of(k));
        lemma_rat_add_wf(
            mixture_mass(ds, k, upto - 1),
            rat_mul(ds[upto - 1].1@, ds[upto - 1].0.mass_of(k)),
        );
    }
}

/// The mass at `k` contributed by the first `j` entries of one weighted
/// mapping: the full weighted mass once `k`'s entry has been passed, zero
/// before.
pub open spec fn partial_mass<V: Key>(d: Pmf<V>, w: Rat, k: <V as View>::V, j: int) -> Rat {
    if exists|t: int| 0 <= t < j && #[trigger] d.key_at(t) == k {
        rat_mul(w, d.mass_of(k))
    } else {
        rat_zero()
    }
}

/// The chain of exact stored values the mixture accumulates at one key: per
/// contributing input, the reduced weighted term folded into the reduced
/// running mass; nothing once an intermediate no longer fits the word size.
pub open spec fn mixture_steps<V: Key>(
    ds: Seq<(Pmf<V>, Frac)>,
    k: <V as View>::V,
    upto: int,
) -> Option<Rat>
    decreases upto,
{
    if upto <= 0 {
        Some(rat_zero())
    } else {
        match mixture_steps(ds, k, upto - 1) {
            Some(m) => {
                if ds[upto - 1].0.has_key(k) {
                    let term = rat_norm(rat_mul(ds[upto - 1].1@, ds[upto - 1].0.mass_of(k)));
                    if !rat_fits(term) {
                        None
                    } else {
                        let m2 = rat_norm(rat_add_cross(m, term));
                        if rat_fits(m2) {
                            Some(m2)
                        } else {
                            None
                        }
                    }
                } else {
                    Some(m)
                }
            },
            None => None,
        }
    }
}

/// Once a mixture step fails to fit, every later step fails too.
proof fn lemma_mixture_steps_none<V: Key>(ds: Seq<(Pmf<V>, Frac)>, k: <V as View>::V, i: int, j: int)
    requires
        0 <= i <= j,
        mixture_steps(ds, k, i) is None,
    ensures
        mixture_steps(ds, k, j) is None,
    decreases j,
{
    if j > i {
        lemma_mixture_steps_none(ds, k, i, j - 1);
    }
}

/// A weighted sum of distributions: one mapping whose mass at every value is
/// the sum, over the inputs, of the input's weight times its mass there.
/// Fails if and only if some key's exact accumulation meets an intermediate
/// that does not fit the word size.
pub fn make_mixture<V: Key>(dists: &Vec<(Pmf<V>, Frac)>) -> (r: Result<Pmf<V>, Error>)
    requires
        forall|i: int|
            0 <= i < dists@.len() ==> (#[trigger] dists@[i]).0.wf() && dists@[i].1.wf(),
    ensures
        r is Err <==> exists|k: <V as View>::V|
            #[trigger] mixture_steps(dists@, k, dists@.len() as int) is None,
        match r {
            Ok(m) => m.wf() && forall|k: <V as View>::V|
                rat_eq(
                    #[trigger] m.mass_of(k),
                    mixture_mass(dists@, k, dists@.len() as int),
                ) && Some(m.mass_of(k)) == mixture_steps(dists@, k, dists@.len() as int),
            Err(e) => e == Error::Overflow,
        },
{
    let mut out = Pmf::<V>::new();
    let mut i: usize = 0;
    proof {
        assert forall|k: <V as View>::V| rat_eq(
            #[trigger] out.mass_of(k),
            mixture_mass(dists@, k, 0),
        ) && Some(#[trigger] out.mass_of(k)) == mixture_steps(dists@, k, 0) by {
            assert(!out.has_key(k));
        }
    }
    while i < dists.len()
        invariant
            forall|q: int|
                0 <= q < dists@.len() ==> (#[trigger] dists@[q]).0.wf() && dists@[q].1.wf(),
            i <= dists@.len(),
            out.wf(),
            forall|k: <V as View>::V|
                rat_eq(#[trigger] out.mass_of(k), mixture_mass(dists@, k, i as int)),
            forall|k: <V as View>::V|
                Some(#[trigger] out.mass_of(k)) == mixture_steps(dists@, k, i as int),
        decreases dists@.len() - i,
    {
        let ghost d = dists@[i as int].0;
        let ghost w = dists@[i as int].1@;
        let items = dists[i].0.items();
        let mut j: usize = 0;
        proof {
            d.lemma_wf_masses();
            assert forall|k: <V as View>::V| Some(#[trigger] out.mass_of(k)) == (if (exists|
                t: int,
            | 0 <= t < 0 && #[trigger] d.key_at(t) == k) {
                mixture_steps(dists@, k, i as int + 1)
            } else {
                mixture_steps(dists@, k, i as int)
            }) by {
            }
            assert forall|k: <V as View>::V| rat_eq(
                #[trigger] out.mass_of(k),
                rat_add(mixture_mass(dists@, k, i as int), partial_mass(d, w, k, 0)),
            ) by {
                lemma_mixture_wf(dists@, k, i as int);
                lemma_rat_add_zero(mixture_mass(dists@, k, i as int));
                lemma_rat_eq_sym(
                    rat_add(mixture_mass(dists@, k, i as int), rat_zero()),
                    mixture_mass(dists@, k, i as int),
                );
                lemma_rat_eq_trans(
                    out.mass_of(k),
                    mixture_mass(dists@, k, i as int),
                    rat_add(mixture_mass(dists@, k, i as int), rat_zero()),
                );
            }
        }
        while j < items.len()
            invariant
                forall|q: int|
                    0 <= q < dists@.len() ==> (#[trigger] dists@[q]).0.wf() && dists@[q].1.wf(),
                i < dists@.len(),
                d == dists@[i as int].0,
                w == dists@[i as int].1@,
                d.wf(),
                items@.len() == d.len(),
                forall|t: int|
                    0 <= t < items@.len() ==> (#[trigger] items@[t]).0@ == d.key_at(t)
                        && items@[t].1@ == d.mass_at(t),
                j <= items@.len(),
                out.wf(),
                forall|k: <V as View>::V|
                    rat_eq(
                        #[trigger] out.mass_of(k),
                        rat_add(mixture_mass(dists@, k, i as int), partial_mass(d, w, k, j as int)),
                    ),
                forall|k: <V as View>::V|
                    Some(#[trigger] out.mass_of(k)) == (if (exists|t: int|
                        0 <= t < j as int && #[trigger] d.key_at(t) == k) {
                        mixture_steps(dists@, k, i as int + 1)
                    } else {
                        mixture_steps(dists@, k, i as int)
                    }),
            decreases items@.len() - j,
        {
            proof {
                d.lemma_wf_masses();
                d.lemma_keys_distinct();
                assert(rat_wf(d.mass_at(j as int)));
                assert((items@[j as int].1).wf());
            }
            let term = match dists[i].1.checked_mul(&items[j].1) {
                Some(t) => t,
                None => {
                    proof {
                        let kj = d.key_at(j as int);
                        d.lemma_mass_of_at(j as int);
                        assert(!(exists|t: int|
                            0 <= t < j as int && #[trigger] d.key_at(t) == kj)) by {
                            if exists|t: int| 0 <= t < j as int && #[trigger] d.key_at(t) == kj {
                                let t = choose|t: int|
                                    0 <= t < j as int && #[trigger] d.key_at(t) == kj;
                                assert(d.key_at(t) != d.key_at(j as int));
                            }
                        }
                        assert(Some(out.mass_of(kj)) == mixture_steps(dists@, kj, i as int));
                        assert(d.has_key(kj) && d.mass_of(kj) == d.mass_at(j as int));
                        assert(!rat_fits(rat_norm(rat_mul(w, d.mass_of(kj)))));
                        assert(mixture_steps(dists@, kj, i as int + 1) is None);
                        lemma_mixture_steps_none(dists@, kj, i as int + 1, dists@.len() as int);
                    }
                    return Err(Error::Overflow);
                },
            };
            let key = items[j].0.dup();
            let ghost before = out;
            match out.incr(key, &term) {
                Ok(()) => {},
                Err(e) => {
                    proof {
                        let kj = d.key_at(j as int);
                        d.lemma_mass_of_at(j as int);
                        assert(!(exists|t: int|
                            0 <= t < j as int && #[trigger] d.key_at(t) == kj)) by {
                            if exists|t: int| 0 <= t < j as int && #[trigger] d.key_at(t) == kj {
                                let t = choose|t: int|
                                    0 <= t < j as int && #[trigger] d.key_at(t) == kj;
                                assert(d.key_at(t) != d.key_at(j as int));
                            }
                        }
                        assert(Some(before.mass_of(kj)) == mixture_steps(dists@, kj, i as int));
                        term.lemma_fits();
                        assert(term@ == rat_norm(rat_mul(w, d.mass_of(kj))));
                        assert(!rat_fits(rat_norm(rat_add_cross(before.mass_of(kj), term@))));
                        assert(mixture_steps(dists@, kj, i as int + 1) is None);
                        lemma_mixture_steps_none(dists@, kj, i as int + 1, dists@.len() as int);
                    }
                    return Err(e);
                },
            }
            proof {
                let kj = d.key_at(j as int);
                d.lemma_mass_of_at(j as int);
                assert forall|k: <V as View>::V| Some(#[trigger] out.mass_of(k)) == (if (exists|
                    t: int,
                | 0 <= t < j as int + 1 && #[trigger] d.key_at(t) == k) {
                    mixture_steps(dists@, k, i as int + 1)
                } else {
                    mixture_steps(dists@, k, i as int)
                }) by {
                    if k == kj {
                        assert(!(exists|t: int|
                            0 <= t < j as int && #[trigger] d.key_at(t) == k)) by {
                            if exists|t: int| 0 <= t < j as int && #[trigger] d.key_at(t) == k {
                                let t = choose|t: int|
                                    0 <= t < j as int && #[trigger] d.key_at(t) == k;
                                assert(d.key_at(t) != d.key_at(j as int));
                            }
                        }
                        assert(Some(before.mass_of(k)) == mixture_steps(dists@, k, i as int));
                        assert(d.has_key(k) && d.mass_of(k) == d.mass_at(j as int));
                        term.lemma_fits();
                        out.lemma_mass_of_wf(k);
                        assert(term@ == rat_norm(rat_mul(w, d.mass_of(k))));
                        assert(out.mass_of(k) == rat_norm(rat_add_cross(before.mass_of(k), term@)));
                        assert(exists|t: int|
                            0 <= t < j as int + 1 && #[trigger] d.key_at(t) == k);
                        assert(Some(out.mass_of(k)) == mixture_steps(dists@, k, i as int + 1));
                    } else {
                        assert(out.mass_of(k) == before.mass_of(k));
                        assert((exists|t: int|
                            0 <= t < j as int + 1 && #[trigger] d.key_at(t) == k) == (exists|
                            t: int,
                        | 0 <= t < j as int && #[trigger] d.key_at(t) == k)) by {
                            if exists|t: int| 0 <= t < j as int && #[trigger] d.key_at(t) == k {
                                let t = choose|t: int|
                                    0 <= t < j as int && #[trigger] d.key_at(t) == k;
                                assert(0 <= t < j as int + 1 && d.key_at(t) == k);
                            }
                            if exists|t: int|
                                0 <= t < j as int + 1 && #[trigger] d.key_at(t) == k {
                                let t = choose|t: int|
                                    0 <= t < j as int + 1 && #[trigger] d.key_at(t) == k;
                                assert(t != j as int);
                                assert(0 <= t < j as int && d.key_at(t) == k);
                            }
                        }
                    }
                }
                assert forall|k: <V as View>::V| rat_eq(
                    #[trigger] out.mass_of(k),
                    rat_add(
                        mixture_mass(dists@, k, i as int),
                        partial_mass(d, w, k, j as int + 1),
                    ),
                ) by {
                    let mix = mixture_mass(dists@, k, i as int);
                    lemma_mixture_wf(dists@, k, i as int);
                    d.lemma_mass_of_wf(k);
                    if k == kj {
                        // the entry at j is exactly k: its whole weighted mass lands now
                        assert(!(exists|t: int|
                            0 <= t < j as int && #[trigger] d.key_at(t) == k)) by {
                            if exists|t: int| 0 <= t < j as int && #[trigger] d.key_at(t) == k {
                                let t = choose|t: int|
                                    0 <= t < j as int && #[trigger] d.key_at(t) == k;
                                assert(d.key_at(t) != d.key_at(j as int));
                            }
                        }
                        assert(partial_mass(d, w, k, j as int) == rat_zero());
                        assert(exists|t: int|
                            0 <= t < j as int + 1 && #[trigger] d.key_at(t) == k);
                        assert(partial_mass(d, w, k, j as int + 1) == rat_mul(w, d.mass_of(k)));
                        // before: the mass at k was the mixture so far
                        lemma_rat_add_zero(mix);
                        lemma_rat_eq_trans(before.mass_of(k), rat_add(mix, rat_zero()), mix);
                        // incr adds exactly the weighted term
                        lemma_rat_mul_wf(w, d.mass_at(j as int));
                        lemma_rat_norm(rat_mul(w, d.mass_at(j as int)));
                        assert(rat_eq(term@, rat_mul(w, d.mass_at(j as int))));
                        before.lemma_mass_of_wf(k);
                        lemma_rat_add_wf(before.mass_of(k), term@);
                        lemma_rat_add_congr_left(before.mass_of(k), mix, term@);
                        lemma_rat_add_wf(mix, term@);
                        lemma_rat_add_congr_right(mix, term@, rat_mul(w, d.mass_of(k)));
                        lemma_rat_add_wf(mix, rat_mul(w, d.mass_of(k)));
                        lemma_rat_eq_trans(
                            out.mass_of(k),
                            rat_add(before.mass_of(k), term@),
                            rat_add(mix, term@),
                        );
                        lemma_rat_eq_trans(
                            out.mass_of(k),
                            rat_add(mix, term@),
                            rat_add(mix, rat_mul(w, d.mass_of(k))),
                        );
                    } else {
                        assert(out.mass_of(k) == before.mass_of(k));
                        assert(partial_mass(d, w, k, j as int + 1) == partial_mass(
                            d,
                            w,
                            k,
                            j as int,
                        )) by {
                            if exists|t: int| 0 <= t < j as int && #[trigger] d.key_at(t) == k {
                                let t = choose|t: int|
                                    0 <= t < j as int && #[trigger] d.key_at(t) == k;
                                assert(0 <= t < j as int + 1 && d.key_at(t) == k);
                            }
                            if exists|t: int|
                                0 <= t < j as int + 1 && #[trigger] d.key_at(t) == k {
                                let t = choose|t: int|
                                    0 <= t < j as int + 1 && #[trigger] d.key_at(t) == k;
                                assert(t != j as int);
                                assert(0 <= t < j as int && d.key_at(t) == k);
                            }
                        }
                    }
                }
            }
            j = j + 1;
        }
        proof {
            assert forall|k: <V as View>::V| Some(#[trigger] out.mass_of(k)) == mixture_steps(
                dists@,
                k,
                i as int + 1,
            ) by {
                if d.has_key(k) {
                    assert(exists|t: int|
                        0 <= t < items@.len() && #[trigger] d.key_at(t) == k) by {
                        let t = choose|t: int|
                            0 <= t < d.len() && #[trigger] d.key_at(t) == k;
                        assert(0 <= t < items@.len() && d.key_at(t) == k);
                    }
                } else {
                    assert(!(exists|t: int|
                        0 <= t < items@.len() && #[trigger] d.key_at(t) == k)) by {
                        if exists|t: int|
                            0 <= t < items@.len() && #[trigger] d.key_at(t) == k {
                            let t = choose|t: int|
                                0 <= t < items@.len() && #[trigger] d.key_at(t) == k;
                            assert(d.has_key(k));
                        }
                    }
                    assert(Some(out.mass_of(k)) == mixture_steps(dists@, k, i as int));
                }
            }
            assert forall|k: <V as View>::V| rat_eq(
                #[trigger] out.mass_of(k),
                mixture_mass(dists@, k, i as int + 1),
            ) by {
                let mix = mixture_mass(dists@, k, i as int);
                lemma_mixture_wf(dists@, k, i as int);
                d.lemma_mass_of_wf(k);
                lemma_rat_mul_wf(w, d.mass_of(k));
                assert(mixture_mass(dists@, k, i as int + 1) == rat_add(
                    mix,
                    rat_mul(w, d.mass_of(k)),
                ));
                if d.has_key(k) {
                    assert(exists|t: int|
                        0 <= t < items@.len() && #[trigger] d.key_at(t) == k) by {
                        let t = choose|t: int|
                            0 <= t < d.len() && #[trigger] d.key_at(t) == k;
                        assert(0 <= t < items@.len() && d.key_at(t) == k);
                    }
                    assert(partial_mass(d, w, k, items@.len() as int) == rat_mul(
                        w,
                        d.mass_of(k),
                    ));
                } else {
                    assert(partial_mass(d, w, k, items@.len() as int) == rat_zero()) by {
                        if exists|t: int|
                            0 <= t < items@.len() && #[trigger] d.key_at(t) == k {
                            let t = choose|t: int|
                                0 <= t < items@.len() && #[trigger] d.key_at(t) == k;
                            assert(d.has_key(k));
                        }
                    }
                    assert(d.mass_of(k) == rat_zero());
                    assert(rat_mul(w, rat_zero()).n == w.n * 0);
                    lemma_rat_add_zero(mix);
                    lemma_rat_add_zero_num(mix, rat_mul(w, rat_zero()));
                    lemma_rat_eq_sym(rat_add(mix, rat_mul(w, d.mass_of(k))), mix);
                    lemma_rat_add_wf(mix, rat_zero());
                    lemma_rat_eq_trans(
                        out.mass_of(k),
                        rat_add(mix, rat_zero()),
                        mix,
                    );
                    lemma_rat_eq_trans(
                        out.mass_of(k),
                        mix,
                        rat_add(mix, rat_mul(w, d.mass_of(k))),
                    );
                }
            }
        }
        i = i + 1;
    }
    proof {
        assert forall|k: <V as View>::V| #[trigger] mixture_steps(
            dists@,
            k,
            dists@.len() as int,
        ) is Some by {
            assert(Some(out.mass_of(k)) == mixture_steps(dists@, k, dists@.len() as int));
        }
    }
    Ok(out)
}

} // verus!
