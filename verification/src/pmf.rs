//! The probability mass function: a mutable mapping from discrete values to
//! non-negative rational masses. Keys are unique; masses need not sum to one
//! until `normalize` is called.

use crate::frac::Frac;
use crate::rat::{
    lemma_rat_add_congr_left, lemma_rat_add_congr_right, lemma_rat_add_wf, lemma_rat_div_wf,
    lemma_rat_eq_sym, lemma_rat_eq_trans, lemma_rat_le_trans, lemma_rat_mul_congr,
    lemma_rat_mul_div_cancel, lemma_rat_mul_wf, lemma_rat_norm, lemma_seq_sum_congr,
    lemma_seq_sum_scale, lemma_seq_sum_wf, rat_add, rat_add_cross, rat_div, rat_eq, rat_fits,
    rat_from_int, rat_le, rat_mul, rat_norm, rat_wf, rat_zero, rescale_overflows, scale_seq,
    seq_sum, sum_steps, sum_steps_zero, Rat,
};
use crate::Error;
use vstd::prelude::*;

verus! {

/// A discrete value usable as a `Pmf` key: it can be compared and copied,
/// and both operations are exact on the key's model (its view).
pub trait Key: View + Sized {
    /// Decides whether two keys stand for the same model value.
    fn key_eq(&self, other: &Self) -> (r: bool)
        ensures
            r == (self@ == other@),
    ;

    /// An owned key with the same model value.
    fn dup(&self) -> (r: Self)
        ensures
            r@ == self@,
    ;
}

impl Key for u64 {
    fn key_eq(&self, other: &Self) -> (r: bool) {
        *self == *other
    }

    fn dup(&self) -> (r: Self) {
        *self
    }
}

impl Key for u32 {
    fn key_eq(&self, other: &Self) -> (r: bool) {
        *self == *other
    }

    fn dup(&self) -> (r: Self) {
        *self
    }
}

impl Key for char {
    fn key_eq(&self, other: &Self) -> (r: bool) {
        *self == *other
    }

    fn dup(&self) -> (r: Self) {
        *self
    }
}

impl Key for String {
    fn key_eq(&self, other: &Self) -> (r: bool) {
        self.eq(other)
    }

    fn dup(&self) -> (r: Self) {
        self.clone()
    }
}

/// A probability mass function over values of type `V`.
pub struct Pmf<V: Key> {
    ks: Vec<V>,
    ms: Vec<Frac>,
}

impl<V: Key> Pmf<V> {
    /// The number of entries.
    pub closed spec fn len(self) -> nat {
        self.ks@.len()
    }

    /// The model of the key stored at an index.
    pub closed spec fn key_at(self, i: int) -> <V as View>::V {
        self.ks@[i]@
    }

    /// The mass stored at an index.
    pub closed spec fn mass_at(self, i: int) -> Rat {
        self.ms@[i]@
    }

    /// Keys and masses pair up, keys are distinct, masses are well-formed.
    pub closed spec fn wf(self) -> bool {
        &&& self.ks@.len() == self.ms@.len()
        &&& forall|i: int, j: int|
            0 <= i < j < self.ks@.len() ==> self.key_at(i) != self.key_at(j)
        &&& forall|i: int| 0 <= i < self.ks@.len() ==> rat_wf(#[trigger] self.mass_at(i))
    }

    /// Whether some entry's key has this model value.
    pub open spec fn has_key(self, k: <V as View>::V) -> bool {
        exists|i: int| 0 <= i < self.len() && self.key_at(i) == k
    }

    /// The index of the entry with this key.
    pub open spec fn index_of(self, k: <V as View>::V) -> int {
        choose|i: int| 0 <= i < self.len() && self.key_at(i) == k
    }

    /// The mass at a key: the stored mass when present, zero otherwise.
    pub open spec fn mass_of(self, k: <V as View>::V) -> Rat {
        if self.has_key(k) {
            self.mass_at(self.index_of(k))
        } else {
            rat_zero()
        }
    }

    /// All masses, in storage order.
    pub open spec fn masses(self) -> Seq<Rat> {
        Seq::new(self.len(), |i: int| self.mass_at(i))
    }

    /// The total mass.
    pub open spec fn total_rat(self) -> Rat {
        seq_sum(self.masses())
    }

    /// A well-formed mapping holds only well-formed masses.
    pub proof fn lemma_wf_masses(self)
        requires
            self.wf(),
        ensures
            forall|i: int| 0 <= i < self.len() ==> rat_wf(#[trigger] self.mass_at(i)),
    {
    }

    /// A well-formed mapping's keys are pairwise distinct.
    pub proof fn lemma_keys_distinct(self)
        requires
            self.wf(),
        ensures
            forall|i: int, j: int|
                0 <= i < j < self.len() ==> self.key_at(i) != self.key_at(j),
    {
    }

    /// The mass at any key of a well-formed mapping is well-formed, and its
    /// stored representation fits the word size.
    pub proof fn lemma_mass_of_wf(self, k: <V as View>::V)
        requires
            self.wf(),
        ensures
            rat_wf(self.mass_of(k)),
            rat_fits(self.mass_of(k)),
    {
        if self.has_key(k) {
            let i = self.index_of(k);
            assert(0 <= i < self.len() && self.key_at(i) == k);
            self.ms[i].lemma_fits();
        }
    }

    /// With distinct keys, the mass at an index's key is the mass at that index.
    pub proof fn lemma_mass_of_at(self, i: int)
        requires
            self.wf(),
            0 <= i < self.len(),
        ensures
            self.has_key(self.key_at(i)),
            self.mass_of(self.key_at(i)) == self.mass_at(i),
            self.index_of(self.key_at(i)) == i,
    {
        let k = self.key_at(i);
        assert(self.has_key(k));
        let j = self.index_of(k);
        if j != i {
            assert(self.key_at(i) != self.key_at(j));
        }
    }

    /// An empty mapping.
    pub fn new() -> (r: Pmf<V>)
        ensures
            r.wf(),
            r.len() == 0,
    {
        Pmf { ks: Vec::new(), ms: Vec::new() }
    }

    /// The keys, in storage order.
    pub fn values(&self) -> (r: Vec<V>)
        ensures
            r@.len() == self.len(),
            forall|i: int| 0 <= i < r@.len() ==> #[trigger] r@[i]@ == self.key_at(i),
    {
        let mut out: Vec<V> = Vec::new();
        let mut i: usize = 0;
        while i < self.ks.len()
            invariant
                i <= self.ks@.len(),
                out@.len() == i,
                forall|j: int| 0 <= j < i ==> #[trigger] out@[j]@ == self.key_at(j),
            decreases self.ks@.len() - i,
        {
            out.push(self.ks[i].dup());
            i = i + 1;
        }
        out
    }

    /// The (key, mass) pairs, in storage order.
    pub fn items(&self) -> (r: Vec<(V, Frac)>)
        requires
            self.wf(),
        ensures
            r@.len() == self.len(),
            forall|i: int|
                0 <= i < r@.len() ==> (#[trigger] r@[i]).0@ == self.key_at(i) && r@[i].1@
                    == self.mass_at(i),
    {
        let mut out: Vec<(V, Frac)> = Vec::new();
        let mut i: usize = 0;
        while i < self.ks.len()
            invariant
                self.wf(),
                i <= self.ks@.len(),
                out@.len() == i,
                forall|j: int|
                    0 <= j < i ==> (#[trigger] out@[j]).0@ == self.key_at(j) && out@[j].1@
                        == self.mass_at(j),
            decreases self.ks@.len() - i,
        {
            out.push((self.ks[i].dup(), self.ms[i]));
            i = i + 1;
        }
        out
    }

    /// The index holding a key, if any.
    fn find(&self, x: &V) -> (r: Option<usize>)
        ensures
            match r {
                Some(i) => i < self.len() && self.key_at(i as int) == x@,
                None => !self.has_key(x@),
            },
    {
        let mut i: usize = 0;
        while i < self.ks.len()
            invariant
                i <= self.ks@.len(),
                forall|j: int| 0 <= j < i ==> #[trigger] self.key_at(j) != x@,
            decreases self.ks@.len() - i,
        {
            if self.ks[i].key_eq(x) {
                return Some(i);
            }
            i = i + 1;
        }
        None
    }

    /// The mass at `x`, or `default` when `x` is absent.
    pub fn prob(&self, x: &V, default: &Frac) -> (r: Frac)
        requires
            self.wf(),
        ensures
            r@ == (if self.has_key(x@) {
                self.mass_of(x@)
            } else {
                default@
            }),
    {
        match self.find(x) {
            Some(i) => {
                proof {
                    self.lemma_mass_of_at(i as int);
                }
                self.ms[i]
            },
            None => *default,
        }
    }

    /// Overwrites (or inserts) the mass at `x`.
    pub fn set(&mut self, x: V, m: Frac)
        requires
            old(self).wf(),
            m.wf(),
        ensures
            final (self).wf(),
            final (self).has_key(x@),
            final (self).mass_of(x@) == m@,
            forall|k: <V as View>::V|
                k != x@ ==> #[trigger] final (self).has_key(k) == old(self).has_key(k)
                    && final (self).mass_of(k) == old(self).mass_of(k),
            final (self).len() == old(self).len() + (if old(self).has_key(x@) {
                0int
            } else {
                1int
            }),
    {
        let ghost prev = *self;
        match self.find(&x) {
            Some(i) => {
                self.ms.set(i, m);
                proof {
                    assert(forall|j: int|
                        0 <= j < self.len() ==> #[trigger] self.key_at(j) == prev.key_at(j));
                    assert(forall|j: int|
                        0 <= j < self.len() && j != i ==> #[trigger] self.mass_at(j)
                            == prev.mass_at(j));
                    self.lemma_mass_of_at(i as int);
                    assert forall|k: <V as View>::V| k != x@ implies #[trigger] self.has_key(k)
                        == prev.has_key(k) && self.mass_of(k) == prev.mass_of(k) by {
                        if prev.has_key(k) {
                            let j = prev.index_of(k);
                            prev.lemma_mass_of_at(j);
                            assert(self.key_at(j) == k);
                            self.lemma_mass_of_at(j);
                        }
                        if self.has_key(k) {
                            let j = self.index_of(k);
                            self.lemma_mass_of_at(j);
                            assert(prev.key_at(j) == k);
                            prev.lemma_mass_of_at(j);
                        }
                    }
                }
            },
            None => {
                let ghost n = prev.len() as int;
                self.ks.push(x);
                self.ms.push(m);
                proof {
                    assert(forall|j: int|
                        0 <= j < n ==> #[trigger] self.key_at(j) == prev.key_at(j));
                    assert(forall|j: int|
                        0 <= j < n ==> #[trigger] self.mass_at(j) == prev.mass_at(j));
                    assert(self.key_at(n) == x@ && self.mass_at(n) == m@);
                    assert(self.wf());
                    self.lemma_mass_of_at(n);
                    assert forall|k: <V as View>::V| k != x@ implies #[trigger] self.has_key(k)
                        == prev.has_key(k) && self.mass_of(k) == prev.mass_of(k) by {
                        if prev.has_key(k) {
                            let j = prev.index_of(k);
                            prev.lemma_mass_of_at(j);
                            assert(self.key_at(j) == k);
                            self.lemma_mass_of_at(j);
                        }
                        if self.has_key(k) {
                            let j = self.index_of(k);
                            self.lemma_mass_of_at(j);
                            assert(j != n);
                            assert(prev.key_at(j) == k);
                            prev.lemma_mass_of_at(j);
                        }
                    }
                }
            },
        }
    }

    /// Adds `term` to the mass at `x`, inserting with base zero when absent.
    /// Fails, leaving the mapping untouched, exactly when the reduced new
    /// mass does not fit the word size.
    pub fn incr(&mut self, x: V, term: &Frac) -> (r: Result<(), Error>)
        requires
            old(self).wf(),
            term.wf(),
        ensures
            match r {
                Ok(()) => final (self).wf() && final (self).has_key(x@) && final (self).mass_of(x@)
                    == rat_norm(rat_add_cross(old(self).mass_of(x@), term@)) && rat_eq(
                    final (self).mass_of(x@),
                    rat_add(old(self).mass_of(x@), term@),
                ) && (forall|k: <V as View>::V|
                    k != x@ ==> #[trigger] final (self).has_key(k) == old(self).has_key(k)
                        && final (self).mass_of(k) == old(self).mass_of(k)) && final (self).len()
                    == old(self).len() + (if old(self).has_key(x@) {
                    0int
                } else {
                    1int
                }),
                Err(e) => e == Error::Overflow && *final (self) == *old(self) && !rat_fits(
                    rat_norm(rat_add_cross(old(self).mass_of(x@), term@)),
                ),
            },
    {
        let cur = match self.find(&x) {
            Some(i) => {
                proof {
                    self.lemma_mass_of_at(i as int);
                }
                self.ms[i]
            },
            None => Frac::zero(),
        };
        match cur.checked_add(term) {
            Some(f) => {
                self.set(x, f);
                Ok(())
            },
            None => Err(Error::Overflow),
        }
    }

    /// Multiplies the mass at `x` by `factor`, inserting with base zero when
    /// absent (so scaling an absent key yields zero, not an error). Fails,
    /// leaving the mapping untouched, exactly when the reduced new mass does
    /// not fit the word size.
    pub fn mult(&mut self, x: V, factor: &Frac) -> (r: Result<(), Error>)
        requires
            old(self).wf(),
            factor.wf(),
        ensures
            match r {
                Ok(()) => final (self).wf() && final (self).has_key(x@) && final (self).mass_of(x@)
                    == rat_norm(rat_mul(old(self).mass_of(x@), factor@)) && rat_eq(
                    final (self).mass_of(x@),
                    rat_mul(old(self).mass_of(x@), factor@),
                ) && (forall|k: <V as View>::V|
                    k != x@ ==> #[trigger] final (self).has_key(k) == old(self).has_key(k)
                        && final (self).mass_of(k) == old(self).mass_of(k)) && final (self).len()
                    == old(self).len() + (if old(self).has_key(x@) {
                    0int
                } else {
                    1int
                }),
                Err(e) => e == Error::Overflow && *final (self) == *old(self) && !rat_fits(
                    rat_norm(rat_mul(old(self).mass_of(x@), factor@)),
                ),
            },
    {
        let cur = match self.find(&x) {
            Some(i) => {
                proof {
                    self.lemma_mass_of_at(i as int);
                }
                self.ms[i]
            },
            None => Frac::zero(),
        };
        match cur.checked_mul(factor) {
            Some(f) => {
                proof {
                    lemma_rat_mul_wf(cur@, factor@);
                    lemma_rat_norm(rat_mul(cur@, factor@));
                }
                self.set(x, f);
                Ok(())
            },
            None => Err(Error::Overflow),
        }
    }

    /// The sum of all masses: the exact running total in reduced form. Fails
    /// if and only if some reduced partial sum does not fit the word size.
    pub fn total(&self) -> (r: Result<Frac, Error>)
        requires
            self.wf(),
        ensures
            r is Err <==> sum_steps(self.masses()) is None,
            match r {
                Ok(t) => t.wf() && Some(t@) == sum_steps(self.masses()) && rat_eq(
                    t@,
                    self.total_rat(),
                ),
                Err(e) => e == Error::Overflow,
            },
    {
        let mut acc = Frac::zero();
        let mut i: usize = 0;
        proof {
            assert(self.masses().take(0) =~= Seq::<Rat>::empty());
        }
        while i < self.ms.len()
            invariant
                self.wf(),
                i <= self.ms@.len(),
                acc.wf(),
                Some(acc@) == sum_steps(self.masses().take(i as int)),
            decreases self.ms@.len() - i,
        {
            let ghost pre = self.masses().take(i as int);
            let ghost post = self.masses().take(i as int + 1);
            proof {
                assert(rat_wf(self.mass_at(i as int)));
                assert(self.ms@[i as int]@ == self.mass_at(i as int));
                assert(post.drop_last() =~= pre);
                assert(post.last() == self.mass_at(i as int));
            }
            match acc.checked_add(&self.ms[i]) {
                Some(f) => {
                    proof {
                        f.lemma_fits();
                        assert(f@ == rat_norm(rat_add_cross(acc@, self.mass_at(i as int))));
                        assert(sum_steps(post) == Some(f@));
                    }
                    acc = f;
                },
                None => {
                    proof {
                        assert(sum_steps(post) is None);
                        crate::rat::lemma_sum_steps_prefix_none(self.masses(), i as int + 1);
                    }
                    return Err(Error::Overflow);
                },
            }
            i = i + 1;
        }
        proof {
            assert(self.masses().take(self.ms@.len() as int) =~= self.masses());
            assert forall|j: int| 0 <= j < self.masses().len() implies rat_wf(
                #[trigger] self.masses()[j],
            ) by {
                assert(self.masses()[j] == self.mass_at(j));
            }
            crate::rat::lemma_sum_steps_eq(self.masses(), acc@);
        }
        Ok(acc)
    }

    /// Rescales every mass so the total becomes `fraction`, and returns the
    /// total before rescaling — the normalizing constant. Fails if and only
    /// if the total is exactly zero (`Error::Domain`) or some exact
    /// intermediate does not fit the word size (`Error::Overflow`); every
    /// failure leaves the mapping untouched.
    pub fn normalize(&mut self, fraction: &Frac) -> (r: Result<Frac, Error>)
        requires
            old(self).wf(),
            fraction.wf(),
        ensures
            r is Err <==> sum_steps_zero(old(self).masses()) || rescale_overflows(
                old(self).masses(),
                fraction@,
            ),
            match r {
                Ok(t) => t.wf() && Some(t@) == sum_steps(old(self).masses()) && rat_eq(
                    t@,
                    old(self).total_rat(),
                ) && !rat_eq(t@, rat_zero()) && final (self).wf() && final (self).len() == old(
                    self,
                ).len() && (forall|i: int|
                    0 <= i < old(self).len() ==> #[trigger] final (self).key_at(i) == old(
                        self,
                    ).key_at(i)) && (forall|i: int|
                    0 <= i < old(self).len() ==> rat_eq(
                        #[trigger] final (self).mass_at(i),
                        rat_mul(old(self).mass_at(i), rat_div(fraction@, t@)),
                    )) && rat_eq(final (self).total_rat(), fraction@),
                Err(e) => *final (self) == *old(self) && ((e == Error::Domain && sum_steps_zero(
                    old(self).masses(),
                ) && rat_eq(old(self).total_rat(), rat_zero())) || (e == Error::Overflow
                    && rescale_overflows(old(self).masses(), fraction@))),
            },
    {
        let t = match self.total() {
            Ok(t) => t,
            Err(e) => {
                return Err(e);
            },
        };
        if t.is_zero() {
            proof {
                lemma_rat_eq_sym(t@, rat_zero());
                lemma_rat_eq_sym(t@, self.total_rat());
                lemma_rat_eq_trans(self.total_rat(), t@, rat_zero());
            }
            return Err(Error::Domain);
        }
        let factor = match fraction.checked_div(&t) {
            Some(f) => f,
            None => {
                return Err(Error::Overflow);
            },
        };
        proof {
            assert(t@.n >= 1);
            lemma_rat_div_wf(fraction@, t@);
            lemma_rat_norm(rat_div(fraction@, t@));
            factor.lemma_fits();
        }
        let mut new_ms: Vec<Frac> = Vec::new();
        let mut i: usize = 0;
        while i < self.ms.len()
            invariant
                self.wf(),
                fraction.wf(),
                t.wf(),
                factor.wf(),
                t@.n >= 1,
                Some(t@) == sum_steps(self.masses()),
                factor@ == rat_norm(rat_div(fraction@, t@)),
                i <= self.ms@.len(),
                new_ms@.len() == i,
                forall|j: int|
                    0 <= j < i ==> (#[trigger] new_ms@[j])@ == rat_norm(
                        rat_mul(self.mass_at(j), factor@),
                    ) && new_ms@[j].wf(),
                forall|j: int|
                    0 <= j < i ==> rat_fits(
                        rat_norm(
                            rat_mul(
                                #[trigger] self.mass_at(j),
                                rat_norm(rat_div(fraction@, t@)),
                            ),
                        ),
                    ),
            decreases self.ms@.len() - i,
        {
            proof {
                assert(rat_wf(self.mass_at(i as int)));
                assert(self.ms@[i as int]@ == self.mass_at(i as int));
            }
            match self.ms[i].checked_mul(&factor) {
                Some(f) => {
                    proof {
                        f.lemma_fits();
                    }
                    new_ms.push(f);
                },
                None => {
                    proof {
                        assert(!rat_fits(
                            rat_norm(rat_mul(self.mass_at(i as int), factor@)),
                        ));
                        assert(self.masses()[i as int] == self.mass_at(i as int));
                        assert(rescale_overflows(self.masses(), fraction@));
                    }
                    return Err(Error::Overflow);
                },
            }
            i = i + 1;
        }
        proof {
            // no exact intermediate failed to fit
            assert forall|j: int| 0 <= j < self.masses().len() implies rat_fits(
                rat_norm(
                    rat_mul(#[trigger] self.masses()[j], rat_norm(rat_div(fraction@, t@))),
                ),
            ) by {
                assert(self.masses()[j] == self.mass_at(j));
            }
            assert(!rescale_overflows(self.masses(), fraction@));
            assert(!sum_steps_zero(self.masses()));
        }
        let ghost prev = *self;
        self.ms = new_ms;
        proof {
            assert(forall|j: int|
                0 <= j < self.len() ==> #[trigger] self.key_at(j) == prev.key_at(j));
            assert forall|j: int| 0 <= j < self.len() implies rat_wf(
                #[trigger] self.mass_at(j),
            ) by {
                lemma_rat_mul_wf(prev.mass_at(j), factor@);
                lemma_rat_norm(rat_mul(prev.mass_at(j), factor@));
            }
            assert(self.wf());
            assert forall|j: int| 0 <= j < self.len() implies rat_eq(
                #[trigger] self.mass_at(j),
                rat_mul(prev.mass_at(j), rat_div(fraction@, t@)),
            ) by {
                lemma_rat_mul_wf(prev.mass_at(j), factor@);
                lemma_rat_norm(rat_mul(prev.mass_at(j), factor@));
                lemma_rat_mul_congr(
                    prev.mass_at(j),
                    prev.mass_at(j),
                    factor@,
                    rat_div(fraction@, t@),
                );
                lemma_rat_eq_trans(
                    self.mass_at(j),
                    rat_mul(prev.mass_at(j), factor@),
                    rat_mul(prev.mass_at(j), rat_div(fraction@, t@)),
                );
            }
            self.lemma_normalize_total(prev, t@, factor@, fraction@);
        }
        Ok(t)
    }

    /// The scaled masses sum to the requested fraction: the heart of
    /// normalization.
    proof fn lemma_normalize_total(self, prev: Pmf<V>, t: Rat, factor: Rat, fraction: Rat)
        requires
            self.wf(),
            prev.wf(),
            rat_wf(t),
            rat_wf(factor),
            rat_wf(fraction),
            t.n >= 1,
            rat_eq(t, prev.total_rat()),
            rat_eq(factor, rat_div(fraction, t)),
            self.len() == prev.len(),
            forall|j: int|
                0 <= j < self.len() ==> #[trigger] self.mass_at(j) == rat_norm(
                    rat_mul(prev.mass_at(j), factor),
                ),
        ensures
            rat_eq(self.total_rat(), fraction),
    {
        let pm = prev.masses();
        let sm = self.masses();
        let scaled = scale_seq(pm, factor);
        assert forall|j: int| 0 <= j < pm.len() implies rat_wf(#[trigger] pm[j]) by {
            assert(pm[j] == prev.mass_at(j));
        }
        assert forall|j: int| 0 <= j < sm.len() implies rat_wf(#[trigger] sm[j]) by {
            assert(sm[j] == self.mass_at(j));
            lemma_rat_mul_wf(prev.mass_at(j), factor);
            lemma_rat_norm(rat_mul(prev.mass_at(j), factor));
        }
        assert forall|j: int| 0 <= j < scaled.len() implies rat_wf(#[trigger] scaled[j]) by {
            assert(scaled[j] == rat_mul(pm[j], factor));
            lemma_rat_mul_wf(prev.mass_at(j), factor);
        }
        assert forall|j: int| 0 <= j < sm.len() implies rat_eq(#[trigger] sm[j], scaled[j]) by {
            assert(sm[j] == self.mass_at(j));
            assert(scaled[j] == rat_mul(pm[j], factor));
            lemma_rat_mul_wf(prev.mass_at(j), factor);
            lemma_rat_norm(rat_mul(prev.mass_at(j), factor));
        }
        lemma_seq_sum_congr(sm, scaled);
        lemma_seq_sum_scale(pm, factor);
        lemma_seq_sum_wf(pm);
        lemma_seq_sum_wf(sm);
        lemma_seq_sum_wf(scaled);
        lemma_rat_mul_wf(seq_sum(pm), factor);
        lemma_rat_eq_trans(seq_sum(sm), seq_sum(scaled), rat_mul(seq_sum(pm), factor));
        // replace the total by t and the factor by fraction / t, then cancel
        lemma_rat_eq_sym(t, seq_sum(pm));
        lemma_rat_div_wf(fraction, t);
        lemma_rat_mul_congr(seq_sum(pm), t, factor, rat_div(fraction, t));
        lemma_rat_mul_wf(t, rat_div(fraction, t));
        lemma_rat_eq_trans(
            seq_sum(sm),
            rat_mul(seq_sum(pm), factor),
            rat_mul(t, rat_div(fraction, t)),
        );
        lemma_rat_mul_div_cancel(t, fraction);
        lemma_rat_eq_trans(seq_sum(sm), rat_mul(t, rat_div(fraction, t)), fraction);
    }

    /// A key carrying the greatest mass; the tie-break among equal masses is
    /// unspecified. Fails exactly on an empty mapping.
    pub fn maximum_likelihood(&self) -> (r: Result<V, Error>)
        requires
            self.wf(),
        ensures
            r is Err <==> self.len() == 0,
            match r {
                Ok(v) => exists|i: int|
                    0 <= i < self.len() && #[trigger] self.key_at(i) == v@ && forall|j: int|
                        0 <= j < self.len() ==> rat_le(#[trigger] self.mass_at(j), self.mass_at(i)),
                Err(e) => e == Error::EmptyCollection,
            },
    {
        if self.ks.len() == 0 {
            return Err(Error::EmptyCollection);
        }
        let mut best: usize = 0;
        let mut i: usize = 1;
        while i < self.ms.len()
            invariant
                self.wf(),
                best < i <= self.ms@.len(),
                forall|j: int| 0 <= j < i ==> rat_le(#[trigger] self.mass_at(j), self.mass_at(best as int)),
            decreases self.ms@.len() - i,
        {
            proof {
                assert(rat_wf(self.mass_at(best as int)) && rat_wf(self.mass_at(i as int)));
                assert(self.ms@[best as int]@ == self.mass_at(best as int));
                assert(self.ms@[i as int]@ == self.mass_at(i as int));
            }
            if self.ms[best].le(&self.ms[i]) {
                proof {
                    assert forall|j: int| 0 <= j < i + 1 implies rat_le(
                        #[trigger] self.mass_at(j),
                        self.mass_at(i as int),
                    ) by {
                        if j < i {
                            lemma_rat_le_trans(
                                self.mass_at(j),
                                self.mass_at(best as int),
                                self.mass_at(i as int),
                            );
                        }
                    }
                }
                best = i;
            }
            i = i + 1;
        }
        let v = self.ks[best].dup();
        proof {
            assert(v@ == self.key_at(best as int));
        }
        Ok(v)
    }

    /// Scales the mass at every index by the aligned factor, all or nothing:
    /// a failure leaves the mapping untouched, and happens if and only if
    /// some reduced scaled mass does not fit the word size.
    pub fn scale_masses(&mut self, factors: &Vec<Frac>) -> (r: Result<(), Error>)
        requires
            old(self).wf(),
            factors@.len() == old(self).len(),
            forall|i: int| 0 <= i < factors@.len() ==> (#[trigger] factors@[i]).wf(),
        ensures
            r is Err <==> exists|i: int|
                0 <= i < old(self).len() && !rat_fits(
                    rat_norm(rat_mul(#[trigger] old(self).mass_at(i), factors@[i]@)),
                ),
            match r {
                Ok(()) => final (self).wf() && final (self).len() == old(self).len() && (forall|
                    i: int,
                |
                    0 <= i < old(self).len() ==> #[trigger] final (self).key_at(i) == old(
                        self,
                    ).key_at(i)) && (forall|i: int|
                    0 <= i < old(self).len() ==> #[trigger] final (self).mass_at(i) == rat_norm(
                        rat_mul(old(self).mass_at(i), factors@[i]@),
                    ) && rat_eq(
                        final (self).mass_at(i),
                        rat_mul(old(self).mass_at(i), factors@[i]@),
                    )),
                Err(e) => e == Error::Overflow && *final (self) == *old(self),
            },
    {
        let mut new_ms: Vec<Frac> = Vec::new();
        let mut i: usize = 0;
        while i < self.ms.len()
            invariant
                self.wf(),
                factors@.len() == self.len(),
                forall|j: int| 0 <= j < factors@.len() ==> (#[trigger] factors@[j]).wf(),
                i <= self.ms@.len(),
                new_ms@.len() == i,
                forall|j: int|
                    0 <= j < i ==> (#[trigger] new_ms@[j])@ == rat_norm(
                        rat_mul(self.mass_at(j), factors@[j]@),
                    ) && new_ms@[j].wf(),
                forall|j: int|
                    0 <= j < i ==> rat_fits(
                        rat_norm(rat_mul(#[trigger] self.mass_at(j), factors@[j]@)),
                    ),
            decreases self.ms@.len() - i,
        {
            proof {
                assert(rat_wf(self.mass_at(i as int)));
                assert(self.ms@[i as int]@ == self.mass_at(i as int));
                assert((factors@[i as int]).wf());
            }
            match self.ms[i].checked_mul(&factors[i]) {
                Some(f) => {
                    proof {
                        f.lemma_fits();
                    }
                    new_ms.push(f);
                },
                None => {
                    return Err(Error::Overflow);
                },
            }
            i = i + 1;
        }
        let ghost prev = *self;
        self.ms = new_ms;
        proof {
            assert(forall|j: int|
                0 <= j < self.len() ==> #[trigger] self.key_at(j) == prev.key_at(j));
            assert forall|j: int| 0 <= j < self.len() implies rat_wf(
                #[trigger] self.mass_at(j),
            ) by {
                lemma_rat_mul_wf(prev.mass_at(j), factors@[j]@);
                lemma_rat_norm(rat_mul(prev.mass_at(j), factors@[j]@));
            }
            assert(self.wf());
            assert forall|j: int| 0 <= j < prev.len() implies rat_eq(
                #[trigger] self.mass_at(j),
                rat_mul(prev.mass_at(j), factors@[j]@),
            ) by {
                lemma_rat_mul_wf(prev.mass_at(j), factors@[j]@);
                lemma_rat_norm(rat_mul(prev.mass_at(j), factors@[j]@));
            }
        }
        Ok(())
    }
}

impl Pmf<u64> {
    /// Each key weighted by its mass, in storage order.
    pub open spec fn weighted(self) -> Seq<Rat> {
        Seq::new(self.len(), |i: int| rat_mul(rat_from_int(self.key_at(i) as int), self.mass_at(i)))
    }

    /// The chain of exact steps the weighted summation runs: each term is the
    /// reduced key-times-mass product, folded into a reduced running sum;
    /// nothing once an intermediate no longer fits the word size.
    pub open spec fn mean_steps(self, i: int) -> Option<Rat>
        decreases i,
    {
        if i <= 0 {
            Some(rat_zero())
        } else {
            match self.mean_steps(i - 1) {
                Some(acc) => {
                    let w = rat_norm(
                        rat_mul(rat_from_int(self.key_at(i - 1) as int), self.mass_at(i - 1)),
                    );
                    if !rat_fits(w) {
                        None
                    } else {
                        let m = rat_norm(rat_add_cross(acc, w));
                        if rat_fits(m) {
                            Some(m)
                        } else {
                            None
                        }
                    }
                },
                None => None,
            }
        }
    }

    /// Once a weighted-sum step fails to fit, the whole summation fails.
    proof fn lemma_mean_steps_none(self, i: int, k: int)
        requires
            0 <= i <= k,
            self.mean_steps(i) is None,
        ensures
            self.mean_steps(k) is None,
        decreases k,
    {
        if k > i {
            self.lemma_mean_steps_none(i, k - 1);
        }
    }

    /// The sum of key times mass over all entries — the expectation once the
    /// mapping is normalized. Fails if and only if an exact intermediate does
    /// not fit the word size.
    pub fn mean(&self) -> (r: Result<Frac, Error>)
        requires
            self.wf(),
        ensures
            r is Err <==> self.mean_steps(self.len() as int) is None,
            match r {
                Ok(f) => f.wf() && Some(f@) == self.mean_steps(self.len() as int) && rat_eq(
                    f@,
                    seq_sum(self.weighted()),
                ),
                Err(e) => e == Error::Overflow,
            },
    {
        let mut acc = Frac::zero();
        let mut i: usize = 0;
        proof {
            assert(self.weighted().take(0) =~= Seq::<Rat>::empty());
        }
        while i < self.ms.len()
            invariant
                self.wf(),
                self.ks@.len() == self.ms@.len(),
                i <= self.ms@.len(),
                acc.wf(),
                Some(acc@) == self.mean_steps(i as int),
                rat_eq(acc@, seq_sum(self.weighted().take(i as int))),
            decreases self.ms@.len() - i,
        {
            let ghost pre = self.weighted().take(i as int);
            let ghost post = self.weighted().take(i as int + 1);
            let ghost wi = self.weighted()[i as int];
            proof {
                assert(rat_wf(self.mass_at(i as int)));
                assert(self.ms@[i as int]@ == self.mass_at(i as int));
            }
            let w = Frac::from_u64(self.ks[i]);
            let term = match w.checked_mul(&self.ms[i]) {
                Some(t) => t,
                None => {
                    proof {
                        assert(self.mean_steps(i as int + 1) is None);
                        self.lemma_mean_steps_none(i as int + 1, self.len() as int);
                    }
                    return Err(Error::Overflow);
                },
            };
            proof {
                assert(wi == rat_mul(rat_from_int(self.key_at(i as int) as int), self.mass_at(
                    i as int,
                )));
                lemma_rat_mul_wf(w@, self.mass_at(i as int));
                lemma_rat_norm(rat_mul(w@, self.mass_at(i as int)));
                // term stands for the weighted entry
                assert(rat_eq(term@, wi));
            }
            match acc.checked_add(&term) {
                Some(f) => {
                    proof {
                        term.lemma_fits();
                        f.lemma_fits();
                        assert(Some(f@) == self.mean_steps(i as int + 1));
                        assert forall|j: int| 0 <= j < pre.len() implies rat_wf(
                            #[trigger] pre[j],
                        ) by {
                            assert(pre[j] == self.weighted()[j]);
                            lemma_rat_mul_wf(
                                rat_from_int(self.key_at(j) as int),
                                self.mass_at(j),
                            );
                        }
                        lemma_seq_sum_wf(pre);
                        lemma_rat_add_wf(acc@, term@);
                        lemma_rat_add_congr_left(acc@, seq_sum(pre), term@);
                        lemma_rat_add_wf(seq_sum(pre), term@);
                        lemma_rat_add_congr_right(seq_sum(pre), term@, wi);
                        assert(post.drop_last() =~= pre);
                        assert(post.last() == wi);
                        assert(seq_sum(post) == rat_add(seq_sum(pre), wi));
                        lemma_rat_eq_trans(
                            rat_add(acc@, term@),
                            rat_add(seq_sum(pre), term@),
                            seq_sum(post),
                        );
                        lemma_rat_eq_trans(f@, rat_add(acc@, term@), seq_sum(post));
                    }
                    acc = f;
                },
                None => {
                    proof {
                        term.lemma_fits();
                        assert(self.mean_steps(i as int + 1) is None);
                        self.lemma_mean_steps_none(i as int + 1, self.len() as int);
                    }
                    return Err(Error::Overflow);
                },
            }
            i = i + 1;
        }
        proof {
            assert(self.weighted().take(self.ms@.len() as int) =~= self.weighted());
        }
        Ok(acc)
    }

    /// Inserting a fresh key at its scanned position keeps the pairs sorted.
    proof fn lemma_sorted_insert(
        before: Seq<(u64, Frac)>,
        after: Seq<(u64, Frac)>,
        p: int,
        pair: (u64, Frac),
    )
        requires
            0 <= p <= before.len(),
            after == before.insert(p, pair),
            pairs_sorted(before),
            forall|q: int| 0 <= q < p ==> (#[trigger] before[q]).0 < pair.0,
            forall|q: int| 0 <= q < before.len() ==> (#[trigger] before[q]).0 != pair.0,
            p == before.len() || before[p].0 >= pair.0,
        ensures
            pairs_sorted(after),
    {
        assert(after[p] == pair);
        assert(forall|q: int| 0 <= q < p ==> #[trigger] after[q] == before[q]);
        assert(forall|q: int| p < q < after.len() ==> #[trigger] after[q] == before[q - 1]);
        assert forall|a: int, b: int| 0 <= a < b < after.len() implies (#[trigger] after[a]).0 < (
        #[trigger] after[b]).0 by {
            if a == p && b > p {
                if b - 1 > p {
                    assert(before[p].0 < before[b - 1].0);
                }
            } else if a < p && b > p {
                if a < b - 1 {
                    assert(before[a].0 < before[b - 1].0);
                }
                if p < b - 1 {
                    assert(before[p].0 < before[b - 1].0);
                }
            } else if a > p {
                assert(before[a - 1].0 < before[b - 1].0);
            }
        }
    }

    /// The (key, mass) pairs in ascending key order: every pair is an entry
    /// of the mapping, and every key of the mapping appears.
    #[verifier::rlimit(50)]
    pub fn sorted_items(&self) -> (r: Vec<(u64, Frac)>)
        requires
            self.wf(),
        ensures
            r@.len() == self.len(),
            pairs_sorted(r@),
            forall|j: int|
                0 <= j < r@.len() ==> self.has_key((#[trigger] r@[j]).0) && r@[j].1@
                    == self.mass_of(r@[j].0) && r@[j].1.wf(),
            forall|k: u64| #[trigger] self.has_key(k) ==> exists|j: int| 0 <= j < r@.len() && (#[trigger] r@[j]).0 == k,
    {
        let mut out: Vec<(u64, Frac)> = Vec::new();
        let ghost mut perm: Seq<int> = Seq::empty();
        let ghost mut rev: Seq<int> = Seq::empty();
        let mut idx: usize = 0;
        while idx < self.ks.len()
            invariant
                self.wf(),
                idx <= self.ks@.len(),
                out@.len() == idx,
                perm.len() == idx,
                rev.len() == idx,
                pairs_sorted(out@),
                forall|j: int|
                    #![trigger perm[j]]
                    0 <= j < perm.len() ==> 0 <= perm[j] < idx && out@[j].0 == self.key_at(perm[j])
                        && out@[j].1@ == self.mass_at(perm[j]),
                forall|i: int|
                    #![trigger rev[i]]
                    0 <= i < idx ==> 0 <= rev[i] < perm.len() && perm[rev[i]] == i,
            decreases self.ks@.len() - idx,
        {
            let k = self.ks[idx];
            let m = self.ms[idx];
            proof {
                assert(self.key_at(idx as int) == k && self.mass_at(idx as int) == m@);
                assert forall|q: int| 0 <= q < out@.len() implies (#[trigger] out@[q]).0 != k by {
                    assert(out@[q].0 == self.key_at(perm[q]));
                    assert(self.key_at(perm[q]) != self.key_at(idx as int));
                }
            }
            let mut p: usize = 0;
            while p < out.len() && out[p].0 < k
                invariant
                    p <= out@.len(),
                    forall|q: int| 0 <= q < p ==> (#[trigger] out@[q]).0 < k,
                decreases out@.len() - p,
            {
                p = p + 1;
            }
            let ghost before = out@;
            let ghost perm_before = perm;
            let ghost rev_before = rev;
            out.insert(p, (k, m));
            proof {
                Self::lemma_sorted_insert(before, out@, p as int, (k, m));
                perm = perm.insert(p as int, idx as int);
                rev = Seq::new(
                    (idx + 1) as nat,
                    |i: int|
                        if i == idx as int {
                            p as int
                        } else if rev_before[i] >= p {
                            rev_before[i] + 1
                        } else {
                            rev_before[i]
                        },
                );
                assert(perm[p as int] == idx as int && out@[p as int] == (k, m));
                assert(forall|q: int| 0 <= q < p ==> #[trigger] perm[q] == perm_before[q]);
                assert(forall|q: int|
                    p < q < perm.len() ==> #[trigger] perm[q] == perm_before[q - 1]);
                assert(forall|q: int| 0 <= q < p ==> #[trigger] out@[q] == before[q]);
                assert(forall|q: int| p < q < out@.len() ==> #[trigger] out@[q] == before[q - 1]);
                assert forall|i: int| #![trigger rev[i]] 0 <= i < idx + 1 implies 0 <= rev[i]
                    < perm.len() && perm[rev[i]] == i by {
                    if i == idx {
                        assert(rev[i] == p as int);
                    } else {
                        assert(rev_before[i] < perm_before.len() && perm_before[rev_before[i]]
                            == i);
                        if rev_before[i] >= p {
                            assert(perm[rev_before[i] + 1] == perm_before[rev_before[i]]);
                        } else {
                            assert(perm[rev_before[i]] == perm_before[rev_before[i]]);
                        }
                    }
                }
            }
            idx = idx + 1;
        }
        proof {
            assert forall|j: int| 0 <= j < out@.len() implies self.has_key(
                (#[trigger] out@[j]).0,
            ) && out@[j].1@ == self.mass_of(out@[j].0) && out@[j].1.wf() by {
                self.lemma_mass_of_at(perm[j]);
            }
            assert forall|k: u64| #[trigger] self.has_key(k) implies exists|j: int|
                0 <= j < out@.len() && (#[trigger] out@[j]).0 == k by {
                let i = choose|i: int| 0 <= i < self.len() && #[trigger] self.key_at(i) == k;
                assert(perm[rev[i]] == i);
                assert(out@[rev[i]].0 == self.key_at(i));
            }
        }
        out
    }
}

/// Incrementing an initially absent value by `a` and then scaling it by `b`
/// leaves exactly the mass `a * b` at that value: the insert-as-zero
/// semantics of `incr` and `mult` compose as plain arithmetic.
pub proof fn lemma_incr_then_mult(a: Rat, b: Rat)
    requires
        rat_wf(a),
        rat_wf(b),
    ensures
        rat_eq(
            rat_norm(rat_mul(rat_norm(rat_add_cross(rat_zero(), a)), b)),
            rat_mul(a, b),
        ),
{
    let s = rat_add_cross(rat_zero(), a);
    crate::rat::lemma_rat_add_cross(rat_zero(), a);
    crate::rat::lemma_rat_add_zero(a);
    lemma_rat_norm(s);
    // norm(s) == a up to equivalence
    lemma_rat_eq_trans(rat_norm(s), s, rat_add(rat_zero(), a));
    crate::rat::lemma_rat_add_wf(rat_zero(), a);
    lemma_rat_eq_trans(rat_norm(s), rat_add(rat_zero(), a), a);
    // scaling both sides by b
    lemma_rat_mul_congr(rat_norm(s), a, b, b);
    lemma_rat_mul_wf(rat_norm(s), b);
    lemma_rat_norm(rat_mul(rat_norm(s), b));
    lemma_rat_eq_trans(
        rat_norm(rat_mul(rat_norm(s), b)),
        rat_mul(rat_norm(s), b),
        rat_mul(a, b),
    );
}

/// Strictly ascending keys.
pub open spec fn pairs_sorted(r: Seq<(u64, Frac)>) -> bool {
    forall|a: int, b: int| 0 <= a < b < r.len() ==> (#[trigger] r[a]).0 < (#[trigger] r[b]).0
}

} // verus!
