use think_bayes::frac::Frac;
use think_bayes::pmf::Pmf;
use think_bayes::simulation::{make_mixture, sample_sum};
use think_bayes::suite::{update, Suite};
use think_bayes::Error;

fn f(x: &Frac) -> f64 {
    x.num() as f64 / x.den() as f64
}

fn die(sides: u64) -> Pmf<u64> {
    let mut pmf: Pmf<u64> = Pmf::new();
    let mut v = 1u64;
    while v <= sides {
        pmf.set(v, Frac::new(1, 1));
        v += 1;
    }
    pmf.normalize(&Frac::one()).unwrap();
    pmf
}

fn convolve(a: &Pmf<u64>, b: &Pmf<u64>) -> Pmf<u64> {
    let mut out: Pmf<u64> = Pmf::new();
    for (v1, p1) in a.items() {
        for (v2, p2) in b.items() {
            out.incr(v1 + v2, &p1.checked_mul(&p2).unwrap()).unwrap();
        }
    }
    out
}

fn pmf_max(a: &Pmf<u64>, b: &Pmf<u64>) -> Pmf<u64> {
    let mut out: Pmf<u64> = Pmf::new();
    for (v1, p1) in a.items() {
        for (v2, p2) in b.items() {
            out.incr(if v1 > v2 { v1 } else { v2 }, &p1.checked_mul(&p2).unwrap()).unwrap();
        }
    }
    out
}

#[test]
fn pmf_new_set() {
    let mut pmf: Pmf<u64> = Pmf::new();
    for x in [1u64, 2, 3, 4, 5, 6] {
        pmf.set(x, Frac::new(1, 6));
    }
    assert_eq!(pmf.total().unwrap(), Frac::one());
}

#[test]
fn pmf_new_incr_prob() {
    let mut pmf: Pmf<String> = Pmf::new();
    for x in ["the", "the", "and", "me", "foo", "bar", "bar", "bar"] {
        pmf.incr(String::from(x), &Frac::one()).unwrap();
    }
    let zero = Frac::zero();
    assert_eq!(pmf.prob(&String::from("the"), &zero), Frac::from_u64(2));
    assert_eq!(pmf.prob(&String::from("foo"), &zero), Frac::one());
    assert_eq!(pmf.normalize(&Frac::one()).unwrap(), Frac::from_u64(8));
    assert_eq!(pmf.prob(&String::from("the"), &zero), Frac::new(1, 4));
    assert_eq!(pmf.prob(&String::from("foo"), &zero), Frac::new(1, 8));
}

#[test]
fn pmf_cookie_problem() {
    let mut pmf: Pmf<String> = Pmf::new();
    let zero = Frac::zero();
    pmf.set(String::from("Bowl 1"), Frac::new(1, 2));
    pmf.set(String::from("Bowl 2"), Frac::new(1, 2));
    pmf.mult(String::from("Bowl 1"), &Frac::new(3, 4)).unwrap();
    pmf.mult(String::from("Bowl 2"), &Frac::new(1, 2)).unwrap();
    assert_eq!(pmf.prob(&String::from("Bowl 1"), &zero), Frac::new(3, 8));
    assert_eq!(pmf.prob(&String::from("Bowl 2"), &zero), Frac::new(1, 4));
    assert_eq!(pmf.normalize(&Frac::one()).unwrap(), Frac::new(5, 8));
    assert_eq!(pmf.prob(&String::from("Bowl 1"), &zero), Frac::new(3, 5));
    assert_eq!(pmf.prob(&String::from("Bowl 2"), &zero), Frac::new(2, 5));
}

fn cookie_like(data: &str, hypo: &str) -> Frac {
    match (hypo, data) {
        ("Bowl 1", "vanilla") => Frac::new(3, 4),
        ("Bowl 1", "chocolate") => Frac::new(1, 4),
        ("Bowl 2", "vanilla") => Frac::new(1, 2),
        ("Bowl 2", "chocolate") => Frac::new(1, 2),
        _ => Frac::zero(),
    }
}

#[test]
fn pmf_cookie_composition() {
    let mut pmf: Pmf<String> = Pmf::new();
    pmf.set(String::from("Bowl 1"), Frac::one());
    pmf.set(String::from("Bowl 2"), Frac::one());
    pmf.normalize(&Frac::one()).unwrap();
    let zero = Frac::zero();
    assert_eq!(pmf.prob(&String::from("Bowl 1"), &zero), Frac::new(1, 2));
    assert_eq!(pmf.prob(&String::from("Bowl 2"), &zero), Frac::new(1, 2));

    // one observation of a vanilla cookie
    for hypo in pmf.values() {
        let like = cookie_like("vanilla", &hypo);
        pmf.mult(hypo, &like).unwrap();
    }
    pmf.normalize(&Frac::one()).unwrap();
    assert_eq!(pmf.prob(&String::from("Bowl 1"), &zero), Frac::new(3, 5));
    assert_eq!(pmf.prob(&String::from("Bowl 2"), &zero), Frac::new(2, 5));

    // three more draws
    for data in ["vanilla", "chocolate", "vanilla"] {
        for hypo in pmf.values() {
            let like = cookie_like(data, &hypo);
            pmf.mult(hypo, &like).unwrap();
        }
        pmf.normalize(&Frac::one()).unwrap();
    }
    assert_eq!(pmf.prob(&String::from("Bowl 1"), &zero), Frac::new(27, 43));
    assert_eq!(pmf.prob(&String::from("Bowl 2"), &zero), Frac::new(16, 43));
    assert!((f(&pmf.prob(&String::from("Bowl 1"), &zero)) - 0.627906976744186).abs() < 1e-12);
}

struct Dice;

impl Suite<u64, u64> for Dice {
    fn likelihood(&self, data: &u64, hypo: &u64) -> Frac {
        if hypo < data {
            Frac::zero()
        } else {
            Frac::new(1, *hypo)
        }
    }
}

#[test]
fn suite_dice() {
    let mut pmf: Pmf<u64> = Pmf::new();
    for h in [4u64, 6, 8, 12, 20] {
        pmf.set(h, Frac::one());
    }
    pmf.normalize(&Frac::one()).unwrap();
    update(&Dice, &mut pmf, &6).unwrap();
    let zero = Frac::zero();
    assert_eq!(pmf.prob(&4, &zero), Frac::zero());
    assert_eq!(pmf.prob(&6, &zero), Frac::new(20, 51));
    assert_eq!(pmf.prob(&8, &zero), Frac::new(15, 51));
    assert_eq!(pmf.prob(&12, &zero), Frac::new(10, 51));
    assert_eq!(pmf.prob(&20, &zero), Frac::new(6, 51));
    assert!((f(&pmf.prob(&6, &zero)) - 0.3921568627450981).abs() < 1e-12);

    for roll in [6u64, 8, 7, 7, 5, 4] {
        update(&Dice, &mut pmf, &roll).unwrap();
    }
    assert_eq!(pmf.prob(&4, &zero), Frac::zero());
    assert_eq!(pmf.prob(&6, &zero), Frac::zero());
    assert!((f(&pmf.prob(&8, &zero)) - 0.9432484536722124).abs() < 1e-12);
    assert!((f(&pmf.prob(&12, &zero)) - 0.0552061280612909).abs() < 1e-12);
    assert!((f(&pmf.prob(&20, &zero)) - 0.001545418266496554).abs() < 1e-12);
}

fn monty_like(data: &char, hypo: &char) -> Frac {
    if data == hypo {
        Frac::zero()
    } else if *hypo == 'A' {
        Frac::new(1, 2)
    } else {
        Frac::one()
    }
}

#[test]
fn pmf_monty_composition() {
    let mut pmf: Pmf<char> = Pmf::new();
    for c in "ABC".chars() {
        pmf.set(c, Frac::one());
    }
    pmf.normalize(&Frac::one()).unwrap();
    let zero = Frac::zero();
    assert_eq!(pmf.prob(&'A', &zero), Frac::new(1, 3));
    assert_eq!(pmf.prob(&'B', &zero), Frac::new(1, 3));
    assert_eq!(pmf.prob(&'C', &zero), Frac::new(1, 3));

    for hypo in pmf.values() {
        let like = monty_like(&'B', &hypo);
        pmf.mult(hypo, &like).unwrap();
    }
    pmf.normalize(&Frac::one()).unwrap();
    assert_eq!(pmf.prob(&'A', &zero), Frac::new(1, 3));
    assert_eq!(pmf.prob(&'B', &zero), Frac::zero());
    assert_eq!(pmf.prob(&'C', &zero), Frac::new(2, 3));
}

struct Monty;

impl Suite<char, char> for Monty {
    fn likelihood(&self, data: &char, hypo: &char) -> Frac {
        monty_like(data, hypo)
    }
}

#[test]
fn suite_monty_composition() {
    let mut pmf: Pmf<char> = Pmf::new();
    for c in "ABC".chars() {
        pmf.set(c, Frac::one());
    }
    pmf.normalize(&Frac::one()).unwrap();
    update(&Monty, &mut pmf, &'B').unwrap();
    let zero = Frac::zero();
    assert_eq!(pmf.prob(&'A', &zero), Frac::new(1, 3));
    assert_eq!(pmf.prob(&'B', &zero), Frac::zero());
    assert_eq!(pmf.prob(&'C', &zero), Frac::new(2, 3));
}

struct MandM;

fn mix94(color: &str) -> u64 {
    match color {
        "brown" => 30,
        "yellow" => 20,
        "red" => 20,
        "green" => 10,
        "orange" => 10,
        "tan" => 10,
        _ => 0,
    }
}

fn mix96(color: &str) -> u64 {
    match color {
        "blue" => 24,
        "green" => 20,
        "orange" => 16,
        "yellow" => 14,
        "red" => 13,
        "brown" => 13,
        _ => 0,
    }
}

impl Suite<(&'static str, &'static str), String> for MandM {
    fn likelihood(&self, data: &(&'static str, &'static str), hypo: &String) -> Frac {
        let (bag, color) = *data;
        let ninety_four_first = hypo == "A";
        let uses_94 = (bag == "bag1") == ninety_four_first;
        let w = if uses_94 { mix94(color) } else { mix96(color) };
        Frac::from_u64(w)
    }
}

#[test]
fn suite_m_and_m() {
    let mut pmf: Pmf<String> = Pmf::new();
    pmf.set(String::from("A"), Frac::one());
    pmf.set(String::from("B"), Frac::one());
    pmf.normalize(&Frac::one()).unwrap();
    let zero = Frac::zero();
    assert_eq!(pmf.prob(&String::from("A"), &zero), Frac::new(1, 2));
    assert_eq!(pmf.prob(&String::from("B"), &zero), Frac::new(1, 2));

    update(&MandM, &mut pmf, &("bag1", "yellow")).unwrap();
    assert!((f(&pmf.prob(&String::from("A"), &zero)) - 0.5882352941176471).abs() < 1e-12);
    assert!((f(&pmf.prob(&String::from("B"), &zero)) - 0.4117647058823529).abs() < 1e-12);

    update(&MandM, &mut pmf, &("bag2", "green")).unwrap();
    assert!((f(&pmf.prob(&String::from("A"), &zero)) - 0.7407407407407407).abs() < 1e-12);
    assert!((f(&pmf.prob(&String::from("B"), &zero)) - 0.2592592592592592).abs() < 1e-12);
    assert_eq!(pmf.prob(&String::from("A"), &zero), Frac::new(20, 27));
}

#[test]
fn suite_dungeons_mixtures() {
    let dice = vec![
        (die(4), Frac::from_u64(5)),
        (die(6), Frac::from_u64(4)),
        (die(8), Frac::from_u64(3)),
        (die(12), Frac::from_u64(2)),
        (die(20), Frac::from_u64(1)),
    ];
    let mut mix = make_mixture(&dice).unwrap();
    mix.normalize(&Frac::one()).unwrap();
    let zero = Frac::zero();
    assert_eq!(mix.prob(&1, &zero), Frac::new(301, 1800));
    assert_eq!(mix.prob(&4, &zero), Frac::new(301, 1800));
    assert_eq!(mix.prob(&5, &zero), Frac::new(151, 1800));
    assert_eq!(mix.prob(&6, &zero), Frac::new(151, 1800));
    assert_eq!(mix.prob(&7, &zero), Frac::new(71, 1800));
    assert_eq!(mix.prob(&8, &zero), Frac::new(71, 1800));
    assert_eq!(mix.prob(&9, &zero), Frac::new(13, 900));
    assert_eq!(mix.prob(&12, &zero), Frac::new(13, 900));
    assert_eq!(mix.prob(&13, &zero), Frac::new(1, 300));
    assert_eq!(mix.prob(&20, &zero), Frac::new(1, 300));
    assert!((f(&mix.prob(&1, &zero)) - 0.1672222222222222).abs() < 1e-9);
}

#[test]
fn suite_dungeons_max() {
    let d6 = die(6);
    let three_exact = convolve(&convolve(&d6, &d6), &d6);

    // the hard way: repeated pairwise maxima
    let best2 = pmf_max(&three_exact, &three_exact);
    let best4 = pmf_max(&best2, &best2);
    let mut best6 = pmf_max(&best4, &best2);
    best6.normalize(&Frac::one()).unwrap();
    let best6_cdf = best6.make_cdf().unwrap();

    // the easy way: raise the cumulative masses to the sixth power
    let best_cdf = three_exact.make_cdf().unwrap().max(6).unwrap();

    for (v, _) in best6.items() {
        assert_eq!(best6_cdf.prob(v), best_cdf.prob(v));
    }
}

#[test]
fn suite_dungeons_sum() {
    let sample_n: usize = 100_000;
    let dice = vec![die(6), die(6), die(6)];
    let mut three = sample_sum(&dice, sample_n).unwrap();
    three.normalize(&Frac::one()).unwrap();
    let d6 = die(6);
    let three_exact = convolve(&convolve(&d6, &d6), &d6);
    let zero = Frac::zero();
    // each Monte Carlo frequency within four standard errors of the exact mass
    for (v, p) in three_exact.items() {
        let exact = f(&p);
        let got = f(&three.prob(&v, &zero));
        let sigma = (exact * (1.0 - exact) / sample_n as f64).sqrt();
        assert!((got - exact).abs() < 4.0 * sigma);
    }
}

#[test]
fn cdf_die_prob_and_value() {
    let d6 = die(6);
    let c = d6.make_cdf().unwrap();
    // cumulative property at an existing key
    assert_eq!(c.prob(3), Frac::new(1, 2));
    assert_eq!(c.prob(6), Frac::one());
    // below the smallest key and above the largest
    assert_eq!(c.prob(0), Frac::zero());
    assert_eq!(c.prob(7), Frac::one());
    // quantiles
    assert_eq!(c.value(&Frac::new(1, 2)).unwrap(), 3);
    assert_eq!(c.value(&Frac::zero()).unwrap(), 1);
    assert_eq!(c.value(&Frac::one()).unwrap(), 6);
    assert_eq!(c.value(&Frac::from_u64(2)), Err(Error::Range));
    assert_eq!(c.percentile(&Frac::from_u64(50)).unwrap(), 3);
}

#[test]
fn cdf_insertion_point() {
    let mut pmf: Pmf<u64> = Pmf::new();
    pmf.set(1, Frac::new(1, 4));
    pmf.set(3, Frac::new(1, 4));
    pmf.set(5, Frac::new(1, 2));
    let c = pmf.make_cdf().unwrap();
    // an off-grid query lands on the insertion point's cumulative mass
    assert_eq!(c.prob(2), Frac::new(1, 2));
    assert_eq!(c.prob(4), Frac::one());
    assert_eq!(c.prob(1), Frac::new(1, 4));
}

#[test]
fn cdf_max_coin() {
    let mut coin: Pmf<u64> = Pmf::new();
    coin.set(0, Frac::new(1, 2));
    coin.set(1, Frac::new(1, 2));
    let c = coin.make_cdf().unwrap();
    let m = c.max(2).unwrap();
    assert_eq!(m.prob(0), Frac::new(1, 4));
    assert_eq!(m.prob(1), Frac::one());
}

#[test]
fn cdf_random_sample() {
    let d6 = die(6);
    let c = d6.make_cdf().unwrap();
    let draws = c.sample(1000);
    assert_eq!(draws.len(), 1000);
    for v in draws {
        assert!(1 <= v && v <= 6);
    }
}

#[test]
fn pmf_mean_and_percentile() {
    let d6 = die(6);
    assert_eq!(d6.mean().unwrap(), Frac::new(7, 2));
    assert_eq!(d6.percentile(&Frac::from_u64(50)).unwrap(), 3);
    assert_eq!(d6.percentile(&Frac::from_u64(100)).unwrap(), 6);
    // past the total mass, the largest value guards against rounding
    assert_eq!(d6.percentile(&Frac::from_u64(200)).unwrap(), 6);
    let empty: Pmf<u64> = Pmf::new();
    assert_eq!(empty.percentile(&Frac::from_u64(50)), Err(Error::EmptyCollection));
}

#[test]
fn pmf_maximum_likelihood() {
    let mut pmf: Pmf<u64> = Pmf::new();
    pmf.set(2, Frac::new(1, 4));
    pmf.set(9, Frac::new(1, 2));
    pmf.set(5, Frac::new(1, 4));
    assert_eq!(pmf.maximum_likelihood().unwrap(), 9);
    let empty: Pmf<u64> = Pmf::new();
    assert_eq!(empty.maximum_likelihood(), Err(Error::EmptyCollection));
}

#[test]
fn pmf_normalize_zero_total() {
    let mut pmf: Pmf<u64> = Pmf::new();
    pmf.set(1, Frac::zero());
    assert_eq!(pmf.normalize(&Frac::one()), Err(Error::Domain));
    // the failure left the mass untouched
    assert_eq!(pmf.prob(&1, &Frac::one()), Frac::zero());
}

#[test]
fn pmf_normalize_other_total() {
    let mut pmf: Pmf<u64> = Pmf::new();
    pmf.set(1, Frac::one());
    pmf.set(2, Frac::from_u64(3));
    assert_eq!(pmf.normalize(&Frac::from_u64(2)).unwrap(), Frac::from_u64(4));
    assert_eq!(pmf.total().unwrap(), Frac::from_u64(2));
    assert_eq!(pmf.prob(&2, &Frac::zero()), Frac::new(3, 2));
}

#[test]
fn cdf_credible_interval() {
    let d6 = die(6);
    let c = d6.make_cdf().unwrap();
    assert_eq!(c.credible_interval(&Frac::from_u64(90)).unwrap(), (1, 6));
    let mut coin: Pmf<u64> = Pmf::new();
    coin.set(0, Frac::new(1, 2));
    coin.set(1, Frac::new(1, 2));
    let cc = coin.make_cdf().unwrap();
    assert_eq!(cc.credible_interval(&Frac::from_u64(50)).unwrap(), (0, 1));
    assert_eq!(cc.credible_interval(&Frac::from_u64(200)), Err(Error::Range));
}

struct Euro;

impl Suite<char, u64> for Euro {
    fn likelihood(&self, data: &char, hypo: &u64) -> Frac {
        if *data == 'H' {
            Frac::new(*hypo, 10)
        } else {
            Frac::new(10 - *hypo, 10)
        }
    }
}

#[test]
fn suite_euro_small() {
    // a coin-bias posterior at one tenth the original's scale, so the exact
    // rationals fit the word size
    let mut pmf: Pmf<u64> = Pmf::new();
    let mut h = 0u64;
    while h <= 10 {
        pmf.set(h, Frac::one());
        h += 1;
    }
    pmf.normalize(&Frac::one()).unwrap();
    for data in ['H', 'H', 'H', 'T', 'T'] {
        update(&Euro, &mut pmf, &data).unwrap();
    }
    assert_eq!(pmf.maximum_likelihood().unwrap(), 6);
    assert_eq!(pmf.mean().unwrap(), Frac::new(577, 101));
    assert_eq!(pmf.percentile(&Frac::from_u64(50)).unwrap(), 6);
    assert_eq!(pmf.credible_interval(&Frac::from_u64(90)).unwrap(), (3, 8));
    let zero = Frac::zero();
    assert_eq!(pmf.prob(&6, &zero), Frac::new(3456, 16665));
}

#[test]
fn suite_train_small() {
    // the locomotive posterior at a scale the word size holds exactly
    let mut pmf: Pmf<u64> = Pmf::new();
    let mut h = 1u64;
    while h <= 10 {
        pmf.set(h, Frac::one());
        h += 1;
    }
    pmf.normalize(&Frac::one()).unwrap();
    update(&Dice, &mut pmf, &6).unwrap();
    let zero = Frac::zero();
    assert_eq!(pmf.maximum_likelihood().unwrap(), 6);
    assert_eq!(pmf.prob(&5, &zero), Frac::zero());
    assert_eq!(pmf.prob(&6, &zero), Frac::new(420, 1627));
    assert_eq!(pmf.mean().unwrap(), Frac::new(12600, 1627));
}

#[test]
fn pmf_credible_interval() {
    let d6 = die(6);
    assert_eq!(d6.credible_interval(&Frac::from_u64(90)).unwrap(), (1, 6));
    assert_eq!(
        d6.credible_interval(&Frac::from_u64(200)),
        Err(Error::Range)
    );
    let mut coin: Pmf<u64> = Pmf::new();
    coin.set(0, Frac::new(1, 2));
    coin.set(1, Frac::new(1, 2));
    assert_eq!(coin.credible_interval(&Frac::from_u64(50)).unwrap(), (0, 1));
}
