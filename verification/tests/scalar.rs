use cosyne::activation::{
    bent_identity, linear, relu, sigmoid, sign, soft_plus, soft_sign, tanh, threshold,
};
use cosyne::{Activation, Config, Numerics, PermutationProbF, Real};

struct Floats;

fn f(x: Real) -> f64 {
    f64::from_bits(x.to_bits())
}

fn r(x: f64) -> Real {
    Real::from_bits(x.to_bits())
}

impl Numerics for Floats {
    fn sum(&self, a: Real, b: Real) -> Real {
        r(f(a) + f(b))
    }
    fn difference(&self, a: Real, b: Real) -> Real {
        r(f(a) - f(b))
    }
    fn product(&self, a: Real, b: Real) -> Real {
        r(f(a) * f(b))
    }
    fn quotient(&self, a: Real, b: Real) -> Real {
        r(f(a) / f(b))
    }
    fn exp(&self, a: Real) -> Real {
        r(f(a).exp())
    }
    fn ln(&self, a: Real) -> Real {
        r(f(a).ln())
    }
    fn tanh(&self, a: Real) -> Real {
        r(f(a).tanh())
    }
    fn sqrt(&self, a: Real) -> Real {
        r(f(a).sqrt())
    }
    fn from_count(&self, n: usize) -> Real {
        r(n as f64)
    }
    fn floor_count(&self, a: Real) -> usize {
        f(a).floor() as usize
    }
    fn ceil_count(&self, a: Real) -> usize {
        f(a).ceil() as usize
    }
    fn round_count(&self, a: Real) -> usize {
        f(a).round() as usize
    }
    fn draw_unit(&mut self) -> Real {
        r(0.5)
    }
    fn draw_normal(&mut self, mean: Real, _deviation: Real) -> Real {
        mean
    }
}

fn samples() -> Vec<f64> {
    vec![
        0.0,
        -0.0,
        1.0,
        -1.0,
        0.25,
        -0.25,
        1e-310,
        -1e-310,
        f64::MIN_POSITIVE,
        3.5,
        -3.5,
        1e300,
        -1e300,
        f64::MAX,
        f64::MIN,
        f64::INFINITY,
        f64::NEG_INFINITY,
        f64::NAN,
        -f64::NAN,
        f64::EPSILON,
    ]
}

#[test]
fn comparisons_agree_with_the_numbers() {
    for a in samples() {
        for b in samples() {
            assert_eq!(r(a).lt(&r(b)), a < b, "{} < {}", a, b);
            assert_eq!(r(a).gt(&r(b)), a > b, "{} > {}", a, b);
            assert_eq!(r(a).same(&r(b)), a == b, "{} == {}", a, b);
        }
    }
}

#[test]
fn ranking_agrees_with_the_numbers_and_is_total() {
    for a in samples() {
        for b in samples() {
            if !a.is_nan() && !b.is_nan() {
                assert_eq!(r(a).precedes(&r(b)), a < b, "{} before {}", a, b);
            }
            let before = r(a).precedes(&r(b));
            let after = r(b).precedes(&r(a));
            assert!(!(before && after));
            assert_eq!(!before && !after, r(a).order_key() == r(b).order_key());
        }
    }
}

#[test]
fn order_key_of_known_patterns() {
    assert_eq!(r(0.0).order_key(), 0);
    assert_eq!(r(-0.0).order_key(), 0);
    assert_eq!(r(1.0).order_key(), 0x3FF0_0000_0000_0000);
    assert_eq!(r(-1.0).order_key(), -0x3FF0_0000_0000_0000);
    assert_eq!(r(f64::INFINITY).order_key(), 0x7FF0_0000_0000_0000);
}

#[test]
fn constants_are_the_numbers_they_name() {
    assert_eq!(f(Real::zero()), 0.0);
    assert_eq!(Real::zero().to_bits(), 0.0f64.to_bits());
    assert_eq!(f(Real::one()), 1.0);
    assert_eq!(f(Real::two()), 2.0);
    assert_eq!(f(Real::minus_one()), -1.0);
    assert_eq!(f(Real::lowest()), f64::MIN);
}

#[test]
fn finite_number_and_unit() {
    for a in samples() {
        assert_eq!(r(a).is_finite(), a.is_finite(), "{}", a);
        assert_eq!(r(a).is_number(), !a.is_nan(), "{}", a);
        assert_eq!(r(a).is_unit(), a >= 0.0 && a <= 1.0, "{}", a);
        if !a.is_nan() {
            assert_eq!(f(r(a).abs()), a.abs());
            assert_eq!(f(r(a).negated()), -a);
        }
    }
    assert!(r(1.0).is_unit());
    assert!(r(0.0).is_unit());
    assert!(!r(1.0000000000000002).is_unit());
    assert!(!r(-1e-300).is_unit());
}

#[test]
fn bits_round_trip() {
    let x = Real::from_bits(0x4009_21FB_5444_2D18);
    assert_eq!(x.to_bits(), 0x4009_21FB_5444_2D18);
    assert_eq!(f(x), std::f64::consts::PI);
}

#[test]
fn config_new_has_the_usual_knobs() {
    let config = Config::new(20);
    assert_eq!(config.pop_size, 20);
    assert_eq!(f(config.top_ratio_to_recombine), 0.25);
    assert_eq!(f(config.mutation_prob), 0.3);
    assert_eq!(f(config.mutation_strength), 0.5);
    assert_eq!(f(config.perturb_prob), 0.5);
    match config.permutation_prob_f {
        PermutationProbF::Uniform(p) => assert_eq!(f(p), 1.0),
        PermutationProbF::Relative => panic!("the usual policy is uniform"),
    }
    assert!(config.is_valid());
}

#[test]
fn config_validity() {
    assert!(Config::new(2).is_valid());
    assert!(!Config::new(1).is_valid());
    assert!(!Config::new(0).is_valid());

    let mut config = Config::new(10);
    config.top_ratio_to_recombine = r(1.5);
    assert!(!config.is_valid());

    let mut config = Config::new(10);
    config.mutation_prob = r(-0.1);
    assert!(!config.is_valid());

    let mut config = Config::new(10);
    config.mutation_strength = r(f64::NAN);
    assert!(!config.is_valid());

    let mut config = Config::new(10);
    config.perturb_prob = r(2.0);
    assert!(!config.is_valid());

    let mut config = Config::new(10);
    config.permutation_prob_f = PermutationProbF::Uniform(r(1.1));
    assert!(!config.is_valid());

    let mut config = Config::new(10);
    config.permutation_prob_f = PermutationProbF::Relative;
    config.top_ratio_to_recombine = r(1.0);
    config.mutation_prob = r(0.0);
    assert!(config.is_valid());
}

#[test]
fn from_i32_names_the_activations() {
    assert_eq!(Activation::from_i32(0), Activation::Linear);
    assert_eq!(Activation::from_i32(1), Activation::Threshold);
    assert_eq!(Activation::from_i32(2), Activation::Sign);
    assert_eq!(Activation::from_i32(3), Activation::Sigmoid);
    assert_eq!(Activation::from_i32(4), Activation::Tanh);
    assert_eq!(Activation::from_i32(5), Activation::SoftSign);
    assert_eq!(Activation::from_i32(6), Activation::BentIdentity);
    assert_eq!(Activation::from_i32(7), Activation::Relu);
    assert_eq!(Activation::from_i32(8), Activation::Relu);
    assert_eq!(Activation::from_i32(-1), Activation::Relu);
    assert_eq!(Activation::from_i32(i32::MIN), Activation::Relu);
    assert_eq!(Activation::from_i32(i32::MAX), Activation::Relu);
}

#[test]
fn activations_that_compare() {
    assert_eq!(f(linear(r(-2.5))), -2.5);

    assert_eq!(f(threshold(r(0.1))), 1.0);
    assert_eq!(f(threshold(r(0.0))), 0.0);
    assert_eq!(f(threshold(r(-0.1))), 0.0);
    assert_eq!(f(threshold(r(f64::NAN))), 0.0);

    assert_eq!(f(sign(r(7.0))), 1.0);
    assert_eq!(f(sign(r(0.0))), 0.0);
    assert_eq!(f(sign(r(-0.0))), 0.0);
    assert_eq!(f(sign(r(-7.0))), -1.0);
    assert_eq!(f(sign(r(f64::NAN))), -1.0);

    assert_eq!(f(relu(r(2.5))), 2.5);
    assert_eq!(f(relu(r(0.0))), 0.0);
    assert_eq!(f(relu(r(-2.5))), 0.0);
    assert_eq!(f(relu(r(f64::NAN))), 0.0);
    assert_eq!(f(relu(r(f64::INFINITY))), f64::INFINITY);
}

#[test]
fn activations_that_compute() {
    let n = Floats;
    assert_eq!(f(sigmoid(r(0.0), &n)), 0.5);
    assert_eq!(f(sigmoid(r(2.0), &n)), 1.0 / (1.0 + (-2.0f64).exp()));
    assert_eq!(f(tanh(r(0.5), &n)), 0.5f64.tanh());
    assert_eq!(f(soft_sign(r(1.0), &n)), 0.5);
    assert_eq!(f(soft_sign(r(-3.0), &n)), -0.75);
    assert_eq!(f(bent_identity(r(0.0), &n)), 0.0);
    assert_eq!(f(bent_identity(r(3.0), &n)), ((10.0f64.sqrt() - 1.0) / 2.0) + 3.0);
    assert_eq!(f(soft_plus(r(0.0), &n)), 2.0f64.ln());
    assert_eq!(f(soft_plus(r(1.0), &n)), (1.0 + 1.0f64.exp()).ln());
}

#[test]
fn apply_picks_the_function() {
    let n = Floats;
    let x = r(-1.5);
    assert_eq!(Activation::Linear.apply(x, &n), linear(x));
    assert_eq!(Activation::Threshold.apply(x, &n), threshold(x));
    assert_eq!(Activation::Sign.apply(x, &n), sign(x));
    assert_eq!(Activation::Sigmoid.apply(x, &n), sigmoid(x, &n));
    assert_eq!(Activation::Tanh.apply(x, &n), tanh(x, &n));
    assert_eq!(Activation::SoftSign.apply(x, &n), soft_sign(x, &n));
    assert_eq!(Activation::BentIdentity.apply(x, &n), bent_identity(x, &n));
    assert_eq!(Activation::Relu.apply(x, &n), relu(x));
    assert_eq!(Activation::SoftPlus.apply(x, &n), soft_plus(x, &n));
    assert_eq!(f(Activation::Relu.apply(r(4.0), &n)), 4.0);
    assert_eq!(f(Activation::Sign.apply(x, &n)), -1.0);
}
