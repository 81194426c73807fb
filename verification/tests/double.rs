use database_learning_path::double::{at_place, draw_between, round_integer, zero, Double};
use rand::{Rng, SeedableRng};
use rand_chacha::ChaCha8Rng;

fn double(x: f64) -> Double {
    Double::from_bits(x.to_bits()).unwrap()
}

fn float(d: Double) -> f64 {
    f64::from_bits(d.to_bits())
}

/// Numbers of every size, near one and far from it.
fn numbers() -> Vec<f64> {
    let mut rng = ChaCha8Rng::seed_from_u64(53);
    let mut v = vec![
        0.0,
        5e-324,
        1e-310,
        f64::MIN_POSITIVE,
        0.1,
        0.5,
        0.7,
        1.0 - f64::EPSILON / 2.0,
        1.0,
        1.0 + f64::EPSILON,
        1.5,
        2.5,
        9_007_199_254_740_991.0,
        9_007_199_254_740_992.0,
        1e100,
    ];
    for _ in 0..150 {
        v.push(rng.gen::<f64>());
        v.push(rng.gen_range(0.0..1e6));
        v.push(f64::from_bits(rng.gen_range(0..0x7ff0_0000_0000_0000u64)));
        v.push(rng.gen::<f64>() * 2f64.powi(rng.gen_range(-200..200)));
    }
    v
}

#[test]
fn bits_come_back() {
    for x in numbers() {
        assert_eq!(float(double(x)), x);
    }
    assert_eq!(float(zero()), 0.0);
    for x in [-1.0, f64::INFINITY, f64::NAN] {
        assert!(Double::from_bits(x.to_bits()).is_none());
    }
}

#[test]
fn operations_round_like_floats() {
    let all = numbers();
    for &x in &all {
        for &y in all.iter().step_by(3) {
            let (a, b) = (double(x), double(y));
            assert_eq!(a.at_least(b), x >= y);
            if (x + y).is_finite() {
                assert_eq!(float(a.plus(b)), x + y, "{x} + {y}");
            }
            if x >= y {
                assert_eq!(float(a.minus(b)), x - y, "{x} - {y}");
            }
            if (x * y).is_finite() {
                assert_eq!(float(a.times(b)), x * y, "{x} * {y}");
            }
            if y > 0.0 && (x / y).is_finite() {
                assert_eq!(float(a.over(b)), x / y, "{x} / {y}");
            }
        }
        assert_eq!(float(double(x).sqrt()), x.sqrt(), "root of {x}");
        assert_eq!(double(x).to_floor(), x as u64);
        assert_eq!(double(x).to_ceiling(), x.ceil() as u64);
        assert_eq!(double(x).to_nearest(), x.round() as u64);
    }
}

#[test]
fn integers_round_like_floats() {
    let mut rng = ChaCha8Rng::seed_from_u64(7);
    let mut all = vec![0u64, 1, 2, (1 << 53) - 1, 1 << 53, (1 << 53) + 1, (1 << 53) + 3, u64::MAX];
    for _ in 0..500 {
        all.push(rng.gen::<u64>() >> rng.gen_range(0..64));
    }
    for n in all {
        assert_eq!(float(Double::from_u64(n)), n as f64);
        if n <= 1 << 62 {
            assert_eq!(round_integer(n), n as f64 as u64);
        }
        assert_eq!(float(at_place(n, 1022)), n as f64 / (1u64 << 52) as f64);
    }
}

#[test]
fn draws_stand_for_uniform_floats() {
    let mut rng = ChaCha8Rng::seed_from_u64(99);
    let mut twin = ChaCha8Rng::seed_from_u64(99);
    for _ in 0..5_000 {
        let got = draw_between(double(0.25), double(3.5), rng.gen());
        assert_eq!(float(got), twin.gen_range(0.25..3.75));
    }
}
