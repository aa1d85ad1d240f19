use fountaincode::decoder::Decoder;
use fountaincode::encoder::Encoder;
use fountaincode::soliton::{Soliton, SCALE};
use fountaincode::types::{CatchResult, EncoderType};
use rand::{rngs::StdRng, Rng, SeedableRng};

const DRAWS: usize = 1_000_000;

fn histogram(sol: &Soliton, k: usize, seed: u64) -> Vec<f64> {
    let mut rng = StdRng::seed_from_u64(seed);
    let mut h = vec![0.0; k + 1];
    for _ in 0..DRAWS {
        let d = sol.sample(rng.gen::<u64>());
        assert!(1 <= d && d <= k);
        h[d] += 1.0 / DRAWS as f64;
    }
    h
}

#[test]
fn ideal_histogram_matches_masses() {
    let k = 12;
    let h = histogram(&Soliton::ideal(k).unwrap(), k, 1);
    let tolerance = 5.0 / (DRAWS as f64).sqrt();
    assert!((h[1] - 1.0 / k as f64).abs() < tolerance);
    for d in 2..=k {
        let mu = 1.0 / (d * (d - 1)) as f64;
        assert!((h[d] - mu).abs() < tolerance, "degree {}: {} vs {}", d, h[d], mu);
    }
}

#[test]
fn robust_histogram_matches_masses() {
    let (k, c, delta) = (20usize, 0.2f64, 0.05f64);
    let r = c * (k as f64 / delta).ln() * (k as f64).sqrt();
    let m = ((k as f64 / r).floor() as usize).clamp(1, k);
    let spike = (r / delta).ln() / m as f64;
    let sol = Soliton::robust_with_spike(k, m, (spike * SCALE as f64) as u64).unwrap();
    let mut mass = vec![0.0; k + 1];
    for i in 1..=k {
        let rho = if i == 1 { 1.0 / k as f64 } else { 1.0 / (i * (i - 1)) as f64 };
        let tau = if i < m {
            1.0 / (i * m) as f64
        } else if i == m {
            spike
        } else {
            0.0
        };
        mass[i] = rho + tau;
    }
    let beta: f64 = mass.iter().sum();
    let h = histogram(&sol, k, 2);
    let tolerance = 5.0 / (DRAWS as f64).sqrt();
    for d in 1..=k {
        let mu = mass[d] / beta;
        assert!((h[d] - mu).abs() < tolerance, "degree {}: {} vs {}", d, h[d], mu);
    }
}

#[test]
fn one_byte_message() {
    let mut enc = Encoder::ideal(vec![0xAB], 1, EncoderType::Random, 17).unwrap();
    let mut dec = Decoder::new(1, 1).unwrap();
    let drop = enc.drop();
    match dec.catch(drop).unwrap() {
        CatchResult::Finished(out, stats) => {
            assert_eq!(out, vec![0xAB]);
            assert_eq!(stats.cnt_chunks, 1);
        }
        CatchResult::Missing(_) => panic!("a single symbol of degree one decodes at once"),
    }
    assert_eq!(dec.received(), 1);
}
