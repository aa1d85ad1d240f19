use fountaincode::soliton::{Soliton, SCALE};
use rand::{rngs::StdRng, Rng, SeedableRng};

pub fn ideal_dist(n: usize) -> Vec<f64> {
    let mut probs = vec![0.0, 1.0 / n as f64];

    for k in 2..n + 1 {
        probs.push(1.0 / (k * (k - 1)) as f64)
    }

    probs
}

pub fn robust_dist(n: usize, c: f64, delta: f64) -> Vec<f64> {
    let r = c * (n as f64 / delta).ln() * (n as f64).sqrt();
    let m = ((n as f64 / r).floor() as usize).clamp(1, n);

    let mut extra_prob: Vec<f64> = vec![0.0];
    for i in 1..m {
        extra_prob.push(1.0 / (i as f64 * m as f64))
    }
    extra_prob.push(((r / delta).ln()) / m as f64);
    for _ in m + 1..n + 1 {
        extra_prob.push(0.0)
    }

    let ideal_probs = ideal_dist(n);
    let mut probs = Vec::with_capacity(n + 1);
    for (a, b) in extra_prob.iter().zip(ideal_probs.iter()) {
        probs.push(a + b)
    }
    let prob_sum: f64 = probs.iter().sum();
    probs.iter().map(|x| x / prob_sum).collect::<Vec<f64>>()
}

/// The Robust Soliton over `1..=k` for the parameters c and delta.
fn robust_soliton(k: usize, c: f64, spike: Option<usize>, delta: f64) -> Soliton {
    let (m, r) = match spike {
        Some(m) => (m, k as f64 / m as f64),
        None => {
            let r = c * (k as f64 / delta).ln() * (k as f64).sqrt();
            (((k as f64 / r).floor() as usize).clamp(1, k), r)
        }
    };
    let spike_mass = ((r / delta).ln() / m as f64 * SCALE as f64).max(0.0) as u64;
    Soliton::robust_with_spike(k, m, spike_mass).unwrap()
}

#[test]
fn ideal_dist_test() {
    let mut histogram = vec![0.0; 11];
    let mut rng = StdRng::from_entropy();
    let sol = Soliton::ideal(histogram.len() - 1).unwrap();
    let iterations = 100000 * histogram.len();
    for _ in 0..iterations {
        let deg = sol.sample(rng.gen::<u64>());
        histogram[deg] += 1.0 / iterations as f64;
    }

    let truth = ideal_dist(10);

    println!("Truth (ideal):     \t{:.6?}", truth);
    println!("Generated (ideal): \t{:.6?}", histogram);

    assert_eq!(histogram[0], 0.0);
}

#[test]
fn robust_dist_test() {
    let mut histogram = vec![0.0; 10];
    let mut rng = StdRng::from_entropy();
    let sol = robust_soliton(histogram.len() - 1, 0.1, None, 0.01);
    let iterations = 100000 * histogram.len();
    for _ in 0..iterations {
        let deg = sol.sample(rng.gen::<u64>());
        histogram[deg] += 1.0 / iterations as f64;
    }

    let truth = robust_dist(9, 0.1, 0.01);

    println!("Truth (robust):     \t{:.6?}", truth);
    println!("Generated (robust): \t{:.6?}", histogram);

    assert_eq!(histogram[0], 0.0);
}
