use fountaincode::decoder::{chunk_count, Decoder};
use fountaincode::encoder::Encoder;
use fountaincode::soliton::{Soliton, SCALE};
use fountaincode::types::{CatchResult, EncoderType};

use rand::distributions::Alphanumeric;
use rand::{thread_rng, Rng};

/// The Robust Soliton over `1..=k` for the parameters c and delta.
fn robust_soliton(k: usize, c: f32, spike: Option<usize>, delta: f32) -> Soliton {
    let (k_f, c, delta) = (k as f64, c as f64, delta as f64);
    let (m, r) = match spike {
        Some(m) => (m, k_f / m as f64),
        None => {
            let r = c * (k_f / delta).ln() * k_f.sqrt();
            (((k_f / r).floor() as usize).clamp(1, k), r)
        }
    };
    let spike_mass = ((r / delta).ln() / m as f64 * SCALE as f64).max(0.0) as u64;
    Soliton::robust_with_spike(k, m, spike_mass).unwrap()
}

fn enc_dec_helper(
    total_len: usize,
    chunk_len: usize,
    loss: f32,
    c: f32,
    spike: Option<usize>,
    delta: f32,
    enc_type: EncoderType,
) {
    let s: String = thread_rng()
        .sample_iter(Alphanumeric)
        .map(char::from)
        .take(total_len)
        .collect();
    let buf = s.into_bytes();
    let len = buf.len();
    let to_compare = buf.clone();

    let sol = robust_soliton(chunk_count(len, chunk_len), c, spike, delta);
    let mut enc = Encoder::new(buf, chunk_len, enc_type, sol, thread_rng().gen::<u64>()).unwrap();
    let mut dec = Decoder::new(len, chunk_len).unwrap();

    let mut loss_rng = thread_rng();

    loop {
        if loss_rng.gen::<f32>() > loss {
            let drop = enc.drop();
            match dec.catch(drop).unwrap() {
                CatchResult::Missing(stats) => {
                    println!("Missing blocks {:?}", stats);
                }
                CatchResult::Finished(data, stats) => {
                    println!("Finished, stats: {:?}", stats);
                    assert_eq!(to_compare.len(), data.len());
                    for i in 0..len {
                        assert_eq!(to_compare[i], data[i]);
                    }
                    return;
                }
            }
        }
    }
}

#[test]
fn robust_enc_dec_simple_systemtatic() {
    enc_dec_helper(1_024, 512, 0.0, 0.2, None, 0.05, EncoderType::Systematic);
}

#[test]
fn robust_enc_dec_simple_random() {
    enc_dec_helper(1_024, 512, 0.0, 0.2, None, 0.05, EncoderType::Random);
}

#[test]
fn robust_enc_dec_uneven_sizes_systematic() {
    for size in 1000..1100 {
        for chunk in 100..130 {
            enc_dec_helper(size, chunk, 0.0, 0.2, None, 0.05, EncoderType::Systematic);
        }
    }
}

#[test]
fn robust_enc_dec_uneven_sizes_random() {
    for size in 1000..1100 {
        for chunk in 100..130 {
            enc_dec_helper(size, chunk, 0.0, 0.2, None, 0.05, EncoderType::Random);
        }
    }
}

#[test]
fn robust_enc_dec_simple_systemtatic_lossy() {
    enc_dec_helper(1_024, 512, 0.3, 0.2, None, 0.05, EncoderType::Systematic);
}

#[test]
fn robust_enc_dec_simple_random_lossy() {
    enc_dec_helper(1_024, 512, 0.3, 0.2, None, 0.05, EncoderType::Random);
}

#[test]
fn robust_enc_dec_uneven_sizes_systematic_lossy() {
    for size in 1000..1100 {
        for chunk in 100..130 {
            enc_dec_helper(size, chunk, 0.3, 0.2, None, 0.05, EncoderType::Systematic);
        }
    }
}

#[test]
fn robust_enc_dec_uneven_sizes_random_lossy() {
    for size in 1000..1100 {
        for chunk in 100..130 {
            enc_dec_helper(size, chunk, 0.3, 0.2, None, 0.05, EncoderType::Random);
        }
    }
}

#[test]
fn robust_enc_dec_combination_systematic_lossy() {
    for size in 1000..1100 {
        for chunk in 100..130 {
            for loss in &[0.1, 0.3, 0.5, 0.9] {
                enc_dec_helper(size, chunk, *loss, 0.2, None, 0.05, EncoderType::Systematic);
            }
        }
    }
}

#[test]
fn robust_enc_dec_combination_random_lossy() {
    for size in 1000..1100 {
        for chunk in 100..130 {
            for loss in vec![0.1, 0.3, 0.5, 0.9] {
                enc_dec_helper(size, chunk, loss, 0.2, None, 0.05, EncoderType::Random);
            }
        }
    }
}
