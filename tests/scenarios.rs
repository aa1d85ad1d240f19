use fountaincode::decoder::{chunk_count, Decoder, Statistics};
use fountaincode::droplet::Droplet;
use fountaincode::encoder::{get_sample_from_rng_by_seed, Encoder};
use fountaincode::soliton::{Soliton, SCALE};
use fountaincode::types::{CatchResult, ConfigError, DropType, DropletError, EncoderType};
use fountaincode::xor::xor_bytes;
use rand::{rngs::StdRng, Rng, SeedableRng};

fn robust_soliton(k: usize, c: f64, delta: f64) -> Soliton {
    let r = c * (k as f64 / delta).ln() * (k as f64).sqrt();
    let m = ((k as f64 / r).floor() as usize).clamp(1, k);
    let spike_mass = ((r / delta).ln() / m as f64 * SCALE as f64).max(0.0) as u64;
    Soliton::robust_with_spike(k, m, spike_mass).unwrap()
}

fn stats_of(res: &CatchResult) -> Statistics {
    match res {
        CatchResult::Finished(_, s) => *s,
        CatchResult::Missing(s) => *s,
    }
}

#[test]
fn single_symbol_systematic() {
    let msg = vec![0x41u8, 0x42, 0x43, 0x44];
    let mut enc = Encoder::ideal(msg.clone(), 4, EncoderType::Systematic, 7).unwrap();
    let mut dec = Decoder::new(4, 4).unwrap();
    let drop = enc.drop();
    assert_eq!(drop.droptype, DropType::Edges(0));
    match dec.catch(drop).unwrap() {
        CatchResult::Finished(out, stats) => {
            assert_eq!(out, vec![0x41, 0x42, 0x43, 0x44]);
            assert_eq!(stats.cnt_droplets, 1);
            assert_eq!(stats.cnt_chunks, 1);
            assert_eq!(stats.unknown_chunks, 0);
        }
        CatchResult::Missing(_) => panic!("one systematic droplet suffices"),
    }
}

#[test]
fn systematic_exactly_k_droplets() {
    let msg: Vec<u8> = (0..8).collect();
    let mut enc = Encoder::ideal(msg.clone(), 2, EncoderType::Systematic, 11).unwrap();
    let mut dec = Decoder::new(8, 2).unwrap();
    for i in 0..3 {
        let drop = enc.drop();
        assert_eq!(drop.droptype, DropType::Edges(i));
        assert_eq!(drop.data, vec![2 * i as u8, 2 * i as u8 + 1]);
        match dec.catch(drop).unwrap() {
            CatchResult::Missing(stats) => assert_eq!(stats.unknown_chunks, 3 - i),
            CatchResult::Finished(_, _) => panic!("finished too early"),
        }
    }
    let drop = enc.drop();
    assert_eq!(drop.droptype, DropType::Edges(3));
    match dec.catch(drop).unwrap() {
        CatchResult::Finished(out, stats) => {
            assert_eq!(out, vec![0, 1, 2, 3, 4, 5, 6, 7]);
            assert_eq!(stats.cnt_droplets, 4);
        }
        CatchResult::Missing(_) => panic!("four systematic droplets suffice"),
    }
    // after k systematic droplets the encoder switches to random combinations
    assert!(matches!(enc.drop().droptype, DropType::Seeded(_, _)));
}

#[test]
fn random_ideal_seeded_round_trip() {
    let msg: Vec<u8> = (0..255).collect();
    let mut enc = Encoder::ideal(msg.clone(), 64, EncoderType::Random, 2024).unwrap();
    let mut dec = Decoder::new(msg.len(), 64).unwrap();
    for _ in 0..10_000 {
        let drop = enc.drop();
        if let DropType::Seeded(_, d) = drop.droptype {
            assert!(1 <= d && d <= 4);
        } else {
            panic!("random mode emits seeded droplets");
        }
        if let CatchResult::Finished(out, stats) = dec.catch(drop).unwrap() {
            assert_eq!(out, msg);
            println!("droplets / k: {} / {}", stats.cnt_droplets, stats.cnt_chunks);
            return;
        }
    }
    panic!("not decoded");
}

#[test]
fn robust_lossy_round_trip_within_three_k() {
    let msg: Vec<u8> = (0..255).collect();
    let k = chunk_count(msg.len(), 64);
    assert_eq!(k, 4);
    let mut enc =
        Encoder::new(msg.clone(), 64, EncoderType::Random, robust_soliton(k, 0.2, 0.05), 99).unwrap();
    let mut dec = Decoder::new(msg.len(), 64).unwrap();
    let mut loss = StdRng::seed_from_u64(5);
    for _ in 0..10_000 {
        let drop = enc.drop();
        if loss.gen::<f64>() < 0.5 {
            continue;
        }
        if let CatchResult::Finished(out, stats) = dec.catch(drop).unwrap() {
            assert_eq!(out, msg);
            assert!(stats.cnt_droplets < 3 * k);
            return;
        }
    }
    panic!("not decoded");
}

#[test]
fn duplicate_droplet_makes_no_progress() {
    let msg: Vec<u8> = (0..40).collect();
    let mut enc = Encoder::ideal(msg.clone(), 4, EncoderType::Random, 3).unwrap();
    let mut dec = Decoder::new(msg.len(), 4).unwrap();
    let mut finished = None;
    for _ in 0..10_000 {
        let drop = enc.drop();
        let copy = drop.clone();
        let first = dec.catch(drop).unwrap();
        if let CatchResult::Finished(out, _) = first {
            finished = Some(out);
            break;
        }
        let before = stats_of(&first).unknown_chunks;
        let second = dec.catch(copy).unwrap();
        assert_eq!(stats_of(&second).unknown_chunks, before);
        assert!(matches!(second, CatchResult::Missing(_)));
    }
    assert_eq!(finished, Some(msg));
}

#[test]
fn duplicate_systematic_droplet() {
    let msg: Vec<u8> = (0..16).collect();
    let mut enc = Encoder::ideal(msg.clone(), 4, EncoderType::Systematic, 1).unwrap();
    let mut dec = Decoder::new(16, 4).unwrap();
    let d0 = enc.drop();
    let r1 = dec.catch(d0.clone()).unwrap();
    assert_eq!(stats_of(&r1).unknown_chunks, 3);
    let r2 = dec.catch(d0).unwrap();
    assert_eq!(stats_of(&r2).unknown_chunks, 3);
    assert_eq!(stats_of(&r2).cnt_droplets, 2);
    let mut out = None;
    for _ in 0..3 {
        if let CatchResult::Finished(o, _) = dec.catch(enc.drop()).unwrap() {
            out = Some(o);
        }
    }
    assert_eq!(out, Some(msg));
}

#[test]
fn zero_degree_droplet_is_refused() {
    let msg: Vec<u8> = (0..20).collect();
    let mut enc = Encoder::ideal(msg.clone(), 5, EncoderType::Systematic, 8).unwrap();
    let mut dec = Decoder::new(20, 5).unwrap();
    let first = dec.catch(enc.drop()).unwrap();
    assert_eq!(stats_of(&first).cnt_droplets, 1);
    let bad = Droplet::new(DropType::Seeded(42, 0), vec![0; 5]);
    assert_eq!(dec.catch(bad).unwrap_err(), DropletError::ZeroDegree);
    let next = dec.catch(enc.drop()).unwrap();
    assert_eq!(stats_of(&next).cnt_droplets, 2);
    assert_eq!(stats_of(&next).unknown_chunks, 2);
    let mut out = None;
    for _ in 0..2 {
        if let CatchResult::Finished(o, _) = dec.catch(enc.drop()).unwrap() {
            out = Some(o);
        }
    }
    assert_eq!(out, Some(msg));
}

#[test]
fn malformed_droplets_each_error() {
    let mut dec = Decoder::new(10, 4).unwrap();
    assert_eq!(
        dec.catch(Droplet::new(DropType::Edges(0), vec![1, 2, 3])).unwrap_err(),
        DropletError::PayloadLength
    );
    assert_eq!(
        dec.catch(Droplet::new(DropType::Edges(3), vec![0; 4])).unwrap_err(),
        DropletError::IndexOutOfRange
    );
    assert_eq!(
        dec.catch(Droplet::new(DropType::Seeded(1, 4), vec![0; 4])).unwrap_err(),
        DropletError::DegreeTooLarge
    );
    assert_eq!(
        dec.catch(Droplet::new(DropType::Seeded(1, 0), vec![0; 4])).unwrap_err(),
        DropletError::ZeroDegree
    );
    for i in 0..3 {
        let _ = dec.catch(Droplet::new(DropType::Edges(i), vec![i as u8; 4])).unwrap();
    }
    assert_eq!(
        dec.catch(Droplet::new(DropType::Edges(0), vec![0; 4])).unwrap_err(),
        DropletError::AlreadyFinished
    );
}

#[test]
fn padded_last_symbol_is_cut() {
    let msg: Vec<u8> = vec![9, 8, 7, 6, 5];
    let mut dec = Decoder::new(5, 2).unwrap();
    let mut enc = Encoder::ideal(msg.clone(), 2, EncoderType::Systematic, 0).unwrap();
    let d0 = enc.drop();
    let d1 = enc.drop();
    let d2 = enc.drop();
    assert_eq!(d2.data, vec![5, 0]);
    let _ = dec.catch(d2).unwrap();
    let _ = dec.catch(d0).unwrap();
    match dec.catch(d1).unwrap() {
        CatchResult::Finished(out, _) => assert_eq!(out, msg),
        CatchResult::Missing(_) => panic!("all three slots were sent"),
    }
}

#[test]
fn peeling_through_combinations() {
    // symbols: a=[1,2], b=[3,4], c=[5,6]; droplets a^b, b^c, c
    let mut dec = Decoder::new(6, 2).unwrap();
    let k = 3;
    // find seeds whose draws are exactly {0,1} and {1,2}
    let mut seed_ab = None;
    let mut seed_bc = None;
    for s in 0..10_000u64 {
        let v = get_sample_from_rng_by_seed(s, k, 2);
        let mut w = v.clone();
        w.sort();
        if w == vec![0, 1] && seed_ab.is_none() {
            seed_ab = Some(s);
        }
        if w == vec![1, 2] && seed_bc.is_none() {
            seed_bc = Some(s);
        }
    }
    let (sab, sbc) = (seed_ab.unwrap(), seed_bc.unwrap());
    let r1 = dec.catch(Droplet::new(DropType::Seeded(sab, 2), vec![1 ^ 3, 2 ^ 4])).unwrap();
    assert_eq!(stats_of(&r1).unknown_chunks, 3);
    let r2 = dec.catch(Droplet::new(DropType::Seeded(sbc, 2), vec![3 ^ 5, 4 ^ 6])).unwrap();
    assert_eq!(stats_of(&r2).unknown_chunks, 3);
    match dec.catch(Droplet::new(DropType::Edges(2), vec![5, 6])).unwrap() {
        CatchResult::Finished(out, stats) => {
            assert_eq!(out, vec![1, 2, 3, 4, 5, 6]);
            assert_eq!(stats.cnt_droplets, 3);
        }
        CatchResult::Missing(_) => panic!("the chain peels completely"),
    }
}

#[test]
fn repeated_draws_cancel() {
    let k = 3;
    let mut seed = None;
    for s in 0..10_000u64 {
        let v = get_sample_from_rng_by_seed(s, k, 3);
        if v[0] == v[1] && v[2] != v[0] {
            seed = Some((s, v[2]));
            break;
        }
    }
    let (s, single) = seed.unwrap();
    let symbols = [[1u8, 1], [2, 2], [3, 3]];
    let mut dec = Decoder::new(6, 2).unwrap();
    // the repeated index cancels, so the droplet is the single symbol left
    let r = dec.catch(Droplet::new(DropType::Seeded(s, 3), symbols[single].to_vec())).unwrap();
    assert_eq!(stats_of(&r).unknown_chunks, 2);
}

#[test]
fn construction_errors() {
    assert_eq!(Decoder::new(10, 0).err(), Some(ConfigError::ZeroBlocksize));
    assert_eq!(Decoder::new(0, 4).err(), Some(ConfigError::EmptyMessage));
    assert_eq!(
        Encoder::ideal(vec![1, 2], 0, EncoderType::Random, 0).err().unwrap(),
        ConfigError::ZeroBlocksize
    );
    assert_eq!(
        Encoder::ideal(vec![], 4, EncoderType::Random, 0).err().unwrap(),
        ConfigError::EmptyMessage
    );
    assert_eq!(Soliton::ideal(0).err().unwrap(), ConfigError::ZeroChunks);
    assert_eq!(Soliton::robust_with_spike(0, 1, 1).err().unwrap(), ConfigError::ZeroChunks);
    assert_eq!(Soliton::robust_with_spike(4, 0, 1).err().unwrap(), ConfigError::SpikeOutOfRange);
    assert_eq!(Soliton::robust_with_spike(4, 5, 1).err().unwrap(), ConfigError::SpikeOutOfRange);
    assert_eq!(
        Soliton::robust_with_spike(4, 2, u64::MAX).err().unwrap(),
        ConfigError::WeightOverflow
    );
    assert_eq!(
        Encoder::new(vec![1, 2, 3], 1, EncoderType::Random, Soliton::ideal(2).unwrap(), 0)
            .err()
            .unwrap(),
        ConfigError::ChunkCountMismatch
    );
}

#[test]
fn ideal_degree_values() {
    let sol = Soliton::ideal(10).unwrap();
    assert_eq!(sol.sample(0), 1);
    assert_eq!(sol.sample(0x8000_0000_0000_0000), 2);
    assert_eq!(sol.sample(0x4000_0000_0000_0000), 4);
    assert_eq!(sol.sample(0xFFFF_FFFF_FFFF_FFFF), 2);
    assert_eq!(sol.sample(0x1999_999A_0000_0000), 10);
    // below 1/k the degree is 1
    assert_eq!(sol.sample(0x1999_9999_0000_0000), 1);
}

#[test]
fn robust_degree_values() {
    let sol = Soliton::robust_with_spike(4, 2, SCALE).unwrap();
    match &sol {
        Soliton::Robust { k, m, cdf } => {
            assert_eq!(*k, 4);
            assert_eq!(*m, 2);
            assert_eq!(cdf, &vec![3221225472, 9663676416, 10379504298, 10737418239]);
        }
        Soliton::Ideal { .. } => panic!("robust expected"),
    }
    assert_eq!(sol.sample(0), 1);
    assert_eq!(sol.sample(u64::MAX), 4);
    // 2^62 scales to a quarter of the total weight, inside the band of degree 1
    assert_eq!(sol.sample(1 << 62), 1);
    assert_eq!(sol.sample(1 << 63), 2);
    assert_eq!(sol.k(), 4);
}

#[test]
fn index_sampler_is_deterministic_and_in_range() {
    let a = get_sample_from_rng_by_seed(12345, 7, 50);
    let b = get_sample_from_rng_by_seed(12345, 7, 50);
    assert_eq!(a, b);
    assert_eq!(a.len(), 50);
    assert!(a.iter().all(|&i| i < 7));
    let c = get_sample_from_rng_by_seed(12346, 7, 50);
    assert_ne!(a, c);
    assert!(get_sample_from_rng_by_seed(1, 7, 0).is_empty());
}

#[test]
fn drop_with_gives_the_stated_droplet() {
    let msg: Vec<u8> = (0..10).collect();
    let mut enc = Encoder::ideal(msg.clone(), 3, EncoderType::Random, 0).unwrap();
    assert_eq!(enc.chunks(), 4);
    let word = 0x4000_0000_0000_0000u64; // degree 4
    let d = enc.drop_with(word, 77);
    assert_eq!(d.droptype, DropType::Seeded(77, 4));
    let symbols = [vec![0u8, 1, 2], vec![3, 4, 5], vec![6, 7, 8], vec![9, 0, 0]];
    let mut expected = vec![0u8; 3];
    for i in get_sample_from_rng_by_seed(77, 4, 4) {
        for t in 0..3 {
            expected[t] ^= symbols[i][t];
        }
    }
    assert_eq!(d.data, expected);
    assert_eq!(enc.cnt(), 1);
}

#[test]
fn same_seed_same_stream() {
    let msg: Vec<u8> = (0..200).map(|x| (x * 7) as u8).collect();
    let mut e1 = Encoder::ideal(msg.clone(), 16, EncoderType::Random, 4242).unwrap();
    let mut e2 = Encoder::ideal(msg, 16, EncoderType::Random, 4242).unwrap();
    for _ in 0..100 {
        let (a, b) = (e1.drop(), e2.drop());
        assert_eq!(a.droptype, b.droptype);
        assert_eq!(a.data, b.data);
    }
}

#[test]
fn xor_and_counts() {
    let mut a = vec![0b1010u8, 0xFF, 0];
    xor_bytes(&mut a, &[0b0110, 0x0F, 0]);
    assert_eq!(a, vec![0b1100, 0xF0, 0]);
    assert_eq!(chunk_count(10, 4), 3);
    assert_eq!(chunk_count(8, 4), 2);
    assert_eq!(chunk_count(1, 1), 1);
    let st = Statistics { cnt_droplets: 5, cnt_chunks: 4, unknown_chunks: 0 };
    assert_eq!(st.overhead_percent(), 125);
}

#[test]
fn wire_format_bytes() {
    let d = Droplet::new(DropType::Edges(1), vec![9, 9]);
    assert_eq!(d.to_bytes(), Some(vec![0, 0, 0, 0, 1, 9, 9]));
    let s = Droplet::new(DropType::Seeded(0x0102030405060708, 3), vec![7]);
    let bytes = s.to_bytes().unwrap();
    assert_eq!(bytes, vec![1, 1, 2, 3, 4, 5, 6, 7, 8, 0, 0, 0, 3, 7]);
    let back = Droplet::from_bytes(&bytes, 1).unwrap();
    assert_eq!(back.droptype, DropType::Seeded(0x0102030405060708, 3));
    assert_eq!(back.data, vec![7]);
    let back = Droplet::from_bytes(&[0, 0, 1, 0, 2, 5, 6], 2).unwrap();
    assert_eq!(back.droptype, DropType::Edges(0x10002));
    assert_eq!(back.data, vec![5, 6]);
}

#[test]
fn wire_format_errors() {
    assert_eq!(Droplet::from_bytes(&[], 2).unwrap_err(), DropletError::Truncated);
    assert_eq!(Droplet::from_bytes(&[2, 0, 0, 0, 0, 1, 1], 2).unwrap_err(), DropletError::UnknownTag);
    assert_eq!(Droplet::from_bytes(&[0, 0, 0], 2).unwrap_err(), DropletError::Truncated);
    assert_eq!(Droplet::from_bytes(&[1, 0, 0, 0, 0, 0, 0, 0], 0).unwrap_err(), DropletError::Truncated);
    assert_eq!(Droplet::from_bytes(&[0, 0, 0, 0, 0, 1], 2).unwrap_err(), DropletError::PayloadLength);
    let too_big = Droplet::new(DropType::Edges(usize::MAX), vec![]);
    assert_eq!(too_big.to_bytes(), None);
}

#[test]
fn wire_round_trip_through_decoder() {
    let msg: Vec<u8> = (0..100).map(|x| (x * 3 + 1) as u8).collect();
    let mut enc = Encoder::ideal(msg.clone(), 10, EncoderType::Random, 555).unwrap();
    let mut dec = Decoder::new(msg.len(), 10).unwrap();
    for _ in 0..10_000 {
        let bytes = enc.drop().to_bytes().unwrap();
        let drop = Droplet::from_bytes(&bytes, 10).unwrap();
        if let CatchResult::Finished(out, _) = dec.catch(drop).unwrap() {
            assert_eq!(out, msg);
            return;
        }
    }
    panic!("not decoded");
}
