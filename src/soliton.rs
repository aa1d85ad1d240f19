use vstd::prelude::*;

use crate::iterext::{cumsum, lemma_prefix_sum_monotone, prefix_sum};
use crate::types::ConfigError;

verus! {

/// Probability masses are held as multiples of 2^-32.
pub const SCALE: u64 = 0x1_0000_0000;

/// The Ideal Soliton mass of degree 1 is 1/k; of degree `i` from 2 on it is
/// 1/(i(i-1)). In units of 2^-32, rounded down.
pub open spec fn rho_weight(k: nat, i: nat) -> nat {
    if i == 1 {
        SCALE as nat / k
    } else {
        SCALE as nat / (i * (i - 1) as nat)
    }
}

/// The extra mass that the Robust Soliton adds: 1/(i m) below the spike
/// position `m`, the given spike mass at `m`, nothing above. In units of 2^-32.
pub open spec fn tau_weight(i: nat, m: nat, spike: nat) -> nat {
    if i < m {
        SCALE as nat / (i * m)
    } else if i == m {
        spike
    } else {
        0
    }
}

/// The unnormalised Robust Soliton weight of degree `i`.
pub open spec fn robust_weight(k: nat, m: nat, spike: nat, i: nat) -> nat {
    rho_weight(k, i) + tau_weight(i, m, spike)
}

/// The total weight of degrees `1..=n`.
pub open spec fn weight_total(k: nat, m: nat, spike: nat, n: int) -> nat
    decreases n,
{
    if n <= 0 {
        0
    } else {
        weight_total(k, m, spike, n - 1) + robust_weight(k, m, spike, n as nat)
    }
}

proof fn lemma_weight_total_monotone(k: nat, m: nat, spike: nat, a: int, b: int)
    requires
        a <= b,
    ensures
        weight_total(k, m, spike, a) <= weight_total(k, m, spike, b),
    decreases b - a,
{
    if a < b {
        lemma_weight_total_monotone(k, m, spike, a, b - 1);
    }
}

proof fn lemma_prefix_is_total(w: Seq<u64>, k: nat, m: nat, spike: nat, n: int)
    requires
        0 <= n <= w.len(),
        forall|t: int| 0 <= t < w.len() ==> #[trigger] w[t] as nat == robust_weight(k, m, spike, (t + 1) as nat),
    ensures
        prefix_sum(w, n) == weight_total(k, m, spike, n),
    decreases n,
{
    if n > 0 {
        lemma_prefix_is_total(w, k, m, spike, n - 1);
        assert(w[n - 1] as nat == robust_weight(k, m, spike, n as nat));
    }
}

/// The 32 high bits of a random word, read as a fraction `y / 2^32` of one.
pub open spec fn high_half(word: u64) -> nat {
    word as nat / SCALE as nat
}

/// A random word scaled into `0..total`.
pub open spec fn scaled_draw(word: u64, total: nat) -> nat {
    (word as nat * total) / 0x1_0000_0000_0000_0000
}

/// A degree distribution over `1..=k`.
pub enum Soliton {
    /// The Ideal Soliton distribution over `1..=k`.
    Ideal { k: usize },
    /// The Robust Soliton distribution over `1..=k` with its spike at `m`:
    /// `cdf[t]` is the total weight of degrees `1..=t+1`.
    Robust { k: usize, m: usize, cdf: Vec<u64> },
}

impl Soliton {
    /// The largest degree.
    pub open spec fn spec_k(&self) -> nat {
        match self {
            Soliton::Ideal { k } => *k as nat,
            Soliton::Robust { k, .. } => *k as nat,
        }
    }

    pub open spec fn wf(&self) -> bool {
        match self {
            Soliton::Ideal { k } => *k > 0,
            Soliton::Robust { k, m, cdf } => {
                &&& *k > 0
                &&& 1 <= *m <= *k
                &&& cdf@.len() == *k
                &&& forall|a: int, b: int| 0 <= a <= b < cdf@.len() ==> cdf@[a] <= cdf@[b]
                &&& cdf@[*k - 1] > 0
            },
        }
    }

    /// `d` is the degree drawn by the random word `word`. For the Ideal
    /// Soliton, with `y / 2^32` the fraction that the word's high half reads
    /// as: degree 1 when `y / 2^32 < 1/k`, else the ceiling of `2^32 / y`.
    /// For the Robust Soliton: the first degree whose cumulative weight
    /// strictly exceeds the word scaled into the total weight.
    pub open spec fn samples(&self, word: u64, d: nat) -> bool {
        match self {
            Soliton::Ideal { k } => {
                let y = high_half(word);
                &&& 1 <= d <= *k
                &&& (d == 1 <==> y * (*k as nat) < SCALE)
                &&& d > 1 ==> (d - 1) * y < SCALE && SCALE <= d * y
            },
            Soliton::Robust { k, cdf, .. } => {
                let u = scaled_draw(word, cdf@[*k - 1] as nat);
                &&& 1 <= d <= *k
                &&& cdf@[d - 1] > u
                &&& forall|t: int| 0 <= t < d - 1 ==> cdf@[t] <= u
            },
        }
    }

    /// The Ideal Soliton over `1..=k`.
    pub fn ideal(k: usize) -> (r: Result<Soliton, ConfigError>)
        ensures
            k == 0 ==> r == Err::<Soliton, ConfigError>(ConfigError::ZeroChunks),
            k > 0 ==> r == Ok::<Soliton, ConfigError>(Soliton::Ideal { k }),
            r matches Ok(s) ==> s.wf() && s.spec_k() == k,
    {
        if k == 0 {
            Err(ConfigError::ZeroChunks)
        } else {
            Ok(Soliton::Ideal { k })
        }
    }

    /// The Robust Soliton over `1..=k` with its spike at `m` and spike mass
    /// `spike` (in units of 2^-32).
    pub fn robust_with_spike(k: usize, m: usize, spike: u64) -> (r: Result<Soliton, ConfigError>)
        ensures
            k == 0 ==> r == Err::<Soliton, ConfigError>(ConfigError::ZeroChunks),
            k > 0 && !(1 <= m <= k) ==> r == Err::<Soliton, ConfigError>(
                ConfigError::SpikeOutOfRange,
            ),
            k > 0 && 1 <= m <= k && weight_total(k as nat, m as nat, spike as nat, k as int)
                > u64::MAX ==> r == Err::<Soliton, ConfigError>(ConfigError::WeightOverflow),
            k > 0 && 1 <= m <= k && weight_total(k as nat, m as nat, spike as nat, k as int)
                == 0 ==> r == Err::<Soliton, ConfigError>(ConfigError::ZeroWeight),
            k > 0 && 1 <= m <= k && 0 < weight_total(k as nat, m as nat, spike as nat, k as int) <= u64::MAX ==> r is Ok,
            r matches Ok(s) ==> {
                &&& s.wf()
                &&& s.spec_k() == k
                &&& s matches Soliton::Robust { k: k2, m: m2, cdf }
                &&& k2 == k
                &&& m2 == m
                &&& forall|t: int| 0 <= t < k ==> #[trigger] cdf@[t] == weight_total(k as nat, m as nat, spike as nat, t + 1)
            },
    {
        if k == 0 {
            return Err(ConfigError::ZeroChunks);
        }
        if m == 0 || m > k {
            return Err(ConfigError::SpikeOutOfRange);
        }
        let weights = match degree_weights(k, m, spike) {
            Some(w) => w,
            None => {
                return Err(ConfigError::WeightOverflow);
            },
        };
        proof {
            assert forall|n: int| 0 <= n <= k implies #[trigger] prefix_sum(weights@, n)
                == weight_total(k as nat, m as nat, spike as nat, n) by {
                lemma_prefix_is_total(weights@, k as nat, m as nat, spike as nat, n);
            }
        }
        match cumsum(&weights) {
            None => Err(ConfigError::WeightOverflow),
            Some(cdf) => {
                if cdf[k - 1] == 0 {
                    return Err(ConfigError::ZeroWeight);
                }
                proof {
                    assert forall|a: int, b: int| 0 <= a <= b < cdf@.len() implies cdf@[a]
                        <= cdf@[b] by {
                        lemma_prefix_sum_monotone(weights@, a + 1, b + 1);
                    }
                }
                Ok(Soliton::Robust { k, m, cdf })
            },
        }
    }

    /// The largest degree.
    pub fn k(&self) -> (r: usize)
        ensures
            r == self.spec_k(),
    {
        match self {
            Soliton::Ideal { k } => *k,
            Soliton::Robust { k, .. } => *k,
        }
    }

    /// The degree that the random word `word` draws.
    pub fn sample(&self, word: u64) -> (d: usize)
        requires
            self.wf(),
        ensures
            self.samples(word, d as nat),
    {
        match self {
            Soliton::Ideal { k } => {
                let y: u64 = word >> 32u64;
                proof {
                    assert(y == word as nat / SCALE as nat) by (bit_vector)
                        requires
                            y == word >> 32u64,
                    ;
                    assert(y < SCALE) by (bit_vector)
                        requires
                            y == word >> 32u64,
                    ;
                }
                proof {
                    assert((y as nat) * (*k as nat) <= u64::MAX as nat * u64::MAX as nat)
                        by (nonlinear_arith)
                        requires
                            y <= u64::MAX,
                            *k <= u64::MAX,
                    ;
                }
                if (y as u128) * (*k as u128) < SCALE as u128 {
                    1
                } else {
                    let num: u64 = SCALE + y - 1;
                    let q: u64 = num / y;
                    proof {
                        let (yi, qi, ki, ni) = (y as int, q as int, *k as int, num as int);
                        let ri = ni % yi;
                        vstd::arithmetic::div_mod::lemma_fundamental_div_mod(ni, yi);
                        vstd::arithmetic::div_mod::lemma_mod_bound(ni, yi);
                        assert(qi * yi >= SCALE && (qi - 1) * yi < SCALE) by (nonlinear_arith)
                            requires
                                ni == yi * qi + ri,
                                0 <= ri < yi,
                                ni == SCALE + yi - 1,
                        ;
                        assert(2 <= qi <= ki) by (nonlinear_arith)
                            requires
                                qi * yi >= SCALE,
                                (qi - 1) * yi < SCALE,
                                yi * ki >= SCALE,
                                0 < yi < SCALE,
                        ;
                    }
                    q as usize
                }
            },
            Soliton::Robust { k, cdf, .. } => {
                let total = cdf[*k - 1];
                proof {
                    assert((word as nat) * (total as nat) <= u64::MAX as nat * u64::MAX as nat)
                        by (nonlinear_arith)
                        requires
                            word <= u64::MAX,
                            total <= u64::MAX,
                    ;
                }
                let prod: u128 = (word as u128) * (total as u128);
                let shifted: u128 = prod >> 64u128;
                proof {
                    assert(shifted == prod / 0x1_0000_0000_0000_0000u128) by (bit_vector)
                        requires
                            shifted == prod >> 64u128,
                    ;
                    assert((prod as nat) / 0x1_0000_0000_0000_0000 < total as nat) by (nonlinear_arith)
                        requires
                            prod == word as nat * total as nat,
                            word < 0x1_0000_0000_0000_0000,
                            total > 0,
                    ;
                }
                let u: u64 = shifted as u64;
                let mut t: usize = 0;
                while t < *k - 1 && cdf[t] <= u
                    invariant
                        self.wf(),
                        *k == cdf@.len(),
                        t < *k,
                        u == scaled_draw(word, cdf@[*k - 1] as nat),
                        u < cdf@[*k - 1],
                        forall|a: int| 0 <= a < t ==> cdf@[a] <= u,
                    decreases *k - t,
                {
                    t = t + 1;
                }
                t + 1
            },
        }
    }
}

/// The weights of degrees `1..=k` in units of 2^-32, indexed from 0; `None`
/// when one of them does not fit in 64 bits.
fn degree_weights(k: usize, m: usize, spike: u64) -> (r: Option<Vec<u64>>)
    requires
        k > 0,
        1 <= m <= k,
    ensures
        r is None ==> weight_total(k as nat, m as nat, spike as nat, k as int) > u64::MAX,
        r matches Some(w) ==> {
            &&& w@.len() == k
            &&& forall|t: int| 0 <= t < k ==> #[trigger] w@[t] as nat == robust_weight(
                k as nat,
                m as nat,
                spike as nat,
                (t + 1) as nat,
            )
        },
{
    let mut w: Vec<u64> = Vec::new();
    let mut t: usize = 0;
    while t < k
        invariant
            t <= k,
            1 <= m <= k,
            w@.len() == t,
            forall|a: int| 0 <= a < t ==> #[trigger] w@[a] as nat == robust_weight(
                k as nat,
                m as nat,
                spike as nat,
                (a + 1) as nat,
            ),
        decreases k - t,
    {
        let i = t + 1;
        let rho: u64 = if i == 1 {
            SCALE / (k as u64)
        } else {
            proof {
                assert((i as nat) * ((i - 1) as nat) <= u64::MAX as nat * u64::MAX as nat
                    && (i as nat) * ((i - 1) as nat) > 0) by (nonlinear_arith)
                    requires
                        2 <= i <= u64::MAX,
                ;
            }
            let den: u128 = (i as u128) * ((i - 1) as u128);
            (SCALE as u128 / den) as u64
        };
        let tau: u64 = if i < m {
            proof {
                assert((i as nat) * (m as nat) <= u64::MAX as nat * u64::MAX as nat && (i as nat) * (
                m as nat) > 0) by (nonlinear_arith)
                    requires
                        1 <= i <= u64::MAX,
                        1 <= m <= u64::MAX,
                ;
            }
            let den: u128 = (i as u128) * (m as u128);
            (SCALE as u128 / den) as u64
        } else if i == m {
            spike
        } else {
            0
        };
        match rho.checked_add(tau) {
            Some(x) => {
                w.push(x);
            },
            None => {
                proof {
                    lemma_weight_total_monotone(k as nat, m as nat, spike as nat, i as int, k as int);
                }
                return None;
            },
        }
        t = t + 1;
    }
    Some(w)
}

} // verus!
