use vstd::prelude::*;

use rand::distributions::Uniform;
use rand::rngs::StdRng;
use rand::{Rng, SeedableRng};

use crate::decoder::{chunk_count, chunk_count_spec, droplet_matches, lemma_chunk_bounds};
use crate::droplet::{DropType, Droplet};
use crate::soliton::Soliton;
use crate::types::ConfigError;
pub use crate::types::EncoderType;
use crate::xor::{
    lemma_xor_all_len, lemma_xor_all_push, lemma_xor_all_single, lemma_xor_zeros, symbols_sized,
    xor_all, xor_seq, zeros,
};

verus! {

/// rand's `StdRng`, held opaque: the encoder's source of random words.
#[verifier::external_type_specification]
#[verifier::external_body]
pub struct ExStdRng(StdRng);

/// The first `degree` draws, uniform over `0..k`, of the index sampler
/// seeded with `seed`. Encoder and decoder agree on a droplet's indices
/// through this sequence.
pub uninterp spec fn index_sample(seed: u64, k: usize, degree: usize) -> Seq<usize>;

/// Relies on rand's `StdRng::seed_from_u64`, `Uniform::new(0, k)` and
/// `Rng::sample_iter`: the generator is deterministic in its seed, `Uniform`
/// samples from the half-open range `[0, k)` and panics when `k == 0`, and the
/// iterator is endless, so `take(degree)` yields exactly `degree` items.
/// Sampling over `u64` keeps the draws the same on hosts of any word size.
#[verifier::external_body]
pub fn get_sample_from_rng_by_seed(seed: u64, k: usize, degree: usize) -> (r: Vec<usize>)
    requires
        k > 0,
    ensures
        r@ == index_sample(seed, k, degree),
        r@.len() == degree,
        forall|t: int| 0 <= t < r@.len() ==> #[trigger] r@[t] < k,
{
    let rng: StdRng = SeedableRng::seed_from_u64(seed);
    rng.sample_iter(Uniform::new(0u64, k as u64)).take(degree).map(|i| i as usize).collect()
}

/// Relies on rand's `StdRng::seed_from_u64`: a generator seeded with `seed`.
#[verifier::external_body]
fn seeded_rng(seed: u64) -> (r: StdRng) {
    StdRng::seed_from_u64(seed)
}

/// Relies on rand's `Rng::gen::<u64>`: the next 64 random bits of `rng`.
/// Nothing is known of the value.
#[verifier::external_body]
fn next_word(rng: &mut StdRng) -> (r: u64) {
    rng.gen::<u64>()
}

/// The source symbols of `msg` for symbol size `b`: symbol `i` holds bytes
/// `i*b .. (i+1)*b` of the message, the last one padded with zero bytes.
pub open spec fn symbols_of(msg: Seq<u8>, b: nat) -> Seq<Seq<u8>> {
    Seq::new(
        chunk_count_spec(msg.len(), b),
        |i: int|
            Seq::new(
                b,
                |t: int|
                    if i * (b as int) + t < msg.len() {
                        msg[i * (b as int) + t]
                    } else {
                        0u8
                    },
            ),
    )
}

/// The abstract state of an encoder.
pub struct EncoderView {
    /// The message.
    pub message: Seq<u8>,
    /// The symbol size B.
    pub blocksize: nat,
    /// The number K of source symbols.
    pub chunks: nat,
    /// Droplets emitted so far, modulo 2^64.
    pub cnt: nat,
    /// The current mode.
    pub encodertype: EncoderType,
    /// The degree distribution.
    pub sol: Soliton,
}

impl EncoderView {
    pub open spec fn wf(self) -> bool {
        &&& self.blocksize > 0
        &&& self.message.len() > 0
        &&& self.chunks == chunk_count_spec(self.message.len(), self.blocksize)
        &&& self.sol.wf()
        &&& self.sol.spec_k() == self.chunks
        &&& self.encodertype == EncoderType::Systematic ==> self.cnt < self.chunks
    }

    /// The source symbols.
    pub open spec fn symbols(self) -> Seq<Seq<u8>> {
        symbols_of(self.message, self.blocksize)
    }

    /// `r` is the droplet that state `self` emits when the random words are
    /// `word` (for the degree) and `seed`.
    pub open spec fn emits(self, word: u64, seed: u64, r: Droplet) -> bool {
        match self.encodertype {
            EncoderType::Systematic => {
                &&& r.droptype == DropType::Edges(self.cnt as usize)
                &&& r.data@ == self.symbols()[self.cnt as int]
            },
            EncoderType::Random => {
                &&& r.droptype matches DropType::Seeded(s, d)
                &&& s == seed
                &&& self.sol.samples(word, d as nat)
                &&& r.data@ == xor_all(
                    self.symbols(),
                    index_sample(seed, self.chunks as usize, d),
                    self.blocksize,
                )
            },
        }
    }

    /// `next` is the state after `self` emitted one droplet: the counter
    /// moves on, and the systematic mode ends after its k-th droplet.
    pub open spec fn advanced_to(self, next: EncoderView) -> bool {
        &&& next.message == self.message
        &&& next.blocksize == self.blocksize
        &&& next.chunks == self.chunks
        &&& next.sol == self.sol
        &&& next.cnt == if self.cnt < usize::MAX {
            self.cnt + 1
        } else {
            0
        }
        &&& next.encodertype == if self.encodertype == EncoderType::Systematic && self.cnt + 1
            < self.chunks {
            EncoderType::Systematic
        } else {
            EncoderType::Random
        }
    }
}

/// An encoder for Luby transform codes: it cuts a message into symbols and
/// emits an endless stream of droplets.
pub struct Encoder {
    data: Vec<u8>,
    blocksize: usize,
    rng: StdRng,
    cnt_blocks: usize,
    sol: Soliton,
    cnt: usize,
    encodertype: EncoderType,
}

impl View for Encoder {
    type V = EncoderView;

    closed spec fn view(&self) -> EncoderView {
        EncoderView {
            message: self.data@,
            blocksize: self.blocksize as nat,
            chunks: self.cnt_blocks as nat,
            cnt: self.cnt as nat,
            encodertype: self.encodertype,
            sol: self.sol,
        }
    }
}

proof fn lemma_symbols_sized(msg: Seq<u8>, b: nat)
    ensures
        symbols_sized(symbols_of(msg, b), b),
{
    assert forall|i: int| 0 <= i < symbols_of(msg, b).len() implies (#[trigger] symbols_of(
        msg,
        b,
    )[i]).len() == b by {}
}

impl Encoder {
    /// An encoder of `data` in symbols of `blocksize` bytes, drawing degrees
    /// from `sol` and its random words from a generator seeded with `seed`.
    pub fn new(data: Vec<u8>, blocksize: usize, encodertype: EncoderType, sol: Soliton, seed: u64) -> (r:
        Result<Encoder, ConfigError>)
        requires
            sol.wf(),
        ensures
            blocksize == 0 ==> r == Err::<Encoder, ConfigError>(ConfigError::ZeroBlocksize),
            blocksize > 0 && data@.len() == 0 ==> r == Err::<Encoder, ConfigError>(
                ConfigError::EmptyMessage,
            ),
            blocksize > 0 && data@.len() > 0 && sol.spec_k() != chunk_count_spec(
                data@.len(),
                blocksize as nat,
            ) ==> r == Err::<Encoder, ConfigError>(ConfigError::ChunkCountMismatch),
            blocksize > 0 && data@.len() > 0 && sol.spec_k() == chunk_count_spec(
                data@.len(),
                blocksize as nat,
            ) ==> r is Ok,
            r matches Ok(e) ==> {
                &&& e@.wf()
                &&& e@.message == data@
                &&& e@.blocksize == blocksize
                &&& e@.cnt == 0
                &&& e@.encodertype == encodertype
                &&& e@.sol == sol
            },
    {
        if blocksize == 0 {
            return Err(ConfigError::ZeroBlocksize);
        }
        if data.len() == 0 {
            return Err(ConfigError::EmptyMessage);
        }
        let cnt_blocks = chunk_count(data.len(), blocksize);
        if sol.k() != cnt_blocks {
            return Err(ConfigError::ChunkCountMismatch);
        }
        proof {
            lemma_chunk_bounds(data@.len(), blocksize as nat);
        }
        Ok(Encoder {
            data,
            blocksize,
            rng: seeded_rng(seed),
            cnt_blocks,
            sol,
            cnt: 0,
            encodertype,
        })
    }

    /// An encoder of `data` with the Ideal Soliton degree distribution.
    pub fn ideal(data: Vec<u8>, blocksize: usize, encodertype: EncoderType, seed: u64) -> (r: Result<
        Encoder,
        ConfigError,
    >)
        ensures
            blocksize == 0 ==> r == Err::<Encoder, ConfigError>(ConfigError::ZeroBlocksize),
            blocksize > 0 && data@.len() == 0 ==> r == Err::<Encoder, ConfigError>(
                ConfigError::EmptyMessage,
            ),
            blocksize > 0 && data@.len() > 0 ==> r is Ok,
            r matches Ok(e) ==> {
                &&& e@.wf()
                &&& e@.message == data@
                &&& e@.blocksize == blocksize
                &&& e@.cnt == 0
                &&& e@.encodertype == encodertype
                &&& e@.sol == Soliton::Ideal { k: e@.chunks as usize }
            },
    {
        if blocksize == 0 {
            return Err(ConfigError::ZeroBlocksize);
        }
        if data.len() == 0 {
            return Err(ConfigError::EmptyMessage);
        }
        let k = chunk_count(data.len(), blocksize);
        proof {
            lemma_chunk_bounds(data@.len(), blocksize as nat);
        }
        let sol = match Soliton::ideal(k) {
            Ok(s) => s,
            Err(e) => {
                return Err(e);
            },
        };
        Encoder::new(data, blocksize, encodertype, sol, seed)
    }

    /// Droplets emitted so far, modulo 2^64.
    pub fn cnt(&self) -> (r: usize)
        ensures
            r == self@.cnt,
    {
        self.cnt
    }

    /// The number of source symbols.
    pub fn chunks(&self) -> (r: usize)
        ensures
            r == self@.chunks,
    {
        self.cnt_blocks
    }

    /// XORs source symbol `i` into `r`.
    fn add_symbol(&self, r: &mut Vec<u8>, i: usize)
        requires
            self@.wf(),
            i < self@.chunks,
            old(r)@.len() == self@.blocksize,
        ensures
            final(r)@ == xor_seq(old(r)@, self@.symbols()[i as int]),
    {
        let ghost sym = self@.symbols()[i as int];
        let bs = self.blocksize;
        let len = self.data.len();
        proof {
            lemma_chunk_bounds(self@.message.len(), bs as nat);
            assert(i * bs <= (self@.chunks - 1) * bs) by (nonlinear_arith)
                requires
                    i < self@.chunks,
            ;
        }
        let begin = i * bs;
        let mut t: usize = 0;
        while t < bs && begin + t < len
            invariant
                self@.wf(),
                t <= bs,
                begin < len,
                begin + t <= len,
                bs == self@.blocksize,
                len == self@.message.len(),
                begin == i * bs,
                i < self@.chunks,
                sym == self@.symbols()[i as int],
                r@.len() == bs,
                forall|u: int| 0 <= u < t ==> r@[u] == old(r)@[u] ^ #[trigger] sym[u],
                forall|u: int| t <= u < bs ==> r@[u] == old(r)@[u],
            decreases bs - t,
        {
            proof {
                let msg = self@.message;
                let b = bs as nat;
                assert(0 <= i < symbols_of(msg, b).len());
                assert(symbols_of(msg, b)[i as int][t as int] == (if i * (b as int) + t < msg.len() {
                    msg[i * (b as int) + t]
                } else {
                    0u8
                }));
                assert(i * (b as int) + t == begin + t);
            }
            assert(sym[t as int] == self.data@[begin + t]);
            r[t] = r[t] ^ self.data[begin + t];
            t = t + 1;
        }
        proof {
            assert forall|u: int| 0 <= u < bs implies #[trigger] r@[u] == xor_seq(old(r)@, sym)[u] by {
                if u >= t {
                    assert(sym[u] == 0u8);
                    let x = old(r)@[u];
                    assert(x ^ 0u8 == x) by (bit_vector);
                }
            }
            assert(r@ =~= xor_seq(old(r)@, sym));
        }
    }

    /// The droplet that the encoder emits when its random words are
    /// `degree_word` and `seed`: in systematic mode the next source symbol,
    /// else a droplet of the degree that `degree_word` draws, over the
    /// indices that `seed` draws.
    pub fn drop_with(&mut self, degree_word: u64, seed: u64) -> (r: Droplet)
        requires
            old(self)@.wf(),
        ensures
            final(self)@.wf(),
            old(self)@.emits(degree_word, seed, r),
            old(self)@.advanced_to(final(self)@),
            droplet_matches(r, old(self)@.symbols(), old(self)@.blocksize),
    {
        let ghost v0 = self@;
        let ghost src = v0.symbols();
        proof {
            lemma_symbols_sized(v0.message, v0.blocksize);
        }
        let bs = self.blocksize;
        let mut r: Vec<u8> = vec![0u8; bs];
        proof {
            assert(r@ =~= zeros(bs as nat));
        }
        let droptype = match self.encodertype {
            EncoderType::Systematic => {
                let i = self.cnt;
                self.add_symbol(&mut r, i);
                proof {
                    lemma_xor_zeros(src[i as int]);
                    lemma_xor_all_single(src, i, bs as nat);
                }
                if i + 1 >= self.cnt_blocks {
                    self.encodertype = EncoderType::Random;
                }
                DropType::Edges(i)
            },
            EncoderType::Random => {
                let degree = self.sol.sample(degree_word);
                let sample = get_sample_from_rng_by_seed(seed, self.cnt_blocks, degree);
                let mut t: usize = 0;
                while t < sample.len()
                    invariant
                        self@ == v0,
                        v0.wf(),
                        src == v0.symbols(),
                        symbols_sized(src, v0.blocksize),
                        bs == v0.blocksize,
                        t <= sample@.len(),
                        forall|a: int| 0 <= a < sample@.len() ==> #[trigger] sample@[a] < v0.chunks,
                        r@ == xor_all(src, sample@.subrange(0, t as int), bs as nat),
                    decreases sample@.len() - t,
                {
                    let idx = sample[t];
                    proof {
                        assert(sample@.subrange(0, t + 1) =~= sample@.subrange(0, t as int).push(idx));
                        lemma_xor_all_push(src, sample@.subrange(0, t as int), idx, bs as nat);
                        lemma_xor_all_len(src, sample@.subrange(0, t as int), bs as nat);
                    }
                    self.add_symbol(&mut r, idx);
                    t = t + 1;
                }
                proof {
                    assert(sample@.subrange(0, sample@.len() as int) =~= sample@);
                }
                DropType::Seeded(seed, degree)
            },
        };
        self.cnt = if self.cnt < usize::MAX {
            self.cnt + 1
        } else {
            0
        };
        Droplet::new(droptype, r)
    }

    /// Emits the next droplet, drawing its random words from the encoder's
    /// own generator in random mode.
    pub fn drop(&mut self) -> (r: Droplet)
        requires
            old(self)@.wf(),
        ensures
            final(self)@.wf(),
            old(self)@.advanced_to(final(self)@),
            droplet_matches(r, old(self)@.symbols(), old(self)@.blocksize),
            old(self)@.encodertype == EncoderType::Systematic ==> {
                &&& r.droptype == DropType::Edges(old(self)@.cnt as usize)
                &&& r.data@ == old(self)@.symbols()[old(self)@.cnt as int]
            },
            old(self)@.encodertype == EncoderType::Random ==> {
                &&& r.droptype matches DropType::Seeded(seed, d)
                &&& 1 <= d <= old(self)@.chunks
                &&& r.data@ == xor_all(
                    old(self)@.symbols(),
                    index_sample(seed, old(self)@.chunks as usize, d),
                    old(self)@.blocksize,
                )
            },
    {
        match self.encodertype {
            EncoderType::Systematic => self.drop_with(0, 0),
            EncoderType::Random => {
                let degree_word = next_word(&mut self.rng);
                let seed = next_word(&mut self.rng);
                self.drop_with(degree_word, seed)
            },
        }
    }
}

} // verus!
