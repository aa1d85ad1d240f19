use vstd::prelude::*;

use crate::block::Block;
use crate::droplet::{DropType, Droplet, RxDroplet};
use crate::encoder::{get_sample_from_rng_by_seed, index_sample, symbols_of};
use crate::types::{ConfigError, DropletError};
use crate::xor::{
    indices_below, lemma_xor_all_len, lemma_xor_all_push, lemma_xor_all_remove,
    lemma_xor_all_single, lemma_xor_cancel, symbols_sized, xor_all, xor_bytes, xor_seq,
};

verus! {

/// The number of `b`-byte symbols that `l` bytes fill: the ceiling of `l / b`.
pub open spec fn chunk_count_spec(l: nat, b: nat) -> nat
    recommends
        b > 0,
{
    if l % b == 0 {
        l / b
    } else {
        l / b + 1
    }
}

/// The number of slots that are not known.
pub open spec fn count_unknown(known: Seq<bool>) -> nat
    decreases known.len(),
{
    if known.len() == 0 {
        0
    } else {
        count_unknown(known.drop_last()) + if known.last() {
            0nat
        } else {
            1nat
        }
    }
}

/// A droplet that waits in the decoder: the unknown slots it still combines,
/// and its payload.
pub struct Pending {
    pub edges: Seq<usize>,
    pub payload: Seq<u8>,
}

/// The abstract state of a decoder.
pub struct DecoderView {
    /// The length L of the message.
    pub total_length: nat,
    /// The symbol size B.
    pub blocksize: nat,
    /// The number K of source symbols.
    pub chunks: nat,
    /// How many slots are not known yet.
    pub unknown: nat,
    /// How many droplets were accepted.
    pub received: nat,
    /// Which slots are known.
    pub known: Seq<bool>,
    /// The content of each slot; meaningful where the slot is known.
    pub data: Seq<Seq<u8>>,
    /// The droplet pool, by handle: `None` once a droplet is used up.
    pub pending: Seq<Option<Pending>>,
    /// For each slot, the handles of the pending droplets that combine it.
    pub adjacency: Seq<Seq<usize>>,
}

impl DecoderView {
    pub open spec fn is_pending(self, h: int) -> bool {
        0 <= h < self.pending.len() && self.pending[h] is Some
    }

    pub open spec fn edges(self, h: int) -> Seq<usize> {
        self.pending[h]->0.edges
    }

    pub open spec fn payload(self, h: int) -> Seq<u8> {
        self.pending[h]->0.payload
    }

    /// Sizes and counters that every state of the decoder keeps.
    pub open spec fn shaped(self) -> bool {
        &&& self.total_length > 0
        &&& self.blocksize > 0
        &&& self.chunks > 0
        &&& self.chunks == chunk_count_spec(self.total_length, self.blocksize)
        &&& self.known.len() == self.chunks
        &&& self.data.len() == self.chunks
        &&& self.adjacency.len() == self.chunks
        &&& symbols_sized(self.data, self.blocksize)
        &&& self.unknown == count_unknown(self.known)
        &&& self.received == self.pending.len()
        &&& forall|h: int|
            #![trigger self.pending[h]]
            self.is_pending(h) ==> {
                &&& self.edges(h).len() >= 1
                &&& self.edges(h).no_duplicates()
                &&& indices_below(self.edges(h), self.chunks)
                &&& self.payload(h).len() == self.blocksize
            }
        &&& forall|i: int, t: int|
            0 <= i < self.chunks && 0 <= t < self.adjacency[i].len() ==> #[trigger] self.adjacency[i][t]
                < self.pending.len()
    }

    /// Every edge of a pending droplet is a slot that is not known.
    pub open spec fn edges_unknown(self) -> bool {
        forall|h: int, t: int|
            self.is_pending(h) && 0 <= t < self.edges(h).len() ==> !self.known[#[trigger] self.edges(
                h,
            )[t] as int]
    }

    /// A droplet is in the adjacency list of slot `i` exactly when `i` is one
    /// of its edges.
    pub open spec fn adjacency_exact(self) -> bool {
        forall|i: int, h: int|
            #![trigger self.adjacency[i].contains(h as usize)]
            #![trigger self.pending[h], self.adjacency[i]]
            0 <= i < self.chunks && 0 <= h < self.pending.len() ==> (self.adjacency[i].contains(
                h as usize,
            ) <==> (self.is_pending(h) && self.edges(h).contains(i as usize)))
    }

    /// No pending droplet has a single edge left: all are peeled.
    pub open spec fn peeled(self) -> bool {
        forall|h: int| #![trigger self.pending[h]] self.is_pending(h) ==> self.edges(h).len() >= 2
    }

    /// The invariant of a decoder between two calls.
    pub open spec fn wf(self) -> bool {
        &&& self.shaped()
        &&& self.edges_unknown()
        &&& self.adjacency_exact()
        &&& self.peeled()
    }

    /// The state agrees with the source symbols `src`: known slots hold their
    /// symbol, and each pending payload is the XOR of the symbols at its edges.
    pub open spec fn consistent(self, src: Seq<Seq<u8>>) -> bool {
        &&& src.len() == self.chunks
        &&& symbols_sized(src, self.blocksize)
        &&& forall|i: int| 0 <= i < self.chunks && #[trigger] self.known[i] ==> self.data[i] == src[i]
        &&& forall|h: int|
            #![trigger self.pending[h]]
            self.is_pending(h) ==> self.payload(h) == xor_all(src, self.edges(h), self.blocksize)
    }

    /// The message that the slots spell: the first L bytes of their concatenation.
    pub open spec fn assembled(self) -> Seq<u8> {
        Seq::new(
            self.total_length,
            |p: int| self.data[p / (self.blocksize as int)][p % (self.blocksize as int)],
        )
    }
}

/// The message that the symbols `src` of `b` bytes spell, cut to `l` bytes.
pub open spec fn message_of(src: Seq<Seq<u8>>, b: nat, l: nat) -> Seq<u8> {
    Seq::new(l, |p: int| src[p / (b as int)][p % (b as int)])
}

/// The indices, with repetitions, that a droplet header names among `k` symbols.
pub open spec fn droplet_draws(dt: DropType, k: nat) -> Seq<usize> {
    match dt {
        DropType::Seeded(seed, degree) => index_sample(seed, k as usize, degree),
        DropType::Edges(i) => seq![i],
    }
}

/// The droplet's payload is what its header says of the source symbols `src`.
pub open spec fn droplet_matches(drop: Droplet, src: Seq<Seq<u8>>, b: nat) -> bool {
    drop.data@ == xor_all(src, droplet_draws(drop.droptype, src.len()), b)
}

/// Why a decoder in state `v` refuses `drop`, if it does.
pub open spec fn catch_error(v: DecoderView, drop: Droplet) -> Option<DropletError> {
    if v.unknown == 0 {
        Some(DropletError::AlreadyFinished)
    } else if drop.data@.len() != v.blocksize {
        Some(DropletError::PayloadLength)
    } else {
        match drop.droptype {
            DropType::Edges(i) => if i >= v.chunks {
                Some(DropletError::IndexOutOfRange)
            } else {
                None
            },
            DropType::Seeded(_, degree) => if degree == 0 {
                Some(DropletError::ZeroDegree)
            } else if degree > v.chunks {
                Some(DropletError::DegreeTooLarge)
            } else {
                None
            },
        }
    }
}

/// The counters `st` are those of state `v`.
pub open spec fn reports(st: Statistics, v: DecoderView) -> bool {
    &&& st.cnt_droplets == v.received
    &&& st.cnt_chunks == v.chunks
    &&& st.unknown_chunks == v.unknown
}

proof fn lemma_count_set(known: Seq<bool>, j: int)
    requires
        0 <= j < known.len(),
        !known[j],
    ensures
        count_unknown(known.update(j, true)) + 1 == count_unknown(known),
    decreases known.len(),
{
    let k2 = known.update(j, true);
    if j == known.len() - 1 {
        assert(k2.drop_last() =~= known.drop_last());
    } else {
        lemma_count_set(known.drop_last(), j);
        assert(k2.drop_last() =~= known.drop_last().update(j, true));
    }
}

proof fn lemma_count_zero(known: Seq<bool>)
    requires
        count_unknown(known) == 0,
    ensures
        forall|i: int| 0 <= i < known.len() ==> #[trigger] known[i],
    decreases known.len(),
{
    if known.len() > 0 {
        lemma_count_zero(known.drop_last());
        assert forall|i: int| 0 <= i < known.len() implies #[trigger] known[i] by {
            if i < known.len() - 1 {
                assert(known.drop_last()[i] == known[i]);
            }
        }
    }
}

proof fn lemma_count_all_unknown(known: Seq<bool>)
    requires
        forall|i: int| 0 <= i < known.len() ==> !#[trigger] known[i],
    ensures
        count_unknown(known) == known.len(),
    decreases known.len(),
{
    if known.len() > 0 {
        lemma_count_all_unknown(known.drop_last());
    }
}

/// Facts on the ceiling of `l / b` that the slot arithmetic needs.
pub proof fn lemma_chunk_bounds(l: nat, b: nat)
    requires
        b > 0,
        l > 0,
    ensures
        chunk_count_spec(l, b) > 0,
        forall|p: int| 0 <= p < l ==> #[trigger] (p / (b as int)) < chunk_count_spec(l, b),
        (chunk_count_spec(l, b) - 1) * b < l,
{
    let k = chunk_count_spec(l, b) as int;
    let (li, bi) = (l as int, b as int);
    assert(li == bi * (li / bi) + li % bi) by {
        vstd::arithmetic::div_mod::lemma_fundamental_div_mod(li, bi);
    }
    assert(0 <= li % bi < bi) by {
        vstd::arithmetic::div_mod::lemma_mod_bound(li, bi);
    }
    assert(li <= k * bi) by (nonlinear_arith)
        requires
            li == bi * (li / bi) + li % bi,
            0 <= li % bi < bi,
            k == (if li % bi == 0 {
                li / bi
            } else {
                li / bi + 1
            }),
    ;
    assert((k - 1) * bi < li) by (nonlinear_arith)
        requires
            li == bi * (li / bi) + li % bi,
            0 <= li % bi < bi,
            k == (if li % bi == 0 {
                li / bi
            } else {
                li / bi + 1
            }),
            li > 0,
    ;
    assert(k > 0) by (nonlinear_arith)
        requires
            li <= k * bi,
            li > 0,
            bi > 0,
    ;
    assert forall|p: int| 0 <= p < l implies #[trigger] (p / bi) < k by {
        vstd::arithmetic::div_mod::lemma_fundamental_div_mod(p, bi);
        vstd::arithmetic::div_mod::lemma_mod_bound(p, bi);
        assert(p / bi < k) by (nonlinear_arith)
            requires
                p == bi * (p / bi) + p % bi,
                0 <= p % bi,
                p < li,
                li <= k * bi,
                bi > 0,
        ;
    }
}

/// The number of `blocksize`-byte symbols that `len` bytes fill.
pub fn chunk_count(len: usize, blocksize: usize) -> (k: usize)
    requires
        blocksize > 0,
    ensures
        k == chunk_count_spec(len as nat, blocksize as nat),
{
    if len % blocksize == 0 {
        len / blocksize
    } else {
        proof {
            let (l, b) = (len as int, blocksize as int);
            vstd::arithmetic::div_mod::lemma_fundamental_div_mod(l, b);
            assert(l / b < usize::MAX) by (nonlinear_arith)
                requires
                    l == b * (l / b) + l % b,
                    0 < l % b,
                    l <= usize::MAX,
                    b >= 2,
            ;
        }
        len / blocksize + 1
    }
}

/// How often `x` occurs in `s`.
pub open spec fn occurrences(s: Seq<usize>, x: usize) -> nat
    decreases s.len(),
{
    if s.len() == 0 {
        0
    } else {
        occurrences(s.drop_last(), x) + if s.last() == x {
            1nat
        } else {
            0nat
        }
    }
}

/// The edge set of a droplet whose header draws `draws`: the indices drawn
/// an odd number of times.
pub open spec fn odd_set(draws: Seq<usize>) -> Set<usize> {
    Set::new(|x: usize| occurrences(draws, x) % 2 == 1)
}

/// Droplet `h` of state `v` is what is left of a droplet with edge set `e`:
/// while pending, its edges are members of `e` and the members of `e` it has
/// lost are known; once used up, all of `e` is known.
pub open spec fn remains_of(v: DecoderView, h: int, e: Set<usize>) -> bool {
    if v.is_pending(h) {
        &&& forall|x: usize| #[trigger] v.edges(h).contains(x) ==> e.contains(x)
        &&& forall|x: usize|
            #[trigger] e.contains(x) && !v.edges(h).contains(x) ==> x < v.known.len() && v.known[x as int]
    } else {
        forall|x: usize| #[trigger] e.contains(x) ==> x < v.known.len() && v.known[x as int]
    }
}

/// Every droplet of the pool is what is left of its origin: the edge set it
/// came with, or `None` for a slot that was already used up.
spec fn retains(v: DecoderView, origin: Seq<Option<Set<usize>>>) -> bool {
    &&& origin.len() == v.pending.len()
    &&& forall|h: int|
        #![trigger v.pending[h]]
        #![trigger origin[h]]
        0 <= h < origin.len() ==> match origin[h] {
            Some(e) => remains_of(v, h, e),
            None => !v.is_pending(h),
        }
}

/// The edge sets of the droplets of a pool.
spec fn origins(pending: Seq<Option<Pending>>) -> Seq<Option<Set<usize>>> {
    Seq::new(
        pending.len(),
        |h: int|
            match pending[h] {
                Some(p) => Some(p.edges.to_set()),
                None => None,
            },
    )
}

/// Reducing a pending droplet by a known slot keeps it what is left of its origin.
proof fn lemma_remains_reduce(va: DecoderView, vb: DecoderView, g: int, j: usize, e: Set<usize>)
    requires
        0 <= g < va.pending.len(),
        vb.pending == va.pending.update(g, reduce_entry(va.pending[g], j, va.data[j as int])),
        vb.known == va.known,
        0 <= j < va.known.len(),
        va.known[j as int],
        remains_of(va, g, e),
        va.is_pending(g) ==> va.edges(g).no_duplicates() && indices_below(va.edges(g), va.chunks)
            && va.payload(g).len() == va.blocksize,
        va.data[j as int].len() == va.blocksize,
    ensures
        remains_of(vb, g, e),
{
    if va.is_pending(g) && va.edges(g).contains(j) {
        let p = va.pending[g]->0;
        lemma_reduce(p, j, va.data[j as int], va.chunks, va.blocksize);
        let q = p.edges.index_of(j);
        let e2 = p.edges.remove(q);
        if e2.len() == 0 {
            assert forall|x: usize| #[trigger] e.contains(x) implies x < vb.known.len() && vb.known[x as int] by {
                if p.edges.contains(x) {
                    let t = choose|t: int| 0 <= t < p.edges.len() && p.edges[t] == x;
                    assert(t == q);
                }
            }
        } else {
            assert(vb.edges(g) == e2);
        }
    }
}

/// Pending droplet `o` after slot `j`, whose symbol is `dj`, became known:
/// `j` leaves its edges and `dj` leaves its payload; with no edge left it is used up.
spec fn reduce_entry(o: Option<Pending>, j: usize, dj: Seq<u8>) -> Option<Pending> {
    match o {
        Some(p) => if p.edges.contains(j) {
            let e = p.edges.remove(p.edges.index_of(j));
            if e.len() == 0 {
                None
            } else {
                Some(Pending { edges: e, payload: xor_seq(p.payload, dj) })
            }
        } else {
            o
        },
        None => None,
    }
}

/// Whether reducing `o` by slot `j` leaves a droplet with a single edge.
spec fn reduces_to_single(o: Option<Pending>, j: usize) -> bool {
    &&& o is Some
    &&& o->0.edges.contains(j)
    &&& o->0.edges.len() == 2
}

/// The pending droplets with one edge left are all on the worklist.
spec fn covered(v: DecoderView, worklist: Seq<usize>) -> bool {
    &&& forall|h: int|
        #![trigger v.pending[h]]
        v.is_pending(h) && v.edges(h).len() == 1 ==> worklist.contains(h as usize)
    &&& forall|t: int| 0 <= t < worklist.len() ==> #[trigger] worklist[t] < v.pending.len()
}

/// Adjacency is exact for every slot but `j`, and every pending droplet that
/// has `j` as an edge is in `j`'s list.
spec fn adjacency_exact_but(v: DecoderView, j: int) -> bool {
    &&& forall|i: int, h: int|
        #![trigger v.adjacency[i].contains(h as usize)]
        #![trigger v.pending[h], v.adjacency[i]]
        0 <= i < v.chunks && i != j && 0 <= h < v.pending.len() ==> (v.adjacency[i].contains(
            h as usize,
        ) <==> (v.is_pending(h) && v.edges(h).contains(i as usize)))
    &&& forall|h: int|
        #![trigger v.pending[h]]
        v.is_pending(h) && v.edges(h).contains(j as usize) ==> v.adjacency[j].contains(h as usize)
}

/// The state while slot `j`, just recovered, leaves the droplets of `rest`.
spec fn draining(v: DecoderView, j: int, rest: Seq<usize>) -> bool {
    &&& v.shaped()
    &&& 0 <= j < v.chunks
    &&& v.known[j]
    &&& v.adjacency[j].len() == 0
    &&& forall|i: int, h: int|
        #![trigger v.adjacency[i].contains(h as usize)]
        #![trigger v.pending[h], v.adjacency[i]]
        0 <= i < v.chunks && i != j && 0 <= h < v.pending.len() ==> (v.adjacency[i].contains(
            h as usize,
        ) <==> (v.is_pending(h) && v.edges(h).contains(i as usize)))
    &&& forall|h: int, t: int|
        v.is_pending(h) && 0 <= t < v.edges(h).len() ==> #[trigger] v.edges(h)[t] == j || !v.known[v.edges(
            h,
        )[t] as int]
    &&& forall|h: int|
        #![trigger v.pending[h]]
        v.is_pending(h) && v.edges(h).contains(j as usize) ==> rest.contains(h as usize)
    &&& forall|t: int| 0 <= t < rest.len() ==> #[trigger] rest[t] < v.pending.len()
}

/// Facts on a pending droplet after slot `j` leaves it.
proof fn lemma_reduce(p: Pending, j: usize, dj: Seq<u8>, k: nat, b: nat)
    requires
        p.edges.no_duplicates(),
        indices_below(p.edges, k),
        p.payload.len() == b,
        dj.len() == b,
        p.edges.contains(j),
    ensures
        ({
            let q = p.edges.index_of(j);
            let e = p.edges.remove(q);
            &&& 0 <= q < p.edges.len()
            &&& p.edges[q] == j
            &&& e.len() + 1 == p.edges.len()
            &&& e.no_duplicates()
            &&& indices_below(e, k)
            &&& !e.contains(j)
            &&& forall|x: usize| x != j ==> (e.contains(x) <==> p.edges.contains(x))
            &&& forall|src: Seq<Seq<u8>>|
                src.len() == k && symbols_sized(src, b) && p.payload == xor_all(src, p.edges, b)
                    && dj == src[j as int] ==> #[trigger] xor_all(src, e, b) == xor_seq(
                    p.payload,
                    dj,
                )
        }),
{
    let q = p.edges.index_of(j);
    let e = p.edges.remove(q);
    assert(0 <= q < p.edges.len() && p.edges[q] == j);
    assert forall|t: int| 0 <= t < e.len() implies #[trigger] e[t] == (if t < q {
        p.edges[t]
    } else {
        p.edges[t + 1]
    }) by {}
    assert(e.no_duplicates()) by {
        assert forall|a: int, c: int| 0 <= a < e.len() && 0 <= c < e.len() && a != c implies e[a]
            != e[c] by {
            let a2 = if a < q {
                a
            } else {
                a + 1
            };
            let c2 = if c < q {
                c
            } else {
                c + 1
            };
            assert(e[a] == p.edges[a2] && e[c] == p.edges[c2]);
        }
    }
    assert(indices_below(e, k)) by {
        assert forall|t: int| 0 <= t < e.len() implies #[trigger] e[t] < k by {
            if t < q {
                assert(e[t] == p.edges[t]);
            } else {
                assert(e[t] == p.edges[t + 1]);
            }
        }
    }
    assert(!e.contains(j)) by {
        if e.contains(j) {
            let t = choose|t: int| 0 <= t < e.len() && e[t] == j;
            if t < q {
                assert(p.edges[t] == j);
            } else {
                assert(p.edges[t + 1] == j);
            }
        }
    }
    assert forall|x: usize| x != j implies (e.contains(x) <==> p.edges.contains(x)) by {
        if e.contains(x) {
            let t = choose|t: int| 0 <= t < e.len() && e[t] == x;
            if t < q {
                assert(p.edges[t] == x);
            } else {
                assert(p.edges[t + 1] == x);
            }
        }
        if p.edges.contains(x) {
            let t = choose|t: int| 0 <= t < p.edges.len() && p.edges[t] == x;
            if t < q {
                assert(e[t] == x);
            } else {
                assert(t != q);
                assert(e[t - 1] == x);
            }
        }
    }
    assert forall|src: Seq<Seq<u8>>|
        src.len() == k && symbols_sized(src, b) && p.payload == xor_all(src, p.edges, b) && dj
            == src[j as int] implies #[trigger] xor_all(src, e, b) == xor_seq(p.payload, dj) by {
        lemma_xor_all_remove(src, p.edges, q, b);
        lemma_xor_all_len(src, e, b);
        lemma_xor_cancel(xor_all(src, e, b), dj);
    }
}

/// The position of `x` in `v`, if it occurs.
fn position_of(v: &Vec<usize>, x: usize) -> (r: Option<usize>)
    ensures
        r matches Some(q) ==> q < v@.len() && v@[q as int] == x,
        r is None ==> !v@.contains(x),
{
    let mut q: usize = 0;
    while q < v.len()
        invariant
            q <= v@.len(),
            forall|t: int| 0 <= t < q ==> v@[t] != x,
        decreases v@.len() - q,
    {
        if v[q] == x {
            return Some(q);
        }
        q = q + 1;
    }
    None
}

/// The indices that occur an odd number of times in `draws`, each once: the
/// same XOR as `draws`, since an index that occurs twice cancels out.
fn odd_edges(draws: &Vec<usize>, Ghost(k): Ghost<nat>) -> (r: Vec<usize>)
    requires
        indices_below(draws@, k),
    ensures
        r@.no_duplicates(),
        indices_below(r@, k),
        forall|src: Seq<Seq<u8>>, n: nat|
            src.len() == k && #[trigger] symbols_sized(src, n) ==> xor_all(src, r@, n) == xor_all(
                src,
                draws@,
                n,
            ),
        r@.to_set() == odd_set(draws@),
{
    let mut r: Vec<usize> = Vec::new();
    let mut t: usize = 0;
    while t < draws.len()
        invariant
            t <= draws@.len(),
            indices_below(draws@, k),
            r@.no_duplicates(),
            indices_below(r@, k),
            forall|src: Seq<Seq<u8>>, n: nat|
                src.len() == k && #[trigger] symbols_sized(src, n) ==> xor_all(src, r@, n)
                    == xor_all(src, draws@.subrange(0, t as int), n),
            forall|y: usize|
                #[trigger] r@.contains(y) <==> occurrences(draws@.subrange(0, t as int), y) % 2 == 1,
        decreases draws@.len() - t,
    {
        let x = draws[t];
        assert(draws@.subrange(0, t + 1) =~= draws@.subrange(0, t as int).push(x));
        let ghost before = r@;
        proof {
            let d0 = draws@.subrange(0, t as int);
            let d1 = draws@.subrange(0, t + 1);
            assert(d1.drop_last() =~= d0);
            assert forall|y: usize| occurrences(d1, y) == occurrences(d0, y) + if y == x {
                1nat
            } else {
                0nat
            } by {}
        }
        match position_of(&r, x) {
            Some(q) => {
                proof {
                    assert(before.contains(x));
                    assert forall|src: Seq<Seq<u8>>, n: nat|
                        src.len() == k && #[trigger] symbols_sized(src, n) implies xor_all(
                        src,
                        before.remove(q as int),
                        n,
                    ) == xor_all(src, draws@.subrange(0, t + 1), n) by {
                        lemma_xor_all_remove(src, before, q as int, n);
                        lemma_xor_all_len(src, before.remove(q as int), n);
                        lemma_xor_cancel(xor_all(src, before.remove(q as int), n), src[x as int]);
                        lemma_xor_all_push(src, draws@.subrange(0, t as int), x, n);
                    }
                    let pe = Pending { edges: before, payload: Seq::empty() };
                    lemma_reduce(pe, x, Seq::empty(), k, 0);
                    assert(before.index_of(x) == q as int) by {
                        assert(before[q as int] == x);
                    }
                }
                r.remove(q);
                proof {
                    let d1 = draws@.subrange(0, t + 1);
                    assert forall|y: usize| #[trigger] r@.contains(y) <==> occurrences(d1, y) % 2
                        == 1 by {
                        if y != x {
                            assert(r@.contains(y) <==> before.contains(y));
                        }
                    }
                }
            },
            None => {
                proof {
                    assert forall|src: Seq<Seq<u8>>, n: nat|
                        src.len() == k && #[trigger] symbols_sized(src, n) implies xor_all(
                        src,
                        before.push(x),
                        n,
                    ) == xor_all(src, draws@.subrange(0, t + 1), n) by {
                        lemma_xor_all_push(src, before, x, n);
                        lemma_xor_all_push(src, draws@.subrange(0, t as int), x, n);
                    }
                    assert(before.push(x).no_duplicates()) by {
                        assert forall|a: int, c: int|
                            0 <= a < before.len() + 1 && 0 <= c < before.len() + 1 && a != c implies before.push(
                            x,
                        )[a] != before.push(x)[c] by {
                            if a == before.len() {
                                assert(before.push(x)[c] == before[c]);
                            } else if c == before.len() {
                                assert(before.push(x)[a] == before[a]);
                            }
                        }
                    }
                }
                r.push(x);
                proof {
                    let d1 = draws@.subrange(0, t + 1);
                    assert forall|y: usize| #[trigger] r@.contains(y) <==> occurrences(d1, y) % 2
                        == 1 by {
                        if y == x {
                            assert(r@[before.len() as int] == x);
                        } else {
                            if r@.contains(y) {
                                let w = choose|w: int| 0 <= w < r@.len() && r@[w] == y;
                                assert(before[w] == y);
                            }
                            if before.contains(y) {
                                let w = choose|w: int| 0 <= w < before.len() && before[w] == y;
                                assert(r@[w] == y);
                            }
                        }
                    }
                }
            },
        }
        t = t + 1;
    }
    assert(draws@.subrange(0, draws@.len() as int) =~= draws@);
    assert(r@.to_set() =~= odd_set(draws@));
    r
}

/// Counters that a decoder reports with each droplet it accepts.
#[derive(Clone, Copy, Debug, PartialEq, Eq, Structural)]
pub struct Statistics {
    /// Droplets accepted so far.
    pub cnt_droplets: usize,
    /// The number K of source symbols.
    pub cnt_chunks: usize,
    /// Slots not yet known.
    pub unknown_chunks: usize,
}

impl Statistics {
    /// Droplets accepted, in percent of K: `cnt_droplets * 100 / cnt_chunks`.
    pub fn overhead_percent(&self) -> (r: u128)
        requires
            self.cnt_chunks > 0,
        ensures
            r == self.cnt_droplets as int * 100 / self.cnt_chunks as int,
    {
        (self.cnt_droplets as u128) * 100 / (self.cnt_chunks as u128)
    }
}

/// What a decoder reports for an accepted droplet.
#[derive(Debug)]
pub enum CatchResult {
    /// All slots are known: the reconstructed message.
    Finished(Vec<u8>, Statistics),
    /// Some slots are still unknown.
    Missing(Statistics),
}

/// A peeling decoder for Luby transform codes.
pub struct Decoder {
    total_length: usize,
    blocksize: usize,
    unknown_chunks: usize,
    number_of_chunks: usize,
    cnt_received_drops: usize,
    blocks: Vec<Block>,
    data: Vec<Vec<u8>>,
    pool: Vec<Option<RxDroplet>>,
}

spec fn pending_of(o: Option<RxDroplet>) -> Option<Pending> {
    match o {
        Some(d) => Some(Pending { edges: d.edges_idx@, payload: d.data@ }),
        None => None,
    }
}

impl View for Decoder {
    type V = DecoderView;

    closed spec fn view(&self) -> DecoderView {
        DecoderView {
            total_length: self.total_length as nat,
            blocksize: self.blocksize as nat,
            chunks: self.number_of_chunks as nat,
            unknown: self.unknown_chunks as nat,
            received: self.cnt_received_drops as nat,
            known: self.blocks@.map_values(|b: Block| b.is_known),
            data: self.data@.map_values(|d: Vec<u8>| d@),
            pending: self.pool@.map_values(|o: Option<RxDroplet>| pending_of(o)),
            adjacency: self.blocks@.map_values(|b: Block| b.edges@),
        }
    }
}

impl Decoder {
    /// A decoder for a message of `len` bytes cut into symbols of `blocksize` bytes.
    pub fn new(len: usize, blocksize: usize) -> (r: Result<Decoder, ConfigError>)
        ensures
            blocksize == 0 ==> r == Err::<Decoder, ConfigError>(ConfigError::ZeroBlocksize),
            blocksize > 0 && len == 0 ==> r == Err::<Decoder, ConfigError>(
                ConfigError::EmptyMessage,
            ),
            blocksize > 0 && len > 0 ==> r is Ok,
            r matches Ok(d) ==> {
                &&& d@.wf()
                &&& d@.total_length == len
                &&& d@.blocksize == blocksize
                &&& d@.chunks == chunk_count_spec(len as nat, blocksize as nat)
                &&& d@.received == 0
                &&& d@.unknown == d@.chunks
                &&& d@.pending.len() == 0
                &&& forall|i: int| 0 <= i < d@.chunks ==> !#[trigger] d@.known[i]
                &&& forall|src: Seq<Seq<u8>>|
                    src.len() == d@.chunks && symbols_sized(src, d@.blocksize) ==> #[trigger] d@.consistent(src)
            },
    {
        if blocksize == 0 {
            return Err(ConfigError::ZeroBlocksize);
        }
        if len == 0 {
            return Err(ConfigError::EmptyMessage);
        }
        let number_of_chunks = chunk_count(len, blocksize);
        proof {
            lemma_chunk_bounds(len as nat, blocksize as nat);
        }
        let mut blocks: Vec<Block> = Vec::new();
        let mut data: Vec<Vec<u8>> = Vec::new();
        let mut i: usize = 0;
        while i < number_of_chunks
            invariant
                0 < number_of_chunks,
                (number_of_chunks - 1) * blocksize < len,
                i <= number_of_chunks,
                blocks@.len() == i,
                data@.len() == i,
                forall|t: int| 0 <= t < i ==> !(#[trigger] blocks@[t]).is_known,
                forall|t: int| 0 <= t < i ==> (#[trigger] blocks@[t]).edges@.len() == 0,
                forall|t: int| 0 <= t < i ==> (#[trigger] data@[t])@.len() == blocksize,
            decreases number_of_chunks - i,
        {
            proof {
                assert(i * blocksize <= (number_of_chunks - 1) * blocksize) by (nonlinear_arith)
                    requires
                        i < number_of_chunks,
                ;
            }
            blocks.push(Block::new(i, Vec::new(), i * blocksize, false));
            data.push(vec![0u8; blocksize]);
            i = i + 1;
        }
        let d = Decoder {
            total_length: len,
            blocksize,
            unknown_chunks: number_of_chunks,
            number_of_chunks,
            cnt_received_drops: 0,
            blocks,
            data,
            pool: Vec::new(),
        };
        proof {
            let v = d@;
            assert forall|t: int| 0 <= t < v.chunks implies !#[trigger] v.known[t] by {
                assert(!blocks@[t].is_known);
            }
            lemma_count_all_unknown(v.known);
            assert(symbols_sized(v.data, v.blocksize)) by {
                assert forall|t: int| 0 <= t < v.data.len() implies (#[trigger] v.data[t]).len()
                    == v.blocksize by {
                    assert(data@[t]@.len() == blocksize);
                }
            }
            assert forall|t: int, u: int|
                0 <= t < v.chunks && 0 <= u < v.adjacency[t].len() implies #[trigger] v.adjacency[t][u]
                < v.pending.len() by {
                assert(blocks@[t].edges@.len() == 0);
            }
            assert forall|t: int, h: int| 0 <= t < v.chunks && 0 <= h < v.pending.len() implies (
            v.adjacency[t].contains(h as usize) <==> (v.is_pending(h) && v.edges(h).contains(
                t as usize,
            ))) by {}
        }
        Ok(d)
    }

    /// How many droplets were accepted.
    pub fn received(&self) -> (r: usize)
        ensures
            r == self@.received,
    {
        self.cnt_received_drops
    }

    /// Takes in one droplet. A malformed droplet, or any droplet once the
    /// message is reconstructed, is refused and leaves the decoder unchanged.
    /// Otherwise the droplet is peeled against what is known, and the result
    /// says whether every slot is now known, with the message if so.
    pub fn catch(&mut self, drop: Droplet) -> (r: Result<CatchResult, DropletError>)
        requires
            old(self)@.wf(),
            old(self)@.received < usize::MAX,
        ensures
            r is Err <==> catch_error(old(self)@, drop) is Some,
            r matches Err(e) ==> catch_error(old(self)@, drop) == Some(e) && final(self)@ == old(
                self,
            )@,
            r matches Ok(res) ==> {
                &&& final(self)@.wf()
                &&& final(self)@.received == old(self)@.received + 1
                &&& final(self)@.total_length == old(self)@.total_length
                &&& final(self)@.blocksize == old(self)@.blocksize
                &&& final(self)@.chunks == old(self)@.chunks
                &&& forall|i: int|
                    0 <= i < old(self)@.chunks && #[trigger] old(self)@.known[i]
                        ==> final(self)@.known[i] && final(self)@.data[i] == old(self)@.data[i]
                &&& forall|src: Seq<Seq<u8>>|
                    old(self)@.consistent(src) && #[trigger] droplet_matches(
                        drop,
                        src,
                        old(self)@.blocksize,
                    ) ==> final(self)@.consistent(src)
                &&& forall|h: int|
                    #![trigger old(self)@.pending[h]]
                    0 <= h < old(self)@.pending.len() && old(self)@.is_pending(h) ==> remains_of(
                        final(self)@,
                        h,
                        old(self)@.edges(h).to_set(),
                    )
                &&& remains_of(
                    final(self)@,
                    old(self)@.pending.len() as int,
                    odd_set(droplet_draws(drop.droptype, old(self)@.chunks)),
                )
                &&& match res {
                    CatchResult::Finished(out, st) => {
                        &&& final(self)@.unknown == 0
                        &&& out@ == final(self)@.assembled()
                        &&& reports(st, final(self)@)
                    },
                    CatchResult::Missing(st) => final(self)@.unknown > 0 && reports(st, final(self)@),
                }
            },
    {
        if self.unknown_chunks == 0 {
            return Err(DropletError::AlreadyFinished);
        }
        if drop.data.len() != self.blocksize {
            return Err(DropletError::PayloadLength);
        }
        let k = self.number_of_chunks;
        let draws: Vec<usize> = match drop.droptype {
            DropType::Edges(i) => {
                if i >= k {
                    return Err(DropletError::IndexOutOfRange);
                }
                vec![i]
            },
            DropType::Seeded(seed, degree) => {
                if degree == 0 {
                    return Err(DropletError::ZeroDegree);
                }
                if degree > k {
                    return Err(DropletError::DegreeTooLarge);
                }
                get_sample_from_rng_by_seed(seed, k, degree)
            },
        };
        let ghost v0 = self@;
        let ghost d0 = drop;
        proof {
            assert(draws@ == droplet_draws(drop.droptype, k as nat));
            assert(indices_below(draws@, k as nat)) by {
                assert forall|t: int| 0 <= t < draws@.len() implies #[trigger] draws@[t] < k by {}
            }
        }
        let edges = odd_edges(&draws, Ghost(k as nat));
        let ghost pre = |src: Seq<Seq<u8>>| v0.consistent(src) && droplet_matches(d0, src, v0.blocksize);
        proof {
            assert forall|src: Seq<Seq<u8>>| #[trigger] pre(src) implies v0.consistent(src) && d0.data@
                == xor_all(src, edges@, v0.blocksize) by {
                assert(symbols_sized(src, v0.blocksize));
            }
        }
        self.process_droplet(RxDroplet { edges_idx: edges, data: drop.data }, Ghost(pre));
        proof {
            assert forall|src: Seq<Seq<u8>>|
                v0.consistent(src) && #[trigger] droplet_matches(d0, src, v0.blocksize) implies self@.consistent(
                src,
            ) by {
                assert(pre(src));
            }
        }
        let stats = Statistics {
            cnt_droplets: self.cnt_received_drops,
            cnt_chunks: self.number_of_chunks,
            unknown_chunks: self.unknown_chunks,
        };
        if self.unknown_chunks == 0 {
            Ok(CatchResult::Finished(self.reconstructed(), stats))
        } else {
            Ok(CatchResult::Missing(stats))
        }
    }

    /// The first L bytes of the slots, in order.
    fn reconstructed(&self) -> (out: Vec<u8>)
        requires
            self@.shaped(),
            self@.total_length > 0,
        ensures
            out@ == self@.assembled(),
    {
        let len = self.total_length;
        let bs = self.blocksize;
        proof {
            lemma_chunk_bounds(len as nat, bs as nat);
        }
        let mut out: Vec<u8> = Vec::new();
        let mut p: usize = 0;
        while p < len
            invariant
                p <= len,
                len == self@.total_length,
                bs == self@.blocksize,
                bs > 0,
                self@.shaped(),
                forall|q: int| 0 <= q < len ==> #[trigger] (q / (bs as int)) < self@.chunks,
                out@.len() == p,
                forall|q: int| 0 <= q < p ==> out@[q] == #[trigger] self@.assembled()[q],
            decreases len - p,
        {
            let blk = p / bs;
            let off = p % bs;
            assert(blk < self@.chunks);
            assert(self@.data[blk as int] == self.data@[blk as int]@);
            assert(self@.data[blk as int].len() == bs);
            out.push(self.data[blk][off]);
            p = p + 1;
        }
        assert(out@ =~= self@.assembled());
        out
    }

    /// Adds a droplet to the pool: its known edges are XOR'd out first, then
    /// every droplet left with a single edge is peeled, until none is.
    fn process_droplet(&mut self, rx: RxDroplet, Ghost(pre): Ghost<spec_fn(Seq<Seq<u8>>) -> bool>)
        requires
            old(self)@.wf(),
            rx.edges_idx@.no_duplicates(),
            indices_below(rx.edges_idx@, old(self)@.chunks),
            rx.data@.len() == old(self)@.blocksize,
            old(self)@.received < usize::MAX,
            forall|src: Seq<Seq<u8>>|
                #[trigger] pre(src) ==> old(self)@.consistent(src) && rx.data@ == xor_all(
                    src,
                    rx.edges_idx@,
                    old(self)@.blocksize,
                ),
        ensures
            final(self)@.wf(),
            final(self)@.pending.len() == old(self)@.pending.len() + 1,
            final(self)@.total_length == old(self)@.total_length,
            final(self)@.blocksize == old(self)@.blocksize,
            final(self)@.chunks == old(self)@.chunks,
            final(self)@.received == old(self)@.received + 1,
            forall|i: int|
                0 <= i < old(self)@.chunks && #[trigger] old(self)@.known[i] ==> final(self)@.known[i]
                    && final(self)@.data[i] == old(self)@.data[i],
            forall|src: Seq<Seq<u8>>| #[trigger] pre(src) ==> final(self)@.consistent(src),
            forall|h: int|
                #![trigger old(self)@.pending[h]]
                0 <= h < old(self)@.pending.len() && old(self)@.is_pending(h) ==> remains_of(
                    final(self)@,
                    h,
                    old(self)@.edges(h).to_set(),
                ),
            remains_of(final(self)@, old(self)@.pending.len() as int, rx.edges_idx@.to_set()),
    {
        let ghost v0 = self@;
        let ghost bsz = v0.blocksize;
        let RxDroplet { edges_idx, data } = rx;
        let mut payload = data;
        let mut kept: Vec<usize> = Vec::new();
        let mut t: usize = 0;
        proof {
            assert(kept@ + edges_idx@.subrange(0, edges_idx@.len() as int) =~= edges_idx@);
        }
        while t < edges_idx.len()
            invariant
                self@ == v0,
                bsz == v0.blocksize,
                forall|src: Seq<Seq<u8>>| #[trigger] pre(src) ==> v0.consistent(src),
                v0.wf(),
                t <= edges_idx@.len(),
                edges_idx@ == rx.edges_idx@,
                edges_idx@.no_duplicates(),
                indices_below(edges_idx@, v0.chunks),
                kept@.no_duplicates(),
                indices_below(kept@, v0.chunks),
                forall|a: int| 0 <= a < kept@.len() ==> !v0.known[#[trigger] kept@[a] as int],
                forall|a: int|
                    0 <= a < kept@.len() ==> edges_idx@.subrange(0, t as int).contains(
                        #[trigger] kept@[a],
                    ),
                forall|x: usize|
                    #[trigger] edges_idx@.subrange(0, t as int).contains(x) && !kept@.contains(x)
                        ==> x < v0.chunks && v0.known[x as int],
                payload@.len() == bsz,
                forall|src: Seq<Seq<u8>>|
                    #[trigger] pre(src) ==> payload@ == xor_all(
                        src,
                        kept@ + edges_idx@.subrange(t as int, edges_idx@.len() as int),
                        bsz,
                    ),
            decreases edges_idx@.len() - t,
        {
            let e = edges_idx[t];
            let ghost s0 = kept@ + edges_idx@.subrange(t as int, edges_idx@.len() as int);
            let ghost s1 = kept@ + edges_idx@.subrange(t + 1, edges_idx@.len() as int);
            let ghost kb = kept@;
            let ghost pb = payload@;
            proof {
                assert(edges_idx@.subrange(0, t + 1) =~= edges_idx@.subrange(0, t as int).push(e));
                assert(s0[kept@.len() as int] == e);
                assert(s0.remove(kept@.len() as int) =~= s1);
                assert(indices_below(s0, v0.chunks)) by {
                    assert forall|a: int| 0 <= a < s0.len() implies #[trigger] s0[a] < v0.chunks by {
                        if a >= kept@.len() {
                            assert(s0[a] == edges_idx@[a - kept@.len() + t]);
                        }
                    }
                }
            }
            assert(edges_idx@[t as int] < v0.chunks);
            if self.blocks[e].is_known {
                assert(v0.data[e as int] == self.data@[e as int]@);
                assert(v0.data[e as int].len() == bsz);
                xor_bytes(payload.as_mut_slice(), self.data[e].as_slice());
                proof {
                    assert forall|src: Seq<Seq<u8>>| #[trigger] pre(src) implies payload@ == xor_all(
                        src,
                        s1,
                        bsz,
                    ) by {
                        assert(v0.consistent(src));
                        assert(v0.known[e as int]);
                        lemma_xor_all_remove(src, s0, kb.len() as int, bsz);
                        lemma_xor_all_len(src, s1, bsz);
                        lemma_xor_cancel(xor_all(src, s1, bsz), src[e as int]);
                    }
                    assert forall|x: usize|
                        #[trigger] edges_idx@.subrange(0, t + 1).contains(x) && !kept@.contains(x)
                            implies x < v0.chunks && v0.known[x as int] by {
                        if x != e {
                            let b = choose|b: int|
                                0 <= b < t + 1 && #[trigger] edges_idx@.subrange(0, t + 1)[b] == x;
                            assert(edges_idx@.subrange(0, t as int)[b] == x);
                            assert(edges_idx@.subrange(0, t as int).contains(x));
                        } else {
                            assert(v0.known[e as int]);
                            assert(e < v0.chunks);
                        }
                    }
                }
            } else {
                kept.push(e);
                proof {
                    assert(kept@ + edges_idx@.subrange(t + 1, edges_idx@.len() as int) =~= s0);
                    assert(kept@[kb.len() as int] == e);
                    assert forall|x: usize|
                        #[trigger] edges_idx@.subrange(0, t + 1).contains(x) && !kept@.contains(x)
                            implies x < v0.chunks && v0.known[x as int] by {
                        let b = choose|b: int|
                            0 <= b < t + 1 && #[trigger] edges_idx@.subrange(0, t + 1)[b] == x;
                        assert(b != t);
                        assert(edges_idx@.subrange(0, t as int)[b] == x);
                        assert(edges_idx@.subrange(0, t as int).contains(x));
                        if kb.contains(x) {
                            let a = choose|a: int| 0 <= a < kb.len() && kb[a] == x;
                            assert(kept@[a] == x);
                            assert(kept@.contains(x));
                        }
                        assert(!kb.contains(x));
                    }
                    assert forall|a: int|
                        0 <= a < kept@.len() implies edges_idx@.subrange(0, t + 1).contains(
                        #[trigger] kept@[a],
                    ) by {
                        if a < kb.len() {
                            let b = choose|b: int|
                                0 <= b < t && edges_idx@.subrange(0, t as int)[b] == kb[a];
                            assert(edges_idx@.subrange(0, t + 1)[b] == kept@[a]);
                        } else {
                            assert(edges_idx@.subrange(0, t + 1)[t as int] == e);
                        }
                    }
                    assert(kept@.no_duplicates()) by {
                        assert forall|a: int| 0 <= a < kb.len() implies kb[a] != e by {
                            let b = choose|b: int|
                                0 <= b < t && edges_idx@.subrange(0, t as int)[b] == kb[a];
                            assert(edges_idx@[b] == kb[a]);
                            assert(edges_idx@[t as int] == e);
                        }
                        assert forall|a: int, c: int|
                            0 <= a < kept@.len() && 0 <= c < kept@.len() && a != c implies kept@[a]
                            != kept@[c] by {
                            if a < kb.len() && c < kb.len() {
                                assert(kept@[a] == kb[a] && kept@[c] == kb[c]);
                            } else if a < kb.len() {
                                assert(kept@[a] == kb[a]);
                            } else {
                                assert(kept@[c] == kb[c]);
                            }
                        }
                    }
                }
            }
            t = t + 1;
        }
        let ghost origin = origins(v0.pending).push(Some(rx.edges_idx@.to_set()));
        proof {
            assert(kept@ + edges_idx@.subrange(t as int, edges_idx@.len() as int) =~= kept@);
            assert(edges_idx@.subrange(0, edges_idx@.len() as int) =~= edges_idx@);
            assert forall|x: usize| #[trigger] kept@.contains(x) implies edges_idx@.contains(x) by {
                let a = choose|a: int| 0 <= a < kept@.len() && kept@[a] == x;
                assert(edges_idx@.subrange(0, t as int).contains(kept@[a]));
            }
        }
        if kept.len() == 0 {
            self.cnt_received_drops = self.cnt_received_drops + 1;
            self.pool.push(None);
            proof {
                let v = self@;
                assert(v.pending =~= v0.pending.push(None));
                assert(v.known =~= v0.known);
                assert(v.data =~= v0.data);
                assert(v.adjacency =~= v0.adjacency);
                assert forall|i: int, h: int|
                    0 <= i < v.chunks && 0 <= h < v.pending.len() implies (v.adjacency[i].contains(
                    h as usize,
                ) <==> (v.is_pending(h) && v.edges(h).contains(i as usize))) by {
                    if h == v0.pending.len() {
                        if v.adjacency[i].contains(h as usize) {
                            let u = choose|u: int|
                                0 <= u < v.adjacency[i].len() && v.adjacency[i][u] == h as usize;
                            assert(v0.adjacency[i][u] < v0.pending.len());
                        }
                    } else {
                        assert(v.pending[h] == v0.pending[h]);
                    }
                }
                assert forall|h: int|
                    #![trigger v.pending[h]]
                    v.is_pending(h) implies v.pending[h] == v0.pending[h] by {}
                assert forall|i: int, u: int|
                    0 <= i < v.chunks && 0 <= u < v.adjacency[i].len() implies #[trigger] v.adjacency[i][u]
                    < v.pending.len() by {
                    assert(v0.adjacency[i][u] < v0.pending.len());
                }
                assert forall|src: Seq<Seq<u8>>| #[trigger] pre(src) implies v.consistent(src) by {
                    assert(v0.consistent(src));
                }
                assert forall|x: usize| #[trigger] rx.edges_idx@.to_set().contains(x) implies x < v.known.len() && v.known[x as int] by {
                    assert(edges_idx@.contains(x));
                    assert(!kept@.contains(x));
                }
                assert forall|g: int|
                    #![trigger v0.pending[g]]
                    0 <= g < v0.pending.len() && v0.is_pending(g) implies remains_of(
                    v,
                    g,
                    v0.edges(g).to_set(),
                ) by {
                    assert(v.pending[g] == v0.pending[g]);
                }
            }
            return;
        }
        let single = kept.len() == 1;
        let edges_copy = kept.clone();
        let ghost entry = Pending { edges: kept@, payload: payload@ };
        self.cnt_received_drops = self.cnt_received_drops + 1;
        self.pool.push(Some(RxDroplet { edges_idx: kept, data: payload }));
        let h = self.pool.len() - 1;
        let ghost v1 = self@;
        proof {
            assert(edges_copy@ == entry.edges);
            assert(v1.pending =~= v0.pending.push(Some(entry)));
            assert(h as int == v0.pending.len());
        }
        let mut u: usize = 0;
        while u < edges_copy.len()
            invariant
                u <= edges_copy@.len(),
                edges_copy@ == entry.edges,
                entry.edges.no_duplicates(),
                indices_below(entry.edges, v0.chunks),
                h as int == v0.pending.len(),
                self@.pending == v1.pending,
                self@.known == v0.known,
                self@.data == v0.data,
                self@.total_length == v0.total_length,
                self@.blocksize == v0.blocksize,
                self@.chunks == v0.chunks,
                self@.unknown == v0.unknown,
                self@.received == v0.received + 1,
                self@.adjacency.len() == v0.chunks,
                forall|i: int|
                    0 <= i < v0.chunks ==> #[trigger] self@.adjacency[i] == if edges_copy@.subrange(
                        0,
                        u as int,
                    ).contains(i as usize) {
                        v0.adjacency[i].push(h)
                    } else {
                        v0.adjacency[i]
                    },
            decreases edges_copy@.len() - u,
        {
            let e = edges_copy[u];
            let ghost va = self@;
            self.blocks[e].edges.push(h);
            proof {
                assert(self@.adjacency =~= va.adjacency.update(e as int, va.adjacency[e as int].push(h)));
                assert(self@.known =~= va.known);
                assert(self@.data =~= va.data);
                assert(self@.pending =~= va.pending);
                assert(!edges_copy@.subrange(0, u as int).contains(e)) by {
                    if edges_copy@.subrange(0, u as int).contains(e) {
                        let b = choose|b: int| 0 <= b < u && edges_copy@.subrange(0, u as int)[b] == e;
                        assert(edges_copy@[b] == edges_copy@[u as int]);
                    }
                }
                assert forall|i: int| 0 <= i < v0.chunks implies #[trigger] self@.adjacency[i] == if edges_copy@.subrange(
                    0,
                    u + 1,
                ).contains(i as usize) {
                    v0.adjacency[i].push(h)
                } else {
                    v0.adjacency[i]
                } by {
                    let sub0 = edges_copy@.subrange(0, u as int);
                    let sub1 = edges_copy@.subrange(0, u + 1);
                    assert(sub1 =~= sub0.push(e));
                    if i == e as int {
                        assert(sub1[u as int] == e);
                    } else {
                        if sub1.contains(i as usize) {
                            let b = choose|b: int| 0 <= b < sub1.len() && sub1[b] == i as usize;
                            assert(b < u);
                            assert(sub0[b] == i as usize);
                        }
                        if sub0.contains(i as usize) {
                            let b = choose|b: int| 0 <= b < sub0.len() && sub0[b] == i as usize;
                            assert(sub1[b] == i as usize);
                        }
                    }
                }
            }
            u = u + 1;
        }
        let mut worklist: Vec<usize> = Vec::new();
        if single {
            worklist.push(h);
        }
        proof {
            let v = self@;
            assert(edges_copy@.subrange(0, edges_copy@.len() as int) =~= edges_copy@);
            assert forall|g: int|
                #![trigger v.pending[g]]
                v.is_pending(g) && g != h implies v.pending[g] == v0.pending[g] by {}
            assert(v.edges(h as int) == entry.edges);
            assert forall|i: int, w: int|
                0 <= i < v.chunks && 0 <= w < v.adjacency[i].len() implies #[trigger] v.adjacency[i][w]
                < v.pending.len() by {
                if entry.edges.contains(i as usize) && w == v0.adjacency[i].len() {
                } else {
                    assert(v.adjacency[i][w] == v0.adjacency[i][w]);
                }
            }
            assert(v.shaped());
            assert forall|g: int, w: int|
                v.is_pending(g) && 0 <= w < v.edges(g).len() implies !v.known[#[trigger] v.edges(
                g,
            )[w] as int] by {
                if g == h {
                    assert(v.edges(g)[w] == entry.edges[w]);
                }
            }
            assert forall|i: int, g: int| 0 <= i < v.chunks && 0 <= g < v.pending.len() implies (
            v.adjacency[i].contains(g as usize) <==> (v.is_pending(g) && v.edges(g).contains(
                i as usize,
            ))) by {
                let old_adj = v0.adjacency[i];
                if g == h as int {
                    if entry.edges.contains(i as usize) {
                        assert(v.adjacency[i][old_adj.len() as int] == h);
                    } else if v.adjacency[i].contains(g as usize) {
                        let w = choose|w: int| 0 <= w < v.adjacency[i].len() && v.adjacency[i][w] == g as usize;
                        assert(old_adj[w] < v0.pending.len());
                    }
                } else {
                    assert(old_adj.contains(g as usize) <==> (v0.is_pending(g) && v0.edges(g).contains(
                        i as usize,
                    )));
                    if entry.edges.contains(i as usize) {
                        if v.adjacency[i].contains(g as usize) {
                            let w = choose|w: int| 0 <= w < v.adjacency[i].len() && v.adjacency[i][w] == g as usize;
                            assert(w < old_adj.len());
                            assert(old_adj[w] == g as usize);
                        }
                        if old_adj.contains(g as usize) {
                            let w = choose|w: int| 0 <= w < old_adj.len() && old_adj[w] == g as usize;
                            assert(v.adjacency[i][w] == g as usize);
                        }
                    }
                }
            }
            assert forall|g: int|
                #![trigger v.pending[g]]
                v.is_pending(g) && v.edges(g).len() == 1 implies worklist@.contains(g as usize) by {
                if g != h {
                    assert(v0.edges(g).len() >= 2);
                } else {
                    assert(worklist@[0] == h);
                }
            }
            assert forall|src: Seq<Seq<u8>>| #[trigger] pre(src) implies v.consistent(src) by {
                assert(v0.consistent(src));
            }
            assert forall|g: int| 0 <= g < origin.len() implies match #[trigger] origin[g] {
                Some(e) => remains_of(v, g, e),
                None => !v.is_pending(g),
            } by {
                if g == h {
                    assert(origin[g] == Some(rx.edges_idx@.to_set()));
                    assert forall|x: usize| #[trigger] rx.edges_idx@.to_set().contains(x) && !v.edges(
                        g,
                    ).contains(x) implies x < v.known.len() && v.known[x as int] by {
                        assert(edges_idx@.contains(x));
                    }
                } else {
                    assert(v.pending[g] == v0.pending[g]);
                }
            }
        }
        while worklist.len() > 0
            invariant
                self@.shaped(),
                self@.edges_unknown(),
                self@.adjacency_exact(),
                covered(self@, worklist@),
                self@.pending.len() == v0.pending.len() + 1,
                self@.total_length == v0.total_length,
                self@.blocksize == v0.blocksize,
                self@.chunks == v0.chunks,
                self@.received == v0.received + 1,
                forall|i: int|
                    0 <= i < v0.chunks && #[trigger] v0.known[i] ==> self@.known[i] && self@.data[i]
                        == v0.data[i],
                forall|src: Seq<Seq<u8>>| #[trigger] pre(src) ==> self@.consistent(src),
                retains(self@, origin),
            decreases self@.unknown, worklist@.len(),
        {
            let ghost wa = worklist@;
            let g = worklist.pop().unwrap();
            let single = match &self.pool[g] {
                Some(d) => d.edges_idx.len() == 1,
                None => false,
            };
            let ghost va = self@;
            proof {
                assert(worklist@ == wa.drop_last());
                assert(g == wa.last());
                assert forall|x: int|
                    #![trigger va.pending[x]]
                    va.is_pending(x) && va.edges(x).len() == 1 && x != g implies worklist@.contains(
                    x as usize,
                ) by {
                    let w = choose|w: int| 0 <= w < wa.len() && wa[w] == x as usize;
                    assert(w != wa.len() - 1);
                    assert(worklist@[w] == x as usize);
                }
                assert forall|w: int| 0 <= w < worklist@.len() implies #[trigger] worklist@[w]
                    < va.pending.len() by {
                    assert(worklist@[w] == wa[w]);
                }
            }
            if single {
                let slot = self.pool[g].take();
                match slot {
                    Some(d) => {
                        let j = d.edges_idx[0];
                        let ghost vb = self@;
                        proof {
                            let gi = g as int;
                            assert(vb.pending =~= va.pending.update(gi, None));
                            assert(vb.known =~= va.known);
                            assert(vb.data =~= va.data);
                            assert(vb.adjacency =~= va.adjacency);
                            assert(va.edges(gi) =~= seq![j]);
                            assert(va.edges(gi).contains(j));
                            assert(!va.known[j as int]);
                            assert forall|x: int|
                                #![trigger vb.pending[x]]
                                vb.is_pending(x) implies vb.pending[x] == va.pending[x] by {}
                            assert forall|i: int, w: int|
                                0 <= i < vb.chunks && 0 <= w < vb.adjacency[i].len() implies #[trigger] vb.adjacency[i][w]
                                < vb.pending.len() by {
                                assert(va.adjacency[i][w] < va.pending.len());
                            }
                            assert(vb.shaped());
                            assert forall|i: int, x: int|
                                0 <= i < vb.chunks && i != j && 0 <= x < vb.pending.len() implies (
                            vb.adjacency[i].contains(x as usize) <==> (vb.is_pending(x)
                                && vb.edges(x).contains(i as usize))) by {
                                assert(va.adjacency[i].contains(x as usize) <==> (va.is_pending(x)
                                    && va.edges(x).contains(i as usize)));
                                if x == gi && va.edges(gi).contains(i as usize) {
                                    let w = choose|w: int| 0 <= w < va.edges(gi).len() && va.edges(gi)[w] == i as usize;
                                    assert(w == 0);
                                }
                            }
                            assert forall|x: int|
                                #![trigger vb.pending[x]]
                                vb.is_pending(x) && vb.edges(x).contains(j) implies vb.adjacency[j as int].contains(
                                x as usize,
                            ) by {
                                assert(va.adjacency[j as int].contains(x as usize) <==> (
                                va.is_pending(x) && va.edges(x).contains(j)));
                            }
                            assert(adjacency_exact_but(vb, j as int));
                            assert forall|src: Seq<Seq<u8>>| #[trigger] pre(src) implies vb.consistent(src)
                                && d.data@ == src[j as int] by {
                                assert(va.consistent(src));
                                assert(d.data@ == xor_all(src, seq![j], vb.blocksize));
                                lemma_xor_all_single(src, j, vb.blocksize);
                            }
                            assert(covered(vb, worklist@));
                            let w = DecoderView { known: vb.known.update(j as int, true), ..vb };
                            assert forall|x: int| 0 <= x < origin.len() implies match #[trigger] origin[x] {
                                Some(e) => remains_of(w, x, e),
                                None => !w.is_pending(x),
                            } by {
                                match origin[x] {
                                    Some(e) => {
                                        assert(remains_of(va, x, e));
                                        if x == gi {
                                            assert(va.is_pending(gi));
                                            assert forall|y: usize| #[trigger] e.contains(y) implies y < w.known.len() && w.known[y as int] by {
                                                if va.edges(gi).contains(y) {
                                                    let w2 = choose|w2: int| 0 <= w2 < va.edges(gi).len() && va.edges(gi)[w2] == y;
                                                    assert(w2 == 0);
                                                    assert(y == j);
                                                    assert(va.edges(gi)[0] < va.chunks);
                                                } else {
                                                    assert(va.known[y as int]);
                                                }
                                            }
                                        } else {
                                            assert(w.pending[x] == va.pending[x]);
                                        }
                                    },
                                    None => {},
                                }
                            }
                        }
                        self.peel(j, d.data, &mut worklist, Ghost(pre), Ghost(origin));
                        proof {
                            let v = self@;
                            assert forall|i: int|
                                0 <= i < v0.chunks && #[trigger] v0.known[i] implies v.known[i]
                                && v.data[i] == v0.data[i] by {
                                assert(va.known[i]);
                                assert(i != j);
                            }
                        }
                    },
                    None => {},
                }
            } else {
                proof {
                    assert forall|x: int|
                        #![trigger va.pending[x]]
                        va.is_pending(x) && va.edges(x).len() == 1 implies worklist@.contains(
                        x as usize,
                    ) by {
                        if x == g as int {
                            assert(va.pending[x] == pending_of(self.pool@[x]));
                        }
                    }
                }
            }
        }
        proof {
            let v = self@;
            assert forall|g: int|
                #![trigger v0.pending[g]]
                0 <= g < v0.pending.len() && v0.is_pending(g) implies remains_of(
                v,
                g,
                v0.edges(g).to_set(),
            ) by {
                assert(origin[g] == Some(v0.edges(g).to_set()));
            }
            assert(origin[v0.pending.len() as int] == Some(rx.edges_idx@.to_set()));
        }
    }

    /// Takes slot `j`, whose symbol is known, out of the pending droplet `g`.
    fn eliminate(&mut self, j: usize, g: usize, worklist: &mut Vec<usize>)
        requires
            g < old(self)@.pending.len(),
            j < old(self)@.chunks,
            old(self)@.data.len() == old(self)@.chunks,
            old(self)@.data[j as int].len() == old(self)@.blocksize,
            old(self)@.is_pending(g as int) ==> {
                &&& old(self)@.edges(g as int).no_duplicates()
                &&& old(self)@.payload(g as int).len() == old(self)@.blocksize
            },
        ensures
            final(self)@ == (DecoderView {
                pending: old(self)@.pending.update(
                    g as int,
                    reduce_entry(old(self)@.pending[g as int], j, old(self)@.data[j as int]),
                ),
                ..old(self)@
            }),
            final(worklist)@ == if reduces_to_single(old(self)@.pending[g as int], j) {
                old(worklist)@.push(g)
            } else {
                old(worklist)@
            },
    {
        let ghost v0 = self@;
        let slot = self.pool[g].take();
        match slot {
            Some(mut d) => {
                let ghost pe = Pending { edges: d.edges_idx@, payload: d.data@ };
                assert(v0.pending[g as int] == Some(pe));
                match position_of(&d.edges_idx, j) {
                    Some(q) => {
                        proof {
                            assert(pe.edges.contains(j));
                            assert(pe.edges.index_of(j) == q as int) by {
                                assert(pe.edges[q as int] == j);
                            }
                        }
                        xor_bytes(d.data.as_mut_slice(), self.data[j].as_slice());
                        d.edges_idx.remove(q);
                        if d.edges_idx.len() > 0 {
                            if d.edges_idx.len() == 1 {
                                worklist.push(g);
                            }
                            self.pool[g] = Some(d);
                        }
                    },
                    None => {
                        self.pool[g] = Some(d);
                    },
                }
            },
            None => {},
        }
        assert(self@.pending =~= v0.pending.update(
            g as int,
            reduce_entry(v0.pending[g as int], j, v0.data[j as int]),
        ));
        assert(self@.known =~= v0.known);
        assert(self@.data =~= v0.data);
        assert(self@.adjacency =~= v0.adjacency);
    }

    /// Records `payload` as the symbol of slot `j`, then takes `j` out of every
    /// pending droplet, queueing those that are left with a single edge.
    fn peel(
        &mut self,
        j: usize,
        payload: Vec<u8>,
        worklist: &mut Vec<usize>,
        Ghost(pre): Ghost<spec_fn(Seq<Seq<u8>>) -> bool>,
        Ghost(origin): Ghost<Seq<Option<Set<usize>>>>,
    )
        requires
            retains(DecoderView { known: old(self)@.known.update(j as int, true), ..old(self)@ }, origin),
            old(self)@.shaped(),
            old(self)@.edges_unknown(),
            adjacency_exact_but(old(self)@, j as int),
            covered(old(self)@, old(worklist)@),
            j < old(self)@.chunks,
            !old(self)@.known[j as int],
            payload@.len() == old(self)@.blocksize,
            forall|src: Seq<Seq<u8>>|
                #[trigger] pre(src) ==> old(self)@.consistent(src) && payload@ == src[j as int],
        ensures
            final(self)@.shaped(),
            final(self)@.edges_unknown(),
            final(self)@.adjacency_exact(),
            covered(final(self)@, final(worklist)@),
            final(self)@.known == old(self)@.known.update(j as int, true),
            final(self)@.data == old(self)@.data.update(j as int, payload@),
            final(self)@.unknown + 1 == old(self)@.unknown,
            final(self)@.pending.len() == old(self)@.pending.len(),
            final(self)@.total_length == old(self)@.total_length,
            final(self)@.blocksize == old(self)@.blocksize,
            final(self)@.chunks == old(self)@.chunks,
            final(self)@.received == old(self)@.received,
            forall|src: Seq<Seq<u8>>| #[trigger] pre(src) ==> final(self)@.consistent(src),
            retains(final(self)@, origin),
    {
        let ghost v0 = self@;
        proof {
            lemma_count_set(v0.known, j as int);
        }
        self.data[j] = payload;
        self.blocks[j].is_known = true;
        self.unknown_chunks = self.unknown_chunks - 1;
        let mut list: Vec<usize> = Vec::new();
        std::mem::swap(&mut list, &mut self.blocks[j].edges);
        let ghost v1 = self@;
        proof {
            assert(v1.known =~= v0.known.update(j as int, true));
            assert(v1.data =~= v0.data.update(j as int, payload@));
            assert(v1.pending =~= v0.pending);
            assert(v1.adjacency =~= v0.adjacency.update(j as int, Seq::empty()));
            assert(list@ == v0.adjacency[j as int]);
            assert(symbols_sized(v1.data, v1.blocksize));
            assert forall|i: int, t: int|
                0 <= i < v1.chunks && 0 <= t < v1.adjacency[i].len() implies #[trigger] v1.adjacency[i][t]
                < v1.pending.len() by {
                assert(v1.adjacency[i][t] == v0.adjacency[i][t]);
            }
            assert(v1.shaped());
            assert forall|h: int, t: int|
                v1.is_pending(h) && 0 <= t < v1.edges(h).len() implies #[trigger] v1.edges(h)[t]
                == j || !v1.known[v1.edges(h)[t] as int] by {
                assert(!v0.known[v0.edges(h)[t] as int]);
            }
            assert forall|t: int| 0 <= t < list@.len() implies #[trigger] list@[t]
                < v1.pending.len() by {
                assert(v0.adjacency[j as int][t] < v0.pending.len());
            }
            assert forall|i: int, h: int|
                0 <= i < v1.chunks && i != j && 0 <= h < v1.pending.len() implies (
            v1.adjacency[i].contains(h as usize) <==> (v1.is_pending(h) && v1.edges(h).contains(
                i as usize,
            ))) by {
                assert(v1.adjacency[i] == v0.adjacency[i]);
            }
            assert(draining(v1, j as int, list@.subrange(0, list@.len() as int))) by {
                assert(list@.subrange(0, list@.len() as int) =~= list@);
            }
            assert forall|src: Seq<Seq<u8>>| #[trigger] pre(src) implies v1.consistent(src) by {
                assert(v0.consistent(src));
                assert forall|i: int| 0 <= i < v1.chunks && #[trigger] v1.known[i] implies v1.data[i]
                    == src[i] by {
                    if i != j {
                        assert(v0.known[i]);
                    }
                }
            }
            let w = DecoderView { known: v0.known.update(j as int, true), ..v0 };
            assert forall|h: int| 0 <= h < origin.len() implies match #[trigger] origin[h] {
                Some(e) => remains_of(v1, h, e),
                None => !v1.is_pending(h),
            } by {
                assert(w.pending == v1.pending && w.known == v1.known);
                assert(retains(w, origin));
                match origin[h] {
                    Some(e) => {
                        assert(remains_of(w, h, e));
                        if w.is_pending(h) {
                            assert(w.edges(h) == v1.edges(h));
                        }
                    },
                    None => {
                        assert(!w.is_pending(h));
                    },
                }
            }
        }
        let mut idx: usize = 0;
        while idx < list.len()
            invariant
                idx <= list@.len(),
                j < self@.chunks,
                draining(self@, j as int, list@.subrange(idx as int, list@.len() as int)),
                covered(self@, worklist@),
                self@.known == v1.known,
                self@.data == v1.data,
                self@.unknown == v1.unknown,
                self@.pending.len() == v1.pending.len(),
                self@.total_length == v1.total_length,
                self@.blocksize == v1.blocksize,
                self@.chunks == v1.chunks,
                self@.received == v1.received,
                forall|src: Seq<Seq<u8>>| #[trigger] pre(src) ==> self@.consistent(src),
                retains(self@, origin),
            decreases list@.len() - idx,
        {
            let g = list[idx];
            let ghost va = self@;
            let ghost wa = worklist@;
            let ghost rest = list@.subrange(idx as int, list@.len() as int);
            assert(rest[0] == g);
            self.eliminate(j, g, worklist);
            let ghost vb = self@;
            let ghost rest2 = list@.subrange(idx + 1, list@.len() as int);
            proof {
                let gi = g as int;
                if va.is_pending(gi) && va.edges(gi).contains(j) {
                    lemma_reduce(va.pending[gi]->0, j, va.data[j as int], va.chunks, va.blocksize);
                }
                assert forall|h: int|
                    #![trigger vb.pending[h]]
                    vb.is_pending(h) && h != gi implies vb.pending[h] == va.pending[h] by {}
                // shaped
                assert forall|h: int|
                    #![trigger vb.pending[h]]
                    vb.is_pending(h) implies {
                        &&& vb.edges(h).len() >= 1
                        &&& vb.edges(h).no_duplicates()
                        &&& indices_below(vb.edges(h), vb.chunks)
                        &&& vb.payload(h).len() == vb.blocksize
                    } by {
                    if h == gi && va.edges(gi).contains(j) {
                        assert(vb.payload(h) == xor_seq(va.payload(gi), va.data[j as int]));
                    }
                }
                assert forall|i: int, t: int|
                    0 <= i < vb.chunks && 0 <= t < vb.adjacency[i].len() implies #[trigger] vb.adjacency[i][t]
                    < vb.pending.len() by {
                    assert(vb.adjacency[i][t] == va.adjacency[i][t]);
                }
                assert(vb.shaped());
                // adjacency for other slots
                assert forall|i: int, h: int|
                    0 <= i < vb.chunks && i != j && 0 <= h < vb.pending.len() implies (
                vb.adjacency[i].contains(h as usize) <==> (vb.is_pending(h) && vb.edges(h).contains(
                    i as usize,
                ))) by {
                    assert(va.adjacency[i].contains(h as usize) <==> (va.is_pending(h)
                        && va.edges(h).contains(i as usize)));
                    if h == gi && va.is_pending(gi) && va.edges(gi).contains(j) {
                        assert(i as usize != j);
                    }
                }
                // edges are unknown or j
                assert forall|h: int, t: int|
                    vb.is_pending(h) && 0 <= t < vb.edges(h).len() implies #[trigger] vb.edges(h)[t]
                    == j || !vb.known[vb.edges(h)[t] as int] by {
                    if h == gi && va.edges(gi).contains(j) {
                        let x = vb.edges(h)[t];
                        assert(vb.edges(h).contains(x));
                        assert(x != j);
                        assert(va.edges(gi).contains(x));
                        let t2 = choose|t2: int|
                            0 <= t2 < va.edges(gi).len() && va.edges(gi)[t2] == x;
                        assert(va.edges(gi)[t2] == j || !va.known[va.edges(gi)[t2] as int]);
                    } else {
                        assert(vb.edges(h) == va.edges(h));
                        assert(va.edges(h)[t] == j || !va.known[va.edges(h)[t] as int]);
                    }
                }
                // droplets still holding j are in the rest of the list
                assert forall|h: int|
                    #![trigger vb.pending[h]]
                    vb.is_pending(h) && vb.edges(h).contains(j) implies rest2.contains(h as usize) by {
                    assert(h != gi);
                    assert(va.is_pending(h) && va.edges(h).contains(j));
                    assert(rest.contains(h as usize));
                    let t = choose|t: int| 0 <= t < rest.len() && rest[t] == h as usize;
                    assert((h as usize) != g);
                    assert(t != 0);
                    assert(rest2[t - 1] == h as usize);
                }
                assert forall|t: int| 0 <= t < rest2.len() implies #[trigger] rest2[t]
                    < vb.pending.len() by {
                    assert(rest2[t] == rest[t + 1]);
                }
                assert(draining(vb, j as int, rest2));
                assert forall|h: int| 0 <= h < origin.len() implies match #[trigger] origin[h] {
                    Some(e) => remains_of(vb, h, e),
                    None => !vb.is_pending(h),
                } by {
                    match origin[h] {
                        Some(e) => {
                            if h == gi {
                                lemma_remains_reduce(va, vb, gi, j, e);
                            } else {
                                assert(vb.pending[h] == va.pending[h]);
                                assert(remains_of(va, h, e));
                            }
                        },
                        None => {
                            if h != gi {
                                assert(vb.pending[h] == va.pending[h]);
                            }
                        },
                    }
                }
                // coverage
                assert forall|h: int|
                    #![trigger vb.pending[h]]
                    vb.is_pending(h) && vb.edges(h).len() == 1 implies worklist@.contains(
                    h as usize,
                ) by {
                    if h == gi && va.edges(gi).contains(j) {
                        assert(worklist@ == wa.push(g));
                        assert(worklist@[wa.len() as int] == g);
                    } else {
                        assert(wa.contains(h as usize));
                        let t = choose|t: int| 0 <= t < wa.len() && wa[t] == h as usize;
                        if reduces_to_single(va.pending[gi], j) {
                            assert(worklist@[t] == h as usize);
                        }
                    }
                }
                assert forall|t: int| 0 <= t < worklist@.len() implies #[trigger] worklist@[t]
                    < vb.pending.len() by {
                    if t < wa.len() {
                        assert(worklist@[t] == wa[t]);
                    }
                }
                // soundness
                assert forall|src: Seq<Seq<u8>>| #[trigger] pre(src) implies vb.consistent(src) by {
                    assert(va.consistent(src));
                    assert forall|h: int|
                        #![trigger vb.pending[h]]
                        vb.is_pending(h) implies vb.payload(h) == xor_all(
                        src,
                        vb.edges(h),
                        vb.blocksize,
                    ) by {
                        if h == gi && va.edges(gi).contains(j) {
                            assert(va.known[j as int]);
                            assert(va.data[j as int] == src[j as int]);
                            assert(xor_all(src, vb.edges(h), vb.blocksize) == xor_seq(
                                va.payload(gi),
                                va.data[j as int],
                            ));
                        }
                    }
                    assert forall|i: int| 0 <= i < vb.chunks && #[trigger] vb.known[i] implies vb.data[i]
                        == src[i] by {
                        assert(va.known[i]);
                    }
                }
            }
            idx = idx + 1;
        }
        proof {
            let v = self@;
            let rest = list@.subrange(idx as int, list@.len() as int);
            assert(rest.len() == 0);
            assert forall|h: int, t: int|
                v.is_pending(h) && 0 <= t < v.edges(h).len() implies !v.known[#[trigger] v.edges(
                h,
            )[t] as int] by {
                if v.edges(h)[t] == j {
                    assert(v.edges(h).contains(j));
                    assert(rest.contains(h as usize));
                }
            }
            assert forall|i: int, h: int| 0 <= i < v.chunks && 0 <= h < v.pending.len() implies (
            v.adjacency[i].contains(h as usize) <==> (v.is_pending(h) && v.edges(h).contains(
                i as usize,
            ))) by {
                if i == j {
                    if v.is_pending(h) && v.edges(h).contains(i as usize) {
                        assert(rest.contains(h as usize));
                    }
                }
            }
        }
    }
}


/// Cutting a message into symbols and reading the first L bytes of their
/// concatenation gives the message back.
pub proof fn lemma_symbols_spell_message(msg: Seq<u8>, b: nat)
    requires
        b > 0,
        msg.len() > 0,
    ensures
        message_of(symbols_of(msg, b), b, msg.len()) == msg,
{
    lemma_chunk_bounds(msg.len(), b);
    let bi = b as int;
    assert forall|p: int| 0 <= p < msg.len() implies #[trigger] message_of(
        symbols_of(msg, b),
        b,
        msg.len(),
    )[p] == msg[p] by {
        vstd::arithmetic::div_mod::lemma_fundamental_div_mod(p, bi);
        vstd::arithmetic::div_mod::lemma_mod_bound(p, bi);
        let (q, r) = (p / bi, p % bi);
        assert(q * bi + r == p) by (nonlinear_arith)
            requires
                p == bi * q + r,
        ;
        assert(q < chunk_count_spec(msg.len(), b));
        assert(symbols_of(msg, b)[q][r] == msg[p]);
    }
    assert(message_of(symbols_of(msg, b), b, msg.len()) =~= msg);
}

/// A systematic droplet for slot `i` resolves that slot: once a decoder has
/// accepted it (its handle is `h`, and what is left of it is all the decoder
/// keeps of it), slot `i` is known. So K systematic droplets, one per slot,
/// finish a decoder.
pub proof fn lemma_indexed_droplet_resolves(v: DecoderView, h: int, i: usize)
    requires
        v.wf(),
        0 <= h < v.pending.len(),
        remains_of(v, h, odd_set(droplet_draws(DropType::Edges(i), v.chunks))),
    ensures
        i < v.chunks,
        v.known[i as int],
{
    let draws = seq![i];
    assert(droplet_draws(DropType::Edges(i), v.chunks) == draws);
    assert(draws.drop_last() =~= Seq::<usize>::empty());
    assert forall|x: usize| #[trigger] odd_set(draws).contains(x) <==> x == i by {
        assert(occurrences(draws, x) == occurrences(draws.drop_last(), x) + if draws.last() == x {
            1nat
        } else {
            0nat
        });
    }
    if v.is_pending(h) {
        let e = v.edges(h);
        assert(e.contains(e[0]) && e.contains(e[1]));
        assert(e[0] == i && e[1] == i);
    }
    assert(odd_set(draws).contains(i));
}

/// Round trip: a decoder for a message `msg` of length L and symbol size B
/// that agrees with the source symbols of `msg` (which a new decoder does,
/// and which accepting a droplet that an encoder of `msg` emitted keeps) has,
/// once every slot is known, assembled exactly `msg`.
pub proof fn lemma_round_trip(msg: Seq<u8>, v: DecoderView)
    requires
        v.wf(),
        v.total_length == msg.len(),
        v.consistent(symbols_of(msg, v.blocksize)),
        v.unknown == 0,
    ensures
        v.assembled() == msg,
{
    let b = v.blocksize;
    let src = symbols_of(msg, b);
    lemma_count_zero(v.known);
    lemma_chunk_bounds(msg.len(), b);
    lemma_symbols_spell_message(msg, b);
    assert forall|p: int| 0 <= p < msg.len() implies #[trigger] v.assembled()[p] == message_of(
        src,
        b,
        msg.len(),
    )[p] by {
        let q = p / (b as int);
        assert(q < v.chunks);
        assert(v.known[q]);
        assert(v.data[q] == src[q]);
    }
    assert(v.assembled() =~= message_of(src, b, msg.len()));
}

} // verus!
