use vstd::prelude::*;

verus! {

/// Byte-wise exclusive or of two sequences; the result has the length of `a`.
pub open spec fn xor_seq(a: Seq<u8>, b: Seq<u8>) -> Seq<u8> {
    Seq::new(a.len(), |i: int| a[i] ^ b[i])
}

/// `n` zero bytes.
pub open spec fn zeros(n: nat) -> Seq<u8> {
    Seq::new(n, |i: int| 0u8)
}

/// Every symbol of `src` is `n` bytes long.
pub open spec fn symbols_sized(src: Seq<Seq<u8>>, n: nat) -> bool {
    forall|i: int| 0 <= i < src.len() ==> (#[trigger] src[i]).len() == n
}

/// Every index in `s` is below `k`.
pub open spec fn indices_below(s: Seq<usize>, k: nat) -> bool {
    forall|t: int| 0 <= t < s.len() ==> (#[trigger] s[t]) < k
}

/// The exclusive or of the symbols of `src` at the indices `idx`, over `n`
/// zero bytes. An index that occurs twice cancels out.
pub open spec fn xor_all(src: Seq<Seq<u8>>, idx: Seq<usize>, n: nat) -> Seq<u8>
    decreases idx.len(),
{
    if idx.len() == 0 {
        zeros(n)
    } else {
        xor_seq(xor_all(src, idx.drop_last(), n), src[idx.last() as int])
    }
}

pub proof fn lemma_xor_all_len(src: Seq<Seq<u8>>, idx: Seq<usize>, n: nat)
    ensures
        xor_all(src, idx, n).len() == n,
    decreases idx.len(),
{
    if idx.len() > 0 {
        lemma_xor_all_len(src, idx.drop_last(), n);
    }
}

proof fn lemma_xor_swap(a: Seq<u8>, b: Seq<u8>, c: Seq<u8>)
    requires
        a.len() == b.len(),
        a.len() == c.len(),
    ensures
        xor_seq(xor_seq(a, b), c) == xor_seq(xor_seq(a, c), b),
{
    assert forall|i: int| 0 <= i < a.len() implies xor_seq(xor_seq(a, b), c)[i] == xor_seq(
        xor_seq(a, c),
        b,
    )[i] by {
        let (x, y, z) = (a[i], b[i], c[i]);
        assert((x ^ y) ^ z == (x ^ z) ^ y) by (bit_vector);
    }
    assert(xor_seq(xor_seq(a, b), c) =~= xor_seq(xor_seq(a, c), b));
}

/// Exclusive or with the same bytes twice gives back the start.
pub proof fn lemma_xor_cancel(a: Seq<u8>, b: Seq<u8>)
    requires
        a.len() == b.len(),
    ensures
        xor_seq(xor_seq(a, b), b) == a,
{
    assert forall|i: int| 0 <= i < a.len() implies xor_seq(xor_seq(a, b), b)[i] == a[i] by {
        let (x, y) = (a[i], b[i]);
        assert((x ^ y) ^ y == x) by (bit_vector);
    }
    assert(xor_seq(xor_seq(a, b), b) =~= a);
}

pub proof fn lemma_xor_zeros(b: Seq<u8>)
    ensures
        xor_seq(zeros(b.len()), b) == b,
{
    assert forall|i: int| 0 <= i < b.len() implies xor_seq(zeros(b.len()), b)[i] == b[i] by {
        let x = b[i];
        assert(0u8 ^ x == x) by (bit_vector);
    }
    assert(xor_seq(zeros(b.len()), b) =~= b);
}

/// A single index gives its symbol.
pub proof fn lemma_xor_all_single(src: Seq<Seq<u8>>, j: usize, n: nat)
    requires
        j < src.len(),
        src[j as int].len() == n,
    ensures
        xor_all(src, seq![j], n) == src[j as int],
{
    let s = seq![j];
    assert(s.drop_last() =~= Seq::<usize>::empty());
    assert(xor_all(src, s.drop_last(), n) == zeros(n));
    assert(s.last() == j);
    assert(xor_all(src, s, n) == xor_seq(xor_all(src, s.drop_last(), n), src[j as int]));
    lemma_xor_zeros(src[j as int]);
}

/// Taking the index at position `p` out of `idx` takes its symbol out of the sum.
pub proof fn lemma_xor_all_remove(src: Seq<Seq<u8>>, idx: Seq<usize>, p: int, n: nat)
    requires
        symbols_sized(src, n),
        indices_below(idx, src.len()),
        0 <= p < idx.len(),
    ensures
        xor_all(src, idx, n) == xor_seq(xor_all(src, idx.remove(p), n), src[idx[p] as int]),
    decreases idx.len(),
{
    let last = (idx.len() - 1) as int;
    if p == last {
        assert(idx.remove(p) =~= idx.drop_last());
    } else {
        let front = idx.drop_last();
        assert(indices_below(front, src.len())) by {
            assert forall|t: int| 0 <= t < front.len() implies #[trigger] front[t] < src.len() by {
                assert(front[t] == idx[t]);
            }
        }
        lemma_xor_all_remove(src, front, p, n);
        assert(idx.remove(p).drop_last() =~= front.remove(p));
        assert(idx.remove(p).last() == idx.last());
        assert(front[p] == idx[p]);
        assert(idx[last] < src.len());
        assert(idx[p] < src.len());
        lemma_xor_all_len(src, front.remove(p), n);
        lemma_xor_swap(
            xor_all(src, front.remove(p), n),
            src[idx[p] as int],
            src[idx.last() as int],
        );
    }
}

/// Appending an index adds its symbol to the sum.
pub proof fn lemma_xor_all_push(src: Seq<Seq<u8>>, idx: Seq<usize>, j: usize, n: nat)
    ensures
        xor_all(src, idx.push(j), n) == xor_seq(xor_all(src, idx, n), src[j as int]),
{
    assert(idx.push(j).drop_last() =~= idx);
}

/// XORs `rhs` into `lhs` in place: `lhs[i] ^= rhs[i]`.
pub fn xor_bytes(lhs: &mut [u8], rhs: &[u8])
    requires
        old(lhs)@.len() == rhs@.len(),
    ensures
        final(lhs)@ == xor_seq(old(lhs)@, rhs@),
{
    xor_bytes_fallback(lhs, rhs);
}

/// XORs `rhs` into `lhs` one byte at a time.
pub fn xor_bytes_fallback(lhs: &mut [u8], rhs: &[u8])
    requires
        old(lhs)@.len() == rhs@.len(),
    ensures
        final(lhs)@ == xor_seq(old(lhs)@, rhs@),
{
    let n = lhs.len();
    let mut i: usize = 0;
    while i < n
        invariant
            n == lhs@.len(),
            n == rhs@.len(),
            old(lhs)@.len() == n,
            forall|j: int| 0 <= j < i ==> lhs@[j] == old(lhs)@[j] ^ rhs@[j],
            forall|j: int| i <= j < n ==> lhs@[j] == old(lhs)@[j],
        decreases n - i,
    {
        lhs[i] = lhs[i] ^ rhs[i];
        i = i + 1;
    }
    assert(lhs@ =~= xor_seq(old(lhs)@, rhs@));
}

} // verus!
