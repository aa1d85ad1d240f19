use vstd::prelude::*;

pub use crate::types::DropType;
use crate::types::DropletError;

verus! {

/// A droplet as the encoder emits it: a header and one symbol of payload.
#[derive(Clone, Debug)]
pub struct Droplet {
    /// Which source symbols the payload combines.
    pub droptype: DropType,
    /// The payload.
    pub data: Vec<u8>,
}

impl Droplet {
    pub fn new(droptype: DropType, data: Vec<u8>) -> (r: Droplet)
        ensures
            r.droptype == droptype,
            r.data@ == data@,
    {
        Droplet { droptype, data }
    }
}

/// A droplet inside the decoder: the source indices that its payload still
/// combines, and that payload.
#[derive(Clone, Debug)]
pub struct RxDroplet {
    pub edges_idx: Vec<usize>,
    pub data: Vec<u8>,
}


/// 256 to the power `n`.
pub open spec fn pow256(n: nat) -> nat
    decreases n,
{
    if n == 0 {
        1
    } else {
        256 * pow256((n - 1) as nat)
    }
}

/// The `n` low bytes of `x`, most significant first.
pub open spec fn be_bytes(x: nat, n: nat) -> Seq<u8>
    decreases n,
{
    if n == 0 {
        Seq::empty()
    } else {
        be_bytes(x / 256, (n - 1) as nat).push((x % 256) as u8)
    }
}

/// The number that the bytes `s` spell, most significant first.
pub open spec fn be_value(s: Seq<u8>) -> nat
    decreases s.len(),
{
    if s.len() == 0 {
        0
    } else {
        be_value(s.drop_last()) * 256 + s.last() as nat
    }
}

/// Whether a header's numbers fit the four-byte fields of the wire format.
pub open spec fn fits_wire(d: DropType) -> bool {
    match d {
        DropType::Edges(i) => i < 0x1_0000_0000,
        DropType::Seeded(_, degree) => degree < 0x1_0000_0000,
    }
}

/// The wire form of a droplet: a tag byte (0 for `Edges`, 1 for `Seeded`),
/// the index as four big-endian bytes, or the seed as eight and the degree
/// as four, then the payload.
pub open spec fn encoded(d: DropType, payload: Seq<u8>) -> Seq<u8> {
    match d {
        DropType::Edges(i) => seq![0u8] + be_bytes(i as nat, 4) + payload,
        DropType::Seeded(seed, degree) => seq![1u8] + be_bytes(seed as nat, 8) + be_bytes(
            degree as nat,
            4,
        ) + payload,
    }
}

/// What the bytes `s` hold as a droplet with a payload of `b` bytes.
pub open spec fn decoded(s: Seq<u8>, b: nat) -> Result<(DropType, Seq<u8>), DropletError> {
    if s.len() == 0 {
        Err(DropletError::Truncated)
    } else if s[0] == 0 {
        if s.len() < 5 {
            Err(DropletError::Truncated)
        } else if s.len() - 5 != b {
            Err(DropletError::PayloadLength)
        } else {
            Ok((DropType::Edges(be_value(s.subrange(1, 5)) as usize), s.subrange(5, s.len() as int)))
        }
    } else if s[0] == 1 {
        if s.len() < 13 {
            Err(DropletError::Truncated)
        } else if s.len() - 13 != b {
            Err(DropletError::PayloadLength)
        } else {
            Ok((
                DropType::Seeded(be_value(s.subrange(1, 9)) as u64, be_value(s.subrange(9, 13)) as usize),
                s.subrange(13, s.len() as int),
            ))
        }
    } else {
        Err(DropletError::UnknownTag)
    }
}

proof fn lemma_pow256_values()
    ensures
        pow256(4) == 0x1_0000_0000,
        pow256(7) == 0x100_0000_0000_0000,
        pow256(8) == 0x1_0000_0000_0000_0000,
{
    assert(pow256(0) == 1);
    assert(pow256(1) == 0x100);
    assert(pow256(2) == 0x1_0000);
    assert(pow256(3) == 0x100_0000);
    assert(pow256(4) == 0x1_0000_0000);
    assert(pow256(5) == 0x100_0000_0000);
    assert(pow256(6) == 0x1_0000_0000_0000);
    assert(pow256(7) == 0x100_0000_0000_0000);
    assert(pow256(8) == 0x1_0000_0000_0000_0000);
}

proof fn lemma_pow256_positive(n: nat)
    ensures
        pow256(n) > 0,
    decreases n,
{
    if n > 0 {
        lemma_pow256_positive((n - 1) as nat);
    }
}

proof fn lemma_be_value_bound(s: Seq<u8>)
    ensures
        be_value(s) < pow256(s.len()),
    decreases s.len(),
{
    if s.len() > 0 {
        lemma_be_value_bound(s.drop_last());
        let v = be_value(s.drop_last());
        let p = pow256((s.len() - 1) as nat);
        let b = s.last() as nat;
        assert(v * 256 + b < 256 * p) by (nonlinear_arith)
            requires
                v < p,
                b < 256,
        ;
    }
}

proof fn lemma_be_round_trip(x: nat, n: nat)
    requires
        x < pow256(n),
    ensures
        be_bytes(x, n).len() == n,
        be_value(be_bytes(x, n)) == x,
    decreases n,
{
    if n > 0 {
        let q = x / 256;
        let r = x % 256;
        assert(q < pow256((n - 1) as nat)) by (nonlinear_arith)
            requires
                x < 256 * pow256((n - 1) as nat),
                q == x / 256,
        ;
        lemma_be_round_trip(q, (n - 1) as nat);
        let s = be_bytes(x, n);
        assert(s.drop_last() =~= be_bytes(q, (n - 1) as nat));
        assert(q * 256 + r == x) by (nonlinear_arith)
            requires
                q == x / 256,
                r == x % 256,
        ;
    } else {
        assert(x == 0);
    }
}

/// Appends the `n` low bytes of `x`, most significant first.
fn push_be(out: &mut Vec<u8>, x: u64, n: usize)
    ensures
        final(out)@ == old(out)@ + be_bytes(x as nat, n as nat),
    decreases n,
{
    if n > 0 {
        push_be(out, x / 256, n - 1);
        out.push((x % 256) as u8);
        proof {
            assert(be_bytes(x as nat, n as nat) == be_bytes((x / 256) as nat, (n - 1) as nat).push(
                (x % 256) as u8,
            ));
        }
    } else {
        proof {
            assert(old(out)@ + be_bytes(x as nat, 0) =~= old(out)@);
        }
    }
}

/// The number that `bytes[start..end]` spell, most significant first.
fn read_be(bytes: &[u8], start: usize, end: usize) -> (r: u64)
    requires
        start <= end <= bytes@.len(),
        end - start <= 8,
    ensures
        r == be_value(bytes@.subrange(start as int, end as int)),
{
    let mut v: u64 = 0;
    let mut t: usize = start;
    while t < end
        invariant
            start <= t <= end,
            end <= bytes@.len(),
            end - start <= 8,
            v == be_value(bytes@.subrange(start as int, t as int)),
        decreases end - t,
    {
        let ghost sub = bytes@.subrange(start as int, t as int);
        proof {
            lemma_be_value_bound(sub);
            assert(pow256(sub.len()) <= pow256(7)) by {
                lemma_pow256_monotone(sub.len(), 7);
            }
            lemma_pow256_values();
            assert(bytes@.subrange(start as int, t + 1).drop_last() =~= sub);
        }
        v = v * 256 + bytes[t] as u64;
        t = t + 1;
    }
    v
}

proof fn lemma_pow256_monotone(a: nat, b: nat)
    requires
        a <= b,
    ensures
        pow256(a) <= pow256(b),
    decreases b,
{
    if a < b {
        lemma_pow256_monotone(a, (b - 1) as nat);
        lemma_pow256_positive((b - 1) as nat);
    }
}

impl Droplet {
    /// The droplet in its wire form; `None` when the index or the degree
    /// does not fit in four bytes.
    pub fn to_bytes(&self) -> (r: Option<Vec<u8>>)
        ensures
            r is Some <==> fits_wire(self.droptype),
            r matches Some(b) ==> b@ == encoded(self.droptype, self.data@),
    {
        let mut out: Vec<u8> = Vec::new();
        match self.droptype {
            DropType::Edges(i) => {
                if i as u64 >= 0x1_0000_0000u64 {
                    return None;
                }
                out.push(0u8);
                push_be(&mut out, i as u64, 4);
            },
            DropType::Seeded(seed, degree) => {
                if degree as u64 >= 0x1_0000_0000u64 {
                    return None;
                }
                out.push(1u8);
                push_be(&mut out, seed, 8);
                push_be(&mut out, degree as u64, 4);
            },
        }
        let ghost head = out@;
        let mut t: usize = 0;
        while t < self.data.len()
            invariant
                t <= self.data@.len(),
                out@ == head + self.data@.subrange(0, t as int),
            decreases self.data@.len() - t,
        {
            out.push(self.data[t]);
            t = t + 1;
            assert(out@ =~= head + self.data@.subrange(0, t as int));
        }
        proof {
            assert(self.data@.subrange(0, self.data@.len() as int) =~= self.data@);
            match self.droptype {
                DropType::Edges(i) => {
                    assert(out@ =~= encoded(self.droptype, self.data@));
                },
                DropType::Seeded(seed, degree) => {
                    assert(out@ =~= encoded(self.droptype, self.data@));
                },
            }
        }
        Some(out)
    }

    /// Reads a droplet with a payload of `blocksize` bytes from its wire form.
    pub fn from_bytes(bytes: &[u8], blocksize: usize) -> (r: Result<Droplet, DropletError>)
        ensures
            r matches Ok(d) ==> decoded(bytes@, blocksize as nat) == Ok::<
                (DropType, Seq<u8>),
                DropletError,
            >((d.droptype, d.data@)),
            r matches Err(e) ==> decoded(bytes@, blocksize as nat) == Err::<
                (DropType, Seq<u8>),
                DropletError,
            >(e),
    {
        let n = bytes.len();
        if n == 0 {
            return Err(DropletError::Truncated);
        }
        let (droptype, start) = if bytes[0] == 0 {
            if n < 5 {
                return Err(DropletError::Truncated);
            }
            if n - 5 != blocksize {
                return Err(DropletError::PayloadLength);
            }
            let i = read_be(bytes, 1, 5);
            proof {
                lemma_be_value_bound(bytes@.subrange(1, 5));
                lemma_pow256_values();
            }
            (DropType::Edges(i as usize), 5usize)
        } else if bytes[0] == 1 {
            if n < 13 {
                return Err(DropletError::Truncated);
            }
            if n - 13 != blocksize {
                return Err(DropletError::PayloadLength);
            }
            let seed = read_be(bytes, 1, 9);
            let degree = read_be(bytes, 9, 13);
            proof {
                lemma_be_value_bound(bytes@.subrange(9, 13));
                lemma_pow256_values();
            }
            (DropType::Seeded(seed, degree as usize), 13usize)
        } else {
            return Err(DropletError::UnknownTag);
        };
        let mut data: Vec<u8> = Vec::new();
        let mut t: usize = start;
        while t < n
            invariant
                start <= t <= n,
                n == bytes@.len(),
                data@ == bytes@.subrange(start as int, t as int),
            decreases n - t,
        {
            data.push(bytes[t]);
            t = t + 1;
            assert(data@ =~= bytes@.subrange(start as int, t as int));
        }
        Ok(Droplet { droptype, data })
    }
}

/// Reading the wire form of a droplet gives the droplet back.
pub proof fn lemma_wire_round_trip(d: DropType, payload: Seq<u8>)
    requires
        fits_wire(d),
    ensures
        decoded(encoded(d, payload), payload.len()) == Ok::<(DropType, Seq<u8>), DropletError>(
            (d, payload),
        ),
{
    let s = encoded(d, payload);
    lemma_pow256_values();
    match d {
        DropType::Edges(i) => {
            lemma_be_round_trip(i as nat, 4);
            assert(s.subrange(1, 5) =~= be_bytes(i as nat, 4));
            assert(s.subrange(5, s.len() as int) =~= payload);
        },
        DropType::Seeded(seed, degree) => {
            lemma_be_round_trip(seed as nat, 8);
            lemma_be_round_trip(degree as nat, 4);
            assert(s.subrange(1, 9) =~= be_bytes(seed as nat, 8));
            assert(s.subrange(9, 13) =~= be_bytes(degree as nat, 4));
            assert(s.subrange(13, s.len() as int) =~= payload);
        },
    }
}

} // verus!
