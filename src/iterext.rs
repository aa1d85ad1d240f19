use vstd::prelude::*;

verus! {

/// The sum of the first `n` items of `s`.
pub open spec fn prefix_sum(s: Seq<u64>, n: int) -> nat
    decreases n,
{
    if n <= 0 {
        0
    } else {
        prefix_sum(s, n - 1) + s[n - 1] as nat
    }
}

pub proof fn lemma_prefix_sum_monotone(s: Seq<u64>, a: int, b: int)
    requires
        a <= b,
    ensures
        prefix_sum(s, a) <= prefix_sum(s, b),
    decreases b - a,
{
    if a < b {
        lemma_prefix_sum_monotone(s, a, b - 1);
    }
}

/// The running sums of `v`: item `t` of the result is the sum of items
/// `0..=t` of `v`. `None` when the total does not fit in 64 bits.
pub fn cumsum(v: &Vec<u64>) -> (r: Option<Vec<u64>>)
    ensures
        r is Some <==> prefix_sum(v@, v@.len() as int) <= u64::MAX,
        r matches Some(c) ==> {
            &&& c@.len() == v@.len()
            &&& forall|t: int| 0 <= t < c@.len() ==> #[trigger] c@[t] == prefix_sum(v@, t + 1)
        },
{
    let mut out: Vec<u64> = Vec::new();
    let mut sum: u64 = 0;
    let mut t: usize = 0;
    while t < v.len()
        invariant
            t <= v@.len(),
            sum == prefix_sum(v@, t as int),
            out@.len() == t,
            forall|a: int| 0 <= a < t ==> #[trigger] out@[a] == prefix_sum(v@, a + 1),
        decreases v@.len() - t,
    {
        match sum.checked_add(v[t]) {
            Some(next) => {
                sum = next;
                out.push(next);
            },
            None => {
                proof {
                    lemma_prefix_sum_monotone(v@, t + 1, v@.len() as int);
                }
                return None;
            },
        }
        t = t + 1;
    }
    Some(out)
}

} // verus!
