//! The length of the longest strictly increasing subsequence of a list.

use vstd::prelude::*;

verus! {

/// `idx` picks a strictly increasing subsequence of `s`: positions strictly
/// increase, and so do the values at those positions.
pub open spec fn is_chain(s: Seq<i64>, idx: Seq<int>) -> bool {
    &&& forall|k: int| 0 <= k < idx.len() ==> 0 <= #[trigger] idx[k] < s.len()
    &&& forall|k: int|
        0 <= k < idx.len() - 1 ==> #[trigger] idx[k] < idx[k + 1] && s[idx[k]] < s[idx[k + 1]]
}

/// A table where each entry bounds, and some chain attains, the length of
/// the longest chain ending at that position lets every chain be bounded by
/// the entry at its last position.
proof fn lemma_chain_bound(s: Seq<i64>, best: Seq<usize>, c: Seq<int>)
    requires
        best.len() == s.len(),
        forall|k: int| 0 <= k < s.len() ==> 1 <= #[trigger] best[k],
        forall|j: int, k: int|
            #![trigger best[j], best[k]]
            0 <= j < k < s.len() && s[j] < s[k] ==> best[j] < best[k],
        is_chain(s, c),
        c.len() >= 1,
    ensures
        c.len() <= best[c.last()],
    decreases c.len(),
{
    if c.len() > 1 {
        let c0 = c.drop_last();
        assert(forall|k: int| 0 <= k < c0.len() ==> c0[k] == c[k]);
        assert(is_chain(s, c0));
        lemma_chain_bound(s, best, c0);
        let p = c0.last();
        let q = c.last();
        assert(c[c.len() - 2] == p);
        assert(p < q && s[p] < s[q]) by {
            let k = c.len() - 2;
            assert(c[k] < c[k + 1] && s[c[k]] < s[c[k + 1]]);
        }
        assert(best[p] < best[q]);
    }
}

/// The length of the longest strictly increasing subsequence of `list`,
/// found with the quadratic dynamic program over best-chain-ending-here
/// lengths.
#[verifier::rlimit(60)]
pub fn longest_increasing_subsequence(list: &Vec<i64>) -> (r: usize)
    ensures
        exists|idx: Seq<int>| is_chain(list@, idx) && idx.len() == r,
        forall|idx: Seq<int>| is_chain(list@, idx) ==> idx.len() <= r,
{
    let n = list.len();
    let mut best: Vec<usize> = Vec::with_capacity(n);
    let ghost mut chains: Seq<Seq<int>> = Seq::empty();
    let mut curr_max: usize = 0;
    let ghost mut max_chain: Seq<int> = Seq::empty();
    for i in 0..n
        invariant
            n == list@.len(),
            best@.len() == i,
            chains.len() == i,
            forall|k: int| 0 <= k < i ==> 1 <= #[trigger] best@[k] && best@[k] <= k + 1,
            forall|k: int|
                0 <= k < i ==> is_chain(list@, #[trigger] chains[k]) && chains[k].len() == best@[k]
                    && chains[k].last() == k,
            forall|j: int, k: int|
                #![trigger best@[j], best@[k]]
                0 <= j < k < i && list@[j] < list@[k] ==> best@[j] < best@[k],
            is_chain(list@, max_chain),
            max_chain.len() == curr_max,
            forall|k: int| 0 <= k < i ==> #[trigger] best@[k] <= curr_max,
    {
        let mut m: usize = 0;
        let ghost mut w: Seq<int> = Seq::empty();
        for j in 0..i
            invariant
                n == list@.len(),
                i < n,
                best@.len() == i,
                chains.len() == i,
                forall|k: int| 0 <= k < i ==> 1 <= #[trigger] best@[k] && best@[k] <= k + 1,
                forall|k: int|
                    0 <= k < i ==> is_chain(list@, #[trigger] chains[k]) && chains[k].len()
                        == best@[k] && chains[k].last() == k,
                m == 0 ==> w == Seq::<int>::empty(),
                m >= 1 ==> is_chain(list@, w) && w.len() == m && w.last() < i && list@[w.last()]
                    < list@[i as int],
                m <= i,
                forall|j2: int|
                    0 <= j2 < j && list@[j2] < list@[i as int] ==> #[trigger] best@[j2] <= m,
        {
            if list[j] < list[i] && m < best[j] {
                m = best[j];
                proof {
                    w = chains[j as int];
                }
            }
        }
        let ghost ci = w.push(i as int);
        best.push(m + 1);
        proof {
            chains = chains.push(ci);
            assert(forall|k: int| 0 <= k < w.len() ==> ci[k] == w[k]);
            assert(ci.last() == i);
            assert(is_chain(list@, ci)) by {
                assert forall|k: int| 0 <= k < ci.len() - 1 implies #[trigger] ci[k] < ci[k + 1]
                    && list@[ci[k]] < list@[ci[k + 1]] by {
                    if k < w.len() - 1 {
                        assert(w[k] < w[k + 1] && list@[w[k]] < list@[w[k + 1]]);
                    } else {
                        assert(ci[k] == w.last() && ci[k + 1] == i);
                    }
                }
            }
        }
        if curr_max < m + 1 {
            curr_max = m + 1;
            proof {
                max_chain = ci;
            }
        }
    }
    proof {
        assert forall|idx: Seq<int>| is_chain(list@, idx) implies idx.len() <= curr_max by {
            if idx.len() >= 1 {
                lemma_chain_bound(list@, best@, idx);
                assert(best@[idx.last()] <= curr_max);
            }
        }
        assert(is_chain(list@, max_chain) && max_chain.len() == curr_max);
    }
    curr_max
}

} // verus!
