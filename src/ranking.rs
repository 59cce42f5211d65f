//! Ranking a column of correlations, most correlated first.
use vstd::prelude::*;

verus! {

broadcast use vstd::seq_lib::group_to_multiset_ensures;

/// The position of a double, given by its bits, in the IEEE-754 total
/// order: larger doubles get larger keys.
pub open spec fn order_key(bits: u64) -> u64 {
    if bits >= 0x8000_0000_0000_0000 {
        (u64::MAX - bits) as u64
    } else {
        (bits + 0x8000_0000_0000_0000) as u64
    }
}

/// The sort key that puts the largest double first.
pub open spec fn descending_key(bits: u64) -> u64 {
    (u64::MAX - order_key(bits)) as u64
}

/// Whether `rank` gives each index of `col` its position when `col` is
/// sorted by correlation, largest first: a permutation of `0..len` in which a
/// smaller rank never goes to a smaller correlation.
pub open spec fn is_ranking(col: Seq<u64>, rank: Seq<usize>) -> bool {
    &&& rank.len() == col.len()
    &&& forall|i: int| 0 <= i < rank.len() ==> #[trigger] rank[i] < rank.len()
    &&& forall|i: int, j: int|
        0 <= i < rank.len() && 0 <= j < rank.len() && i != j ==> #[trigger] rank[i] != #[trigger] rank[j]
    &&& forall|i: int, j: int|
        0 <= i < rank.len() && 0 <= j < rank.len() && #[trigger] rank[i] < #[trigger] rank[j]
            ==> order_key(col[i]) >= order_key(col[j])
}

/// A ranking that breaks ties by index: `i` ranks before `j` exactly when
/// its correlation is larger, or equal with `i < j`.
pub open spec fn is_index_ranking(col: Seq<u64>, rank: Seq<usize>) -> bool {
    &&& is_ranking(col, rank)
    &&& forall|i: int, j: int|
        0 <= i < rank.len() && 0 <= j < rank.len() ==> (#[trigger] rank[i] < #[trigger] rank[j] <==> (
        order_key(col[i]) > order_key(col[j]) || (order_key(col[i]) == order_key(col[j]) && i < j)))
}

pub open spec fn holds_index(s: Seq<(u64, usize)>, k: int) -> bool {
    exists|q: int| 0 <= q < s.len() && #[trigger] s[q].1 == k
}

pub open spec fn pair_le(a: (u64, usize), b: (u64, usize)) -> bool {
    a.0 < b.0 || (a.0 == b.0 && a.1 <= b.1)
}

/// Relies on `slice::sort_unstable`: the result is a permutation of the
/// input, in ascending order of tuples (first field, then second).
#[verifier::external_body]
fn sort_pairs(v: &mut Vec<(u64, usize)>)
    ensures
        final(v)@.to_multiset() == old(v)@.to_multiset(),
        forall|i: int, j: int| 0 <= i < j < final(v)@.len() ==> pair_le(final(v)@[i], final(v)@[j]),
{
    v.sort_unstable();
}

fn descending(bits: u64) -> (r: u64)
    ensures
        r == descending_key(bits),
{
    let k: u64 = if bits >= 0x8000_0000_0000_0000 {
        u64::MAX - bits
    } else {
        bits + 0x8000_0000_0000_0000
    };
    u64::MAX - k
}

/// The rank of each entry of `col` when sorted by correlation, largest
/// first; ties fall in index order.
pub fn ranks_of(col: &Vec<u64>) -> (r: Vec<usize>)
    ensures
        is_index_ranking(col@, r@),
{
    let n = col.len();
    let mut pairs: Vec<(u64, usize)> = Vec::new();
    let mut i: usize = 0;
    while i < n
        invariant
            i <= n == col.len(),
            pairs.len() == i,
            forall|k: int| 0 <= k < i ==> #[trigger] pairs@[k] == (descending_key(col@[k]), k as usize),
        decreases n - i,
    {
        pairs.push((descending(col[i]), i));
        i = i + 1;
    }
    let ghost start = pairs@;
    proof {
        assert(start.no_duplicates());
        start.lemma_multiset_has_no_duplicates();
    }
    sort_pairs(&mut pairs);
    let ghost sorted = pairs@;
    proof {
        assert(sorted.to_multiset().len() == start.to_multiset().len());
        assert(sorted.len() == n);
        assert forall|x: (u64, usize)| sorted.to_multiset().contains(x) implies sorted.to_multiset().count(x) == 1 by {
            assert(start.to_multiset().contains(x));
        }
        sorted.lemma_multiset_has_no_duplicates_conv();
        assert forall|p: int| 0 <= p < n implies #[trigger] sorted[p].1 < n && sorted[p].0 == descending_key(col@[sorted[p].1 as int]) by {
            assert(sorted.contains(sorted[p]));
            assert(sorted.to_multiset().count(sorted[p]) > 0);
            assert(start.contains(sorted[p]));
            let k = choose|k: int| 0 <= k < start.len() && start[k] == sorted[p];
        }
    }
    let mut rank: Vec<usize> = Vec::new();
    let mut j: usize = 0;
    while j < n
        invariant
            j <= n,
            rank.len() == j,
        decreases n - j,
    {
        rank.push(0);
        j = j + 1;
    }
    let mut p: usize = 0;
    while p < n
        invariant
            p <= n == col.len() == pairs.len(),
            rank.len() == n,
            pairs@ == sorted,
            sorted.no_duplicates(),
            forall|q: int| 0 <= q < n ==> #[trigger] sorted[q].1 < n && sorted[q].0 == descending_key(col@[sorted[q].1 as int]),
            forall|q: int| 0 <= q < p ==> rank@[#[trigger] sorted[q].1 as int] == q,
        decreases n - p,
    {
        let idx = pairs[p].1;
        rank.set(idx, p);
        proof {
            assert forall|q: int| 0 <= q < p + 1 implies rank@[#[trigger] sorted[q].1 as int] == q by {
                if q < p {
                    assert(sorted[q] != sorted[p as int]);
                    assert(sorted[q].1 != sorted[p as int].1);
                }
            }
        }
        p = p + 1;
    }
    proof {
        assert forall|k: int| 0 <= k < n implies #[trigger] holds_index(sorted, k) by {
            assert(start[k] == (descending_key(col@[k]), k as usize));
            assert(start.contains(start[k]));
            assert(sorted.to_multiset().count(start[k]) > 0);
            assert(sorted.contains(start[k]));
            let q = choose|q: int| 0 <= q < sorted.len() && sorted[q] == start[k];
            assert(sorted[q].1 == k);
        }
        assert forall|i: int| 0 <= i < n implies #[trigger] rank@[i] < n by {
            assert(holds_index(sorted, i));
            let q = choose|q: int| 0 <= q < n && #[trigger] sorted[q].1 == i;
        }
        assert forall|a: int, b: int| 0 <= a < n && 0 <= b < n && a != b implies #[trigger] rank@[a] != #[trigger] rank@[b] by {
            assert(holds_index(sorted, a));
            assert(holds_index(sorted, b));
            let qa = choose|q: int| 0 <= q < n && #[trigger] sorted[q].1 == a;
            let qb = choose|q: int| 0 <= q < n && #[trigger] sorted[q].1 == b;
        }
        assert forall|a: int, b: int|
            0 <= a < n && 0 <= b < n && #[trigger] rank@[a] < #[trigger] rank@[b] implies order_key(col@[a]) >= order_key(col@[b]) by {
            assert(holds_index(sorted, a));
            assert(holds_index(sorted, b));
            let qa = choose|q: int| 0 <= q < n && #[trigger] sorted[q].1 == a;
            let qb = choose|q: int| 0 <= q < n && #[trigger] sorted[q].1 == b;
            assert(pair_le(sorted[qa], sorted[qb]));
        }
        assert forall|a: int, b: int| 0 <= a < n && 0 <= b < n implies (#[trigger] rank@[a] < #[trigger] rank@[b] <==> (
            order_key(col@[a]) > order_key(col@[b]) || (order_key(col@[a]) == order_key(col@[b]) && a < b))) by {
            assert(holds_index(sorted, a));
            assert(holds_index(sorted, b));
            let qa = choose|q: int| 0 <= q < n && #[trigger] sorted[q].1 == a;
            let qb = choose|q: int| 0 <= q < n && #[trigger] sorted[q].1 == b;
            assert(rank@[a] == qa && rank@[b] == qb);
            if qa < qb {
                assert(pair_le(sorted[qa], sorted[qb]));
                assert(sorted[qa] != sorted[qb]);
            } else if qb < qa {
                assert(pair_le(sorted[qb], sorted[qa]));
                assert(sorted[qa] != sorted[qb]);
            }
        }
    }
    rank
}

} // verus!
