use vstd::prelude::*;
use vstd::relations::{sorted_by, total_ordering};

verus! {

/// The order that rankings sort by.
pub open spec fn ascending(a: u64, b: u64) -> bool {
    a <= b
}

/// Index of the first element of the run of equal values that `i` belongs to.
pub open spec fn tie_start(s: Seq<u64>, i: int) -> int
    decreases i,
{
    if 0 < i < s.len() && s[i - 1] == s[i] {
        tie_start(s, i - 1)
    } else {
        i
    }
}

/// The rank of the element at `i` of a sorted sequence: one more than the number of
/// elements before the first occurrence of its value.
pub open spec fn rank_at(s: Seq<u64>, i: int) -> int {
    1 + tie_start(s, i)
}

/// Each element of the sorted sequence `s`, paired with its rank.
pub open spec fn ranked(s: Seq<u64>) -> Seq<(u64, u64)> {
    Seq::new(s.len(), |i: int| (s[i], rank_at(s, i) as u64))
}

/// `sorted` holds the values of `keys` in ascending order.
pub open spec fn sorts(sorted: Seq<u64>, keys: Seq<u64>) -> bool {
    &&& sorted_by(sorted, |a: u64, b: u64| ascending(a, b))
    &&& sorted.to_multiset() == keys.to_multiset()
}

/// A run of equal values starts at or before the element and holds only its value.
pub proof fn lemma_tie_start_bounds(s: Seq<u64>, i: int)
    requires
        0 <= i < s.len(),
    ensures
        0 <= tie_start(s, i) <= i,
        s[tie_start(s, i)] == s[i],
        tie_start(s, i) == 0 || s[tie_start(s, i) - 1] != s[i],
    decreases i,
{
    if 0 < i && s[i - 1] == s[i] {
        lemma_tie_start_bounds(s, i - 1);
    }
}

/// Ranking does not depend on the order the keys come in: two inputs with the same
/// values (counted with multiplicity), once sorted, give the same `(key, rank)` pairs.
pub proof fn lemma_rank_order_independent(a: Seq<u64>, b: Seq<u64>, sa: Seq<u64>, sb: Seq<u64>)
    requires
        a.to_multiset() == b.to_multiset(),
        sorts(sa, a),
        sorts(sb, b),
    ensures
        ranked(sa) == ranked(sb),
{
    let leq = |x: u64, y: u64| ascending(x, y);
    assert(total_ordering(leq));
    vstd::seq_lib::lemma_sorted_unique(sa, sb, leq);
    assert(sa == sb);
}

/// Equal keys share a rank, and the first key after a run of `n` equal keys has a rank
/// `n` above the run's rank.
pub proof fn lemma_rank_steps(s: Seq<u64>, i: int)
    requires
        sorted_by(s, |a: u64, b: u64| ascending(a, b)),
        0 < i < s.len(),
    ensures
        s[i - 1] == s[i] ==> rank_at(s, i) == rank_at(s, i - 1),
        s[i - 1] != s[i] ==> rank_at(s, i) == rank_at(s, i - 1) + (i - tie_start(s, i - 1)),
{
}

/// Relies on `slice::sort_unstable`: it reorders the elements into ascending order.
#[verifier::external_body]
pub(crate) fn sort_keys(keys: &mut Vec<u64>)
    ensures
        final(keys)@.to_multiset() == old(keys)@.to_multiset(),
        sorted_by(final(keys)@, |a: u64, b: u64| ascending(a, b)),
{
    keys.sort_unstable();
}

/// Ranks keys that are already in ascending order: ties share the lowest rank, and the
/// next distinct key's rank is one more than the number of keys before it.
pub fn rank_sorted(sorted: &Vec<u64>) -> (r: Vec<(u64, u64)>)
    requires
        sorted_by(sorted@, |a: u64, b: u64| ascending(a, b)),
        sorted@.len() < u64::MAX,
    ensures
        r@ == ranked(sorted@),
{
    let mut r: Vec<(u64, u64)> = Vec::new();
    let n = sorted.len();
    let mut rank: u64 = 1;
    let mut i: usize = 0;
    while i < n
        invariant
            n == sorted@.len(),
            n < u64::MAX,
            0 <= i <= n,
            r@ == ranked(sorted@).take(i as int),
            i > 0 ==> rank == rank_at(sorted@, i - 1),
            rank <= i + 1,
        decreases n - i,
    {
        let key = sorted[i];
        if i > 0 && sorted[i - 1] != key {
            rank = (i as u64) + 1;
        } else if i == 0 {
            rank = 1;
        }
        proof {
            lemma_tie_start_bounds(sorted@, i as int);
            assert(rank == rank_at(sorted@, i as int));
        }
        r.push((key, rank));
        proof {
            assert(r@ == ranked(sorted@).take(i + 1));
        }
        i = i + 1;
    }
    proof {
        assert(r@ == ranked(sorted@));
    }
    r
}

/// Sorts `keys` in ascending order and pairs each with its rank.
pub fn rank_keys(keys: Vec<u64>) -> (r: Vec<(u64, u64)>)
    requires
        keys@.len() < u64::MAX,
    ensures
        exists|sorted: Seq<u64>| sorts(sorted, keys@) && r@ == ranked(sorted),
{
    let ghost k0 = keys@;
    let mut sorted = keys;
    sort_keys(&mut sorted);
    proof {
        vstd::seq_lib::to_multiset_len(sorted@);
        vstd::seq_lib::to_multiset_len(k0);
    }
    let r = rank_sorted(&sorted);
    proof {
        assert(sorts(sorted@, k0));
    }
    r
}

} // verus!
