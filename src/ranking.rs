use vstd::prelude::*;

verus! {

/// The value a 32-bit float pattern stands for, read as sign and magnitude:
/// the low 31 bits, negated when the sign bit is set.
///
/// For patterns that are not NaN, IEEE comparison of the floats agrees with
/// comparison of these integers, and `+0.0` and `-0.0` both read as zero.
pub open spec fn signed_magnitude(bits: u32) -> int {
    if bits < 0x8000_0000 {
        bits as int
    } else {
        0x8000_0000 - bits as int
    }
}

/// The unsigned key by which a score pattern is ranked: its signed magnitude
/// shifted into the range of `u32`.
pub open spec fn score_rank(bits: u32) -> int {
    0x8000_0000 + signed_magnitude(bits)
}

/// Entry `i` comes before entry `j`: a higher score, or an equal score and a
/// lower position.
pub open spec fn ranks_before(scores: Seq<u32>, i: int, j: int) -> bool {
    score_rank(scores[i]) > score_rank(scores[j]) || (score_rank(scores[i]) == score_rank(
        scores[j],
    ) && i < j)
}

/// `order` lists positions of `scores`, best first, and every position it
/// leaves out ranks after all of the listed ones.
pub open spec fn is_ranked_prefix(scores: Seq<u32>, order: Seq<usize>) -> bool {
    &&& forall|p: int| 0 <= p < order.len() ==> order[p] < scores.len()
    &&& forall|p: int, q: int|
        0 <= p < q < order.len() ==> ranks_before(scores, order[p] as int, order[q] as int)
    &&& forall|p: int, j: int|
        0 <= p < order.len() && 0 <= j < scores.len() && !order.contains(j as usize)
            ==> ranks_before(scores, order[p] as int, j)
}

/// The smaller of two naturals.
pub open spec fn min_nat(a: nat, b: nat) -> nat {
    if a <= b {
        a
    } else {
        b
    }
}

/// `order` is the `k` best positions of `scores` (all of them when there are
/// fewer than `k`), best first, equal scores by ascending position.
pub open spec fn is_top_k(scores: Seq<u32>, k: nat, order: Seq<usize>) -> bool {
    &&& order.len() == min_nat(k, scores.len())
    &&& is_ranked_prefix(scores, order)
}

/// Ranking key of a score pattern, ordered as the floats it stands for.
pub fn score_key(bits: u32) -> (r: u32)
    ensures
        r as int == score_rank(bits),
{
    if bits < 0x8000_0000 {
        bits + 0x8000_0000
    } else {
        0x8000_0000 - (bits - 0x8000_0000)
    }
}

/// Whether position `i` ranks before position `j` of `scores`.
fn before(scores: &Vec<u32>, i: usize, j: usize) -> (r: bool)
    requires
        i < scores@.len(),
        j < scores@.len(),
    ensures
        r == ranks_before(scores@, i as int, j as int),
{
    let ki = score_key(scores[i]);
    let kj = score_key(scores[j]);
    ki > kj || (ki == kj && i < j)
}

/// Positions of the `k` best scores, best first; equal scores keep their
/// order of position.
pub fn top_k(scores: &Vec<u32>, k: usize) -> (r: Vec<usize>)
    ensures
        is_top_k(scores@, k as nat, r@),
{
    let n = scores.len();
    let want: usize = if k < n {
        k
    } else {
        n
    };
    let mut order: Vec<usize> = Vec::new();
    let mut taken: Vec<bool> = Vec::new();
    let mut t: usize = 0;
    while t < n
        invariant
            t <= n,
            n == scores@.len(),
            taken@.len() == t,
            forall|j: int| 0 <= j < t ==> !taken@[j],
        decreases n - t,
    {
        taken.push(false);
        t = t + 1;
    }
    while order.len() < want
        invariant
            want <= n,
            want == min_nat(k as nat, n as nat),
            n == scores@.len(),
            order@.len() <= want,
            taken@.len() == n,
            forall|j: int| 0 <= j < n ==> (taken@[j] <==> order@.contains(j as usize)),
            is_ranked_prefix(scores@, order@),
        decreases want - order@.len(),
    {
        // some position is still free: the listed ones are distinct and fewer than n
        let mut best: usize = n;
        let mut j: usize = 0;
        while j < n
            invariant
                j <= n,
                n == scores@.len(),
                taken@.len() == n,
                best == n || (best < j && !taken@[best as int]),
                best == n ==> forall|i: int| 0 <= i < j ==> taken@[i],
                best < n ==> forall|i: int|
                    0 <= i < j && !taken@[i] && i != best ==> ranks_before(
                        scores@,
                        best as int,
                        i,
                    ),
            decreases n - j,
        {
            if !taken[j] && (best == n || before(scores, j, best)) {
                proof {
                    if best < n {
                        assert forall|i: int|
                            0 <= i < j && !taken@[i] && i != best implies ranks_before(
                                scores@,
                                j as int,
                                i,
                            ) by {
                            assert(ranks_before(scores@, best as int, i));
                        }
                    }
                }
                best = j;
            }
            j = j + 1;
        }
        proof {
            if best == n {
                lemma_free_position(scores@, order@, taken@);
            }
        }
        assert(best < n);
        let ghost prev = order@;
        let ghost prev_taken = taken@;
        order.push(best);
        taken.set(best, true);
        proof {
            assert(!prev.contains(best));
            assert(order@[prev.len() as int] == best);
            assert forall|j: int| 0 <= j < n implies (taken@[j] <==> order@.contains(
                j as usize,
            )) by {
                if j == best as int {
                    assert(taken@[j]);
                    assert(order@.contains(j as usize));
                } else {
                    assert(taken@[j] == prev_taken[j]);
                    if order@.contains(j as usize) {
                        let p = choose|p: int| 0 <= p < order@.len() && order@[p] == j as usize;
                        assert(prev[p] == j as usize);
                    }
                    if prev.contains(j as usize) {
                        let p = choose|p: int| 0 <= p < prev.len() && prev[p] == j as usize;
                        assert(order@[p] == j as usize);
                    }
                }
            }
            assert forall|p: int, j: int|
                0 <= p < order@.len() && 0 <= j < n && !order@.contains(
                    j as usize,
                ) implies ranks_before(scores@, order@[p] as int, j) by {
                assert(!prev.contains(j as usize)) by {
                    if prev.contains(j as usize) {
                        let q = choose|q: int| 0 <= q < prev.len() && prev[q] == j as usize;
                        assert(order@[q] == j as usize);
                    }
                }
                assert(j != best as int) by {
                    assert(order@[prev.len() as int] == best);
                }
                assert(!prev_taken[j]);
                if p < prev.len() {
                    assert(order@[p] == prev[p]);
                }
            }
        }
    }
    order
}

/// When fewer than `n` positions are listed and `taken` marks exactly the
/// listed ones, some position is free.
proof fn lemma_free_position(scores: Seq<u32>, order: Seq<usize>, taken: Seq<bool>)
    requires
        order.len() < scores.len(),
        scores.len() <= usize::MAX,
        taken.len() == scores.len(),
        forall|j: int| 0 <= j < scores.len() ==> (taken[j] <==> order.contains(j as usize)),
    ensures
        exists|j: int| 0 <= j < scores.len() && !taken[j],
{
    let n = scores.len() as int;
    if forall|j: int| 0 <= j < n ==> taken[j] {
        // then every position below n is listed, which takes n entries
        let listed = order.map_values(|x: usize| x as int);
        let all = vstd::set_lib::set_int_range(0, n);
        assert forall|j: int| all.contains(j) implies listed.to_set().contains(j) by {
            assert(taken[j]);
            let p = choose|p: int| 0 <= p < order.len() && order[p] == j as usize;
            assert(listed[p] == j);
        }
        vstd::set_lib::lemma_int_range(0, n);
        vstd::seq_lib::seq_to_set_is_finite(listed);
        vstd::set_lib::lemma_len_subset(all, listed.to_set());
        listed.lemma_cardinality_of_set();
        assert(false);
    }
}

/// Two answers that both meet `is_top_k` for the same scores and `k` are the
/// same answer: the ranking leaves no choice.
pub proof fn lemma_top_k_unique(scores: Seq<u32>, k: nat, a: Seq<usize>, b: Seq<usize>)
    requires
        is_top_k(scores, k, a),
        is_top_k(scores, k, b),
    ensures
        a == b,
{
    lemma_prefixes_agree(scores, a, b, a.len() as int);
    assert(a =~= b);
}

proof fn lemma_prefixes_agree(scores: Seq<u32>, a: Seq<usize>, b: Seq<usize>, p: int)
    requires
        is_ranked_prefix(scores, a),
        is_ranked_prefix(scores, b),
        a.len() == b.len(),
        0 <= p <= a.len(),
    ensures
        forall|q: int| 0 <= q < p ==> a[q] == b[q],
    decreases p,
{
    if p > 0 {
        let q = p - 1;
        lemma_prefixes_agree(scores, a, b, q);
        let x = a[q];
        let y = b[q];
        if x != y {
            // each of x and y would have to rank before the other
            assert(ranks_before(scores, x as int, y as int)) by {
                if a.contains(y) {
                    let t = choose|t: int| 0 <= t < a.len() && a[t] == y;
                    if t < q {
                        assert(b[t] == y);
                        assert(ranks_before(scores, b[t] as int, b[q] as int));
                    }
                }
            }
            assert(ranks_before(scores, y as int, x as int)) by {
                if b.contains(x) {
                    let t = choose|t: int| 0 <= t < b.len() && b[t] == x;
                    if t < q {
                        assert(a[t] == x);
                        assert(ranks_before(scores, a[t] as int, a[q] as int));
                    }
                }
            }
        }
    }
}

} // verus!
