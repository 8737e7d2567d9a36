//! Similarity and re-ranking over fixed-point embeddings.
//!
//! Embeddings are vectors of `i64` fixed-point components; similarity scores
//! are fixed-point thousandths, so a score of `1000` means identical
//! direction. The scale keeps every computation in exact integer arithmetic,
//! which is what the contracts here are stated over.

use vstd::prelude::*;

use vstd::set_lib::lemma_len_subset;
use vstd::set_lib::lemma_int_range;
use vstd::set_lib::set_int_range;

use crate::record::{clone_record, records_view, MemoryRecord, RecordView};

verus! {

/// Similarity scores are thousandths: this is the fixed-point scale.
pub const SIM_SCALE: i64 = 1000;

/// Embeddings may have at most this many components.
pub const MAX_DIMENSION: usize = 4096;

/// Each embedding component is bounded by this magnitude.
pub const MAX_COMPONENT: i64 = 1_000_000;

/// An embedding the similarity arithmetic can handle without overflow:
/// bounded dimension and bounded components.
pub open spec fn valid_embedding(e: Seq<i64>) -> bool {
    e.len() <= MAX_DIMENSION && forall|i: int|
        0 <= i < e.len() ==> -MAX_COMPONENT <= #[trigger] e[i] <= MAX_COMPONENT
}

/// The dot product of two equal-length vectors.
pub open spec fn spec_dot(a: Seq<i64>, b: Seq<i64>) -> int
    decreases a.len(),
{
    if a.len() == 0 || b.len() == 0 {
        0
    } else {
        spec_dot(a.drop_last(), b.drop_last()) + (a.last() as int) * (b.last() as int)
    }
}

/// The integer square root: the largest `r` with `r * r <= n`.
pub open spec fn isqrt_spec(n: int) -> int
    decreases n,
{
    if n <= 0 {
        0
    } else {
        let r = isqrt_spec(n - 1);
        if (r + 1) * (r + 1) <= n {
            r + 1
        } else {
            r
        }
    }
}

/// `isqrt_spec(n)` squares to at most `n`, and is the largest such value.
pub proof fn lemma_isqrt(n: int)
    requires
        n >= 0,
    ensures
        isqrt_spec(n) >= 0,
        isqrt_spec(n) * isqrt_spec(n) <= n,
        n < (isqrt_spec(n) + 1) * (isqrt_spec(n) + 1),
    decreases n,
{
    if n > 0 {
        lemma_isqrt(n - 1);
        let r = isqrt_spec(n - 1);
        if (r + 1) * (r + 1) <= n {
            assert((r + 2) * (r + 2) > n) by (nonlinear_arith)
                requires
                    (r + 1) * (r + 1) > n - 1,
                    r >= 0,
            ;
        }
    }
}

/// Any `r` whose square brackets `n` is the integer square root of `n`.
pub proof fn lemma_isqrt_unique(n: int, r: int)
    requires
        n >= 0,
        r >= 0,
        r * r <= n,
        n < (r + 1) * (r + 1),
    ensures
        r == isqrt_spec(n),
{
    lemma_isqrt(n);
    let s = isqrt_spec(n);
    if r < s {
        assert((r + 1) * (r + 1) <= s * s) by (nonlinear_arith)
            requires
                0 <= r + 1 <= s,
        ;
    }
    if s < r {
        assert((s + 1) * (s + 1) <= r * r) by (nonlinear_arith)
            requires
                0 <= s + 1 <= r,
        ;
    }
}

/// Computes the integer square root of `n`.
pub fn isqrt_u64(n: u64) -> (r: u64)
    requires
        n <= 4_503_599_627_370_496,
    ensures
        r as int == isqrt_spec(n as int),
{
    let mut lo: u64 = 0;
    let mut hi: u64 = 67_108_865;
    assert(hi * hi > n) by (nonlinear_arith)
        requires
            hi == 67_108_865,
            n <= 4_503_599_627_370_496,
    ;
    while hi - lo > 1
        invariant
            lo < hi,
            hi <= 67_108_865,
            (lo * lo) as int <= n as int,
            (n as int) < (hi * hi) as int,
        decreases hi - lo,
    {
        let mid = lo + (hi - lo) / 2;
        assert(mid * mid <= 4_521_624_009_112_225) by (nonlinear_arith)
            requires
                mid <= 67_108_865,
        ;
        if mid * mid <= n {
            lo = mid;
        } else {
            hi = mid;
        }
    }
    proof {
        assert(hi == lo + 1);
        lemma_isqrt_unique(n as int, lo as int);
    }
    lo
}

/// The dot product is symmetric.
pub proof fn lemma_dot_symmetric(a: Seq<i64>, b: Seq<i64>)
    ensures
        spec_dot(a, b) == spec_dot(b, a),
    decreases a.len(),
{
    if a.len() > 0 && b.len() > 0 {
        lemma_dot_symmetric(a.drop_last(), b.drop_last());
    }
}

/// The cosine similarity of `a` and `b` in fixed-point thousandths.
///
/// Mismatched lengths and zero-magnitude vectors give `0` by definition. The
/// quotient of the scaled dot product and the product of the truncated
/// integer magnitudes is clamped to `-1000..=1000`.
pub open spec fn spec_cosine(a: Seq<i64>, b: Seq<i64>) -> int {
    if a.len() != b.len() {
        0
    } else {
        let dot = spec_dot(a, b);
        let ma = isqrt_spec(spec_dot(a, a));
        let mb = isqrt_spec(spec_dot(b, b));
        if ma == 0 || mb == 0 {
            0
        } else {
            let raw = if dot >= 0 {
                dot * (SIM_SCALE as int) / (ma * mb)
            } else {
                -((-dot) * (SIM_SCALE as int) / (ma * mb))
            };
            if raw > SIM_SCALE as int {
                SIM_SCALE as int
            } else if raw < -(SIM_SCALE as int) {
                -(SIM_SCALE as int)
            } else {
                raw
            }
        }
    }
}

/// Cosine similarity is symmetric.
pub proof fn lemma_cosine_symmetric(a: Seq<i64>, b: Seq<i64>)
    ensures
        spec_cosine(a, b) == spec_cosine(b, a),
{
    lemma_dot_symmetric(a, b);
}

/// Calculates the cosine similarity between two fixed-point vectors, in
/// thousandths. Returns `0` when the lengths differ or either vector has
/// zero magnitude.
pub fn cosine_similarity(a: &Vec<i64>, b: &Vec<i64>) -> (r: i64)
    requires
        valid_embedding(a@),
        valid_embedding(b@),
    ensures
        r as int == spec_cosine(a@, b@),
        -1000 <= r <= 1000,
{
    if a.len() != b.len() {
        return 0;
    }
    let n = a.len();
    let mut dot: i64 = 0;
    let mut suma: u64 = 0;
    let mut sumb: u64 = 0;
    let mut i: usize = 0;
    while i < n
        invariant
            n == a@.len(),
            n == b@.len(),
            n <= MAX_DIMENSION,
            valid_embedding(a@),
            valid_embedding(b@),
            i <= n,
            dot as int == spec_dot(a@.take(i as int), b@.take(i as int)),
            suma as int == spec_dot(a@.take(i as int), a@.take(i as int)),
            sumb as int == spec_dot(b@.take(i as int), b@.take(i as int)),
            -(i as int) * 1_000_000_000_000 <= dot as int <= (i as int) * 1_000_000_000_000,
            suma as int <= (i as int) * 1_000_000_000_000,
            sumb as int <= (i as int) * 1_000_000_000_000,
        decreases n - i,
    {
        let x = a[i];
        let y = b[i];
        proof {
            assert(a@.take(i + 1 as int).drop_last() =~= a@.take(i as int));
            assert(b@.take(i + 1 as int).drop_last() =~= b@.take(i as int));
            assert(-1_000_000_000_000 <= (x as int) * (y as int) <= 1_000_000_000_000)
                by (nonlinear_arith)
                requires
                    -1_000_000 <= x as int <= 1_000_000,
                    -1_000_000 <= y as int <= 1_000_000,
            ;
            assert(0 <= (x as int) * (x as int) <= 1_000_000_000_000) by (nonlinear_arith)
                requires
                    -1_000_000 <= x as int <= 1_000_000,
            ;
            assert(0 <= (y as int) * (y as int) <= 1_000_000_000_000) by (nonlinear_arith)
                requires
                    -1_000_000 <= y as int <= 1_000_000,
            ;
            assert((i as int) * 1_000_000_000_000 + 1_000_000_000_000 == (i + 1 as int)
                * 1_000_000_000_000) by (nonlinear_arith);
            assert((i + 1 as int) * 1_000_000_000_000 <= 4096int * 1_000_000_000_000)
                by (nonlinear_arith)
                requires
                    i + 1 <= 4096,
            ;
        }
        dot = dot + x * y;
        suma = suma + ((x * x) as u64);
        sumb = sumb + ((y * y) as u64);
        i = i + 1;
    }
    proof {
        assert(a@.take(n as int) =~= a@);
        assert(b@.take(n as int) =~= b@);
        assert((n as int) * 1_000_000_000_000 <= 4096int * 1_000_000_000_000) by (nonlinear_arith)
            requires
                n <= 4096,
        ;
    }
    let ma = isqrt_u64(suma);
    let mb = isqrt_u64(sumb);
    if ma == 0 || mb == 0 {
        return 0;
    }
    proof {
        lemma_isqrt(suma as int);
        lemma_isqrt(sumb as int);
        assert(ma as int * (ma as int) <= suma as int);
        assert((ma as int) <= 67_108_864) by (nonlinear_arith)
            requires
                (ma as int) * (ma as int) <= 4_503_599_627_370_496,
                ma as int >= 0,
        ;
        assert((mb as int) <= 67_108_864) by (nonlinear_arith)
            requires
                (mb as int) * (mb as int) <= 4_503_599_627_370_496,
                mb as int >= 0,
        ;
        assert((ma as int) * (mb as int) <= 4_503_599_627_370_496) by (nonlinear_arith)
            requires
                0 <= ma as int <= 67_108_864,
                0 <= mb as int <= 67_108_864,
        ;
    }
    let prod: u64 = ma * mb;
    assert(prod as int >= 1) by (nonlinear_arith)
        requires
            prod as int == (ma as int) * (mb as int),
            ma as int >= 1,
            mb as int >= 1,
    ;
    let mag: u64 = if dot >= 0 {
        dot as u64
    } else {
        (-dot) as u64
    };
    assert(mag as int <= 4_096_000_000_000_000);
    let num: u64 = mag * 1000;
    let q: u64 = num / prod;
    let clamped: i64 = if q > 1000 {
        1000
    } else {
        q as i64
    };
    if dot >= 0 {
        clamped
    } else {
        -clamped
    }
}

/// The relevance of candidate `c` to the query: its cosine similarity.
/// Meaningful only for candidates that carry an embedding.
pub open spec fn rel_to(q: Seq<i64>, c: RecordView) -> int {
    spec_cosine(q, c.embedding->Some_0)
}

/// Candidate `i` can still be selected: it is in range, carries an
/// embedding, and has not been picked yet.
pub open spec fn eligible(cands: Seq<RecordView>, picked: Seq<int>, i: int) -> bool {
    0 <= i < cands.len() && cands[i].embedding is Some && !picked.contains(i)
}

/// The largest cosine similarity between the embedding `e` and the
/// embeddings of the already-picked candidates. Meaningful only for a
/// non-empty `picked`.
pub open spec fn max_sim_sel(cands: Seq<RecordView>, picked: Seq<int>, e: Seq<i64>) -> int
    decreases picked.len(),
{
    if picked.len() == 0 {
        0
    } else {
        let last_sim = spec_cosine(e, cands[picked.last()].embedding->Some_0);
        if picked.len() == 1 {
            last_sim
        } else {
            let rest = max_sim_sel(cands, picked.drop_last(), e);
            if last_sim >= rest {
                last_sim
            } else {
                rest
            }
        }
    }
}

/// The selection criterion: the first pick goes by raw relevance; later
/// picks go by `lambda * relevance - (1000 - lambda) * redundancy`, where
/// redundancy is the largest similarity to an already-picked candidate.
pub open spec fn mmr_score(
    q: Seq<i64>,
    cands: Seq<RecordView>,
    picked: Seq<int>,
    lambda: int,
    i: int,
) -> int {
    if picked.len() == 0 {
        rel_to(q, cands[i])
    } else {
        lambda * rel_to(q, cands[i]) - (1000 - lambda) * max_sim_sel(
            cands,
            picked,
            cands[i].embedding->Some_0,
        )
    }
}

/// The best eligible candidate among the first `j`, by score, ties broken
/// in favour of the first-encountered candidate.
pub open spec fn best_upto(
    q: Seq<i64>,
    cands: Seq<RecordView>,
    picked: Seq<int>,
    lambda: int,
    j: int,
) -> Option<int>
    decreases j,
{
    if j <= 0 {
        None
    } else {
        let prev = best_upto(q, cands, picked, lambda, j - 1);
        if !eligible(cands, picked, j - 1) {
            prev
        } else {
            match prev {
                None => Some(j - 1),
                Some(b) => if mmr_score(q, cands, picked, lambda, j - 1) > mmr_score(
                    q,
                    cands,
                    picked,
                    lambda,
                    b,
                ) {
                    Some(j - 1)
                } else {
                    Some(b)
                },
            }
        }
    }
}

/// `best_upto` returns an eligible candidate whose score is at least the
/// score of every eligible candidate, or `None` when none is eligible.
pub proof fn lemma_best_upto(
    q: Seq<i64>,
    cands: Seq<RecordView>,
    picked: Seq<int>,
    lambda: int,
    j: int,
)
    ensures
        match best_upto(q, cands, picked, lambda, j) {
            Some(b) => eligible(cands, picked, b) && b < j && forall|i: int|
                0 <= i < j && eligible(cands, picked, i) ==> mmr_score(q, cands, picked, lambda, i)
                    <= mmr_score(q, cands, picked, lambda, b),
            None => forall|i: int| 0 <= i < j ==> !eligible(cands, picked, i),
        },
    decreases j,
{
    if j > 0 {
        lemma_best_upto(q, cands, picked, lambda, j - 1);
    }
}

/// The indices picked by the greedy selection, starting from `picked` and
/// running for at most `rounds` further rounds.
pub open spec fn mmr_picks(
    q: Seq<i64>,
    cands: Seq<RecordView>,
    lambda: int,
    rounds: int,
    picked: Seq<int>,
) -> Seq<int>
    decreases rounds,
{
    if rounds <= 0 {
        picked
    } else {
        match best_upto(q, cands, picked, lambda, cands.len() as int) {
            None => picked,
            Some(i) => mmr_picks(q, cands, lambda, rounds - 1, picked.push(i)),
        }
    }
}

/// The indices that maximal-marginal-relevance selection picks from
/// `cands` for query `q`: at most `k` of them, greedily, by score.
pub open spec fn mmr_spec(q: Seq<i64>, cands: Seq<RecordView>, k: int, lambda: int) -> Seq<int> {
    let rounds = if k <= cands.len() {
        k
    } else {
        cands.len() as int
    };
    mmr_picks(q, cands, lambda, rounds, Seq::empty())
}

/// The number of candidates that carry an embedding.
pub open spec fn embedded_count(cands: Seq<RecordView>) -> int
    decreases cands.len(),
{
    if cands.len() == 0 {
        0
    } else {
        embedded_count(cands.drop_last()) + if cands.last().embedding is Some {
            1int
        } else {
            0int
        }
    }
}

/// The set of indices of candidates that carry an embedding.
pub open spec fn embedded_set(cands: Seq<RecordView>) -> Set<int> {
    Set::new(|i: int| 0 <= i < cands.len() && cands[i].embedding is Some)
}

/// The set of embedded candidates is finite, and its size is
/// `embedded_count`.
pub proof fn lemma_embedded_count_set(cands: Seq<RecordView>)
    ensures
        embedded_set(cands).finite(),
        embedded_set(cands).len() == embedded_count(cands),
    decreases cands.len(),
{
    if cands.len() == 0 {
        assert(embedded_set(cands) =~= Set::empty());
    } else {
        lemma_embedded_count_set(cands.drop_last());
        let n = cands.len() - 1;
        if cands.last().embedding is Some {
            assert(embedded_set(cands) =~= embedded_set(cands.drop_last()).insert(n));
            assert(!embedded_set(cands.drop_last()).contains(n));
        } else {
            assert(embedded_set(cands) =~= embedded_set(cands.drop_last()));
        }
    }
}

/// Every greedy pick is a fresh, in-range, embedded candidate; the run
/// extends `picked` and adds at most `rounds` entries.
pub proof fn lemma_mmr_picks_props(
    q: Seq<i64>,
    cands: Seq<RecordView>,
    lambda: int,
    rounds: int,
    picked: Seq<int>,
)
    requires
        forall|t: int|
            0 <= t < picked.len() ==> 0 <= #[trigger] picked[t] < cands.len()
                && cands[picked[t]].embedding is Some,
        picked.no_duplicates(),
    ensures
        ({
            let res = mmr_picks(q, cands, lambda, rounds, picked);
            res.len() >= picked.len() && res.len() <= picked.len() + (if rounds >= 0 {
                rounds
            } else {
                0
            }) && res.no_duplicates() && (forall|t: int|
                0 <= t < res.len() ==> 0 <= #[trigger] res[t] < cands.len()
                    && cands[res[t]].embedding is Some) && res.subrange(0, picked.len() as int)
                == picked
        }),
    decreases (if rounds >= 0 {
        rounds
    } else {
        0
    }),
{
    let res = mmr_picks(q, cands, lambda, rounds, picked);
    if rounds <= 0 {
        assert(res.subrange(0, picked.len() as int) =~= picked);
    } else {
        match best_upto(q, cands, picked, lambda, cands.len() as int) {
            None => {
                assert(res.subrange(0, picked.len() as int) =~= picked);
            },
            Some(i) => {
                lemma_best_upto(q, cands, picked, lambda, cands.len() as int);
                let next = picked.push(i);
                assert(forall|t: int|
                    0 <= t < next.len() ==> 0 <= #[trigger] next[t] < cands.len()
                        && cands[next[t]].embedding is Some);
                assert(next.no_duplicates()) by {
                    assert(forall|t: int| 0 <= t < picked.len() ==> picked[t] == next[t]);
                    assert(forall|t: int|
                        0 <= t < picked.len() ==> #[trigger] next[t] != i) by {
                        assert(forall|t: int|
                            0 <= t < picked.len() ==> picked.contains(#[trigger] picked[t]));
                    }
                }
                lemma_mmr_picks_props(q, cands, lambda, rounds - 1, next);
                assert(res.subrange(0, next.len() as int) == next);
                assert(res.subrange(0, picked.len() as int) =~= res.subrange(
                    0,
                    next.len() as int,
                ).subrange(0, picked.len() as int));
                assert(next.subrange(0, picked.len() as int) =~= picked);
            },
        }
    }
}

/// The greedy selection never returns more indices than there are embedded
/// candidates.
pub proof fn lemma_mmr_picks_len(q: Seq<i64>, cands: Seq<RecordView>, lambda: int, rounds: int)
    ensures
        mmr_picks(q, cands, lambda, rounds, Seq::empty()).len() <= embedded_count(cands),
{
    let res = mmr_picks(q, cands, lambda, rounds, Seq::<int>::empty());
    lemma_mmr_picks_props(q, cands, lambda, rounds, Seq::<int>::empty());
    lemma_embedded_count_set(cands);
    assert(res.to_set().subset_of(embedded_set(cands)));
    res.unique_seq_to_set();
    lemma_len_subset(res.to_set(), embedded_set(cands));
}

/// With the diversity term weighted at zero (`lambda == 1000`), the greedy
/// selection returns candidates in non-increasing order of relevance to the
/// query: pure descending relevance order.
pub proof fn lemma_mmr_picks_relevance(
    q: Seq<i64>,
    cands: Seq<RecordView>,
    rounds: int,
    picked: Seq<int>,
)
    requires
        forall|t: int|
            0 <= t < picked.len() ==> 0 <= #[trigger] picked[t] < cands.len()
                && cands[picked[t]].embedding is Some,
        picked.no_duplicates(),
        forall|s: int, t: int|
            0 <= s < t < picked.len() ==> rel_to(q, cands[#[trigger] picked[s]]) >= rel_to(
                q,
                cands[#[trigger] picked[t]],
            ),
        forall|i: int|
            eligible(cands, picked, i) ==> picked.len() == 0 || rel_to(q, cands[i]) <= rel_to(
                q,
                cands[picked.last()],
            ),
    ensures
        ({
            let res = mmr_picks(q, cands, 1000, rounds, picked);
            forall|s: int, t: int|
                0 <= s < t < res.len() ==> rel_to(q, cands[#[trigger] res[s]]) >= rel_to(
                    q,
                    cands[#[trigger] res[t]],
                )
        }),
    decreases (if rounds >= 0 {
        rounds
    } else {
        0
    }),
{
    let res = mmr_picks(q, cands, 1000, rounds, picked);
    if rounds <= 0 {
        assert(res == picked);
    } else {
        match best_upto(q, cands, picked, 1000, cands.len() as int) {
            None => {
                assert(res == picked);
            },
            Some(i) => {
                lemma_best_upto(q, cands, picked, 1000, cands.len() as int);
                let next = picked.push(i);
                assert(next.no_duplicates()) by {
                    assert(forall|t: int|
                        0 <= t < picked.len() ==> picked.contains(#[trigger] picked[t]));
                }
                assert forall|t: int| 0 <= t < next.len() implies 0 <= #[trigger] next[t]
                    < cands.len() && cands[next[t]].embedding is Some by {
                    if t < picked.len() {
                        assert(next[t] == picked[t]);
                    } else {
                        assert(next[t] == i);
                    }
                }
                assert forall|x: int| eligible(cands, next, x) implies rel_to(q, cands[x])
                    <= rel_to(q, cands[next.last()]) by {
                    if picked.contains(x) {
                        let idx = choose|idx: int|
                            0 <= idx < picked.len() && picked[idx] == x;
                        assert(next[idx] == x);
                        assert(next.contains(x));
                    }
                    assert(eligible(cands, picked, x));
                    assert(mmr_score(q, cands, picked, 1000, x) <= mmr_score(
                        q,
                        cands,
                        picked,
                        1000,
                        i,
                    ));
                    assert(next.last() == i);
                }
                assert forall|s: int, t: int| 0 <= s < t < next.len() implies rel_to(
                    q,
                    cands[#[trigger] next[s]],
                ) >= rel_to(q, cands[#[trigger] next[t]]) by {
                    if t == next.len() - 1 {
                        assert(next[t] == i);
                        if picked.len() > 0 {
                            assert(eligible(cands, picked, i));
                            assert(rel_to(q, cands[i]) <= rel_to(q, cands[picked.last()]));
                            assert(picked.last() == picked[picked.len() - 1]);
                            assert(next[s] == picked[s]);
                            if s < picked.len() - 1 {
                                assert(rel_to(q, cands[picked[s]]) >= rel_to(
                                    q,
                                    cands[picked[picked.len() - 1]],
                                ));
                            }
                        }
                    } else {
                        assert(next[s] == picked[s]);
                        assert(next[t] == picked[t]);
                    }
                }
                lemma_mmr_picks_relevance(q, cands, rounds - 1, next);
                let res2 = mmr_picks(q, cands, 1000, rounds - 1, next);
                assert(res == res2);
                assert forall|s: int, t: int| 0 <= s < t < res.len() implies rel_to(
                    q,
                    cands[#[trigger] res[s]],
                ) >= rel_to(q, cands[#[trigger] res[t]]) by {
                    assert(rel_to(q, cands[res2[s]]) >= rel_to(q, cands[res2[t]]));
                }
            },
        }
    }
}

/// With `lambda == 1000` the selection of `mmr_spec` is in pure descending
/// relevance order: the diversity term has zero weight.
pub proof fn lemma_mmr_pure_relevance_order(q: Seq<i64>, cands: Seq<RecordView>, k: int)
    ensures
        ({
            let picks = mmr_spec(q, cands, k, 1000);
            forall|s: int, t: int|
                0 <= s < t < picks.len() ==> rel_to(q, cands[#[trigger] picks[s]]) >= rel_to(
                    q,
                    cands[#[trigger] picks[t]],
                )
        }),
{
    let rounds = if k <= cands.len() {
        k
    } else {
        cands.len() as int
    };
    lemma_mmr_picks_relevance(q, cands, rounds, Seq::<int>::empty());
}

/// Decides whether `v` holds the value `x`.
fn contains_usize(v: &Vec<usize>, x: usize) -> (b: bool)
    ensures
        b == v@.map_values(|u: usize| u as int).contains(x as int),
{
    let n = v.len();
    let mut i: usize = 0;
    while i < n
        invariant
            n == v@.len(),
            i <= n,
            forall|j: int| 0 <= j < i ==> v@[j] != x,
        decreases n - i,
    {
        if v[i] == x {
            assert(v@.map_values(|u: usize| u as int)[i as int] == x as int);
            return true;
        }
        i = i + 1;
    }
    proof {
        let mapped = v@.map_values(|u: usize| u as int);
        if mapped.contains(x as int) {
            let j = choose|j: int| 0 <= j < mapped.len() && mapped[j] == x as int;
            assert(mapped[j] == v@[j] as int);
            assert(v@[j] != x);
        }
    }
    false
}

/// Maximal Marginal Relevance (MMR) re-ranking for diverse retrieval.
///
/// Balances relevance to the query against redundancy with already-selected
/// results. `lambda` is in thousandths: `1000` is pure relevance, `0` pure
/// diversity. Selection is greedy: the most relevant embedded candidate
/// first, then repeatedly the candidate with the best marginal score, ties
/// broken in favour of the first-encountered candidate. Candidates without
/// an embedding are never selected, and selection stops early when no
/// eligible candidate remains.
pub fn mmr_rerank(
    query_embedding: &Vec<i64>,
    candidates: Vec<MemoryRecord>,
    k: usize,
    lambda: i64,
) -> (r: Vec<MemoryRecord>)
    requires
        0 <= lambda <= 1000,
        valid_embedding(query_embedding@),
        forall|i: int|
            0 <= i < candidates@.len() && (#[trigger] candidates@[i])@.embedding is Some
                ==> valid_embedding(candidates@[i]@.embedding->Some_0),
    ensures
        ({
            let picks = mmr_spec(
                query_embedding@,
                records_view(candidates@),
                k as int,
                lambda as int,
            );
            r@.len() == picks.len() && forall|t: int|
                0 <= t < picks.len() ==> (#[trigger] r@[t])@ == records_view(
                    candidates@,
                )[picks[t]]
        }),
        r@.len() <= k,
        r@.len() <= embedded_count(records_view(candidates@)),
        forall|t: int| 0 <= t < r@.len() ==> (#[trigger] r@[t])@.embedding is Some,
{
    let ghost cviews = records_view(candidates@);
    let n = candidates.len();
    let kk = if k <= n {
        k
    } else {
        n
    };
    let mut picked_idx: Vec<usize> = Vec::new();
    let mut done = false;
    let ghost total = mmr_spec(query_embedding@, cviews, k as int, lambda as int);
    proof {
        assert(picked_idx@.map_values(|u: usize| u as int) =~= Seq::<int>::empty());
    }
    while !done && picked_idx.len() < kk
        invariant
            done ==> mmr_picks(
                query_embedding@,
                cviews,
                lambda as int,
                kk - picked_idx@.len(),
                picked_idx@.map_values(|u: usize| u as int),
            ) == picked_idx@.map_values(|u: usize| u as int),
            n == candidates@.len(),
            cviews == records_view(candidates@),
            kk <= k,
            kk <= n,
            0 <= lambda <= 1000,
            valid_embedding(query_embedding@),
            forall|i: int|
                0 <= i < candidates@.len() && (#[trigger] candidates@[i])@.embedding is Some
                    ==> valid_embedding(candidates@[i]@.embedding->Some_0),
            picked_idx@.len() <= kk,
            total == mmr_spec(query_embedding@, cviews, k as int, lambda as int),
            mmr_picks(
                query_embedding@,
                cviews,
                lambda as int,
                kk - picked_idx@.len(),
                picked_idx@.map_values(|u: usize| u as int),
            ) == total,
            forall|t: int|
                0 <= t < picked_idx@.len() ==> #[trigger] picked_idx@[t] < n
                    && cviews[picked_idx@[t] as int].embedding is Some,
        decreases (if done {
            0int
        } else {
            1int
        }), kk - picked_idx@.len(),
    {
        let ghost gpicked = picked_idx@.map_values(|u: usize| u as int);
        let mut cur: Option<(usize, i64)> = None;
        let mut j: usize = 0;
        while j < n
            invariant
                n == candidates@.len(),
                cviews == records_view(candidates@),
                0 <= lambda <= 1000,
                valid_embedding(query_embedding@),
                forall|i: int|
                    0 <= i < candidates@.len() && (#[trigger] candidates@[i])@.embedding is Some
                        ==> valid_embedding(candidates@[i]@.embedding->Some_0),
                j <= n,
                gpicked == picked_idx@.map_values(|u: usize| u as int),
                forall|t: int|
                    0 <= t < picked_idx@.len() ==> #[trigger] picked_idx@[t] < n
                        && cviews[picked_idx@[t] as int].embedding is Some,
                match cur {
                    None => best_upto(query_embedding@, cviews, gpicked, lambda as int, j as int)
                        is None,
                    Some((bj, bs)) => bj < n && best_upto(
                        query_embedding@,
                        cviews,
                        gpicked,
                        lambda as int,
                        j as int,
                    ) == Some(bj as int) && bs as int == mmr_score(
                        query_embedding@,
                        cviews,
                        gpicked,
                        lambda as int,
                        bj as int,
                    ) && -2_000_000 <= bs <= 2_000_000,
                },
            decreases n - j,
        {
            let mut score: i64 = 0;
            let mut is_eligible = false;
            match &candidates[j].embedding {
                Some(emb) => {
                    if !contains_usize(&picked_idx, j) {
                        is_eligible = true;
                        let rel = cosine_similarity(query_embedding, emb);
                        if picked_idx.len() == 0 {
                            score = rel;
                            assert(gpicked.len() == 0);
                        } else {
                            let m = picked_idx.len();
                            let first_pick = picked_idx[0];
                            let mut ms: i64 = match &candidates[first_pick].embedding {
                                Some(e0) => cosine_similarity(emb, e0),
                                None => 0,  // unreachable: picked candidates are embedded
                            };
                            proof {
                                assert(gpicked.take(1).last() == gpicked[0]);
                                assert(gpicked.take(1).len() == 1);
                            }
                            let mut t: usize = 1;
                            while t < m
                                invariant
                                    n == candidates@.len(),
                                    cviews == records_view(candidates@),
                                    valid_embedding(query_embedding@),
                                    forall|i: int|
                                        0 <= i < candidates@.len() && (#[trigger] candidates@[i])@.embedding is Some
                                            ==> valid_embedding(
                                            candidates@[i]@.embedding->Some_0,
                                        ),
                                    m == picked_idx@.len(),
                                    1 <= t <= m,
                                    j < n,
                                    candidates@[j as int]@.embedding is Some,
                                    emb@ == candidates@[j as int]@.embedding->Some_0,
                                    gpicked == picked_idx@.map_values(|u: usize| u as int),
                                    forall|tt: int|
                                        0 <= tt < picked_idx@.len() ==> #[trigger] picked_idx@[tt]
                                            < n && cviews[picked_idx@[tt] as int].embedding
                                            is Some,
                                    ms as int == max_sim_sel(cviews, gpicked.take(t as int), emb@),
                                    -1000 <= ms <= 1000,
                                decreases m - t,
                            {
                                let pick_t = picked_idx[t];
                                let sim = match &candidates[pick_t].embedding {
                                    Some(et) => cosine_similarity(emb, et),
                                    None => 0,  // unreachable: picked candidates are embedded
                                };
                                proof {
                                    assert(gpicked.take(t + 1 as int).drop_last() =~= gpicked.take(
                                        t as int,
                                    ));
                                    assert(gpicked.take(t + 1 as int).last() == gpicked[t as int]);
                                }
                                if sim > ms {
                                    ms = sim;
                                }
                                t = t + 1;
                            }
                            proof {
                                assert(gpicked.take(m as int) =~= gpicked);
                            }
                            let diversity = 1000 - lambda;
                            proof {
                                assert(-1_000_000 <= lambda as int * (rel as int) <= 1_000_000)
                                    by (nonlinear_arith)
                                    requires
                                        0 <= lambda as int <= 1000,
                                        -1000 <= rel as int <= 1000,
                                ;
                                assert(-1_000_000 <= (diversity as int) * (ms as int) <= 1_000_000)
                                    by (nonlinear_arith)
                                    requires
                                        0 <= diversity as int <= 1000,
                                        -1000 <= ms as int <= 1000,
                                ;
                            }
                            score = lambda * rel - diversity * ms;
                        }
                    }
                },
                None => {},
            }
            proof {
                let jj = j as int;
                if is_eligible {
                    assert(eligible(cviews, gpicked, jj));
                    assert(score as int == mmr_score(
                        query_embedding@,
                        cviews,
                        gpicked,
                        lambda as int,
                        jj,
                    ));
                } else {
                    assert(!eligible(cviews, gpicked, jj));
                }
            }
            if is_eligible {
                match cur {
                    None => {
                        cur = Some((j, score));
                    },
                    Some((bj, bs)) => {
                        if score > bs {
                            cur = Some((j, score));
                        }
                    },
                }
            }
            j = j + 1;
        }
        match cur {
            None => {
                proof {
                    assert(mmr_picks(
                        query_embedding@,
                        cviews,
                        lambda as int,
                        kk - picked_idx@.len(),
                        gpicked,
                    ) == gpicked);
                }
                done = true;
            },
            Some((bj, _bs)) => {
                proof {
                    lemma_best_upto(query_embedding@, cviews, gpicked, lambda as int, n as int);
                    assert(gpicked.push(bj as int) =~= picked_idx@.push(bj).map_values(
                        |u: usize| u as int,
                    ));
                }
                picked_idx.push(bj);
            },
        }
    }
    proof {
        if !done {
            assert(picked_idx@.len() == kk);
            assert(mmr_picks(
                query_embedding@,
                cviews,
                lambda as int,
                0,
                picked_idx@.map_values(|u: usize| u as int),
            ) == picked_idx@.map_values(|u: usize| u as int));
        }
    }
    let ghost picks = picked_idx@.map_values(|u: usize| u as int);
    proof {
        assert(picks == total);
        lemma_mmr_picks_props(
            query_embedding@,
            cviews,
            lambda as int,
            if k as int <= cviews.len() {
                k as int
            } else {
                cviews.len() as int
            },
            Seq::<int>::empty(),
        );
        lemma_mmr_picks_len(
            query_embedding@,
            cviews,
            lambda as int,
            if k as int <= cviews.len() {
                k as int
            } else {
                cviews.len() as int
            },
        );
    }
    let mut out: Vec<MemoryRecord> = Vec::new();
    let mut t: usize = 0;
    let m = picked_idx.len();
    while t < m
        invariant
            m == picked_idx@.len(),
            t <= m,
            n == candidates@.len(),
            cviews == records_view(candidates@),
            picks == picked_idx@.map_values(|u: usize| u as int),
            forall|tt: int| 0 <= tt < m ==> #[trigger] picked_idx@[tt] < n,
            out@.len() == t,
            forall|tt: int| 0 <= tt < t ==> (#[trigger] out@[tt])@ == cviews[picks[tt]],
        decreases m - t,
    {
        let idx = picked_idx[t];
        out.push(clone_record(&candidates[idx]));
        t = t + 1;
    }
    out
}

} // verus!
