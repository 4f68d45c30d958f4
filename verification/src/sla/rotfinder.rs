//! Scoring helpers of the SLA rotation optimizer.
use vstd::prelude::*;

verus! {

/// The sum of the first `n` of the values.
pub open spec fn sum_first(vals: Seq<i64>, n: int) -> int
    decreases n,
{
    if n <= 0 {
        0
    } else {
        sum_first(vals, n - 1) + vals[n - 1]
    }
}

proof fn lemma_sum_first_prefix(s: Seq<i64>, t: Seq<i64>, n: int)
    requires
        0 <= n <= s.len(),
        n <= t.len(),
        forall|k: int| 0 <= k < n ==> s[k] == t[k],
    ensures
        sum_first(s, n) == sum_first(t, n),
    decreases n,
{
    if n > 0 {
        lemma_sum_first_prefix(s, t, n - 1);
    }
}

/// `vals` are scores that `accessfn` may give for the first faces, one per
/// face in order.
pub open spec fn scores_of<F: Fn(usize) -> i64>(accessfn: F, vals: Seq<i64>) -> bool {
    forall|k: int| 0 <= k < vals.len() ==> accessfn.ensures((k as usize,), #[trigger] vals[k])
}

/// The sum of the per-face scores `accessfn(0) .. accessfn(facecount - 1)`;
/// the work may be split over `nthreads` workers, which does not change the
/// sum. Every running sum of scores the faces may get must fit in an `i64`.
pub fn sum_score<F: Fn(usize) -> i64>(accessfn: F, facecount: usize, nthreads: usize) -> (r: i64)
    requires
        nthreads > 0,
        forall|i: usize| i < facecount ==> accessfn.requires((i,)),
        forall|vals: Seq<i64>| #[trigger] scores_of(accessfn, vals) && vals.len() <= facecount ==> i64::MIN
            <= sum_first(vals, vals.len() as int) <= i64::MAX,
    ensures
        exists|vals: Seq<i64>|
            {
                &&& vals.len() == facecount
                &&& forall|i: int| 0 <= i < facecount ==> accessfn.ensures((i as usize,), #[trigger] vals[i])
                &&& r == sum_first(vals, facecount as int)
            },
{
    let _grainsize = facecount / nthreads;
    let mut acc: i64 = 0;
    let ghost mut vals: Seq<i64> = Seq::empty();
    let mut i: usize = 0;
    while i < facecount
        invariant
            i <= facecount,
            vals.len() == i,
            forall|k: usize| k < facecount ==> accessfn.requires((k,)),
            forall|vs: Seq<i64>| #[trigger] scores_of(accessfn, vs) && vs.len() <= facecount ==> i64::MIN
                <= sum_first(vs, vs.len() as int) <= i64::MAX,
            forall|k: int| 0 <= k < i ==> accessfn.ensures((k as usize,), #[trigger] vals[k]),
            acc == sum_first(vals, i as int),
        decreases facecount - i,
    {
        let v = accessfn(i);
        proof {
            assert(vals.push(v).drop_last() =~= vals);
            lemma_sum_first_prefix(vals.push(v), vals, i as int);
            vals = vals.push(v);
            assert(scores_of(accessfn, vals));
        }
        acc = acc + v;
        i += 1;
    }
    acc
}

} // verus!
