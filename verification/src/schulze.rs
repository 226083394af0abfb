//! The Schulze ranking engine: pairwise defeat counts, beatpath-strength
//! closure, and the final order with deterministic tie-breaking.
//!
//! Candidates are handled as indices into the name-sorted candidate list, so
//! index order coincides with name order and every tie-break is by index.

use vstd::prelude::*;
use crate::sortutil::{isort_by, lemma_insert_ord_split};

verus! {

/// The rows of an executable matrix.
pub open spec fn rows_of(p: Seq<Vec<u64>>) -> Seq<Seq<u64>> {
    p.map_values(|r: Vec<u64>| r@)
}

/// A well-formed `n` by `n` matrix.
pub open spec fn mat_wf(m: Seq<Seq<u64>>, n: int) -> bool {
    &&& m.len() == n
    &&& forall|i: int| 0 <= i < n ==> (#[trigger] m[i]).len() == n
}

/// The smaller of two strengths.
pub open spec fn min64(a: u64, b: u64) -> u64 {
    if a <= b {
        a
    } else {
        b
    }
}

/// The larger of two strengths.
pub open spec fn max64(a: u64, b: u64) -> u64 {
    if a >= b {
        a
    } else {
        b
    }
}

/// The position of a candidate on a ballot (the ballot's length when the
/// candidate does not occur).
pub open spec fn pos_in(b: Seq<usize>, c: usize) -> int
    decreases b.len(),
{
    if b.len() == 0 {
        0
    } else if b[0] == c {
        0
    } else {
        1 + pos_in(b.drop_first(), c)
    }
}

/// Whether a ballot places `i` strictly ahead of `j`.
pub open spec fn prefers(b: Seq<usize>, i: usize, j: usize) -> bool {
    pos_in(b, i) < pos_in(b, j)
}

/// Over how many ballots `i` is strictly ahead of `j`.
pub open spec fn count_pref(ballots: Seq<Seq<usize>>, i: usize, j: usize) -> int
    decreases ballots.len(),
{
    if ballots.len() == 0 {
        0
    } else {
        (if prefers(ballots[0], i, j) {
            1int
        } else {
            0int
        }) + count_pref(ballots.drop_first(), i, j)
    }
}

/// The defeat matrix: `d[i][j]` counts the ballots where `i` precedes `j`;
/// the diagonal is zero and unused.
pub open spec fn spec_defeats(ballots: Seq<Seq<usize>>, n: int) -> Seq<Seq<u64>> {
    Seq::new(
        n as nat,
        |i: int|
            Seq::new(
                n as nat,
                |j: int|
                    if i == j {
                        0u64
                    } else {
                        count_pref(ballots, i as usize, j as usize) as u64
                    },
            ),
    )
}

/// The initial strength matrix: the defeat count where it wins the pairwise
/// comparison, zero elsewhere.
pub open spec fn spec_strength_init(d: Seq<Seq<u64>>, n: int) -> Seq<Seq<u64>> {
    Seq::new(
        n as nat,
        |i: int|
            Seq::new(
                n as nat,
                |j: int|
                    if i != j && d[i][j] > d[j][i] {
                        d[i][j]
                    } else {
                        0u64
                    },
            ),
    )
}

/// In the initial strength matrix the diagonal is zero and of every pair of
/// opposite cells at most one is positive.
pub proof fn lemma_strength_init_onesided(d: Seq<Seq<u64>>, n: int)
    ensures
        forall|i: int| 0 <= i < n ==> spec_strength_init(d, n)[i][i] == 0,
        forall|i: int, j: int|
            0 <= i < n && 0 <= j < n && i != j ==> !(#[trigger] spec_strength_init(d, n)[i][j] > 0
                && #[trigger] spec_strength_init(d, n)[j][i] > 0),
{
}

/// One cell after widening through intermediate `i`.
pub open spec fn relax_cell(q: Seq<Seq<u64>>, i: int, j: int, k: int) -> u64 {
    if j != i && k != i && j != k {
        max64(q[j][k], min64(q[j][i], q[i][k]))
    } else {
        q[j][k]
    }
}

/// The whole matrix after widening through intermediate `i`.
pub open spec fn relax(q: Seq<Seq<u64>>, i: int, n: int) -> Seq<Seq<u64>> {
    Seq::new(n as nat, |j: int| Seq::new(n as nat, |k: int| relax_cell(q, i, j, k)))
}

/// The strength matrix after widening through the first `i` intermediates.
pub open spec fn closure_upto(p0: Seq<Seq<u64>>, i: int, n: int) -> Seq<Seq<u64>>
    decreases i,
{
    if i <= 0 {
        p0
    } else {
        relax(closure_upto(p0, i - 1, n), i - 1, n)
    }
}

/// The beatpath-strength closure: one pass of widening with every candidate
/// as the intermediate, outermost.
pub open spec fn spec_closure(p0: Seq<Seq<u64>>, n: int) -> Seq<Seq<u64>> {
    closure_upto(p0, n, n)
}

proof fn lemma_relax_frame(q: Seq<Seq<u64>>, i: int, n: int)
    requires
        mat_wf(q, n),
        0 <= i < n,
    ensures
        mat_wf(relax(q, i, n), n),
        forall|k: int| 0 <= k < n ==> #[trigger] relax(q, i, n)[i][k] == q[i][k],
        forall|j: int| 0 <= j < n ==> #[trigger] relax(q, i, n)[j][i] == q[j][i],
        forall|j: int, k: int|
            0 <= j < n && 0 <= k < n ==> #[trigger] relax(q, i, n)[j][k] >= q[j][k],
        forall|j: int| 0 <= j < n ==> #[trigger] relax(q, i, n)[j][j] == q[j][j],
{
}

/// The triangle property through one intermediate.
pub open spec fn triangle_for(q: Seq<Seq<u64>>, m: int, n: int) -> bool {
    forall|j: int, k: int|
        0 <= j < n && 0 <= k < n && j != k && j != m && k != m ==> #[trigger] q[j][k] >= min64(
            q[j][m],
            q[m][k],
        )
}

proof fn lemma_relax_keeps_triangle(q: Seq<Seq<u64>>, i: int, m: int, n: int)
    requires
        mat_wf(q, n),
        0 <= i < n,
        0 <= m < n,
        m != i,
        triangle_for(q, m, n),
    ensures
        triangle_for(relax(q, i, n), m, n),
{
    let r = relax(q, i, n);
    lemma_relax_frame(q, i, n);
    assert forall|j: int, k: int|
        0 <= j < n && 0 <= k < n && j != k && j != m && k != m implies #[trigger] r[j][k] >= min64(
        r[j][m],
        r[m][k],
    ) by {
        if j == i {
            // row i is unchanged, and so is column i
            assert(r[i][k] == q[i][k]);
            assert(r[i][m] == q[i][m]);
            assert(r[m][k] >= q[m][k] || r[m][k] == max64(q[m][k], min64(q[m][i], q[i][k])));
            if r[m][k] == q[m][k] {
                assert(q[i][k] >= min64(q[i][m], q[m][k]));
            } else {
                // r[m][k] widened through i: q[i][k] >= min(q[i][m], q[m][i->k])
                assert(r[m][k] == max64(q[m][k], min64(q[m][i], q[i][k])));
                assert(q[i][k] >= min64(q[i][m], q[m][k]));
            }
        } else if k == i {
            assert(r[j][i] == q[j][i]);
            assert(r[m][i] == q[m][i]);
            if r[j][m] == q[j][m] {
                assert(q[j][i] >= min64(q[j][m], q[m][i]));
            } else {
                assert(r[j][m] == max64(q[j][m], min64(q[j][i], q[i][m])));
                assert(q[j][i] >= min64(q[j][m], q[m][i]));
            }
        } else {
            // all of j, k, m differ from i
            assert(r[j][k] == max64(q[j][k], min64(q[j][i], q[i][k])));
            assert(r[j][m] == max64(q[j][m], min64(q[j][i], q[i][m])));
            assert(r[m][k] == max64(q[m][k], min64(q[m][i], q[i][k])));
            // the four combinations of which arms realise the right side
            assert(q[j][k] >= min64(q[j][m], q[m][k]));
            assert(q[i][k] >= min64(q[i][m], q[m][k]));
            assert(q[j][i] >= min64(q[j][m], q[m][i]));
        }
    }
}

proof fn lemma_relax_adds_triangle(q: Seq<Seq<u64>>, i: int, n: int)
    requires
        mat_wf(q, n),
        0 <= i < n,
    ensures
        triangle_for(relax(q, i, n), i, n),
{
    let r = relax(q, i, n);
    lemma_relax_frame(q, i, n);
    assert forall|j: int, k: int|
        0 <= j < n && 0 <= k < n && j != k && j != i && k != i implies #[trigger] r[j][k] >= min64(
        r[j][i],
        r[i][k],
    ) by {
        assert(r[j][k] == max64(q[j][k], min64(q[j][i], q[i][k])));
        assert(r[j][i] == q[j][i]);
        assert(r[i][k] == q[i][k]);
    }
}

proof fn lemma_closure_upto_triangle(p0: Seq<Seq<u64>>, i: int, n: int)
    requires
        mat_wf(p0, n),
        0 <= i <= n,
    ensures
        mat_wf(closure_upto(p0, i, n), n),
        forall|m: int| 0 <= m < i ==> triangle_for(closure_upto(p0, i, n), m, n),
        forall|j: int| 0 <= j < n ==> #[trigger] closure_upto(p0, i, n)[j][j] == p0[j][j],
    decreases i,
{
    if i > 0 {
        lemma_closure_upto_triangle(p0, i - 1, n);
        let q = closure_upto(p0, i - 1, n);
        lemma_relax_frame(q, i - 1, n);
        lemma_relax_adds_triangle(q, i - 1, n);
        assert forall|m: int| 0 <= m < i implies triangle_for(closure_upto(p0, i, n), m, n) by {
            if m < i - 1 {
                lemma_relax_keeps_triangle(q, i - 1, m, n);
            }
        }
    }
}

/// After the closure, every strength dominates the beatpath through any
/// single intermediate: `p[j][k] >= min(p[j][m], p[m][k])` for distinct
/// `j`, `k`, `m` — and the diagonal keeps its initial (zero) values.
pub proof fn lemma_closure_triangle(p0: Seq<Seq<u64>>, n: int)
    requires
        mat_wf(p0, n),
    ensures
        mat_wf(spec_closure(p0, n), n),
        forall|m: int| 0 <= m < n ==> triangle_for(spec_closure(p0, n), m, n),
        forall|j: int| 0 <= j < n ==> #[trigger] spec_closure(p0, n)[j][j] == p0[j][j],
{
    lemma_closure_upto_triangle(p0, n, n);
}

/// Finds the position of a candidate on a ballot.
fn pos_in_exec(b: &Vec<usize>, c: usize) -> (r: usize)
    ensures
        r as int == pos_in(b@, c),
{
    let mut i: usize = 0;
    proof {
        assert(b@.skip(0) =~= b@);
    }
    while i < b.len()
        invariant
            i <= b@.len(),
            pos_in(b@, c) == i + pos_in(b@.skip(i as int), c),
        decreases b@.len() - i,
    {
        proof {
            assert(b@.skip(i as int)[0] == b@[i as int]);
            assert(b@.skip(i as int).drop_first() =~= b@.skip(i + 1));
        }
        if b[i] == c {
            return i;
        }
        i = i + 1;
    }
    proof {
        assert(b@.skip(i as int) =~= Seq::<usize>::empty());
    }
    i
}

/// Builds the defeat matrix from the ballots.
pub fn build_defeats(ballots: &Vec<Vec<usize>>, n: usize) -> (d: Vec<Vec<u64>>)
    ensures
        rows_of(d@) == spec_defeats(ballots.deep_view(), n as int),
{
    let ghost bm = ballots.deep_view();
    let ghost goal = spec_defeats(bm, n as int);
    let mut d: Vec<Vec<u64>> = Vec::new();
    let mut i: usize = 0;
    while i < n
        invariant
            i <= n,
            bm == ballots.deep_view(),
            bm.len() == ballots@.len(),
            forall|t: int| 0 <= t < bm.len() ==> #[trigger] bm[t] == ballots@[t]@,
            goal == spec_defeats(bm, n as int),
            d@.len() == i,
            forall|a: int| 0 <= a < i ==> #[trigger] d@[a]@ == goal[a],
        decreases n - i,
    {
        let mut row: Vec<u64> = Vec::new();
        let mut j: usize = 0;
        while j < n
            invariant
                j <= n,
                i < n,
                bm == ballots.deep_view(),
                bm.len() == ballots@.len(),
                forall|t: int| 0 <= t < bm.len() ==> #[trigger] bm[t] == ballots@[t]@,
                goal == spec_defeats(bm, n as int),
                row@.len() == j,
                forall|b: int| 0 <= b < j ==> #[trigger] row@[b] == goal[i as int][b],
            decreases n - j,
        {
            if i == j {
                row.push(0);
            } else {
                let mut cnt: u64 = 0;
                let mut t: usize = 0;
                proof {
                    assert(bm.skip(0) =~= bm);
                }
                while t < ballots.len()
                    invariant
                        t <= ballots@.len(),
                        bm == ballots.deep_view(),
                        bm.len() == ballots@.len(),
                        forall|u: int| 0 <= u < bm.len() ==> #[trigger] bm[u] == ballots@[u]@,
                        cnt as int <= t as int,
                        count_pref(bm, i, j) == cnt + count_pref(bm.skip(t as int), i, j),
                    decreases ballots@.len() - t,
                {
                    proof {
                        assert(bm.skip(t as int)[0] == bm[t as int]);
                        assert(bm.skip(t as int).drop_first() =~= bm.skip(t + 1));
                    }
                    let pi = pos_in_exec(&ballots[t], i);
                    let pj = pos_in_exec(&ballots[t], j);
                    if pi < pj {
                        cnt = cnt + 1;
                    }
                    t = t + 1;
                }
                proof {
                    assert(bm.skip(t as int) =~= Seq::<Seq<usize>>::empty());
                    assert(cnt as int == count_pref(bm, i, j));
                }
                row.push(cnt);
            }
            j = j + 1;
        }
        proof {
            assert(row@ =~= goal[i as int]);
        }
        d.push(row);
        i = i + 1;
    }
    proof {
        assert(rows_of(d@) =~= goal);
    }
    d
}

/// Builds the initial strength matrix from the defeat matrix.
pub fn strength_init(d: &Vec<Vec<u64>>, n: usize) -> (p: Vec<Vec<u64>>)
    requires
        d@.len() == n,
        forall|a: int| 0 <= a < n ==> (#[trigger] d@[a])@.len() == n,
    ensures
        rows_of(p@) == spec_strength_init(rows_of(d@), n as int),
{
    let ghost dm = rows_of(d@);
    let ghost goal = spec_strength_init(dm, n as int);
    let mut p: Vec<Vec<u64>> = Vec::new();
    let mut i: usize = 0;
    while i < n
        invariant
            i <= n,
            dm == rows_of(d@),
            d@.len() == n,
            forall|a: int| 0 <= a < n ==> (#[trigger] d@[a])@.len() == n,
            goal == spec_strength_init(dm, n as int),
            p@.len() == i,
            forall|a: int| 0 <= a < i ==> #[trigger] p@[a]@ == goal[a],
        decreases n - i,
    {
        let mut row: Vec<u64> = Vec::new();
        let mut j: usize = 0;
        while j < n
            invariant
                j <= n,
                i < n,
                dm == rows_of(d@),
                d@.len() == n,
                forall|a: int| 0 <= a < n ==> (#[trigger] d@[a])@.len() == n,
                goal == spec_strength_init(dm, n as int),
                row@.len() == j,
                forall|b: int| 0 <= b < j ==> #[trigger] row@[b] == goal[i as int][b],
            decreases n - j,
        {
            if i != j && d[i][j] > d[j][i] {
                row.push(d[i][j]);
            } else {
                row.push(0);
            }
            j = j + 1;
        }
        proof {
            assert(row@ =~= goal[i as int]);
        }
        p.push(row);
        i = i + 1;
    }
    proof {
        assert(rows_of(p@) =~= goal);
    }
    p
}

/// Applies the beatpath widening in place, each candidate once as the
/// intermediate, outermost, matching the fixed update order.
pub fn widen_strengths(p: &mut Vec<Vec<u64>>, n: usize)
    requires
        old(p)@.len() == n,
        forall|a: int| 0 <= a < n ==> (#[trigger] old(p)@[a])@.len() == n,
    ensures
        rows_of(final(p)@) == spec_closure(rows_of(old(p)@), n as int),
{
    let ghost p0 = rows_of(old(p)@);
    let mut i: usize = 0;
    proof {
        assert(mat_wf(p0, n as int));
    }
    while i < n
        invariant
            i <= n,
            p@.len() == n,
            forall|a: int| 0 <= a < n ==> (#[trigger] p@[a])@.len() == n,
            mat_wf(p0, n as int),
            rows_of(p@) == closure_upto(p0, i as int, n as int),
        decreases n - i,
    {
        let ghost q = rows_of(p@);
        proof {
            lemma_closure_monotone(p0, i as int, n as int);
            lemma_relax_frame(q, i as int, n as int);
        }
        let mut j: usize = 0;
        while j < n
            invariant
                j <= n,
                i < n,
                p@.len() == n,
                forall|a: int| 0 <= a < n ==> (#[trigger] p@[a])@.len() == n,
                mat_wf(q, n as int),
                forall|a: int|
                    0 <= a < n && (a >= j || a == i) ==> #[trigger] p@[a]@ == q[a],
                forall|a: int|
                    0 <= a < j && a != i ==> #[trigger] p@[a]@ == relax(q, i as int, n as int)[a],
            decreases n - j,
        {
            if j != i {
                let mut row: Vec<u64> = Vec::new();
                let mut k: usize = 0;
                while k < n
                    invariant
                        k <= n,
                        j < n,
                        i < n,
                        j != i,
                        p@.len() == n,
                        forall|a: int| 0 <= a < n ==> (#[trigger] p@[a])@.len() == n,
                        mat_wf(q, n as int),
                        p@[j as int]@ == q[j as int],
                        p@[i as int]@ == q[i as int],
                        row@.len() == k,
                        forall|b: int|
                            0 <= b < k ==> #[trigger] row@[b] == relax_cell(
                                q,
                                i as int,
                                j as int,
                                b,
                            ),
                    decreases n - k,
                {
                    let current = p[j][k];
                    if k == i || k == j {
                        row.push(current);
                    } else {
                        let through = if p[j][i] <= p[i][k] {
                            p[j][i]
                        } else {
                            p[i][k]
                        };
                        if through > current {
                            row.push(through);
                        } else {
                            row.push(current);
                        }
                    }
                    k = k + 1;
                }
                proof {
                    assert(row@ =~= relax(q, i as int, n as int)[j as int]);
                }
                let ghost before = p@;
                p.set(j, row);
                proof {
                    assert forall|a: int| 0 <= a < n && (a >= j + 1 || a == i) implies #[trigger]
                        p@[a]@ == q[a] by {
                        assert(p@[a] == before[a]);
                    }
                }
            } else {
                proof {
                    lemma_relax_frame(q, i as int, n as int);
                }
            }
            j = j + 1;
        }
        proof {
            lemma_relax_frame(q, i as int, n as int);
            assert forall|a: int| 0 <= a < n implies #[trigger] rows_of(p@)[a] == relax(
                q,
                i as int,
                n as int,
            )[a] by {
                if a == i {
                    assert(p@[a]@ == q[a]);
                    assert(relax(q, i as int, n as int)[a] =~= q[a]);
                } else {
                    assert(p@[a]@ == relax(q, i as int, n as int)[a]);
                }
            }
            assert(rows_of(p@) =~= relax(q, i as int, n as int));
        }
        i = i + 1;
    }
}

/// How many other candidates index `i` strictly beats, looking at the first
/// `j` opponents.
pub open spec fn wins_upto(p: Seq<Seq<u64>>, i: int, j: int) -> int
    decreases j,
{
    if j <= 0 {
        0
    } else {
        wins_upto(p, i, j - 1) + (if j - 1 != i && p[i][j - 1] > p[j - 1][i] {
            1int
        } else {
            0int
        })
    }
}

/// Counts how many other candidates index `i` strictly beats.
pub fn count_wins(p: &Vec<Vec<u64>>, n: usize, i: usize) -> (r: usize)
    requires
        p@.len() == n,
        forall|a: int| 0 <= a < n ==> (#[trigger] p@[a])@.len() == n,
        i < n,
    ensures
        r as int == wins_upto(rows_of(p@), i as int, n as int),
{
    let mut r: usize = 0;
    let mut j: usize = 0;
    while j < n
        invariant
            j <= n,
            i < n,
            p@.len() == n,
            forall|a: int| 0 <= a < n ==> (#[trigger] p@[a])@.len() == n,
            r as int == wins_upto(rows_of(p@), i as int, j as int),
            r <= j,
        decreases n - j,
    {
        if j != i && p[i][j] > p[j][i] {
            r = r + 1;
        }
        j = j + 1;
    }
    r
}

/// The strict Schulze order between two candidate indices: stronger
/// beatpath first, then higher combined score, then lower index (which is
/// name order, the candidate list being sorted).
pub open spec fn schulze_prec(p: Seq<Seq<u64>>, scores: Seq<i64>, a: usize, b: usize) -> bool {
    if p[a as int][b as int] != p[b as int][a as int] {
        p[a as int][b as int] > p[b as int][a as int]
    } else if scores[a as int] != scores[b as int] {
        scores[a as int] > scores[b as int]
    } else {
        a < b
    }
}

/// The non-strict Schulze order used for sorting.
pub open spec fn schulze_le_fn(p: Seq<Seq<u64>>, scores: Seq<i64>) -> spec_fn(usize, usize) -> bool {
    |a: usize, b: usize| !schulze_prec(p, scores, b, a)
}

/// Decides the strict Schulze order.
fn schulze_prec_exec(p: &Vec<Vec<u64>>, scores: &Vec<i64>, a: usize, b: usize) -> (r: bool)
    requires
        a < p@.len(),
        b < p@.len(),
        forall|t: int| 0 <= t < p@.len() ==> (#[trigger] p@[t])@.len() == p@.len(),
        a < scores@.len(),
        b < scores@.len(),
    ensures
        r == schulze_prec(rows_of(p@), scores@, a, b),
{
    if p[a][b] != p[b][a] {
        p[a][b] > p[b][a]
    } else if scores[a] != scores[b] {
        scores[a] > scores[b]
    } else {
        a < b
    }
}

/// Sorts candidate indices into the final Schulze order.
pub fn rank_candidates(p: &Vec<Vec<u64>>, scores: &Vec<i64>, v: Vec<usize>) -> (r: Vec<usize>)
    requires
        forall|t: int| 0 <= t < p@.len() ==> (#[trigger] p@[t])@.len() == p@.len(),
        forall|t: int| 0 <= t < v@.len() ==> (#[trigger] v@[t]) < p@.len(),
        scores@.len() == p@.len(),
    ensures
        r@ == isort_by(schulze_le_fn(rows_of(p@), scores@), v@),
{
    let ghost orig = v@;
    let ghost leq = schulze_le_fn(rows_of(p@), scores@);
    let mut rest = v;
    let mut out: Vec<usize> = Vec::new();
    let ghost mut done: int = 0;
    proof {
        assert(orig.take(0) =~= Seq::<usize>::empty());
        assert(rest@ =~= orig.skip(0));
    }
    while rest.len() > 0
        invariant
            0 <= done <= orig.len(),
            rest@ == orig.skip(done),
            out@ == isort_by(leq, orig.take(done)),
            leq == schulze_le_fn(rows_of(p@), scores@),
            forall|t: int| 0 <= t < p@.len() ==> (#[trigger] p@[t])@.len() == p@.len(),
            forall|t: int| 0 <= t < orig.len() ==> (#[trigger] orig[t]) < p@.len(),
            forall|t: int| 0 <= t < out@.len() ==> (#[trigger] out@[t]) < p@.len(),
            scores@.len() == p@.len(),
        decreases rest@.len(),
    {
        let x = rest.remove(0);
        proof {
            assert(x == orig[done]);
            assert(orig.skip(done).drop_first() =~= orig.skip(done + 1));
        }
        let mut idx: usize = 0;
        while idx < out.len() && !schulze_prec_exec(p, scores, x, out[idx])
            invariant
                idx <= out@.len(),
                x < p@.len(),
                leq == schulze_le_fn(rows_of(p@), scores@),
                forall|t: int| 0 <= t < p@.len() ==> (#[trigger] p@[t])@.len() == p@.len(),
                forall|t: int| 0 <= t < out@.len() ==> (#[trigger] out@[t]) < p@.len(),
                scores@.len() == p@.len(),
                forall|k: int| 0 <= k < idx ==> leq(#[trigger] out@[k], x),
            decreases out@.len() - idx,
        {
            idx = idx + 1;
        }
        proof {
            lemma_insert_ord_split(leq, out@, x, idx as int);
            assert(orig.take(done + 1).drop_last() =~= orig.take(done));
            assert(orig.take(done + 1).last() == orig[done]);
        }
        out.insert(idx, x);
        proof {
            assert(out@ =~= isort_by(leq, orig.take(done + 1)));
            done = done + 1;
        }
    }
    proof {
        assert(orig.take(done) =~= orig);
    }
    out
}

/// Widening never lowers a strength: each closure cell is at least its
/// initial value.
pub proof fn lemma_closure_monotone(p0: Seq<Seq<u64>>, i: int, n: int)
    requires
        mat_wf(p0, n),
        0 <= i <= n,
    ensures
        mat_wf(closure_upto(p0, i, n), n),
        forall|j: int, k: int|
            0 <= j < n && 0 <= k < n ==> #[trigger] closure_upto(p0, i, n)[j][k] >= p0[j][k],
    decreases i,
{
    if i > 0 {
        lemma_closure_monotone(p0, i - 1, n);
        lemma_relax_frame(closure_upto(p0, i - 1, n), i - 1, n);
    }
}

} // verus!
