//! The whole ranking pipeline: blending the performance signals, choosing
//! the candidates, building the ballots, running the Schulze engine and
//! assembling the final records.

use vstd::prelude::*;
use crate::model::{
    RankingEntry, EntryModel, ScoreEntry, ScoreModel, SchulzeRecord, RecordModel, SelectorConfig,
    RunError, find_entry, find_score, share_of, entry_for, score_for,
};
use crate::schulze::{
    rows_of, spec_defeats, spec_strength_init, spec_closure, schulze_le_fn, wins_upto,
    build_defeats, strength_init, widen_strengths, rank_candidates, count_wins,
};
use crate::select::{spec_select, select_candidates, score_names, push_score_names};
use crate::sortutil::{
    isort_by, seqchar_le_fn, dedup_sorted, views_of, sort_strings, dedup_strings,
    lemma_isort_strings_view, lemma_isort_multiset, lemma_isort_elems, SortKey, key_le_fn,
    sort_keys,
};
use crate::aggregate::clamp_i64;

verus! {

/// The blended performance score: the benchmark score alone, the throughput
/// composite normalised by its maximum weight alone, or the mean of the two
/// — monotonic in each component.
pub open spec fn blend_val(b: Option<u64>, t: Option<u64>) -> u64 {
    match (b, t) {
        (Some(bv), Some(tv)) => (((bv as int) + (tv as int) / 6) / 2) as u64,
        (Some(bv), None) => bv,
        (None, Some(tv)) => ((tv as int) / 6) as u64,
        (None, None) => 0u64,
    }
}

/// The names either performance signal mentions, sorted, distinct.
pub open spec fn blend_names(bench: Seq<ScoreModel>, te: Seq<ScoreModel>) -> Seq<Seq<char>> {
    dedup_sorted(isort_by(seqchar_le_fn(), score_names(bench) + score_names(te)))
}

/// What `blend_scores` returns: one blended score per name either signal
/// mentions.
pub open spec fn spec_blend(bench: Seq<ScoreModel>, te: Seq<ScoreModel>) -> Seq<ScoreModel> {
    blend_names(bench, te).map_values(
        |n: Seq<char>| ScoreModel { lang: n, value: blend_val(find_score(bench, n), find_score(te, n)) },
    )
}

/// Blends the benchmark scores and the throughput composites into the one
/// performance map used for selection and ballots.
pub fn blend_scores(bench: &Vec<ScoreEntry>, te: &Vec<ScoreEntry>) -> (r: Vec<ScoreEntry>)
    ensures
        r.deep_view() == spec_blend(bench.deep_view(), te.deep_view()),
{
    let ghost bm = bench.deep_view();
    let ghost em = te.deep_view();
    let mut names: Vec<String> = Vec::new();
    push_score_names(&mut names, bench);
    push_score_names(&mut names, te);
    proof {
        assert(views_of(names@) =~= score_names(bm) + score_names(em));
    }
    let ghost collected = names@;
    let sorted = sort_strings(names);
    proof {
        lemma_isort_strings_view(collected);
    }
    let uniq = dedup_strings(&sorted);
    let ghost nm = blend_names(bm, em);
    proof {
        assert(views_of(uniq@) == nm);
    }
    let mut out: Vec<ScoreEntry> = Vec::new();
    let mut i: usize = 0;
    proof {
        assert(out.deep_view() =~= spec_blend(bm, em).take(0));
    }
    while i < uniq.len()
        invariant
            i <= uniq@.len(),
            bm == bench.deep_view(),
            em == te.deep_view(),
            views_of(uniq@) == nm,
            nm == blend_names(bm, em),
            nm.len() == uniq@.len(),
            out.deep_view() == spec_blend(bm, em).take(i as int),
        decreases uniq@.len() - i,
    {
        proof {
            assert(nm[i as int] == uniq@[i as int]@);
        }
        let name = uniq[i].as_str();
        let b = score_for(bench, name);
        let t = score_for(te, name);
        let value: u64 = match (b, t) {
            (Some(bv), Some(tv)) => (((bv as u128) + (tv as u128) / 6) / 2) as u64,
            (Some(bv), None) => bv,
            (None, Some(tv)) => tv / 6,
            (None, None) => 0,
        };
        let entry = ScoreEntry { lang: String::from_str(name), value };
        let ghost out0 = out.deep_view();
        out.push(entry);
        proof {
            assert(out.deep_view() =~= out0.push(entry.deep_view()));
            assert(out.deep_view() =~= spec_blend(bm, em).take(i + 1));
        }
        i = i + 1;
    }
    proof {
        assert(spec_blend(bm, em).take(i as int) =~= spec_blend(bm, em));
    }
    out
}

/// The ballot values of one popularity source: the negated share, so that
/// sorting ascending puts larger shares first; a missing language counts as
/// share zero.
pub open spec fn share_vals(src: Seq<EntryModel>, cands: Seq<Seq<char>>) -> Seq<i64> {
    Seq::new(cands.len(), |i: int| clamp_i64(-share_of(src, cands[i])) as i64)
}

/// The ballot values of the performance map: the negated score, a missing
/// language counting as the worst possible value, behind every present one.
pub open spec fn perf_vals(perf: Seq<ScoreModel>, cands: Seq<Seq<char>>) -> Seq<i64> {
    Seq::new(
        cands.len(),
        |i: int|
            match find_score(perf, cands[i]) {
                Some(s) => clamp_i64(-(s as int)) as i64,
                None => i64::MAX,
            },
    )
}

/// A ballot: the candidate indices ordered by value ascending, ties by
/// index (which is name order).
pub open spec fn spec_ballot(vals: Seq<i64>) -> Seq<usize> {
    isort_by(
        key_le_fn(),
        Seq::new(vals.len(), |i: int| SortKey { k1: vals[i], k2: 0, k3: 0, idx: i as usize }),
    ).map_values(|k: SortKey| k.idx)
}

/// Builds one ballot from per-candidate values.
fn ballot_of(vals: &Vec<i64>) -> (r: Vec<usize>)
    ensures
        r@ == spec_ballot(vals@),
{
    let ghost keysm = Seq::new(
        vals@.len(),
        |i: int| SortKey { k1: vals@[i], k2: 0, k3: 0, idx: i as usize },
    );
    let mut keys: Vec<SortKey> = Vec::new();
    let mut i: usize = 0;
    while i < vals.len()
        invariant
            i <= vals@.len(),
            keysm == Seq::new(
                vals@.len(),
                |t: int| SortKey { k1: vals@[t], k2: 0, k3: 0, idx: t as usize },
            ),
            keys@.len() == i,
            forall|t: int| 0 <= t < i ==> #[trigger] keys@[t] == keysm[t],
        decreases vals@.len() - i,
    {
        keys.push(SortKey { k1: vals[i], k2: 0, k3: 0, idx: i });
        i = i + 1;
    }
    proof {
        assert(keys@ =~= keysm);
    }
    let sorted = sort_keys(keys);
    let mut out: Vec<usize> = Vec::new();
    let mut j: usize = 0;
    while j < sorted.len()
        invariant
            j <= sorted@.len(),
            sorted@ == isort_by(key_le_fn(), keysm),
            out@.len() == j,
            forall|t: int| 0 <= t < j ==> #[trigger] out@[t] == sorted@[t].idx,
        decreases sorted@.len() - j,
    {
        out.push(sorted[j].idx);
        j = j + 1;
    }
    proof {
        assert(out@ =~= spec_ballot(vals@));
    }
    out
}

/// The combined tie-break score of a candidate: the three shares plus the
/// performance score, clamped.
pub open spec fn combined_score(
    t: Seq<EntryModel>,
    p: Seq<EntryModel>,
    l: Seq<EntryModel>,
    perf: Seq<ScoreModel>,
    name: Seq<char>,
) -> int {
    clamp_i64(
        share_of(t, name) + share_of(p, name) + share_of(l, name) + (match find_score(perf, name) {
            Some(s) => s as int,
            None => 0int,
        }),
    )
}

/// One line of the final ranking, at position `pos` (0-based here).
pub open spec fn record_for(
    t: Seq<EntryModel>,
    p: Seq<EntryModel>,
    l: Seq<EntryModel>,
    bench: Seq<ScoreModel>,
    te: Seq<ScoreModel>,
    perf: Seq<ScoreModel>,
    pc: Seq<Seq<u64>>,
    n: int,
    cands: Seq<Seq<char>>,
    ranked: Seq<usize>,
    pos: int,
) -> RecordModel {
    let idx = ranked[pos] as int;
    let name = cands[idx];
    RecordModel {
        position: pos + 1,
        lang: name,
        tiobe_rank: match find_entry(t, name) {
            Some(e) => e.rank,
            None => None,
        },
        tiobe_share: share_of(t, name),
        tiobe_trend: match find_entry(t, name) {
            Some(e) => e.trend,
            None => None,
        },
        pypl_rank: match find_entry(p, name) {
            Some(e) => e.rank,
            None => None,
        },
        pypl_share: share_of(p, name),
        pypl_trend: match find_entry(p, name) {
            Some(e) => e.trend,
            None => None,
        },
        languish_rank: match find_entry(l, name) {
            Some(e) => e.rank,
            None => None,
        },
        languish_share: share_of(l, name),
        languish_trend: match find_entry(l, name) {
            Some(e) => e.trend,
            None => None,
        },
        benchmark_score: find_score(bench, name),
        techempower_score: find_score(te, name),
        perf_score: find_score(perf, name),
        schulze_wins: wins_upto(pc, idx, n),
    }
}

/// The four ballots of a run.
pub open spec fn spec_ballots(
    t: Seq<EntryModel>,
    p: Seq<EntryModel>,
    l: Seq<EntryModel>,
    perf: Seq<ScoreModel>,
    cands: Seq<Seq<char>>,
) -> Seq<Seq<usize>> {
    seq![
        spec_ballot(share_vals(t, cands)),
        spec_ballot(share_vals(p, cands)),
        spec_ballot(share_vals(l, cands)),
        spec_ballot(perf_vals(perf, cands)),
    ]
}

/// The closed strength matrix of a run.
pub open spec fn spec_strengths(
    t: Seq<EntryModel>,
    p: Seq<EntryModel>,
    l: Seq<EntryModel>,
    perf: Seq<ScoreModel>,
    cands: Seq<Seq<char>>,
) -> Seq<Seq<u64>> {
    let n = cands.len() as int;
    spec_closure(spec_strength_init(spec_defeats(spec_ballots(t, p, l, perf, cands), n), n), n)
}

/// The combined tie-break scores of a run, one per candidate.
pub open spec fn spec_scores(
    t: Seq<EntryModel>,
    p: Seq<EntryModel>,
    l: Seq<EntryModel>,
    perf: Seq<ScoreModel>,
    cands: Seq<Seq<char>>,
) -> Seq<i64> {
    Seq::new(cands.len(), |i: int| combined_score(t, p, l, perf, cands[i]) as i64)
}

/// The final candidate order of a run.
pub open spec fn spec_ranked(
    t: Seq<EntryModel>,
    p: Seq<EntryModel>,
    l: Seq<EntryModel>,
    perf: Seq<ScoreModel>,
    cands: Seq<Seq<char>>,
) -> Seq<usize> {
    isort_by(
        schulze_le_fn(spec_strengths(t, p, l, perf, cands), spec_scores(t, p, l, perf, cands)),
        Seq::new(cands.len(), |i: int| i as usize),
    )
}

/// What the whole pipeline computes from the aggregated sources, the two
/// performance signals and the selection configuration.
pub open spec fn spec_pipeline(
    t: Seq<EntryModel>,
    p: Seq<EntryModel>,
    l: Seq<EntryModel>,
    bench: Seq<ScoreModel>,
    te: Seq<ScoreModel>,
    cfg: SelectorConfig,
) -> Seq<RecordModel> {
    let perf = spec_blend(bench, te);
    let cands = spec_select(t, p, l, perf, cfg);
    let n = cands.len() as int;
    let pc = spec_strengths(t, p, l, perf, cands);
    let ranked = spec_ranked(t, p, l, perf, cands);
    Seq::new(cands.len(), |pos: int| record_for(t, p, l, bench, te, perf, pc, n, cands, ranked, pos))
}

/// Re-running the pipeline on identical inputs yields the identical record
/// sequence: the result is a pure function of its inputs, with no
/// dependence on grouping or iteration order.
pub proof fn lemma_pipeline_idempotent(
    t: Seq<EntryModel>,
    p: Seq<EntryModel>,
    l: Seq<EntryModel>,
    bench: Seq<ScoreModel>,
    te: Seq<ScoreModel>,
    cfg: SelectorConfig,
    r1: Seq<RecordModel>,
    r2: Seq<RecordModel>,
)
    requires
        r1 == spec_pipeline(t, p, l, bench, te, cfg),
        r2 == spec_pipeline(t, p, l, bench, te, cfg),
    ensures
        r1 == r2,
{
}

/// Computes the final ranking.  Succeeds exactly when at least two
/// languages qualify; the records come back in final order, positions
/// starting at one.
pub fn compute_schulze_records(
    tiobe: &Vec<RankingEntry>,
    pypl: &Vec<RankingEntry>,
    languish: &Vec<RankingEntry>,
    bench: &Vec<ScoreEntry>,
    te: &Vec<ScoreEntry>,
    config: &SelectorConfig,
) -> (r: Result<Vec<SchulzeRecord>, RunError>)
    requires
        forall|k: int| 0 <= k < tiobe@.len() ==> (#[trigger] tiobe@[k]).share >= 0,
        forall|k: int| 0 <= k < pypl@.len() ==> (#[trigger] pypl@[k]).share >= 0,
        forall|k: int| 0 <= k < languish@.len() ==> (#[trigger] languish@[k]).share >= 0,
    ensures
        r is Ok <==> spec_select(
            tiobe.deep_view(),
            pypl.deep_view(),
            languish.deep_view(),
            spec_blend(bench.deep_view(), te.deep_view()),
            *config,
        ).len() >= 2,
        r matches Ok(v) ==> v.deep_view() == spec_pipeline(
            tiobe.deep_view(),
            pypl.deep_view(),
            languish.deep_view(),
            bench.deep_view(),
            te.deep_view(),
            *config,
        ),
        r matches Err(e) ==> e == RunError::TooFewCandidates(
            spec_select(
                tiobe.deep_view(),
                pypl.deep_view(),
                languish.deep_view(),
                spec_blend(bench.deep_view(), te.deep_view()),
                *config,
            ).len() as usize,
        ),
{
    let ghost tm = tiobe.deep_view();
    let ghost pm = pypl.deep_view();
    let ghost lm = languish.deep_view();
    let ghost bm = bench.deep_view();
    let ghost em = te.deep_view();
    let perf = blend_scores(bench, te);
    let ghost fm = spec_blend(bm, em);
    let cands = select_candidates(tiobe, pypl, languish, &perf, config);
    let ghost cm = spec_select(tm, pm, lm, fm, *config);
    proof {
        assert(views_of(cands@) == cm);
        assert(cands@.len() == cm.len());
    }
    let n = cands.len();
    if n < 2 {
        return Err(RunError::TooFewCandidates(n));
    }
    // per-candidate ballot values for each metric
    let tiobe_vals = share_vals_exec(tiobe, &cands);
    let pypl_vals = share_vals_exec(pypl, &cands);
    let languish_vals = share_vals_exec(languish, &cands);
    let perf_v = perf_vals_exec(&perf, &cands);
    let b1 = ballot_of(&tiobe_vals);
    let b2 = ballot_of(&pypl_vals);
    let b3 = ballot_of(&languish_vals);
    let b4 = ballot_of(&perf_v);
    let mut ballots: Vec<Vec<usize>> = Vec::new();
    ballots.push(b1);
    ballots.push(b2);
    ballots.push(b3);
    ballots.push(b4);
    proof {
        assert(ballots.deep_view() =~~= spec_ballots(tm, pm, lm, fm, cm));
    }
    let d = build_defeats(&ballots, n);
    proof {
        assert(rows_of(d@).len() == d@.len());
        assert(spec_defeats(ballots.deep_view(), n as int).len() == n);
        assert(d@.len() == n);
        assert forall|a: int| 0 <= a < n implies (#[trigger] d@[a])@.len() == n by {
            assert(rows_of(d@)[a] == d@[a]@);
        }
    }
    let mut p = strength_init(&d, n);
    proof {
        assert(rows_of(p@).len() == p@.len());
        assert(spec_strength_init(rows_of(d@), n as int).len() == n);
        assert(p@.len() == n);
        assert forall|a: int| 0 <= a < n implies (#[trigger] p@[a])@.len() == n by {
            assert(rows_of(p@)[a] == p@[a]@);
        }
    }
    widen_strengths(&mut p, n);
    let ghost pc = spec_strengths(tm, pm, lm, fm, cm);
    proof {
        assert(rows_of(p@) == pc);
        assert(p@.len() == n);
        assert forall|a: int| 0 <= a < n implies (#[trigger] p@[a])@.len() == n by {
            assert(rows_of(p@)[a] == p@[a]@);
        }
    }
    // combined tie-break scores
    let ghost sm = spec_scores(tm, pm, lm, fm, cm);
    let mut scores: Vec<i64> = Vec::new();
    let mut i: usize = 0;
    while i < n
        invariant
            i <= n,
            n == cands@.len(),
            tm == tiobe.deep_view(),
            pm == pypl.deep_view(),
            lm == languish.deep_view(),
            fm == perf.deep_view(),
            views_of(cands@) == cm,
            cm.len() == n,
            sm == spec_scores(tm, pm, lm, fm, cm),
            scores@.len() == i,
            forall|t: int| 0 <= t < i ==> #[trigger] scores@[t] == sm[t],
        decreases n - i,
    {
        proof {
            assert(cm[i as int] == cands@[i as int]@);
        }
        let name = cands[i].as_str();
        let s1: i128 = match entry_for(tiobe, name) {
            Some(e) => e.share as i128,
            None => 0,
        };
        let s2: i128 = match entry_for(pypl, name) {
            Some(e) => e.share as i128,
            None => 0,
        };
        let s3: i128 = match entry_for(languish, name) {
            Some(e) => e.share as i128,
            None => 0,
        };
        let s4: i128 = match score_for(&perf, name) {
            Some(s) => s as i128,
            None => 0,
        };
        let wide: i128 = s1 + s2 + s3 + s4;
        let clamped: i64 = if wide > i64::MAX as i128 {
            i64::MAX
        } else if wide < i64::MIN as i128 {
            i64::MIN
        } else {
            wide as i64
        };
        scores.push(clamped);
        i = i + 1;
    }
    proof {
        assert(scores@ =~= sm);
    }
    // final order
    let mut identity: Vec<usize> = Vec::new();
    let mut j: usize = 0;
    while j < n
        invariant
            j <= n,
            identity@.len() == j,
            forall|t: int| 0 <= t < j ==> #[trigger] identity@[t] == t as usize,
        decreases n - j,
    {
        identity.push(j);
        j = j + 1;
    }
    proof {
        assert(identity@ =~= Seq::new(cm.len(), |i: int| i as usize));
    }
    let ranked = rank_candidates(&p, &scores, identity);
    let ghost rm = spec_ranked(tm, pm, lm, fm, cm);
    proof {
        assert(ranked@ == rm);
        lemma_isort_elems(
            schulze_le_fn(pc, sm),
            Seq::new(cm.len(), |i: int| i as usize),
            |x: usize| (x as int) < cm.len(),
        );
        assert(ranked@.len() == rm.len());
        lemma_isort_multiset(
            schulze_le_fn(pc, sm),
            Seq::new(cm.len(), |i: int| i as usize),
        );
    }
    // assemble the records
    let ghost goal = spec_pipeline(tm, pm, lm, bm, em, *config);
    let mut out: Vec<SchulzeRecord> = Vec::new();
    let mut pos: usize = 0;
    proof {
        assert(out.deep_view() =~= goal.take(0));
    }
    while pos < ranked.len()
        invariant
            pos <= ranked@.len(),
            ranked@ == rm,
            rm.len() == cm.len(),
            n == cands@.len(),
            cm.len() == n,
            2 <= n,
            forall|t: int| 0 <= t < rm.len() ==> (#[trigger] rm[t] as int) < cm.len(),
            tm == tiobe.deep_view(),
            pm == pypl.deep_view(),
            lm == languish.deep_view(),
            bm == bench.deep_view(),
            em == te.deep_view(),
            fm == perf.deep_view(),
            fm == spec_blend(bm, em),
            cm == spec_select(tm, pm, lm, fm, *config),
            rm == spec_ranked(tm, pm, lm, fm, cm),
            views_of(cands@) == cm,
            p@.len() == n,
            forall|a: int| 0 <= a < n ==> (#[trigger] p@[a])@.len() == n,
            rows_of(p@) == pc,
            pc == spec_strengths(tm, pm, lm, fm, cm),
            goal == spec_pipeline(tm, pm, lm, bm, em, *config),
            goal.len() == cm.len(),
            out.deep_view() == goal.take(pos as int),
        decreases ranked@.len() - pos,
    {
        let idx = ranked[pos];
        proof {
            assert(cm[idx as int] == cands@[idx as int]@);
        }
        let name = cands[idx].as_str();
        let wins = count_wins(&p, n, idx);
        let (tiobe_rank, tiobe_trend): (Option<u32>, Option<i64>) = match entry_for(tiobe, name) {
            Some(e) => (e.rank, e.trend),
            None => (None, None),
        };
        let tiobe_share: i64 = match entry_for(tiobe, name) {
            Some(e) => e.share,
            None => 0,
        };
        let (pypl_rank, pypl_trend): (Option<u32>, Option<i64>) = match entry_for(pypl, name) {
            Some(e) => (e.rank, e.trend),
            None => (None, None),
        };
        let pypl_share: i64 = match entry_for(pypl, name) {
            Some(e) => e.share,
            None => 0,
        };
        let (languish_rank, languish_trend): (Option<u32>, Option<i64>) = match entry_for(
            languish,
            name,
        ) {
            Some(e) => (e.rank, e.trend),
            None => (None, None),
        };
        let languish_share: i64 = match entry_for(languish, name) {
            Some(e) => e.share,
            None => 0,
        };
        let record = SchulzeRecord {
            position: pos + 1,
            lang: String::from_str(name),
            tiobe_rank,
            tiobe_share,
            tiobe_trend,
            pypl_rank,
            pypl_share,
            pypl_trend,
            languish_rank,
            languish_share,
            languish_trend,
            benchmark_score: score_for(bench, name),
            techempower_score: score_for(te, name),
            perf_score: score_for(&perf, name),
            schulze_wins: wins,
        };
        let ghost out0 = out.deep_view();
        out.push(record);
        proof {
            assert(out.deep_view() =~= out0.push(record.deep_view()));
            assert(record.deep_view() == record_for(
                tm,
                pm,
                lm,
                bm,
                em,
                fm,
                pc,
                n as int,
                cm,
                rm,
                pos as int,
            ));
            assert(goal[pos as int] == record_for(
                tm,
                pm,
                lm,
                bm,
                em,
                fm,
                pc,
                n as int,
                cm,
                rm,
                pos as int,
            ));
            assert(out.deep_view() =~= goal.take(pos + 1));
        }
        pos = pos + 1;
    }
    proof {
        assert(goal.take(pos as int) =~= goal);
    }
    Ok(out)
}

/// The negated-share ballot values of one source.
fn share_vals_exec(src: &Vec<RankingEntry>, cands: &Vec<String>) -> (r: Vec<i64>)
    ensures
        r@ == share_vals(src.deep_view(), views_of(cands@)),
{
    let ghost sm = src.deep_view();
    let ghost cm = views_of(cands@);
    let mut out: Vec<i64> = Vec::new();
    let mut i: usize = 0;
    while i < cands.len()
        invariant
            i <= cands@.len(),
            sm == src.deep_view(),
            cm == views_of(cands@),
            cm.len() == cands@.len(),
            out@.len() == i,
            forall|t: int| 0 <= t < i ==> #[trigger] out@[t] == share_vals(sm, cm)[t],
        decreases cands@.len() - i,
    {
        proof {
            assert(cm[i as int] == cands@[i as int]@);
        }
        let s: i64 = match entry_for(src, cands[i].as_str()) {
            Some(e) => e.share,
            None => 0,
        };
        let wide: i128 = -(s as i128);
        let v: i64 = if wide > i64::MAX as i128 {
            i64::MAX
        } else if wide < i64::MIN as i128 {
            i64::MIN
        } else {
            wide as i64
        };
        out.push(v);
        i = i + 1;
    }
    proof {
        assert(out@ =~= share_vals(sm, cm));
    }
    out
}

/// The negated-score ballot values of the performance map.
fn perf_vals_exec(perf: &Vec<ScoreEntry>, cands: &Vec<String>) -> (r: Vec<i64>)
    ensures
        r@ == perf_vals(perf.deep_view(), views_of(cands@)),
{
    let ghost fm = perf.deep_view();
    let ghost cm = views_of(cands@);
    let mut out: Vec<i64> = Vec::new();
    let mut i: usize = 0;
    while i < cands.len()
        invariant
            i <= cands@.len(),
            fm == perf.deep_view(),
            cm == views_of(cands@),
            cm.len() == cands@.len(),
            out@.len() == i,
            forall|t: int| 0 <= t < i ==> #[trigger] out@[t] == perf_vals(fm, cm)[t],
        decreases cands@.len() - i,
    {
        proof {
            assert(cm[i as int] == cands@[i as int]@);
        }
        let v: i64 = match score_for(perf, cands[i].as_str()) {
            Some(s) => {
                let wide: i128 = -(s as i128);
                if wide < i64::MIN as i128 {
                    i64::MIN
                } else {
                    wide as i64
                }
            },
            None => i64::MAX,
        };
        out.push(v);
        i = i + 1;
    }
    proof {
        assert(out@ =~= perf_vals(fm, cm));
    }
    out
}

} // verus!
