//! Candidate selection: which languages are ranked in a run.
//!
//! A name qualifies when it occurs in at least a configured number of the
//! four signals (three popularity sources and the performance map).  When
//! more names qualify than the configured maximum, the excess is cut by a
//! priority order — signal count, then summed share, then performance,
//! then name — and the kept names are used in name order.

use vstd::prelude::*;
use crate::model::{RankingEntry, EntryModel, ScoreEntry, ScoreModel, SelectorConfig, find_entry,
    find_score, share_of, entry_for, score_for};
use crate::sortutil::{
    isort_by, seqchar_le_fn, dedup_sorted, views_of, sort_strings, dedup_strings,
    lemma_isort_strings_view, lemma_isort_multiset, SortKey, key_le_fn, sort_keys,
};
use crate::aggregate::clamp_i64;

verus! {

/// The names of a source's entries.
pub open spec fn entry_names(s: Seq<EntryModel>) -> Seq<Seq<char>> {
    s.map_values(|e: EntryModel| e.lang)
}

/// The names of a score list.
pub open spec fn score_names(s: Seq<ScoreModel>) -> Seq<Seq<char>> {
    s.map_values(|e: ScoreModel| e.lang)
}

/// Every name any signal mentions, with duplicates.
pub open spec fn all_names(
    t: Seq<EntryModel>,
    p: Seq<EntryModel>,
    l: Seq<EntryModel>,
    perf: Seq<ScoreModel>,
) -> Seq<Seq<char>> {
    entry_names(t) + entry_names(p) + entry_names(l) + score_names(perf)
}

/// The distinct names any signal mentions, sorted.
pub open spec fn name_pool(
    t: Seq<EntryModel>,
    p: Seq<EntryModel>,
    l: Seq<EntryModel>,
    perf: Seq<ScoreModel>,
) -> Seq<Seq<char>> {
    dedup_sorted(isort_by(seqchar_le_fn(), all_names(t, p, l, perf)))
}

/// In how many of the four signals a name occurs.
pub open spec fn signal_count(
    t: Seq<EntryModel>,
    p: Seq<EntryModel>,
    l: Seq<EntryModel>,
    perf: Seq<ScoreModel>,
    name: Seq<char>,
) -> int {
    (if find_entry(t, name) is Some {
        1int
    } else {
        0int
    }) + (if find_entry(p, name) is Some {
        1int
    } else {
        0int
    }) + (if find_entry(l, name) is Some {
        1int
    } else {
        0int
    }) + (if find_score(perf, name) is Some {
        1int
    } else {
        0int
    })
}

/// The qualifying names, in name order: those that occur in at least
/// `min_signals` signals.
pub open spec fn qualified_names(
    t: Seq<EntryModel>,
    p: Seq<EntryModel>,
    l: Seq<EntryModel>,
    perf: Seq<ScoreModel>,
    min_signals: int,
) -> Seq<Seq<char>> {
    name_pool(t, p, l, perf).filter(|n: Seq<char>| signal_count(t, p, l, perf, n) >= min_signals)
}

/// The priority key of the qualifying name at index `i`: more signals
/// first, then larger summed share, then better performance, then name
/// order (the index, the list being name-sorted).
pub open spec fn priority_key(
    t: Seq<EntryModel>,
    p: Seq<EntryModel>,
    l: Seq<EntryModel>,
    perf: Seq<ScoreModel>,
    q: Seq<Seq<char>>,
    i: int,
) -> SortKey {
    SortKey {
        k1: (-signal_count(t, p, l, perf, q[i])) as i64,
        k2: clamp_i64(-(share_of(t, q[i]) + share_of(p, q[i]) + share_of(l, q[i]))) as i64,
        k3: (match find_score(perf, q[i]) {
            Some(s) => clamp_i64(-(s as int)),
            None => 1int,
        }) as i64,
        idx: i as usize,
    }
}

/// The index of a kept key, for the final re-sort into name order.
pub open spec fn index_key(k: SortKey) -> SortKey {
    SortKey { k1: 0, k2: 0, k3: 0, idx: k.idx }
}

/// What `select_candidates` returns: the qualifying names when they fit the
/// cap, else the top names by priority, re-sorted into name order.
pub open spec fn spec_select(
    t: Seq<EntryModel>,
    p: Seq<EntryModel>,
    l: Seq<EntryModel>,
    perf: Seq<ScoreModel>,
    cfg: SelectorConfig,
) -> Seq<Seq<char>> {
    let q = qualified_names(t, p, l, perf, cfg.min_signals as int);
    if q.len() <= cfg.max_candidates {
        q
    } else {
        let keys = Seq::new(q.len(), |i: int| priority_key(t, p, l, perf, q, i));
        let kept = isort_by(key_le_fn(), keys).take(cfg.max_candidates as int);
        let in_order = isort_by(key_le_fn(), kept.map_values(|k: SortKey| index_key(k)));
        in_order.map_values(|k: SortKey| q[k.idx as int])
    }
}

/// The candidate set never exceeds the configured maximum, and it is only
/// ever smaller than two when fewer than two names qualify.
pub proof fn lemma_select_size(
    t: Seq<EntryModel>,
    p: Seq<EntryModel>,
    l: Seq<EntryModel>,
    perf: Seq<ScoreModel>,
    cfg: SelectorConfig,
)
    requires
        cfg.max_candidates >= 2,
    ensures
        spec_select(t, p, l, perf, cfg).len() <= cfg.max_candidates,
        spec_select(t, p, l, perf, cfg).len() == vstd::math::min(
            qualified_names(t, p, l, perf, cfg.min_signals as int).len() as int,
            cfg.max_candidates as int,
        ),
        qualified_names(t, p, l, perf, cfg.min_signals as int).len() >= 2 ==> spec_select(
            t,
            p,
            l,
            perf,
            cfg,
        ).len() >= 2,
{
    let q = qualified_names(t, p, l, perf, cfg.min_signals as int);
    if q.len() > cfg.max_candidates {
        let keys = Seq::new(q.len(), |i: int| priority_key(t, p, l, perf, q, i));
        lemma_isort_multiset(key_le_fn(), keys);
        let kept = isort_by(key_le_fn(), keys).take(cfg.max_candidates as int);
        lemma_isort_multiset(key_le_fn(), kept.map_values(|k: SortKey| index_key(k)));
    }
}

/// Chooses the candidate set from the three popularity sources and the
/// performance map.
pub fn select_candidates(
    tiobe: &Vec<RankingEntry>,
    pypl: &Vec<RankingEntry>,
    languish: &Vec<RankingEntry>,
    perf: &Vec<ScoreEntry>,
    config: &SelectorConfig,
) -> (r: Vec<String>)
    ensures
        views_of(r@) == spec_select(
            tiobe.deep_view(),
            pypl.deep_view(),
            languish.deep_view(),
            perf.deep_view(),
            *config,
        ),
{
    let ghost tm = tiobe.deep_view();
    let ghost pm = pypl.deep_view();
    let ghost lm = languish.deep_view();
    let ghost fm = perf.deep_view();
    let mut names: Vec<String> = Vec::new();
    push_entry_names(&mut names, tiobe);
    push_entry_names(&mut names, pypl);
    push_entry_names(&mut names, languish);
    push_score_names(&mut names, perf);
    proof {
        assert(views_of(names@) =~= all_names(tm, pm, lm, fm));
    }
    let ghost collected = names@;
    let sorted = sort_strings(names);
    proof {
        lemma_isort_strings_view(collected);
    }
    let pool = dedup_strings(&sorted);
    let ghost poolm = name_pool(tm, pm, lm, fm);
    proof {
        assert(views_of(pool@) == poolm);
    }
    // keep the names that occur in enough signals
    let ghost pred = |n: Seq<char>| signal_count(tm, pm, lm, fm, n) >= config.min_signals as int;
    let mut q: Vec<String> = Vec::new();
    let mut i: usize = 0;
    proof {
        assert(poolm.take(0) =~= Seq::<Seq<char>>::empty());
        assert(views_of(q@) =~= poolm.take(0).filter(pred));
    }
    while i < pool.len()
        invariant
            i <= pool@.len(),
            views_of(pool@) == poolm,
            poolm.len() == pool@.len(),
            pred == (|n: Seq<char>| signal_count(tm, pm, lm, fm, n) >= config.min_signals as int),
            tm == tiobe.deep_view(),
            pm == pypl.deep_view(),
            lm == languish.deep_view(),
            fm == perf.deep_view(),
            views_of(q@) == poolm.take(i as int).filter(pred),
        decreases pool@.len() - i,
    {
        let count = count_signals(tiobe, pypl, languish, perf, pool[i].as_str());
        proof {
            assert(poolm[i as int] == pool@[i as int]@);
            assert(poolm.take(i + 1).drop_last() =~= poolm.take(i as int));
            reveal(Seq::filter);
        }
        if count >= config.min_signals {
            let ghost q0 = q@;
            q.push(String::from_str(pool[i].as_str()));
            proof {
                assert(views_of(q@) =~= views_of(q0).push(poolm[i as int]));
            }
        }
        i = i + 1;
    }
    proof {
        assert(poolm.take(i as int) =~= poolm);
    }
    let ghost qm = qualified_names(tm, pm, lm, fm, config.min_signals as int);
    proof {
        assert(views_of(q@) == qm);
    }
    if q.len() <= config.max_candidates {
        return q;
    }
    // build the priority keys
    let ghost keysm = Seq::new(qm.len(), |t: int| priority_key(tm, pm, lm, fm, qm, t));
    let mut keys: Vec<SortKey> = Vec::new();
    let mut t: usize = 0;
    while t < q.len()
        invariant
            t <= q@.len(),
            views_of(q@) == qm,
            qm.len() == q@.len(),
            tm == tiobe.deep_view(),
            pm == pypl.deep_view(),
            lm == languish.deep_view(),
            fm == perf.deep_view(),
            keysm == Seq::new(qm.len(), |u: int| priority_key(tm, pm, lm, fm, qm, u)),
            keys@.len() == t,
            forall|u: int| 0 <= u < t ==> #[trigger] keys@[u] == keysm[u],
        decreases q@.len() - t,
    {
        proof {
            assert(qm[t as int] == q@[t as int]@);
        }
        let name = q[t].as_str();
        let count = count_signals(tiobe, pypl, languish, perf, name);
        let s1: i64 = match entry_for(tiobe, name) {
            Some(e) => e.share,
            None => 0,
        };
        let s2: i64 = match entry_for(pypl, name) {
            Some(e) => e.share,
            None => 0,
        };
        let s3: i64 = match entry_for(languish, name) {
            Some(e) => e.share,
            None => 0,
        };
        let share_key: i64 = neg_clamp_sum(s1, s2, s3);
        let perf_key: i64 = match score_for(perf, name) {
            Some(s) => neg_clamp_u64(s),
            None => 1,
        };
        keys.push(SortKey { k1: -(count as i64), k2: share_key, k3: perf_key, idx: t });
        t = t + 1;
    }
    proof {
        assert(keys@ =~= keysm);
    }
    let sorted_keys = sort_keys(keys);
    // keep the top names, then bring them back into name order
    let max = config.max_candidates;
    let ghost keptm = isort_by(key_le_fn(), keysm).take(max as int);
    let mut kept_idx: Vec<SortKey> = Vec::new();
    let mut u: usize = 0;
    proof {
        lemma_isort_multiset(key_le_fn(), keysm);
    }
    while u < max
        invariant
            u <= max,
            max < sorted_keys@.len(),
            sorted_keys@ == isort_by(key_le_fn(), keysm),
            keptm == isort_by(key_le_fn(), keysm).take(max as int),
            kept_idx@.len() == u,
            forall|w: int| 0 <= w < u ==> #[trigger] kept_idx@[w] == index_key(keptm[w]),
        decreases max - u,
    {
        let k = sorted_keys[u];
        kept_idx.push(SortKey { k1: 0, k2: 0, k3: 0, idx: k.idx });
        u = u + 1;
    }
    proof {
        assert(kept_idx@ =~= keptm.map_values(|k: SortKey| index_key(k)));
    }
    let in_order = sort_keys(kept_idx);
    let ghost orderedm = isort_by(key_le_fn(), keptm.map_values(|k: SortKey| index_key(k)));
    // indices must be in range to read the names back
    proof {
        lemma_isort_multiset(key_le_fn(), keptm.map_values(|k: SortKey| index_key(k)));
        assert forall|w: int| 0 <= w < in_order@.len() implies (#[trigger] in_order@[w]).idx
            < q@.len() by {
            broadcast use vstd::seq_lib::group_to_multiset_ensures;

            let ms = keptm.map_values(|k: SortKey| index_key(k));
            assert(orderedm.to_multiset().count(orderedm[w]) > 0);
            assert(ms.to_multiset().count(orderedm[w]) > 0);
            assert(ms.contains(orderedm[w]));
            let w2 = choose|w2: int| 0 <= w2 < ms.len() && ms[w2] == orderedm[w];
            let sorted_all = isort_by(key_le_fn(), keysm);
            assert(sorted_all.to_multiset().count(sorted_all[w2]) > 0);
            assert(keysm.to_multiset().count(sorted_all[w2]) > 0);
            assert(keysm.contains(sorted_all[w2]));
            let w3 = choose|w3: int| 0 <= w3 < keysm.len() && keysm[w3] == sorted_all[w2];
            assert(keysm[w3].idx == w3);
        }
    }
    let mut out: Vec<String> = Vec::new();
    let mut w: usize = 0;
    while w < in_order.len()
        invariant
            w <= in_order@.len(),
            in_order@ == orderedm,
            views_of(q@) == qm,
            qm.len() == q@.len(),
            forall|w2: int| 0 <= w2 < in_order@.len() ==> (#[trigger] in_order@[w2]).idx
                < q@.len(),
            out@.len() == w,
            forall|w2: int| 0 <= w2 < w ==> #[trigger] out@[w2]@ == qm[orderedm[w2].idx as int],
        decreases in_order@.len() - w,
    {
        let idx = in_order[w].idx;
        out.push(String::from_str(q[idx].as_str()));
        w = w + 1;
    }
    proof {
        assert(views_of(out@) =~= orderedm.map_values(|k: SortKey| qm[k.idx as int]));
    }
    out
}

/// Appends the names of a source's entries.
fn push_entry_names(dst: &mut Vec<String>, src: &Vec<RankingEntry>)
    ensures
        views_of(final(dst)@) == views_of(old(dst)@) + entry_names(src.deep_view()),
{
    let ghost sm = src.deep_view();
    let ghost base = views_of(old(dst)@);
    let mut i: usize = 0;
    proof {
        assert(views_of(dst@) =~= base + entry_names(sm).take(0));
    }
    while i < src.len()
        invariant
            i <= src@.len(),
            sm == src.deep_view(),
            sm.len() == src@.len(),
            views_of(dst@) == base + entry_names(sm).take(i as int),
        decreases src@.len() - i,
    {
        let ghost d0 = dst@;
        dst.push(String::from_str(src[i].lang.as_str()));
        proof {
            assert(entry_names(sm)[i as int] == src@[i as int].lang@);
            assert(views_of(dst@) =~= views_of(d0).push(entry_names(sm)[i as int]));
            assert(views_of(d0).push(entry_names(sm)[i as int]) =~= base + entry_names(sm).take(
                i + 1,
            ));
        }
        i = i + 1;
    }
    proof {
        assert(entry_names(sm).take(i as int) =~= entry_names(sm));
    }
}

/// Appends the names of a score list.
pub(crate) fn push_score_names(dst: &mut Vec<String>, src: &Vec<ScoreEntry>)
    ensures
        views_of(final(dst)@) == views_of(old(dst)@) + score_names(src.deep_view()),
{
    let ghost sm = src.deep_view();
    let ghost base = views_of(old(dst)@);
    let mut i: usize = 0;
    proof {
        assert(views_of(dst@) =~= base + score_names(sm).take(0));
    }
    while i < src.len()
        invariant
            i <= src@.len(),
            sm == src.deep_view(),
            sm.len() == src@.len(),
            views_of(dst@) == base + score_names(sm).take(i as int),
        decreases src@.len() - i,
    {
        let ghost d0 = dst@;
        dst.push(String::from_str(src[i].lang.as_str()));
        proof {
            assert(score_names(sm)[i as int] == src@[i as int].lang@);
            assert(views_of(dst@) =~= views_of(d0).push(score_names(sm)[i as int]));
            assert(views_of(d0).push(score_names(sm)[i as int]) =~= base + score_names(sm).take(
                i + 1,
            ));
        }
        i = i + 1;
    }
    proof {
        assert(score_names(sm).take(i as int) =~= score_names(sm));
    }
}

/// Counts the signals a name occurs in.
fn count_signals(
    tiobe: &Vec<RankingEntry>,
    pypl: &Vec<RankingEntry>,
    languish: &Vec<RankingEntry>,
    perf: &Vec<ScoreEntry>,
    name: &str,
) -> (r: usize)
    ensures
        r as int == signal_count(
            tiobe.deep_view(),
            pypl.deep_view(),
            languish.deep_view(),
            perf.deep_view(),
            name@,
        ),
{
    let mut c: usize = 0;
    if entry_for(tiobe, name).is_some() {
        c = c + 1;
    }
    if entry_for(pypl, name).is_some() {
        c = c + 1;
    }
    if entry_for(languish, name).is_some() {
        c = c + 1;
    }
    if score_for(perf, name).is_some() {
        c = c + 1;
    }
    c
}

/// The clamped negation of a sum of three shares.
fn neg_clamp_sum(a: i64, b: i64, c: i64) -> (r: i64)
    ensures
        r as int == clamp_i64(-(a as int + b as int + c as int)),
{
    let wide: i128 = -(a as i128 + b as i128 + c as i128);
    if wide > i64::MAX as i128 {
        i64::MAX
    } else if wide < i64::MIN as i128 {
        i64::MIN
    } else {
        wide as i64
    }
}

/// The clamped negation of a score.
fn neg_clamp_u64(s: u64) -> (r: i64)
    ensures
        r as int == clamp_i64(-(s as int)),
{
    let wide: i128 = -(s as i128);
    if wide < i64::MIN as i128 {
        i64::MIN
    } else {
        wide as i64
    }
}

} // verus!
