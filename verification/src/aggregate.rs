//! Merging raw per-source rows into one entry per canonical language, and
//! the cross-source split of a combined entry.
//!
//! Rows whose label canonicalizes to nothing are dropped; the rest are
//! grouped by canonical name.  Within a group the share is the sum of the
//! rows' shares, the rank is the smallest rank any row carried, and the
//! trend is the sum of the reported trends — absent when no row reported
//! one.  The output is sorted by name, one entry per name.

use vstd::prelude::*;
use crate::canon::{spec_canonicalize, canonicalize_language};
use crate::model::{RawEntry, RawModel, RankingEntry, EntryModel, find_entry};
use crate::sortutil::{
    insert_ord, isort_by, seqchar_le_fn, dedup_sorted, views_of,
    sort_strings, dedup_strings, lemma_isort_strings_view, lemma_insert_ord_split,
    lemma_seqchar_le_total, lemma_isort_sorted, lemma_dedup_sorted_strict,
};
use crate::strutil::{lex_lt, str_lt, str_eq};

verus! {

/// An integer clamped to the `i64` range.
pub open spec fn clamp_i64(x: int) -> int {
    if x > i64::MAX as int {
        i64::MAX as int
    } else if x < i64::MIN as int {
        i64::MIN as int
    } else {
        x
    }
}

/// The canonical name of a raw row's label, when it has one.
pub open spec fn canon_of(e: RawModel) -> Option<Seq<char>> {
    spec_canonicalize(e.lang)
}

/// The canonical names of the rows that are kept, in input order, with
/// duplicates.
pub open spec fn kept_names(rs: Seq<RawModel>) -> Seq<Seq<char>>
    decreases rs.len(),
{
    if rs.len() == 0 {
        Seq::empty()
    } else {
        match canon_of(rs[0]) {
            Some(n) => seq![n] + kept_names(rs.drop_first()),
            None => kept_names(rs.drop_first()),
        }
    }
}

/// The exact sum of the shares of the rows grouped under `name`.
pub open spec fn group_share(rs: Seq<RawModel>, name: Seq<char>) -> int
    decreases rs.len(),
{
    if rs.len() == 0 {
        0
    } else {
        (if canon_of(rs[0]) == Some(name) {
            rs[0].share
        } else {
            0
        }) + group_share(rs.drop_first(), name)
    }
}

/// The smaller of two optional ranks; an absent rank never wins.
pub open spec fn opt_min(a: Option<u32>, b: Option<u32>) -> Option<u32> {
    match (a, b) {
        (Some(x), Some(y)) => Some(
            if x <= y {
                x
            } else {
                y
            },
        ),
        (Some(x), None) => Some(x),
        (None, y) => y,
    }
}

/// The smallest rank any row grouped under `name` carried.
pub open spec fn group_rank(rs: Seq<RawModel>, name: Seq<char>) -> Option<u32>
    decreases rs.len(),
{
    if rs.len() == 0 {
        None
    } else {
        opt_min(
            if canon_of(rs[0]) == Some(name) {
                rs[0].rank
            } else {
                None
            },
            group_rank(rs.drop_first(), name),
        )
    }
}

/// The exact sum of the reported trends of the rows grouped under `name`.
pub open spec fn group_trend_sum(rs: Seq<RawModel>, name: Seq<char>) -> int
    decreases rs.len(),
{
    if rs.len() == 0 {
        0
    } else {
        (if canon_of(rs[0]) == Some(name) {
            match rs[0].trend {
                Some(t) => t,
                None => 0,
            }
        } else {
            0
        }) + group_trend_sum(rs.drop_first(), name)
    }
}

/// Whether any row grouped under `name` reported a trend.
pub open spec fn group_trend_seen(rs: Seq<RawModel>, name: Seq<char>) -> bool
    decreases rs.len(),
{
    if rs.len() == 0 {
        false
    } else {
        (canon_of(rs[0]) == Some(name) && rs[0].trend is Some) || group_trend_seen(
            rs.drop_first(),
            name,
        )
    }
}

/// The aggregated entry of one canonical name.  Sums are clamped to the
/// `i64` range; within that range they are exact.
pub open spec fn group_entry(rs: Seq<RawModel>, name: Seq<char>) -> EntryModel {
    EntryModel {
        lang: name,
        rank: group_rank(rs, name),
        share: clamp_i64(group_share(rs, name)),
        trend: if group_trend_seen(rs, name) {
            Some(clamp_i64(group_trend_sum(rs, name)))
        } else {
            None
        },
    }
}

/// The distinct kept canonical names, sorted ascending.
pub open spec fn agg_names(rs: Seq<RawModel>) -> Seq<Seq<char>> {
    dedup_sorted(isort_by(seqchar_le_fn(), kept_names(rs)))
}

/// What `aggregate_entries` returns: one entry per kept canonical name,
/// sorted by name.
pub open spec fn spec_aggregate(rs: Seq<RawModel>) -> Seq<EntryModel> {
    agg_names(rs).map_values(|n: Seq<char>| group_entry(rs, n))
}

/// The aggregated entries have pairwise distinct canonical names, and each
/// entry's share is the clamped exact sum of the shares of the raw rows
/// that canonicalize to its name — exact whenever that sum lies in the
/// `i64` range.
pub proof fn lemma_aggregate_unique_names_exact_sums(rs: Seq<RawModel>)
    ensures
        forall|i: int, j: int|
            0 <= i < j < spec_aggregate(rs).len() ==> #[trigger] spec_aggregate(rs)[i].lang
                != #[trigger] spec_aggregate(rs)[j].lang,
        forall|i: int|
            0 <= i < spec_aggregate(rs).len() ==> (#[trigger] spec_aggregate(rs)[i]).share
                == clamp_i64(group_share(rs, spec_aggregate(rs)[i].lang)),
        forall|i: int|
            0 <= i < spec_aggregate(rs).len() && i64::MIN <= group_share(
                rs,
                spec_aggregate(rs)[i].lang,
            ) <= i64::MAX ==> (#[trigger] spec_aggregate(rs)[i]).share == group_share(
                rs,
                spec_aggregate(rs)[i].lang,
            ),
{
    let sorted = isort_by(seqchar_le_fn(), kept_names(rs));
    lemma_seqchar_le_total();
    lemma_isort_sorted(seqchar_le_fn(), kept_names(rs));
    lemma_dedup_sorted_strict(sorted);
    let names = agg_names(rs);
    assert forall|i: int, j: int| 0 <= i < j < spec_aggregate(rs).len() implies #[trigger]
        spec_aggregate(rs)[i].lang != #[trigger] spec_aggregate(rs)[j].lang by {
        assert(lex_lt(names[i], names[j]));
        crate::sortutil::lemma_lex_asym(names[i], names[j]);
        assert(spec_aggregate(rs)[i].lang == names[i]);
        assert(spec_aggregate(rs)[j].lang == names[j]);
    }
}

/// Merges the raw rows of one source into one entry per canonical language,
/// sorted by name.
pub fn aggregate_entries(entries: Vec<RawEntry>) -> (r: Vec<RankingEntry>)
    ensures
        r.deep_view() == spec_aggregate(entries.deep_view()),
{
    let ghost rm = entries.deep_view();
    let mut names: Vec<String> = Vec::new();
    let mut i: usize = 0;
    proof {
        assert(rm.skip(0) =~= rm);
        assert(views_of(names@) + kept_names(rm.skip(0)) =~= kept_names(rm));
    }
    while i < entries.len()
        invariant
            i <= entries@.len(),
            rm == entries.deep_view(),
            rm.len() == entries@.len(),
            forall|k: int| 0 <= k < rm.len() ==> #[trigger] rm[k] == entries@[k].deep_view(),
            kept_names(rm) == views_of(names@) + kept_names(rm.skip(i as int)),
        decreases entries@.len() - i,
    {
        proof {
            assert(rm.skip(i as int)[0] == rm[i as int]);
            assert(rm.skip(i as int).drop_first() =~= rm.skip(i + 1));
        }
        match canonicalize_language(entries[i].lang.as_str()) {
            Some(n) => {
                let ghost names0 = names@;
                names.push(n);
                proof {
                    assert(views_of(names@) =~= views_of(names0).push(rm[i as int].lang).update(
                        names0.len() as int,
                        canon_of(rm[i as int]).unwrap(),
                    ));
                    assert(views_of(names0).push(canon_of(rm[i as int]).unwrap())
                        + kept_names(rm.skip(i + 1)) =~= views_of(names0) + (seq![
                        canon_of(rm[i as int]).unwrap(),
                    ] + kept_names(rm.skip(i + 1))));
                    assert(views_of(names@) =~= views_of(names0).push(
                        canon_of(rm[i as int]).unwrap(),
                    ));
                }
            },
            None => {},
        }
        i = i + 1;
    }
    proof {
        assert(rm.skip(i as int) =~= Seq::<RawModel>::empty());
        assert(views_of(names@) + Seq::<Seq<char>>::empty() =~= views_of(names@));
        assert(views_of(names@) =~= kept_names(rm));
    }
    let ghost kept = names@;
    let sorted = sort_strings(names);
    proof {
        // sorting the strings sorts their views, which are the kept names
        lemma_isort_strings_view(kept);
        assert(views_of(sorted@) == isort_by(seqchar_le_fn(), kept_names(rm)));
    }
    let uniq = dedup_strings(&sorted);
    let ghost namelist = agg_names(rm);
    proof {
        assert(views_of(uniq@) == namelist);
    }
    let mut out: Vec<RankingEntry> = Vec::new();
    let mut k: usize = 0;
    proof {
        assert(out.deep_view() =~= spec_aggregate(rm).take(0));
    }
    while k < uniq.len()
        invariant
            k <= uniq@.len(),
            rm == entries.deep_view(),
            views_of(uniq@) == namelist,
            namelist == agg_names(rm),
            uniq@.len() == namelist.len(),
            out.deep_view() == spec_aggregate(rm).take(k as int),
        decreases uniq@.len() - k,
    {
        proof {
            assert(namelist[k as int] == uniq@[k as int]@);
        }
        let entry = build_group_entry(&entries, uniq[k].as_str());
        let ghost out0 = out.deep_view();
        out.push(entry);
        proof {
            assert(out.deep_view() =~= out0.push(entry.deep_view()));
            assert(spec_aggregate(rm)[k as int] == group_entry(rm, namelist[k as int]));
            assert(out.deep_view() =~= spec_aggregate(rm).take(k + 1));
        }
        k = k + 1;
    }
    proof {
        assert(spec_aggregate(rm).take(k as int) =~= spec_aggregate(rm));
    }
    out
}

/// Folds all raw rows that canonicalize to `name` into one entry.
fn build_group_entry(entries: &Vec<RawEntry>, name: &str) -> (r: RankingEntry)
    ensures
        r.deep_view() == group_entry(entries.deep_view(), name@),
{
    let ghost rm = entries.deep_view();
    let mut share: i128 = 0;
    let mut rank: Option<u32> = None;
    let mut trend_sum: i128 = 0;
    let mut trend_seen: bool = false;
    let mut i: usize = 0;
    proof {
        assert(rm.skip(0) =~= rm);
    }
    while i < entries.len()
        invariant
            i <= entries@.len(),
            rm == entries.deep_view(),
            rm.len() == entries@.len(),
            forall|k: int| 0 <= k < rm.len() ==> #[trigger] rm[k] == entries@[k].deep_view(),
            group_share(rm, name@) == share + group_share(rm.skip(i as int), name@),
            -(i as int) * 0x8000_0000_0000_0000 <= share as int <= (i as int)
                * 0x8000_0000_0000_0000,
            group_rank(rm, name@) == opt_min(rank, group_rank(rm.skip(i as int), name@)),
            group_trend_sum(rm, name@) == trend_sum + group_trend_sum(rm.skip(i as int), name@),
            -(i as int) * 0x8000_0000_0000_0000 <= trend_sum as int <= (i as int)
                * 0x8000_0000_0000_0000,
            group_trend_seen(rm, name@) == (trend_seen || group_trend_seen(
                rm.skip(i as int),
                name@,
            )),
        decreases entries@.len() - i,
    {
        proof {
            assert(rm.skip(i as int)[0] == rm[i as int]);
            assert(rm.skip(i as int).drop_first() =~= rm.skip(i + 1));
        }
        let matches_name: bool = match canonicalize_language(entries[i].lang.as_str()) {
            Some(n) => str_eq(n.as_str(), name),
            None => false,
        };
        proof {
            assert(matches_name == (canon_of(rm[i as int]) == Some(name@)));
        }
        if matches_name {
            share = share + entries[i].share as i128;
            match entries[i].rank {
                Some(rk) => {
                    rank = match rank {
                        Some(prev) => Some(
                            if prev <= rk {
                                prev
                            } else {
                                rk
                            },
                        ),
                        None => Some(rk),
                    };
                },
                None => {},
            }
            match entries[i].trend {
                Some(t) => {
                    trend_sum = trend_sum + t as i128;
                    trend_seen = true;
                },
                None => {},
            }
        }
        i = i + 1;
    }
    proof {
        assert(rm.skip(i as int) =~= Seq::<RawModel>::empty());
    }
    let final_share: i64 = clamp_exec(share);
    let final_trend: Option<i64> = if trend_seen {
        Some(clamp_exec(trend_sum))
    } else {
        None
    };
    RankingEntry { lang: String::from_str(name), rank, share: final_share, trend: final_trend }
}

/// Truncating division (toward zero) for a positive divisor.
pub open spec fn trunc_div(a: int, b: int) -> int {
    if a >= 0 {
        a / b
    } else {
        -((-a) / b)
    }
}

/// The sequence with the first entry of the given name removed.
pub open spec fn remove_entry(s: Seq<EntryModel>, name: Seq<char>) -> Seq<EntryModel>
    decreases s.len(),
{
    if s.len() == 0 {
        s
    } else if s[0].lang == name {
        s.drop_first()
    } else {
        seq![s[0]] + remove_entry(s.drop_first(), name)
    }
}

proof fn lemma_remove_entry_at(s: Seq<EntryModel>, name: Seq<char>, i: int)
    requires
        0 <= i < s.len(),
        forall|k: int| 0 <= k < i ==> (#[trigger] s[k]).lang != name,
        s[i].lang == name,
    ensures
        remove_entry(s, name) =~= s.take(i) + s.skip(i + 1),
    decreases s.len(),
{
    if i == 0 {
    } else {
        let t = s.drop_first();
        assert forall|k: int| 0 <= k < i - 1 implies (#[trigger] t[k]).lang != name by {
            assert(t[k] == s[k + 1]);
        }
        assert(t[i - 1] == s[i]);
        lemma_remove_entry_at(t, name, i - 1);
    }
}

/// Name order on aggregated entries.
pub open spec fn entry_str_le_fn() -> spec_fn(RankingEntry, RankingEntry) -> bool {
    |a: RankingEntry, b: RankingEntry| !lex_lt(b.lang@, a.lang@)
}

/// Name order on entry models.
pub open spec fn entry_le_fn() -> spec_fn(EntryModel, EntryModel) -> bool {
    |a: EntryModel, b: EntryModel| !lex_lt(b.lang, a.lang)
}

/// The models of a sequence of entries.
pub open spec fn entry_views(s: Seq<RankingEntry>) -> Seq<EntryModel> {
    s.map_values(|e: RankingEntry| e.deep_view())
}

proof fn lemma_insert_entries_view(s: Seq<RankingEntry>, x: RankingEntry)
    ensures
        entry_views(insert_ord(entry_str_le_fn(), s, x)) =~= insert_ord(
            entry_le_fn(),
            entry_views(s),
            x.deep_view(),
        ),
    decreases s.len(),
{
    let sv = entry_views(s);
    if s.len() == 0 {
    } else if !entry_str_le_fn()(s[0], x) {
        assert(entry_views(seq![x] + s) =~= seq![x.deep_view()] + sv);
    } else {
        lemma_insert_entries_view(s.drop_first(), x);
        assert(entry_views(s.drop_first()) =~= sv.drop_first());
        assert(entry_views(seq![s[0]] + insert_ord(entry_str_le_fn(), s.drop_first(), x)) =~= seq![
            s[0].deep_view(),
        ] + entry_views(insert_ord(entry_str_le_fn(), s.drop_first(), x)));
    }
}

proof fn lemma_isort_entries_view(s: Seq<RankingEntry>)
    ensures
        entry_views(isort_by(entry_str_le_fn(), s)) =~= isort_by(entry_le_fn(), entry_views(s)),
    decreases s.len(),
{
    if s.len() > 0 {
        lemma_isort_entries_view(s.drop_last());
        lemma_insert_entries_view(isort_by(entry_str_le_fn(), s.drop_last()), s.last());
        assert(entry_views(s.drop_last()) =~= entry_views(s).drop_last());
        assert(entry_views(s).drop_last().push(s.last().deep_view()) =~= entry_views(s));
    }
}

/// Sorts aggregated entries by canonical name.
fn sort_entries(v: Vec<RankingEntry>) -> (r: Vec<RankingEntry>)
    ensures
        r@ == isort_by(entry_str_le_fn(), v@),
        r.deep_view() == isort_by(entry_le_fn(), v.deep_view()),
{
    let ghost orig = v@;
    let ghost leq = entry_str_le_fn();
    let mut rest = v;
    let mut out: Vec<RankingEntry> = Vec::new();
    let ghost mut done: int = 0;
    proof {
        assert(orig.take(0) =~= Seq::<RankingEntry>::empty());
        assert(rest@ =~= orig.skip(0));
    }
    while rest.len() > 0
        invariant
            0 <= done <= orig.len(),
            rest@ == orig.skip(done),
            out@ == isort_by(leq, orig.take(done)),
            leq == entry_str_le_fn(),
        decreases rest@.len(),
    {
        let x = rest.remove(0);
        proof {
            assert(x == orig[done]);
            assert(orig.skip(done).drop_first() =~= orig.skip(done + 1));
        }
        let mut idx: usize = 0;
        while idx < out.len() && !str_lt(x.lang.as_str(), out[idx].lang.as_str())
            invariant
                idx <= out@.len(),
                leq == entry_str_le_fn(),
                forall|k: int| 0 <= k < idx ==> leq(#[trigger] out@[k], x),
            decreases out@.len() - idx,
        {
            idx = idx + 1;
        }
        proof {
            lemma_insert_ord_split(leq, out@, x, idx as int);
            assert(orig.take(done + 1).drop_last() =~= orig.take(done));
            assert(orig.take(done + 1).last() == orig[done]);
        }
        out.insert(idx, x);
        proof {
            assert(out@ =~= isort_by(leq, orig.take(done + 1)));
            done = done + 1;
        }
    }
    proof {
        assert(orig.take(done) =~= orig);
        lemma_isort_entries_view(orig);
        assert(out.deep_view() =~= entry_views(out@));
        assert(v.deep_view() =~= entry_views(orig));
    }
    out
}

/// What the cross-source reconciliation yields.  When the reference list
/// has entries for both halves with a positive share total and the adjusted
/// list has the combined entry, that entry is replaced by two entries whose
/// shares (and trends) divide the combined figure in proportion to the
/// reference shares; otherwise the list is unchanged.  The two split shares
/// always sum exactly to the combined share.
pub open spec fn spec_adjust_pypl(tiobe: Seq<EntryModel>, pypl: Seq<EntryModel>) -> Seq<
    EntryModel,
> {
    let c = find_entry(tiobe, "C"@);
    let cpp = find_entry(tiobe, "C++"@);
    let comb = find_entry(pypl, "C/C++"@);
    if c is None || cpp is None || comb is None {
        pypl
    } else {
        let total = c.unwrap().share + cpp.unwrap().share;
        if total <= 0 {
            pypl
        } else {
            isort_by(
                entry_le_fn(),
                remove_entry(pypl, "C/C++"@) + seq![
                    split_part(comb.unwrap(), cpp.unwrap().share, total, "C++"@),
                    remainder_part(comb.unwrap(), cpp.unwrap().share, total, "C"@),
                ],
            )
        }
    }
}

/// The half of the combined entry apportioned to `name` by `part / total`.
pub open spec fn split_part(comb: EntryModel, part: int, total: int, name: Seq<char>) -> EntryModel {
    EntryModel {
        lang: name,
        rank: comb.rank,
        share: trunc_div(comb.share * part, total),
        trend: match comb.trend {
            Some(t) => Some(trunc_div(t * part, total)),
            None => None,
        },
    }
}

/// The rest of the combined entry, so that the two halves sum exactly.
pub open spec fn remainder_part(comb: EntryModel, part: int, total: int, name: Seq<char>) -> EntryModel {
    EntryModel {
        lang: name,
        rank: comb.rank,
        share: comb.share - trunc_div(comb.share * part, total),
        trend: match comb.trend {
            Some(t) => Some(t - trunc_div(t * part, total)),
            None => None,
        },
    }
}

/// When the split happens, its two halves sum exactly to the combined
/// entry's share (and trend), and both carry the combined entry's rank;
/// when the reference total is zero, the list is returned unchanged.
pub proof fn lemma_adjust_pypl_split(tiobe: Seq<EntryModel>, pypl: Seq<EntryModel>)
    requires
        find_entry(tiobe, "C"@) is Some,
        find_entry(tiobe, "C++"@) is Some,
        find_entry(pypl, "C/C++"@) is Some,
    ensures
        ({
            let comb = find_entry(pypl, "C/C++"@).unwrap();
            let total = find_entry(tiobe, "C"@).unwrap().share + find_entry(
                tiobe,
                "C++"@,
            ).unwrap().share;
            let part = find_entry(tiobe, "C++"@).unwrap().share;
            if total <= 0 {
                spec_adjust_pypl(tiobe, pypl) == pypl
            } else {
                let cpp_half = split_part(comb, part, total, "C++"@);
                let c_half = remainder_part(comb, part, total, "C"@);
                &&& cpp_half.share + c_half.share == comb.share
                &&& cpp_half.rank == comb.rank && c_half.rank == comb.rank
                &&& spec_adjust_pypl(tiobe, pypl).to_multiset() =~= (remove_entry(pypl, "C/C++"@)
                    + seq![cpp_half, c_half]).to_multiset()
            }
        }),
{
    let comb = find_entry(pypl, "C/C++"@).unwrap();
    let total = find_entry(tiobe, "C"@).unwrap().share + find_entry(tiobe, "C++"@).unwrap().share;
    let part = find_entry(tiobe, "C++"@).unwrap().share;
    if total > 0 {
        crate::sortutil::lemma_isort_multiset(
            entry_le_fn(),
            remove_entry(pypl, "C/C++"@) + seq![
                split_part(comb, part, total, "C++"@),
                remainder_part(comb, part, total, "C"@),
            ],
        );
    }
}

/// Splits the combined `C/C++` entry of the adjusted list in proportion to
/// the reference list's separate `C` and `C++` shares; leaves the list
/// unchanged when either half is missing, the combined entry is missing, or
/// the reference shares sum to zero.
pub fn adjust_pypl_entries(tiobe: &Vec<RankingEntry>, pypl: &mut Vec<RankingEntry>)
    requires
        forall|k: int| 0 <= k < old(pypl)@.len() ==> (#[trigger] old(pypl)@[k]).share >= 0,
        forall|k: int| 0 <= k < tiobe@.len() ==> (#[trigger] tiobe@[k]).share >= 0,
    ensures
        final(pypl).deep_view() == spec_adjust_pypl(tiobe.deep_view(), old(pypl).deep_view()),
{
    let ghost tm = tiobe.deep_view();
    let ghost pm = old(pypl).deep_view();
    proof {
        reveal_strlit("C");
        reveal_strlit("C++");
        reveal_strlit("C/C++");
    }
    let c_share: i64;
    let cpp_share: i64;
    match crate::model::entry_for(tiobe, "C") {
        Some(e) => {
            c_share = e.share;
            proof {
                lemma_find_entry_share_nonneg(tm, "C"@, tiobe@);
            }
        },
        None => {
            return ;
        },
    }
    match crate::model::entry_for(tiobe, "C++") {
        Some(e) => {
            cpp_share = e.share;
            proof {
                lemma_find_entry_share_nonneg(tm, "C++"@, tiobe@);
            }
        },
        None => {
            return ;
        },
    }
    // locate the combined entry
    let mut pos: usize = 0;
    let n = pypl.len();
    while pos < n && !str_eq(pypl[pos].lang.as_str(), "C/C++")
        invariant
            pos <= n,
            n == pypl@.len(),
            pypl@ == old(pypl)@,
            forall|k: int| 0 <= k < pos ==> (#[trigger] pypl@[k]).lang@ != "C/C++"@,
        decreases n - pos,
    {
        pos = pos + 1;
    }
    if pos == n {
        proof {
            lemma_find_entry_none(pm, "C/C++"@, pypl@);
        }
        return ;
    }
    proof {
        lemma_find_entry_some(pm, "C/C++"@, pypl@, pos as int);
        lemma_remove_entry_at(pm, "C/C++"@, pos as int);
    }
    let combined = pypl.remove(pos);
    let ghost comb = combined.deep_view();
    proof {
        assert(pypl.deep_view() =~= remove_entry(pm, "C/C++"@));
        assert(find_entry(pm, "C/C++"@) == Some(comb));
    }
    let total: i128 = c_share as i128 + cpp_share as i128;
    if total <= 0 {
        pypl.insert(pos, combined);
        proof {
            assert(pypl.deep_view() =~= pm);
        }
        return ;
    }
    // apportion share and trend by cpp_share / total, remainder to C
    let cpp_part_share = scaled_part(combined.share, cpp_share, total);
    let c_part_share = combined.share - cpp_part_share;
    let (cpp_part_trend, c_part_trend): (Option<i64>, Option<i64>) = match combined.trend {
        Some(t) => {
            let tp = scaled_part(t, cpp_share, total);
            (Some(tp), Some(t - tp))
        },
        None => (None, None),
    };
    let ghost base = pypl.deep_view();
    let cpp_entry = RankingEntry {
        lang: String::from_str("C++"),
        rank: combined.rank,
        share: cpp_part_share,
        trend: cpp_part_trend,
    };
    let c_entry = RankingEntry {
        lang: String::from_str("C"),
        rank: combined.rank,
        share: c_part_share,
        trend: c_part_trend,
    };
    proof {
        assert(cpp_entry.deep_view() == split_part(comb, cpp_share as int, total as int, "C++"@));
        assert(c_entry.deep_view() == remainder_part(comb, cpp_share as int, total as int, "C"@));
    }
    let mut work: Vec<RankingEntry> = Vec::new();
    proof {
        assert(work.deep_view() =~= base.take(0));
        assert(pypl.deep_view() =~= base.skip(0));
    }
    // move the remaining entries over, then add the two halves
    while pypl.len() > 0
        invariant
            work.deep_view() == base.take(base.len() - pypl@.len()),
            pypl.deep_view() == base.skip(base.len() - pypl@.len()),
            base.len() >= pypl@.len(),
        decreases pypl@.len(),
    {
        let ghost w0 = work.deep_view();
        let ghost p0 = pypl.deep_view();
        let e = pypl.remove(0);
        work.push(e);
        proof {
            assert(work.deep_view() =~= w0.push(p0[0]));
            assert(pypl.deep_view() =~= p0.drop_first());
            assert(w0.push(p0[0]) =~= base.take(base.len() - pypl@.len()));
            assert(p0.drop_first() =~= base.skip(base.len() - pypl@.len()));
        }
    }
    proof {
        assert(work.deep_view() =~= base);
    }
    let ghost w1 = work.deep_view();
    work.push(cpp_entry);
    let ghost w2 = work.deep_view();
    work.push(c_entry);
    proof {
        assert(w2 =~= w1.push(split_part(comb, cpp_share as int, total as int, "C++"@)));
        assert(work.deep_view() =~= base + seq![
            split_part(comb, cpp_share as int, total as int, "C++"@),
            remainder_part(comb, cpp_share as int, total as int, "C"@),
        ]);
    }
    let sorted = sort_entries(work);
    *pypl = sorted;
    proof {
        assert(pypl.deep_view() == spec_adjust_pypl(tm, pm));
    }
}

/// `value * part / total`, truncated toward zero, computed without overflow.
fn scaled_part(value: i64, part: i64, total: i128) -> (r: i64)
    requires
        0 <= part,
        part as int <= total as int,
        total > 0,
    ensures
        r as int == trunc_div(value as int * part as int, total as int),
        value >= 0 ==> 0 <= r <= value,
        value < 0 ==> value <= r <= 0,
{
    let neg = value < 0;
    let mag: u128 = if neg {
        (-(value as i128)) as u128
    } else {
        value as u128
    };
    proof {
        vstd::arithmetic::mul::lemma_mul_upper_bound(
            mag as int,
            0x8000_0000_0000_0000,
            part as int,
            0x7fff_ffff_ffff_ffff,
        );
    }
    let num: u128 = mag * (part as u128);
    let den: u128 = total as u128;
    let q: u128 = num / den;
    proof {
        vstd::arithmetic::mul::lemma_mul_inequality(part as int, total as int, mag as int);
        vstd::arithmetic::mul::lemma_mul_is_commutative(mag as int, part as int);
        vstd::arithmetic::mul::lemma_mul_is_commutative(mag as int, total as int);
        vstd::arithmetic::div_mod::lemma_div_is_ordered(
            num as int,
            mag as int * total as int,
            total as int,
        );
        vstd::arithmetic::div_mod::lemma_div_by_multiple(mag as int, total as int);
        assert(q as int <= mag as int);
    }
    if neg {
        proof {
            vstd::arithmetic::mul::lemma_mul_unary_negation(value as int, part as int);
            vstd::arithmetic::mul::lemma_mul_nonnegative(mag as int, part as int);
            assert(num as int == (-(value as int)) * (part as int));
            assert((value as int) * (part as int) == -(num as int));
            if num as int == 0 {
                assert(trunc_div(value as int * part as int, total as int) == -(q as int));
            } else {
                assert((value as int) * (part as int) < 0);
                assert(trunc_div(value as int * part as int, total as int) == -(q as int));
            }
        }
        if q >= 0x8000_0000_0000_0000u128 {
            i64::MIN
        } else {
            -(q as i64)
        }
    } else {
        proof {
            vstd::arithmetic::mul::lemma_mul_nonnegative(value as int, part as int);
        }
        q as i64
    }
}

pub(crate) proof fn lemma_find_entry_share_nonneg(s: Seq<EntryModel>, name: Seq<char>, v: Seq<RankingEntry>)
    requires
        s.len() == v.len(),
        forall|k: int| 0 <= k < v.len() ==> #[trigger] s[k] == v[k].deep_view(),
        forall|k: int| 0 <= k < v.len() ==> (#[trigger] v[k]).share >= 0,
        find_entry(s, name) is Some,
    ensures
        find_entry(s, name).unwrap().share >= 0,
    decreases s.len(),
{
    if s.len() > 0 {
        if s[0].lang == name {
            assert(s[0] == v[0].deep_view());
        } else {
            let s2 = s.drop_first();
            let v2 = v.drop_first();
            assert forall|k: int| 0 <= k < v2.len() implies #[trigger] s2[k] == v2[k].deep_view()
                && v2[k].share >= 0 by {
                assert(s2[k] == s[k + 1]);
                assert(v2[k] == v[k + 1]);
            }
            lemma_find_entry_share_nonneg(s2, name, v2);
        }
    }
}

proof fn lemma_find_entry_none(s: Seq<EntryModel>, name: Seq<char>, v: Seq<RankingEntry>)
    requires
        s.len() == v.len(),
        forall|k: int| 0 <= k < v.len() ==> #[trigger] s[k] == v[k].deep_view(),
        forall|k: int| 0 <= k < v.len() ==> (#[trigger] v[k]).lang@ != name,
    ensures
        find_entry(s, name) is None,
    decreases s.len(),
{
    if s.len() > 0 {
        assert(s[0].lang == v[0].lang@);
        lemma_find_entry_none(s.drop_first(), name, v.drop_first());
    }
}

proof fn lemma_find_entry_some(s: Seq<EntryModel>, name: Seq<char>, v: Seq<RankingEntry>, i: int)
    requires
        s.len() == v.len(),
        forall|k: int| 0 <= k < v.len() ==> #[trigger] s[k] == v[k].deep_view(),
        0 <= i < v.len(),
        forall|k: int| 0 <= k < i ==> (#[trigger] v[k]).lang@ != name,
        v[i].lang@ == name,
    ensures
        find_entry(s, name) == Some(s[i]),
    decreases s.len(),
{
    if i == 0 {
        assert(s[0].lang == v[0].lang@);
    } else {
        assert(s[0].lang == v[0].lang@);
        lemma_find_entry_some(s.drop_first(), name, v.drop_first(), i - 1);
    }
}

/// Clamps a wide sum into the `i64` range.
fn clamp_exec(x: i128) -> (r: i64)
    ensures
        r as int == clamp_i64(x as int),
{
    if x > i64::MAX as i128 {
        i64::MAX
    } else if x < i64::MIN as i128 {
        i64::MIN
    } else {
        x as i64
    }
}

} // verus!
