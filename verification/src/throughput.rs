//! The secondary performance signal: a composite throughput score per
//! language from framework benchmark runs.
//!
//! Each run reports total requests and a time window for one framework on
//! one test category.  Per category and framework the best requests-per-
//! second figure is kept; a framework present in every category gets a
//! composite: its per-category figures normalised by the category maximum,
//! weighted, and summed.  A language scores the best composite among its
//! frameworks.

use vstd::prelude::*;
use crate::model::{ScoreEntry, ScoreModel, RunError};
use crate::canon::{spec_canonicalize, canonicalize_language};
use crate::sortutil::{
    isort_by, seqchar_le_fn, dedup_sorted, views_of, sort_strings, dedup_strings,
    lemma_isort_strings_view,
};
use crate::strutil::str_eq;
use crate::schulze::max64;

verus! {

/// The composite's total weight, in millionths: what a framework that tops
/// every test category would score.
pub const TECHEMPOWER_MAX_SCORE: u64 = 6_000_000;

/// One benchmark run of one framework on one test category.
pub struct ThroughputRun {
    /// The test category name.
    pub test: String,
    /// The framework name.
    pub framework: String,
    /// How many requests the run completed.
    pub total_requests: u64,
    /// The start of the run's time window, in milliseconds.
    pub start_ms: u64,
    /// The end of the run's time window, in milliseconds.
    pub end_ms: u64,
}

/// The ghost model of a run.
pub ghost struct RunModel {
    pub test: Seq<char>,
    pub framework: Seq<char>,
    pub total_requests: u64,
    pub start_ms: u64,
    pub end_ms: u64,
}

impl DeepView for ThroughputRun {
    type V = RunModel;

    open spec fn deep_view(&self) -> RunModel {
        RunModel {
            test: self.test@,
            framework: self.framework@,
            total_requests: self.total_requests,
            start_ms: self.start_ms,
            end_ms: self.end_ms,
        }
    }
}

/// Which language implements a framework, as the source's metadata states.
pub struct FrameworkLang {
    /// The framework name.
    pub framework: String,
    /// The language label, as the source printed it.
    pub language: String,
}

/// The ghost model of a metadata entry.
pub ghost struct FrameworkLangModel {
    pub framework: Seq<char>,
    pub language: Seq<char>,
}

impl DeepView for FrameworkLang {
    type V = FrameworkLangModel;

    open spec fn deep_view(&self) -> FrameworkLangModel {
        FrameworkLangModel { framework: self.framework@, language: self.language@ }
    }
}

/// The name of test category `i` of the six.
pub open spec fn test_name(i: int) -> Seq<char> {
    if i == 0 {
        "json"@
    } else if i == 1 {
        "plaintext"@
    } else if i == 2 {
        "db"@
    } else if i == 3 {
        "query"@
    } else if i == 4 {
        "fortune"@
    } else {
        "update"@
    }
}

/// The weight of test category `i`, in millionths.
pub open spec fn weight_of(i: int) -> u64 {
    if i == 0 {
        1_000_000u64
    } else if i == 1 {
        750_000u64
    } else if i == 2 {
        750_000u64
    } else if i == 3 {
        750_000u64
    } else if i == 4 {
        1_500_000u64
    } else {
        1_250_000u64
    }
}

/// A run's requests-per-second figure in millionths, zero when the run is
/// unusable (no requests, or an empty time window), clamped into `u64`.
pub open spec fn run_rps(r: RunModel) -> u64 {
    if r.total_requests > 0 && r.end_ms > r.start_ms {
        let v = (r.total_requests as int) * 1_000_000_000 / (r.end_ms - r.start_ms);
        if v > u64::MAX as int {
            u64::MAX
        } else {
            v as u64
        }
    } else {
        0u64
    }
}

/// The best figure of one framework on one test category.
pub open spec fn fw_test_rps(rs: Seq<RunModel>, test: Seq<char>, fw: Seq<char>) -> u64
    decreases rs.len(),
{
    if rs.len() == 0 {
        0u64
    } else {
        let rest = fw_test_rps(rs.drop_first(), test, fw);
        if rs[0].test == test && rs[0].framework == fw && run_rps(rs[0]) > rest {
            run_rps(rs[0])
        } else {
            rest
        }
    }
}

/// The best figure of any framework on one test category.
pub open spec fn test_max_of(rs: Seq<RunModel>, test: Seq<char>) -> u64
    decreases rs.len(),
{
    if rs.len() == 0 {
        0u64
    } else {
        let rest = test_max_of(rs.drop_first(), test);
        if rs[0].test == test && run_rps(rs[0]) > rest {
            run_rps(rs[0])
        } else {
            rest
        }
    }
}

/// Whether a framework has a usable figure in every test category.
pub open spec fn fw_present_all(rs: Seq<RunModel>, fw: Seq<char>) -> bool {
    forall|i: int| 0 <= i < 6 ==> fw_test_rps(rs, #[trigger] test_name(i), fw) > 0
}

/// One weighted, normalised term of a framework's composite.
pub open spec fn composite_term(rs: Seq<RunModel>, fw: Seq<char>, i: int) -> u64 {
    let tmax = test_max_of(rs, test_name(i));
    if tmax == 0 {
        0u64
    } else {
        let ratio = (fw_test_rps(rs, test_name(i), fw) as int) * 1_000_000 / (tmax as int);
        ((ratio * (weight_of(i) as int)) / 1_000_000) as u64
    }
}

/// The composite of a framework: the sum of its six weighted terms.
pub open spec fn composite_upto(rs: Seq<RunModel>, fw: Seq<char>, i: int) -> int
    decreases i,
{
    if i <= 0 {
        0
    } else {
        composite_upto(rs, fw, i - 1) + composite_term(rs, fw, i - 1)
    }
}

/// The composite of a framework over all six categories.
pub open spec fn composite_of(rs: Seq<RunModel>, fw: Seq<char>) -> int {
    composite_upto(rs, fw, 6)
}

/// The language of a framework: the first metadata entry for it whose
/// label canonicalizes.
pub open spec fn lang_of_fw(meta: Seq<FrameworkLangModel>, fw: Seq<char>) -> Option<Seq<char>>
    decreases meta.len(),
{
    if meta.len() == 0 {
        None
    } else if meta[0].framework == fw && spec_canonicalize(meta[0].language) is Some {
        Some(spec_canonicalize(meta[0].language).unwrap())
    } else {
        lang_of_fw(meta.drop_first(), fw)
    }
}

/// Whether a framework contributes: present everywhere, with a positive
/// composite and a known language.
pub open spec fn fw_counts(rs: Seq<RunModel>, meta: Seq<FrameworkLangModel>, fw: Seq<char>) -> bool {
    fw_present_all(rs, fw) && composite_of(rs, fw) > 0 && lang_of_fw(meta, fw) is Some
}

/// The framework names of the runs, with duplicates.
pub open spec fn run_fw_names(rs: Seq<RunModel>) -> Seq<Seq<char>> {
    rs.map_values(|r: RunModel| r.framework)
}

/// The distinct framework names, in name order.
pub open spec fn fw_pool(rs: Seq<RunModel>) -> Seq<Seq<char>> {
    dedup_sorted(isort_by(seqchar_le_fn(), run_fw_names(rs)))
}

/// The best composite among the contributing frameworks of one language,
/// walking the framework pool.
pub open spec fn lang_best_upto(
    rs: Seq<RunModel>,
    meta: Seq<FrameworkLangModel>,
    pool: Seq<Seq<char>>,
    lang: Seq<char>,
) -> int
    decreases pool.len(),
{
    if pool.len() == 0 {
        0
    } else {
        let rest = lang_best_upto(rs, meta, pool.drop_first(), lang);
        if fw_counts(rs, meta, pool[0]) && lang_of_fw(meta, pool[0]) == Some(lang)
            && composite_of(rs, pool[0]) > rest {
            composite_of(rs, pool[0])
        } else {
            rest
        }
    }
}

/// The languages of the contributing frameworks, with duplicates, in pool
/// order.
pub open spec fn counted_langs(
    rs: Seq<RunModel>,
    meta: Seq<FrameworkLangModel>,
    pool: Seq<Seq<char>>,
) -> Seq<Seq<char>>
    decreases pool.len(),
{
    if pool.len() == 0 {
        Seq::empty()
    } else if fw_counts(rs, meta, pool[0]) {
        seq![lang_of_fw(meta, pool[0]).unwrap()] + counted_langs(rs, meta, pool.drop_first())
    } else {
        counted_langs(rs, meta, pool.drop_first())
    }
}

/// The first of the six test categories with no usable figure, if any.
pub open spec fn spec_te_missing(rs: Seq<RunModel>) -> Option<int> {
    if test_max_of(rs, test_name(0)) == 0 {
        Some(0int)
    } else if test_max_of(rs, test_name(1)) == 0 {
        Some(1int)
    } else if test_max_of(rs, test_name(2)) == 0 {
        Some(2int)
    } else if test_max_of(rs, test_name(3)) == 0 {
        Some(3int)
    } else if test_max_of(rs, test_name(4)) == 0 {
        Some(4int)
    } else if test_max_of(rs, test_name(5)) == 0 {
        Some(5int)
    } else {
        None
    }
}

/// What the throughput source reduces to: one best composite per language,
/// languages in name order.
pub open spec fn spec_te_scores(rs: Seq<RunModel>, meta: Seq<FrameworkLangModel>) -> Seq<
    ScoreModel,
> {
    let pool = fw_pool(rs);
    let langs = dedup_sorted(isort_by(seqchar_le_fn(), counted_langs(rs, meta, pool)));
    langs.map_values(
        |l: Seq<char>|
            ScoreModel { lang: l, value: lang_best_upto(rs, meta, pool, l) as u64 },
    )
}


/// The larger of two composites.
pub open spec fn imax(a: int, b: int) -> int {
    if a >= b {
        a
    } else {
        b
    }
}

proof fn lemma_lang_best_nonneg(
    rs: Seq<RunModel>,
    meta: Seq<FrameworkLangModel>,
    pool: Seq<Seq<char>>,
    lang: Seq<char>,
)
    ensures
        lang_best_upto(rs, meta, pool, lang) >= 0,
    decreases pool.len(),
{
    if pool.len() > 0 {
        lemma_lang_best_nonneg(rs, meta, pool.drop_first(), lang);
    }
}

/// A framework's best figure never beats the category's best figure.
proof fn lemma_fw_le_tmax(rs: Seq<RunModel>, test: Seq<char>, fw: Seq<char>)
    ensures
        fw_test_rps(rs, test, fw) <= test_max_of(rs, test),
    decreases rs.len(),
{
    if rs.len() > 0 {
        lemma_fw_le_tmax(rs.drop_first(), test, fw);
    }
}

/// Computes a run's requests-per-second figure.
fn run_rps_exec(r: &ThroughputRun) -> (v: u64)
    ensures
        v == run_rps(r.deep_view()),
{
    if r.total_requests > 0 && r.end_ms > r.start_ms {
        let num: u128 = (r.total_requests as u128) * 1_000_000_000u128;
        let w: u128 = num / ((r.end_ms - r.start_ms) as u128);
        if w > u64::MAX as u128 {
            u64::MAX
        } else {
            w as u64
        }
    } else {
        0
    }
}

/// Finds a framework's best figure on one test category.
fn fw_test_rps_exec(runs: &Vec<ThroughputRun>, test: &str, fw: &str) -> (r: u64)
    ensures
        r == fw_test_rps(runs.deep_view(), test@, fw@),
{
    let ghost rm = runs.deep_view();
    let mut acc: u64 = 0;
    let mut i: usize = 0;
    proof {
        assert(rm.skip(0) =~= rm);
    }
    while i < runs.len()
        invariant
            i <= runs@.len(),
            rm == runs.deep_view(),
            rm.len() == runs@.len(),
            fw_test_rps(rm, test@, fw@) == max64(acc, fw_test_rps(rm.skip(i as int), test@, fw@)),
        decreases runs@.len() - i,
    {
        proof {
            assert(rm.skip(i as int)[0] == rm[i as int]);
            assert(rm.skip(i as int).drop_first() =~= rm.skip(i + 1));
            assert(rm[i as int] == runs@[i as int].deep_view());
        }
        if str_eq(runs[i].test.as_str(), test) && str_eq(runs[i].framework.as_str(), fw) {
            let v = run_rps_exec(&runs[i]);
            if v > acc {
                acc = v;
            }
        }
        i = i + 1;
    }
    proof {
        assert(rm.skip(i as int) =~= Seq::<RunModel>::empty());
    }
    acc
}

/// Finds the best figure on one test category across all frameworks.
fn test_max_exec(runs: &Vec<ThroughputRun>, test: &str) -> (r: u64)
    ensures
        r == test_max_of(runs.deep_view(), test@),
{
    let ghost rm = runs.deep_view();
    let mut acc: u64 = 0;
    let mut i: usize = 0;
    proof {
        assert(rm.skip(0) =~= rm);
    }
    while i < runs.len()
        invariant
            i <= runs@.len(),
            rm == runs.deep_view(),
            rm.len() == runs@.len(),
            test_max_of(rm, test@) == max64(acc, test_max_of(rm.skip(i as int), test@)),
        decreases runs@.len() - i,
    {
        proof {
            assert(rm.skip(i as int)[0] == rm[i as int]);
            assert(rm.skip(i as int).drop_first() =~= rm.skip(i + 1));
            assert(rm[i as int] == runs@[i as int].deep_view());
        }
        if str_eq(runs[i].test.as_str(), test) {
            let v = run_rps_exec(&runs[i]);
            if v > acc {
                acc = v;
            }
        }
        i = i + 1;
    }
    proof {
        assert(rm.skip(i as int) =~= Seq::<RunModel>::empty());
    }
    acc
}

/// The name of test category `i`, for looking runs up.
fn test_name_exec(i: usize) -> (r: &'static str)
    requires
        i < 6,
    ensures
        r@ == test_name(i as int),
{
    if i == 0 {
        "json"
    } else if i == 1 {
        "plaintext"
    } else if i == 2 {
        "db"
    } else if i == 3 {
        "query"
    } else if i == 4 {
        "fortune"
    } else {
        "update"
    }
}

/// One weighted, normalised composite term.
fn composite_term_exec(runs: &Vec<ThroughputRun>, fw: &str, i: usize) -> (r: u64)
    requires
        i < 6,
    ensures
        r == composite_term(runs.deep_view(), fw@, i as int),
        r <= weight_of(i as int),
{
    let ghost rm = runs.deep_view();
    let name = test_name_exec(i);
    let tmax = test_max_exec(runs, name);
    if tmax == 0 {
        return 0;
    }
    let rps = fw_test_rps_exec(runs, name, fw);
    let w: u64 = if i == 0 {
        1_000_000
    } else if i == 1 {
        750_000
    } else if i == 2 {
        750_000
    } else if i == 3 {
        750_000
    } else if i == 4 {
        1_500_000
    } else {
        1_250_000
    };
    proof {
        lemma_fw_le_tmax(rm, test_name(i as int), fw@);
        vstd::arithmetic::mul::lemma_mul_inequality(rps as int, tmax as int, 1_000_000);
        vstd::arithmetic::mul::lemma_mul_is_commutative(rps as int, 1_000_000);
        vstd::arithmetic::mul::lemma_mul_is_commutative(tmax as int, 1_000_000);
        vstd::arithmetic::div_mod::lemma_div_is_ordered(
            (rps as int) * 1_000_000,
            (tmax as int) * 1_000_000,
            tmax as int,
        );
        vstd::arithmetic::div_mod::lemma_div_by_multiple(1_000_000, tmax as int);
        vstd::arithmetic::mul::lemma_mul_is_commutative(1_000_000, tmax as int);
    }
    let ratio: u128 = (rps as u128) * 1_000_000u128 / (tmax as u128);
    proof {
        assert(ratio as int <= 1_000_000);
        vstd::arithmetic::mul::lemma_mul_inequality(ratio as int, 1_000_000, w as int);
        vstd::arithmetic::mul::lemma_mul_is_commutative(ratio as int, w as int);
        vstd::arithmetic::mul::lemma_mul_is_commutative(1_000_000, w as int);
        vstd::arithmetic::div_mod::lemma_div_is_ordered(
            (ratio as int) * (w as int),
            1_000_000 * (w as int),
            1_000_000,
        );
        vstd::arithmetic::div_mod::lemma_div_by_multiple(w as int, 1_000_000);
        vstd::arithmetic::mul::lemma_mul_is_commutative(w as int, 1_000_000);
    }
    let term: u128 = ratio * (w as u128) / 1_000_000u128;
    proof {
        assert(term as int <= w as int);
    }
    term as u64
}

/// A framework's composite over the six categories.
fn composite_exec(runs: &Vec<ThroughputRun>, fw: &str) -> (r: u64)
    ensures
        r as int == composite_of(runs.deep_view(), fw@),
        r <= TECHEMPOWER_MAX_SCORE,
{
    let ghost rm = runs.deep_view();
    let t0 = composite_term_exec(runs, fw, 0);
    let t1 = composite_term_exec(runs, fw, 1);
    let t2 = composite_term_exec(runs, fw, 2);
    let t3 = composite_term_exec(runs, fw, 3);
    let t4 = composite_term_exec(runs, fw, 4);
    let t5 = composite_term_exec(runs, fw, 5);
    proof {
        assert(composite_upto(rm, fw@, 0) == 0);
        assert(composite_upto(rm, fw@, 1) == t0);
        assert(composite_upto(rm, fw@, 2) == t0 + t1);
        assert(composite_upto(rm, fw@, 3) == t0 + t1 + t2);
        assert(composite_upto(rm, fw@, 4) == t0 + t1 + t2 + t3);
        assert(composite_upto(rm, fw@, 5) == t0 + t1 + t2 + t3 + t4);
        assert(composite_upto(rm, fw@, 6) == t0 + t1 + t2 + t3 + t4 + t5);
    }
    t0 + t1 + t2 + t3 + t4 + t5
}

/// The language of a framework, when its metadata label canonicalizes.
fn lang_of_fw_exec(meta: &Vec<FrameworkLang>, fw: &str) -> (r: Option<String>)
    ensures
        match r {
            Some(l) => lang_of_fw(meta.deep_view(), fw@) == Some(l@),
            None => lang_of_fw(meta.deep_view(), fw@) is None,
        },
{
    let ghost mm = meta.deep_view();
    let mut i: usize = 0;
    proof {
        assert(mm.skip(0) =~= mm);
    }
    while i < meta.len()
        invariant
            i <= meta@.len(),
            mm == meta.deep_view(),
            mm.len() == meta@.len(),
            lang_of_fw(mm, fw@) == lang_of_fw(mm.skip(i as int), fw@),
        decreases meta@.len() - i,
    {
        proof {
            assert(mm.skip(i as int)[0] == mm[i as int]);
            assert(mm.skip(i as int).drop_first() =~= mm.skip(i + 1));
            assert(mm[i as int] == meta@[i as int].deep_view());
        }
        if str_eq(meta[i].framework.as_str(), fw) {
            match canonicalize_language(meta[i].language.as_str()) {
                Some(l) => {
                    return Some(l);
                },
                None => {},
            }
        }
        i = i + 1;
    }
    proof {
        assert(mm.skip(i as int) =~= Seq::<FrameworkLangModel>::empty());
    }
    None
}

/// Whether a framework contributes a composite.
fn fw_counts_exec(runs: &Vec<ThroughputRun>, meta: &Vec<FrameworkLang>, fw: &str) -> (r: bool)
    ensures
        r == fw_counts(runs.deep_view(), meta.deep_view(), fw@),
{
    let ghost rm = runs.deep_view();
    let p0 = fw_test_rps_exec(runs, "json", fw) > 0;
    let p1 = fw_test_rps_exec(runs, "plaintext", fw) > 0;
    let p2 = fw_test_rps_exec(runs, "db", fw) > 0;
    let p3 = fw_test_rps_exec(runs, "query", fw) > 0;
    let p4 = fw_test_rps_exec(runs, "fortune", fw) > 0;
    let p5 = fw_test_rps_exec(runs, "update", fw) > 0;
    let present = p0 && p1 && p2 && p3 && p4 && p5;
    proof {
        assert(present == fw_present_all(rm, fw@)) by {
            if present {
                assert forall|i: int| 0 <= i < 6 implies fw_test_rps(
                    rm,
                    #[trigger] test_name(i),
                    fw@,
                ) > 0 by {
                    if i == 0 {
                    } else if i == 1 {
                    } else if i == 2 {
                    } else if i == 3 {
                    } else if i == 4 {
                    } else {
                    }
                }
            } else {
                if !p0 {
                    assert(test_name(0) == "json"@);
                } else if !p1 {
                    assert(test_name(1) == "plaintext"@);
                } else if !p2 {
                    assert(test_name(2) == "db"@);
                } else if !p3 {
                    assert(test_name(3) == "query"@);
                } else if !p4 {
                    assert(test_name(4) == "fortune"@);
                } else {
                    assert(test_name(5) == "update"@);
                }
            }
        };
    }
    if !present {
        return false;
    }
    let c = composite_exec(runs, fw);
    if c == 0 {
        return false;
    }
    lang_of_fw_exec(meta, fw).is_some()
}

/// The best composite among one language's contributing frameworks.
fn lang_best_exec(
    runs: &Vec<ThroughputRun>,
    meta: &Vec<FrameworkLang>,
    pool: &Vec<String>,
    lang: &str,
) -> (r: u64)
    ensures
        r as int == lang_best_upto(runs.deep_view(), meta.deep_view(), views_of(pool@), lang@),
        r <= TECHEMPOWER_MAX_SCORE,
{
    let ghost rm = runs.deep_view();
    let ghost mm = meta.deep_view();
    let ghost pm = views_of(pool@);
    let mut acc: u64 = 0;
    let mut i: usize = 0;
    proof {
        assert(pm.skip(0) =~= pm);
        lemma_lang_best_nonneg(rm, mm, pm, lang@);
    }
    while i < pool.len()
        invariant
            i <= pool@.len(),
            rm == runs.deep_view(),
            mm == meta.deep_view(),
            pm == views_of(pool@),
            pm.len() == pool@.len(),
            acc <= TECHEMPOWER_MAX_SCORE,
            lang_best_upto(rm, mm, pm, lang@) == imax(
                acc as int,
                lang_best_upto(rm, mm, pm.skip(i as int), lang@),
            ),
        decreases pool@.len() - i,
    {
        proof {
            assert(pm.skip(i as int)[0] == pm[i as int]);
            assert(pm.skip(i as int).drop_first() =~= pm.skip(i + 1));
            assert(pm[i as int] == pool@[i as int]@);
            lemma_lang_best_nonneg(rm, mm, pm.skip(i + 1), lang@);
        }
        let fw = pool[i].as_str();
        if fw_counts_exec(runs, meta, fw) {
            let take_it = match lang_of_fw_exec(meta, fw) {
                Some(l) => str_eq(l.as_str(), lang),
                None => false,
            };
            if take_it {
                let c = composite_exec(runs, fw);
                if c > acc {
                    acc = c;
                }
            }
        }
        i = i + 1;
    }
    proof {
        assert(pm.skip(i as int) =~= Seq::<Seq<char>>::empty());
    }
    acc
}

/// Reduces the framework runs to one composite score per language.  Fails
/// when one of the six test categories has no usable run (naming the first
/// such category), or when no language gets a score at all.
pub fn compute_language_scores(runs: &Vec<ThroughputRun>, metadata: &Vec<FrameworkLang>) -> (r:
    Result<Vec<ScoreEntry>, RunError>)
    ensures
        r is Ok <==> (spec_te_missing(runs.deep_view()) is None && spec_te_scores(
            runs.deep_view(),
            metadata.deep_view(),
        ).len() > 0),
        r matches Ok(v) ==> v.deep_view() == spec_te_scores(
            runs.deep_view(),
            metadata.deep_view(),
        ),
        r matches Err(e) ==> (match spec_te_missing(runs.deep_view()) {
            Some(i) => e matches RunError::MissingTest(nm) && nm@ == test_name(i),
            None => e == RunError::NoScores,
        }),
{
    let ghost rm = runs.deep_view();
    let ghost mm = metadata.deep_view();
    if test_max_exec(runs, "json") == 0 {
        return Err(RunError::MissingTest(String::from_str("json")));
    }
    if test_max_exec(runs, "plaintext") == 0 {
        return Err(RunError::MissingTest(String::from_str("plaintext")));
    }
    if test_max_exec(runs, "db") == 0 {
        return Err(RunError::MissingTest(String::from_str("db")));
    }
    if test_max_exec(runs, "query") == 0 {
        return Err(RunError::MissingTest(String::from_str("query")));
    }
    if test_max_exec(runs, "fortune") == 0 {
        return Err(RunError::MissingTest(String::from_str("fortune")));
    }
    if test_max_exec(runs, "update") == 0 {
        return Err(RunError::MissingTest(String::from_str("update")));
    }
    // the distinct framework names, in name order
    let mut names: Vec<String> = Vec::new();
    let mut i: usize = 0;
    proof {
        assert(views_of(names@) =~= run_fw_names(rm).take(0));
    }
    while i < runs.len()
        invariant
            i <= runs@.len(),
            rm == runs.deep_view(),
            rm.len() == runs@.len(),
            views_of(names@) == run_fw_names(rm).take(i as int),
        decreases runs@.len() - i,
    {
        proof {
            assert(rm[i as int] == runs@[i as int].deep_view());
        }
        let ghost n0 = names@;
        names.push(String::from_str(runs[i].framework.as_str()));
        proof {
            assert(views_of(names@) =~= views_of(n0).push(run_fw_names(rm)[i as int]));
            assert(views_of(names@) =~= run_fw_names(rm).take(i + 1));
        }
        i = i + 1;
    }
    proof {
        assert(run_fw_names(rm).take(i as int) =~= run_fw_names(rm));
    }
    let ghost collected = names@;
    let sorted = sort_strings(names);
    proof {
        lemma_isort_strings_view(collected);
    }
    let pool = dedup_strings(&sorted);
    let ghost pm = fw_pool(rm);
    proof {
        assert(views_of(pool@) == pm);
    }
    // the languages of the contributing frameworks
    let mut langs_dup: Vec<String> = Vec::new();
    let mut k: usize = 0;
    proof {
        assert(pm.skip(0) =~= pm);
        assert(views_of(langs_dup@) + counted_langs(rm, mm, pm.skip(0)) =~= counted_langs(
            rm,
            mm,
            pm,
        ));
    }
    while k < pool.len()
        invariant
            k <= pool@.len(),
            rm == runs.deep_view(),
            mm == metadata.deep_view(),
            views_of(pool@) == pm,
            pm.len() == pool@.len(),
            counted_langs(rm, mm, pm) == views_of(langs_dup@) + counted_langs(
                rm,
                mm,
                pm.skip(k as int),
            ),
        decreases pool@.len() - k,
    {
        proof {
            assert(pm.skip(k as int)[0] == pm[k as int]);
            assert(pm.skip(k as int).drop_first() =~= pm.skip(k + 1));
            assert(pm[k as int] == pool@[k as int]@);
        }
        let fw = pool[k].as_str();
        if fw_counts_exec(runs, metadata, fw) {
            match lang_of_fw_exec(metadata, fw) {
                Some(l) => {
                    let ghost d0 = langs_dup@;
                    langs_dup.push(l);
                    proof {
                        assert(views_of(langs_dup@) =~= views_of(d0).push(
                            lang_of_fw(mm, pm[k as int]).unwrap(),
                        ));
                        assert(views_of(d0).push(lang_of_fw(mm, pm[k as int]).unwrap())
                            + counted_langs(rm, mm, pm.skip(k + 1)) =~= views_of(d0) + (seq![
                            lang_of_fw(mm, pm[k as int]).unwrap(),
                        ] + counted_langs(rm, mm, pm.skip(k + 1))));
                    }
                },
                None => {
                    proof {
                        assert(false);
                    }
                },
            }
        }
        k = k + 1;
    }
    proof {
        assert(pm.skip(k as int) =~= Seq::<Seq<char>>::empty());
        assert(views_of(langs_dup@) + Seq::<Seq<char>>::empty() =~= views_of(langs_dup@));
    }
    let ghost lcollected = langs_dup@;
    let lsorted = sort_strings(langs_dup);
    proof {
        lemma_isort_strings_view(lcollected);
    }
    let langs = dedup_strings(&lsorted);
    let ghost lm = dedup_sorted(isort_by(seqchar_le_fn(), counted_langs(rm, mm, pm)));
    proof {
        assert(views_of(langs@) == lm);
    }
    if langs.len() == 0 {
        return Err(RunError::NoScores);
    }
    let mut out: Vec<ScoreEntry> = Vec::new();
    let mut w: usize = 0;
    proof {
        assert(out.deep_view() =~= spec_te_scores(rm, mm).take(0));
    }
    while w < langs.len()
        invariant
            w <= langs@.len(),
            rm == runs.deep_view(),
            mm == metadata.deep_view(),
            views_of(pool@) == pm,
            pm == fw_pool(rm),
            views_of(langs@) == lm,
            lm == dedup_sorted(isort_by(seqchar_le_fn(), counted_langs(rm, mm, pm))),
            lm.len() == langs@.len(),
            out.deep_view() == spec_te_scores(rm, mm).take(w as int),
        decreases langs@.len() - w,
    {
        proof {
            assert(lm[w as int] == langs@[w as int]@);
        }
        let value = lang_best_exec(runs, metadata, &pool, langs[w].as_str());
        let entry = ScoreEntry { lang: String::from_str(langs[w].as_str()), value };
        let ghost o0 = out.deep_view();
        out.push(entry);
        proof {
            assert(out.deep_view() =~= o0.push(entry.deep_view()));
            assert(out.deep_view() =~= spec_te_scores(rm, mm).take(w + 1));
        }
        w = w + 1;
    }
    proof {
        assert(spec_te_scores(rm, mm).take(w as int) =~= spec_te_scores(rm, mm));
    }
    Ok(out)
}

} // verus!
