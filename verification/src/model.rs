//! The data model of the pipeline.
//!
//! Shares, trends and scores are carried in millionths of a unit (see
//! [`crate::MICRO`]); each executable type has a ghost model over `Seq` and
//! `int` that the contracts speak about.

use vstd::prelude::*;

verus! {

/// One observed row from one source, as the collaborators hand it in.
#[derive(Clone, Debug, PartialEq)]
pub struct RawEntry {
    /// The language label exactly as the source printed it.
    pub lang: String,
    /// The rank the source gave the row, when it gave one.
    pub rank: Option<u32>,
    /// The share of the row, in millionths of a percent point.
    pub share: i64,
    /// The trend of the row, in millionths, when the source reported one.
    pub trend: Option<i64>,
}

/// The ghost model of a raw entry.
pub ghost struct RawModel {
    pub lang: Seq<char>,
    pub rank: Option<u32>,
    pub share: int,
    pub trend: Option<int>,
}

impl DeepView for RawEntry {
    type V = RawModel;

    open spec fn deep_view(&self) -> RawModel {
        RawModel {
            lang: self.lang@,
            rank: self.rank,
            share: self.share as int,
            trend: match self.trend {
                Some(t) => Some(t as int),
                None => None,
            },
        }
    }
}

/// One language of one source after aggregation: canonical name, best rank,
/// summed share and trend.
#[derive(Clone, Debug, PartialEq)]
pub struct RankingEntry {
    /// The canonical language name.
    pub lang: String,
    /// The best (smallest) rank any contributing row had, if any had one.
    pub rank: Option<u32>,
    /// The summed share, in millionths of a percent point.
    pub share: i64,
    /// The summed trend, in millionths, absent when no row reported one.
    pub trend: Option<i64>,
}

/// The ghost model of a ranking entry.
pub ghost struct EntryModel {
    pub lang: Seq<char>,
    pub rank: Option<u32>,
    pub share: int,
    pub trend: Option<int>,
}

impl DeepView for RankingEntry {
    type V = EntryModel;

    open spec fn deep_view(&self) -> EntryModel {
        EntryModel {
            lang: self.lang@,
            rank: self.rank,
            share: self.share as int,
            trend: match self.trend {
                Some(t) => Some(t as int),
                None => None,
            },
        }
    }
}

/// One language's value in a performance signal, in millionths.
#[derive(Clone, Debug, PartialEq)]
pub struct ScoreEntry {
    /// The canonical language name.
    pub lang: String,
    /// The score, in millionths of a unit.
    pub value: u64,
}

/// The ghost model of a score entry.
pub ghost struct ScoreModel {
    pub lang: Seq<char>,
    pub value: u64,
}

impl DeepView for ScoreEntry {
    type V = ScoreModel;

    open spec fn deep_view(&self) -> ScoreModel {
        ScoreModel { lang: self.lang@, value: self.value }
    }
}

/// One line of the final ranking.
#[derive(Clone, Debug, PartialEq)]
pub struct SchulzeRecord {
    /// The 1-based position in the final order.
    pub position: usize,
    /// The canonical language name.
    pub lang: String,
    pub tiobe_rank: Option<u32>,
    /// TIOBE share in millionths of a percent point, 0 when absent.
    pub tiobe_share: i64,
    pub tiobe_trend: Option<i64>,
    pub pypl_rank: Option<u32>,
    /// PYPL share in millionths of a percent point, 0 when absent.
    pub pypl_share: i64,
    pub pypl_trend: Option<i64>,
    pub languish_rank: Option<u32>,
    /// Languish share in millionths of a percent point, 0 when absent.
    pub languish_share: i64,
    pub languish_trend: Option<i64>,
    /// The benchmark speed score in millionths, absent without data.
    pub benchmark_score: Option<u64>,
    /// The throughput composite in millionths, absent without data.
    pub techempower_score: Option<u64>,
    /// The blended performance score, absent when both signals are absent.
    pub perf_score: Option<u64>,
    /// How many other candidates this one strictly beats.
    pub schulze_wins: usize,
}

/// The ghost model of a ranking line.
pub ghost struct RecordModel {
    pub position: int,
    pub lang: Seq<char>,
    pub tiobe_rank: Option<u32>,
    pub tiobe_share: int,
    pub tiobe_trend: Option<int>,
    pub pypl_rank: Option<u32>,
    pub pypl_share: int,
    pub pypl_trend: Option<int>,
    pub languish_rank: Option<u32>,
    pub languish_share: int,
    pub languish_trend: Option<int>,
    pub benchmark_score: Option<u64>,
    pub techempower_score: Option<u64>,
    pub perf_score: Option<u64>,
    pub schulze_wins: int,
}

impl DeepView for SchulzeRecord {
    type V = RecordModel;

    open spec fn deep_view(&self) -> RecordModel {
        RecordModel {
            position: self.position as int,
            lang: self.lang@,
            tiobe_rank: self.tiobe_rank,
            tiobe_share: self.tiobe_share as int,
            tiobe_trend: match self.tiobe_trend {
                Some(t) => Some(t as int),
                None => None,
            },
            pypl_rank: self.pypl_rank,
            pypl_share: self.pypl_share as int,
            pypl_trend: match self.pypl_trend {
                Some(t) => Some(t as int),
                None => None,
            },
            languish_rank: self.languish_rank,
            languish_share: self.languish_share as int,
            languish_trend: match self.languish_trend {
                Some(t) => Some(t as int),
                None => None,
            },
            benchmark_score: self.benchmark_score,
            techempower_score: self.techempower_score,
            perf_score: self.perf_score,
            schulze_wins: self.schulze_wins as int,
        }
    }
}

/// How the candidate set is chosen: a name must occur in at least
/// `min_signals` of the four signals, and at most `max_candidates` names are
/// ranked.
#[derive(Clone, Copy, Debug, PartialEq, Eq, Structural)]
pub struct SelectorConfig {
    pub min_signals: usize,
    pub max_candidates: usize,
}

impl SelectorConfig {
    /// The default selection: a language must appear in every signal, and at
    /// most fifty languages are ranked.
    pub fn standard() -> (r: SelectorConfig)
        ensures
            r.min_signals == 4,
            r.max_candidates == 50,
    {
        SelectorConfig { min_signals: 4, max_candidates: 50 }
    }
}

/// Why a run cannot produce a ranking.
#[derive(Clone, Debug, PartialEq, Eq)]
pub enum RunError {
    /// The timing table lacks a required column; the name is attached.
    MissingColumn(String),
    /// Fewer than two languages survive candidate selection; the number
    /// that survived is attached.
    TooFewCandidates(usize),
    /// A throughput test category has no usable run; the name is attached.
    MissingTest(String),
    /// No throughput composite could be computed for any language.
    NoScores,
}

impl RunError {
    /// A short description of the failure.
    pub fn message(&self) -> (r: String)
        ensures
            r@.len() > 0,
    {
        let text: &str = match self {
            RunError::MissingColumn(_) => "missing required column in benchmark data",
            RunError::TooFewCandidates(_) => "not enough overlapping languages to compute a Schulze ranking",
            RunError::MissingTest(_) => "missing throughput data for a required test",
            RunError::NoScores => "no throughput language scores computed",
        };
        proof {
            reveal_strlit("missing required column in benchmark data");
            reveal_strlit("not enough overlapping languages to compute a Schulze ranking");
            reveal_strlit("missing throughput data for a required test");
            reveal_strlit("no throughput language scores computed");
        }
        String::from_str(text)
    }
}

/// The first entry with the given name, if any.
pub open spec fn find_entry(s: Seq<EntryModel>, name: Seq<char>) -> Option<EntryModel>
    decreases s.len(),
{
    if s.len() == 0 {
        None
    } else if s[0].lang == name {
        Some(s[0])
    } else {
        find_entry(s.drop_first(), name)
    }
}

/// The share recorded for a name, or zero when the source lacks it.
pub open spec fn share_of(s: Seq<EntryModel>, name: Seq<char>) -> int {
    match find_entry(s, name) {
        Some(e) => e.share,
        None => 0,
    }
}

/// The first score with the given name, if any.
pub open spec fn find_score(s: Seq<ScoreModel>, name: Seq<char>) -> Option<u64>
    decreases s.len(),
{
    if s.len() == 0 {
        None
    } else if s[0].lang == name {
        Some(s[0].value)
    } else {
        find_score(s.drop_first(), name)
    }
}

/// Looks a name up in a source's aggregated entries.
pub fn entry_for<'a>(entries: &'a Vec<RankingEntry>, name: &str) -> (r: Option<&'a RankingEntry>)
    ensures
        match r {
            Some(e) => find_entry(entries.deep_view(), name@) == Some(e.deep_view()),
            None => find_entry(entries.deep_view(), name@) is None,
        },
{
    let ghost model = entries.deep_view();
    let mut i: usize = 0;
    proof {
        assert(model.skip(0) =~= model);
    }
    while i < entries.len()
        invariant
            i <= entries@.len(),
            model == entries.deep_view(),
            model.len() == entries@.len(),
            forall|k: int| 0 <= k < model.len() ==> #[trigger] model[k] == entries@[k].deep_view(),
            find_entry(model, name@) == find_entry(model.skip(i as int), name@),
        decreases entries@.len() - i,
    {
        proof {
            assert(model.skip(i as int)[0] == model[i as int]);
            assert(model.skip(i as int).drop_first() =~= model.skip(i + 1));
        }
        if crate::strutil::str_eq(entries[i].lang.as_str(), name) {
            return Some(&entries[i]);
        }
        i = i + 1;
    }
    proof {
        assert(model.skip(i as int) =~= Seq::<EntryModel>::empty());
    }
    None
}

/// Looks a name up in a score list.
pub fn score_for(scores: &Vec<ScoreEntry>, name: &str) -> (r: Option<u64>)
    ensures
        r == find_score(scores.deep_view(), name@),
{
    let ghost model = scores.deep_view();
    let mut i: usize = 0;
    proof {
        assert(model.skip(0) =~= model);
    }
    while i < scores.len()
        invariant
            i <= scores@.len(),
            model == scores.deep_view(),
            model.len() == scores@.len(),
            forall|k: int| 0 <= k < model.len() ==> #[trigger] model[k] == scores@[k].deep_view(),
            find_score(model, name@) == find_score(model.skip(i as int), name@),
        decreases scores@.len() - i,
    {
        proof {
            assert(model.skip(i as int)[0] == model[i as int]);
            assert(model.skip(i as int).drop_first() =~= model.skip(i + 1));
        }
        if crate::strutil::str_eq(scores[i].lang.as_str(), name) {
            return Some(scores[i].value);
        }
        i = i + 1;
    }
    proof {
        assert(model.skip(i as int) =~= Seq::<ScoreModel>::empty());
    }
    None
}

} // verus!
