use lang_rank::model::{RankingEntry, ScoreEntry, SelectorConfig, RunError};
use lang_rank::pipeline::{compute_schulze_records, blend_scores};
use lang_rank::select::select_candidates;
use lang_rank::{Stage, calculate_backoff, MICRO};

fn entry(lang: &str, rank: Option<u32>, share: i64, trend: Option<i64>) -> RankingEntry {
    RankingEntry { lang: lang.to_string(), rank, share, trend }
}

fn score(lang: &str, value: u64) -> ScoreEntry {
    ScoreEntry { lang: lang.to_string(), value }
}

fn tiobe() -> Vec<RankingEntry> {
    vec![
        entry("Go", Some(8), 2 * MICRO, Some(100_000)),
        entry("Python", Some(1), 15 * MICRO, None),
        entry("Rust", Some(13), MICRO, Some(-50_000)),
    ]
}

fn pypl() -> Vec<RankingEntry> {
    vec![
        entry("Go", Some(4), 5 * MICRO, None),
        entry("Python", Some(1), 28 * MICRO, Some(200_000)),
        entry("Rust", Some(9), 2 * MICRO, None),
    ]
}

fn languish() -> Vec<RankingEntry> {
    vec![
        entry("Go", Some(5), 3 * MICRO, None),
        entry("Python", Some(1), 12 * MICRO, None),
        entry("Rust", Some(6), 3 * MICRO, None),
    ]
}

fn bench() -> Vec<ScoreEntry> {
    vec![score("Go", 800_000), score("Python", 100_000), score("Rust", 1_000_000)]
}

#[test]
fn pipeline_ranks_by_popularity_ballots() {
    let records = compute_schulze_records(
        &tiobe(),
        &pypl(),
        &languish(),
        &bench(),
        &Vec::new(),
        &SelectorConfig::standard(),
    )
    .unwrap();
    assert_eq!(records.len(), 3);
    // Python tops all three popularity ballots and loses only the
    // performance ballot: it wins the pairwise comparisons
    assert_eq!(records[0].lang, "Python");
    assert_eq!(records[0].position, 1);
    assert_eq!(records[1].position, 2);
    assert_eq!(records[2].position, 3);
    // the records carry the per-source figures through
    assert_eq!(records[0].tiobe_share, 15 * MICRO);
    assert_eq!(records[0].pypl_trend, Some(200_000));
    assert_eq!(records[0].benchmark_score, Some(100_000));
    assert_eq!(records[0].techempower_score, None);
    assert_eq!(records[0].perf_score, Some(100_000));
    assert_eq!(records[0].schulze_wins, 2);
}

#[test]
fn pipeline_is_deterministic_across_runs() {
    let cfg = SelectorConfig::standard();
    let r1 = compute_schulze_records(&tiobe(), &pypl(), &languish(), &bench(), &Vec::new(), &cfg)
        .unwrap();
    let r2 = compute_schulze_records(&tiobe(), &pypl(), &languish(), &bench(), &Vec::new(), &cfg)
        .unwrap();
    assert_eq!(r1, r2);
}

#[test]
fn pipeline_rejects_too_few_candidates() {
    // only Go appears in all four signals
    let t = vec![entry("Go", Some(1), MICRO, None)];
    let p = vec![entry("Go", Some(1), MICRO, None), entry("Zig", Some(2), MICRO, None)];
    let l = vec![entry("Go", Some(1), MICRO, None)];
    let b = vec![score("Go", 500_000)];
    match compute_schulze_records(&t, &p, &l, &b, &Vec::new(), &SelectorConfig::standard()) {
        Err(RunError::TooFewCandidates(n)) => assert_eq!(n, 1),
        other => panic!("expected too few candidates, got {:?}", other),
    }
}

#[test]
fn selection_respects_threshold_and_cap() {
    let t = tiobe();
    let p = pypl();
    let l = languish();
    let b = bench();
    // all three names qualify with the default configuration
    let all = select_candidates(&t, &p, &l, &b, &SelectorConfig::standard());
    assert_eq!(all, vec!["Go".to_string(), "Python".to_string(), "Rust".to_string()]);
    // capping at two keeps the strongest by summed share, in name order
    let capped = select_candidates(
        &t,
        &p,
        &l,
        &b,
        &SelectorConfig { min_signals: 4, max_candidates: 2 },
    );
    assert_eq!(capped, vec!["Go".to_string(), "Python".to_string()]);
    // a lower threshold admits partially covered names
    let t2 = vec![entry("Ada", Some(30), MICRO, None)];
    let loose = select_candidates(&t2, &p, &l, &b, &SelectorConfig {
        min_signals: 1,
        max_candidates: 50,
    });
    assert!(loose.contains(&"Ada".to_string()));
}

#[test]
fn missing_sources_get_neutral_defaults() {
    // Zig lacks TIOBE data but appears everywhere else; with a threshold of
    // three it is still ranked, with share zero and no rank for TIOBE
    let t = tiobe();
    let mut p = pypl();
    p.push(entry("Zig", Some(12), MICRO, None));
    let mut l = languish();
    l.push(entry("Zig", Some(11), MICRO, None));
    let mut b = bench();
    b.push(score("Zig", 900_000));
    let cfg = SelectorConfig { min_signals: 3, max_candidates: 50 };
    let records = compute_schulze_records(&t, &p, &l, &b, &Vec::new(), &cfg).unwrap();
    let zig = records.iter().find(|r| r.lang == "Zig").unwrap();
    assert_eq!(zig.tiobe_rank, None);
    assert_eq!(zig.tiobe_share, 0);
    assert_eq!(zig.tiobe_trend, None);
    assert_eq!(zig.pypl_share, MICRO);
}

#[test]
fn blend_takes_each_signal_alone_or_their_mean() {
    let bench_only = blend_scores(&vec![score("Go", 800_000)], &Vec::new());
    assert_eq!(bench_only, vec![score("Go", 800_000)]);
    let te_only = blend_scores(&Vec::new(), &vec![score("Go", 6_000_000)]);
    assert_eq!(te_only, vec![score("Go", 1_000_000)]);
    let both = blend_scores(&vec![score("Go", 800_000)], &vec![score("Go", 6_000_000)]);
    assert_eq!(both, vec![score("Go", 900_000)]);
}

#[test]
fn stage_numbers_and_labels() {
    assert_eq!(Stage::Fetch.index(), 1);
    assert_eq!(Stage::Compute.index(), 2);
    assert_eq!(Stage::Fetch.label(), "Fetching data");
    assert_eq!(Stage::Compute.label(), "Computing");
}

#[test]
fn backoff_doubles_and_caps() {
    assert_eq!(calculate_backoff(0), 1);
    assert_eq!(calculate_backoff(1), 2);
    assert_eq!(calculate_backoff(3), 8);
    assert_eq!(calculate_backoff(10), 1024);
    assert_eq!(calculate_backoff(99), 1024);
}

#[test]
fn run_errors_describe_themselves() {
    assert!(!RunError::NoScores.message().is_empty());
    assert!(!RunError::TooFewCandidates(1).message().is_empty());
}

#[test]
fn pipeline_blends_the_throughput_signal_into_records() {
    let te = vec![score("Go", 6_000_000), score("Rust", 3_000_000), score("Python", 600_000)];
    let records = compute_schulze_records(
        &tiobe(),
        &pypl(),
        &languish(),
        &bench(),
        &te,
        &SelectorConfig::standard(),
    )
    .unwrap();
    let go = records.iter().find(|r| r.lang == "Go").unwrap();
    // benchmark 0.8, throughput 6.0 of 6: the blend is the mean of 0.8 and 1.0
    assert_eq!(go.benchmark_score, Some(800_000));
    assert_eq!(go.techempower_score, Some(6_000_000));
    assert_eq!(go.perf_score, Some(900_000));
}

#[test]
fn throughput_alone_supplies_the_performance_signal() {
    let te = vec![score("Go", 6_000_000), score("Python", 600_000), score("Rust", 3_000_000)];
    let records = compute_schulze_records(
        &tiobe(),
        &pypl(),
        &languish(),
        &Vec::new(),
        &te,
        &SelectorConfig::standard(),
    )
    .unwrap();
    let rust = records.iter().find(|r| r.lang == "Rust").unwrap();
    assert_eq!(rust.benchmark_score, None);
    assert_eq!(rust.techempower_score, Some(3_000_000));
    assert_eq!(rust.perf_score, Some(500_000));
}
