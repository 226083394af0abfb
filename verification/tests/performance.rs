use lang_rank::perf::{load_benchmark_scores, bench_scores_from_samples, BenchSample};
use lang_rank::geomean::{geo_mean, isqrt};
use lang_rank::model::{ScoreEntry, RunError};
use lang_rank::throughput::{compute_language_scores, ThroughputRun, FrameworkLang};

fn sample(lang: &str, task: &str, elapsed: u64) -> BenchSample {
    BenchSample { lang: lang.to_string(), task: task.to_string(), elapsed }
}

fn score(lang: &str, value: u64) -> ScoreEntry {
    ScoreEntry { lang: lang.to_string(), value }
}

#[test]
fn single_task_scores_equal_ratios_exactly() {
    // one task: Go 1.0 s, Rust 1.0 s, Python 4.0 s; the best time is 1.0 s,
    // so the ratios are 1.0, 1.0 and 0.25 — and with one task the scores
    // are exactly those ratios
    let samples = vec![
        sample("Go", "alpha", 1_000_000),
        sample("Rust", "alpha", 1_000_000),
        sample("Python", "alpha", 4_000_000),
    ];
    let scores = bench_scores_from_samples(&samples);
    assert_eq!(
        scores,
        vec![score("Go", 1_000_000), score("Python", 250_000), score("Rust", 1_000_000)]
    );
}

#[test]
fn repeated_runs_keep_the_fastest() {
    let samples = vec![
        sample("Go", "alpha", 3_000_000),
        sample("Go", "alpha", 1_000_000),
        sample("Rust", "alpha", 2_000_000),
    ];
    let scores = bench_scores_from_samples(&samples);
    assert_eq!(scores, vec![score("Go", 1_000_000), score("Rust", 500_000)]);
}

#[test]
fn geometric_mean_of_power_of_two_ratios_is_exact() {
    assert_eq!(geo_mean(&vec![250_000]), 250_000);
    assert_eq!(geo_mean(&vec![1_000_000, 1_000_000]), 1_000_000);
    // sqrt(1.0 * 0.25) = 0.5 exactly in binary fixed point
    assert_eq!(geo_mean(&vec![1_000_000, 250_000]), 500_000);
    assert_eq!(geo_mean(&vec![250_000, 1_000_000]), 500_000);
}

#[test]
fn geometric_mean_stays_between_the_extremes() {
    let g = geo_mean(&vec![1_000_000, 100_000, 10_000]);
    assert!(10_000 <= g && g <= 1_000_000);
    // exact: the ratios are 1, 0.1, 0.01 and the mean is close to 0.1
    assert!(90_000 <= g && g <= 110_000);
}

#[test]
fn integer_square_root_is_exact() {
    assert_eq!(isqrt(0), 0);
    assert_eq!(isqrt(1), 1);
    assert_eq!(isqrt(15), 3);
    assert_eq!(isqrt(16), 4);
    assert_eq!(isqrt(u64::MAX as u128 * u64::MAX as u128), u64::MAX);
}

#[test]
fn timing_table_parses_and_scores() {
    let text = "lang,name,status,elapsed-time(s)\n\
                go,alpha,0,1.0\n\
                rust,alpha,0,1.0\n\
                python3,alpha,0,4.0\n";
    let scores = load_benchmark_scores(&text.as_bytes().to_vec()).unwrap();
    assert_eq!(
        scores,
        vec![score("Go", 1_000_000), score("Python", 250_000), score("Rust", 1_000_000)]
    );
}

#[test]
fn timing_table_skips_bad_rows() {
    let text = "lang,name,status,elapsed-time(s)\r\n\
                go,alpha,0,2.0\r\n\
                go,alpha,-1,1.0\r\n\
                rust,alpha,banana,0.5\r\n\
                rust,alpha,0,\r\n\
                ,alpha,0,1.0\r\n\
                zig,alpha,0,0\r\n\
                rust,alpha,0,4.0\n";
    let scores = load_benchmark_scores(&text.as_bytes().to_vec()).unwrap();
    // only the first go row and the last rust row are usable
    assert_eq!(scores, vec![score("Go", 1_000_000), score("Rust", 500_000)]);
}

#[test]
fn timing_table_copies_combined_score() {
    let text = "lang,name,status,elapsed-time(s)\n\
                gcc,alpha,0,1.0\n\
                go,alpha,0,2.0\n";
    let scores = load_benchmark_scores(&text.as_bytes().to_vec()).unwrap();
    assert_eq!(
        scores,
        vec![
            score("C/C++", 1_000_000),
            score("Go", 500_000),
            score("C", 1_000_000),
            score("C++", 1_000_000),
        ]
    );
}

#[test]
fn timing_table_requires_all_columns() {
    let text = "lang,name,status\nx,y,0\n";
    match load_benchmark_scores(&text.as_bytes().to_vec()) {
        Err(RunError::MissingColumn(c)) => assert_eq!(c, "elapsed-time(s)"),
        other => panic!("expected a missing column, got {:?}", other),
    }
    match load_benchmark_scores(&Vec::new()) {
        Err(RunError::MissingColumn(c)) => assert_eq!(c, "lang"),
        other => panic!("expected a missing column, got {:?}", other),
    }
}

fn run(test: &str, fw: &str, total: u64, start: u64, end: u64) -> ThroughputRun {
    ThroughputRun {
        test: test.to_string(),
        framework: fw.to_string(),
        total_requests: total,
        start_ms: start,
        end_ms: end,
    }
}

fn meta(fw: &str, lang: &str) -> FrameworkLang {
    FrameworkLang { framework: fw.to_string(), language: lang.to_string() }
}

fn full_runs(fw: &str, rps_each: u64) -> Vec<ThroughputRun> {
    ["json", "plaintext", "db", "query", "fortune", "update"]
        .iter()
        .map(|t| run(t, fw, rps_each, 0, 1000))
        .collect()
}

#[test]
fn throughput_composite_rewards_the_top_framework() {
    let mut runs = full_runs("gofast", 1000);
    runs.extend(full_runs("rocket", 500));
    let metadata = vec![meta("gofast", "go"), meta("rocket", "rust")];
    let scores = compute_language_scores(&runs, &metadata).unwrap();
    // the top framework reaches the full weight total; the other reaches
    // exactly half of each term
    assert_eq!(scores.len(), 2);
    assert_eq!(scores[0].lang, "Go");
    assert_eq!(scores[0].value, 6_000_000);
    assert_eq!(scores[1].lang, "Rust");
    assert_eq!(scores[1].value, 3_000_000);
}

#[test]
fn throughput_needs_every_test_category() {
    let runs: Vec<ThroughputRun> = full_runs("gofast", 1000)
        .into_iter()
        .filter(|r| r.test != "fortune")
        .collect();
    let metadata = vec![meta("gofast", "go")];
    match compute_language_scores(&runs, &metadata) {
        Err(RunError::MissingTest(t)) => assert_eq!(t, "fortune"),
        other => panic!("expected a missing test, got {:?}", other),
    }
}

#[test]
fn throughput_skips_frameworks_missing_a_category() {
    let mut runs = full_runs("gofast", 1000);
    // rocket misses one category, so it contributes nothing
    runs.extend(
        full_runs("rocket", 2000).into_iter().filter(|r| r.test != "db").collect::<Vec<_>>(),
    );
    let metadata = vec![meta("gofast", "go"), meta("rocket", "rust")];
    let scores = compute_language_scores(&runs, &metadata).unwrap();
    assert_eq!(scores.len(), 1);
    assert_eq!(scores[0].lang, "Go");
}

#[test]
fn throughput_without_usable_languages_is_an_error() {
    let runs = full_runs("mystery", 1000);
    let metadata: Vec<FrameworkLang> = Vec::new();
    match compute_language_scores(&runs, &metadata) {
        Err(RunError::NoScores) => {},
        other => panic!("expected no scores, got {:?}", other),
    }
}
