use lang_rank::model::{RawEntry, RankingEntry};
use lang_rank::aggregate::{aggregate_entries, adjust_pypl_entries};

fn raw(lang: &str, rank: Option<u32>, share: i64, trend: Option<i64>) -> RawEntry {
    RawEntry { lang: lang.to_string(), rank, share, trend }
}

fn entry(lang: &str, rank: Option<u32>, share: i64, trend: Option<i64>) -> RankingEntry {
    RankingEntry { lang: lang.to_string(), rank, share, trend }
}

#[test]
fn aggregate_merges_aliases_exactly() {
    // two raw samples of the same language: shares sum exactly, the best
    // rank wins, the one reported trend is kept
    let rows = vec![
        raw("Go", Some(1), 10_000_000, None),
        raw("golang", Some(5), 2_000_000, Some(100_000)),
    ];
    let merged = aggregate_entries(rows);
    assert_eq!(merged, vec![entry("Go", Some(1), 12_000_000, Some(100_000))]);
}

#[test]
fn aggregate_sorts_by_name_and_drops_unusable_rows() {
    let rows = vec![
        raw("rust", Some(2), 1_000_000, None),
        raw("", None, 9_000_000, None),
        raw("vw", Some(9), 9_000_000, None),
        raw("golang", Some(1), 3_000_000, Some(-50_000)),
    ];
    let merged = aggregate_entries(rows);
    assert_eq!(
        merged,
        vec![
            entry("Go", Some(1), 3_000_000, Some(-50_000)),
            entry("Rust", Some(2), 1_000_000, None),
        ]
    );
}

#[test]
fn aggregate_keeps_trend_absent_without_reports() {
    let rows = vec![raw("zig", None, 500_000, None), raw("Zig", Some(40), 250_000, None)];
    let merged = aggregate_entries(rows);
    assert_eq!(merged, vec![entry("Zig", Some(40), 750_000, None)]);
}

#[test]
fn cross_source_split_is_ratio_preserving() {
    // TIOBE shares C = 5.0, C++ = 15.0; the combined PYPL entry of 20.0
    // splits into exactly 5.0 and 15.0
    let tiobe = vec![
        entry("C", Some(3), 5_000_000, None),
        entry("C++", Some(2), 15_000_000, None),
    ];
    let mut pypl = vec![
        entry("C/C++", Some(4), 20_000_000, Some(400_000)),
        entry("Python", Some(1), 30_000_000, None),
    ];
    adjust_pypl_entries(&tiobe, &mut pypl);
    assert_eq!(
        pypl,
        vec![
            entry("C", Some(4), 5_000_000, Some(100_000)),
            entry("C++", Some(4), 15_000_000, Some(300_000)),
            entry("Python", Some(1), 30_000_000, None),
        ]
    );
}

#[test]
fn cross_source_split_shares_always_sum_exactly() {
    // an uneven split truncates one half and gives the remainder to the
    // other, so the total share is kept exactly
    let tiobe = vec![entry("C", None, 1, None), entry("C++", None, 2, None)];
    let mut pypl = vec![entry("C/C++", None, 10, None)];
    adjust_pypl_entries(&tiobe, &mut pypl);
    assert_eq!(pypl.len(), 2);
    assert_eq!(pypl[0].lang, "C");
    assert_eq!(pypl[1].lang, "C++");
    assert_eq!(pypl[0].share + pypl[1].share, 10);
    assert_eq!(pypl[1].share, 6); // 10 * 2 / 3, truncated
    assert_eq!(pypl[0].share, 4);
}

#[test]
fn cross_source_split_skips_zero_reference() {
    // both reference shares zero: the combined entry is left alone
    let tiobe = vec![entry("C", None, 0, None), entry("C++", None, 0, None)];
    let mut pypl = vec![entry("C/C++", Some(4), 20_000_000, None)];
    adjust_pypl_entries(&tiobe, &mut pypl);
    assert_eq!(pypl, vec![entry("C/C++", Some(4), 20_000_000, None)]);
}

#[test]
fn cross_source_split_needs_all_three_entries() {
    let tiobe = vec![entry("C", None, 5_000_000, None)];
    let mut pypl = vec![entry("C/C++", None, 20_000_000, None)];
    adjust_pypl_entries(&tiobe, &mut pypl);
    assert_eq!(pypl, vec![entry("C/C++", None, 20_000_000, None)]);
}
