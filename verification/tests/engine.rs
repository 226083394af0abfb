use lang_rank::schulze::{build_defeats, strength_init, widen_strengths, rank_candidates,
    count_wins};

// The worked scenario: candidates A(0), B(1), C(2); four ballots.
fn scenario_ballots() -> Vec<Vec<usize>> {
    vec![
        vec![0, 1, 2], // A B C
        vec![1, 2, 0], // B C A
        vec![0, 2, 1], // A C B
        vec![2, 0, 1], // C A B
    ]
}

#[test]
fn defeat_counts_of_worked_scenario() {
    let ballots = scenario_ballots();
    let d = build_defeats(&ballots, 3);
    assert_eq!(d[0][1], 3);
    assert_eq!(d[1][0], 1);
    assert_eq!(d[0][2], 2);
    assert_eq!(d[2][0], 2);
    assert_eq!(d[1][2], 2);
    assert_eq!(d[2][1], 2);
    assert_eq!(d[0][0], 0);
    assert_eq!(d[1][1], 0);
    assert_eq!(d[2][2], 0);
}

#[test]
fn strengths_of_worked_scenario() {
    let ballots = scenario_ballots();
    let d = build_defeats(&ballots, 3);
    let mut p = strength_init(&d, 3);
    // only A over B wins its pairwise comparison
    assert_eq!(p[0][1], 3);
    for i in 0..3usize {
        for j in 0..3usize {
            if !(i == 0 && j == 1) {
                assert_eq!(p[i][j], 0);
            }
        }
    }
    widen_strengths(&mut p, 3);
    // the closure adds nothing here
    assert_eq!(p[0][1], 3);
    for i in 0..3usize {
        for j in 0..3usize {
            if !(i == 0 && j == 1) {
                assert_eq!(p[i][j], 0);
            }
        }
    }
}

#[test]
fn ranking_of_worked_scenario_puts_first_candidate_ahead() {
    let ballots = scenario_ballots();
    let d = build_defeats(&ballots, 3);
    let mut p = strength_init(&d, 3);
    widen_strengths(&mut p, 3);
    // equal combined scores: remaining ties break by name (index)
    let scores: Vec<i64> = vec![0, 0, 0];
    let ranked = rank_candidates(&p, &scores, vec![0, 1, 2]);
    // A beats B, every other pair ties at zero, so name order decides the
    // rest: A, B, C
    assert_eq!(ranked, vec![0, 1, 2]);
    assert_eq!(count_wins(&p, 3, 0), 1);
    assert_eq!(count_wins(&p, 3, 1), 0);
    assert_eq!(count_wins(&p, 3, 2), 0);
}

#[test]
fn ranking_breaks_strength_ties_by_combined_score() {
    let ballots = scenario_ballots();
    let d = build_defeats(&ballots, 3);
    let mut p = strength_init(&d, 3);
    widen_strengths(&mut p, 3);
    // give C a higher combined score: C outranks B (their strengths tie),
    // but A still precedes B by strength
    let scores: Vec<i64> = vec![0, 0, 5];
    let ranked = rank_candidates(&p, &scores, vec![0, 1, 2]);
    assert_eq!(ranked, vec![2, 0, 1]);
}

#[test]
fn closure_widens_through_an_intermediate() {
    // a cycle: 0 beats 1 (strength 3), 1 beats 2 (strength 4),
    // 2 beats 0 (strength 2)
    let d: Vec<Vec<u64>> = vec![
        vec![0, 3, 0],
        vec![0, 0, 4],
        vec![2, 0, 0],
    ];
    let mut p = strength_init(&d, 3);
    assert_eq!(p[0][1], 3);
    assert_eq!(p[1][2], 4);
    assert_eq!(p[2][0], 2);
    widen_strengths(&mut p, 3);
    // beatpaths through intermediates appear
    assert_eq!(p[0][2], 3); // 0 -> 1 -> 2: min(3, 4)
    assert_eq!(p[1][0], 2); // 1 -> 2 -> 0: min(4, 2)
    assert_eq!(p[2][1], 2); // 2 -> 0 -> 1: min(2, 3)
    // the diagonal stays zero
    assert_eq!(p[0][0], 0);
    assert_eq!(p[1][1], 0);
    assert_eq!(p[2][2], 0);
    // triangle property on a sample of triples
    for j in 0..3usize {
        for k in 0..3usize {
            for m in 0..3usize {
                if j != k && j != m && k != m {
                    assert!(p[j][k] >= p[j][m].min(p[m][k]));
                }
            }
        }
    }
}
