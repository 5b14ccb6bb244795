use context_engine::hybrid::get_hybrid_context;

const LOG: &str =
    "COMMIT_START\napp/a.py\npkg/util.py\nCOMMIT_START\napp/a.py\npkg/util.py\nCOMMIT_START\napp/a.py\nother.py\n";

#[test]
fn both_signals_score_above_git_only() {
    // Candidates: pkg/util.py (count 2, rank 0), other.py (count 1, rank 1).
    // The target imports pkg.util, so pkg/util.py also gets the static signal.
    let r = get_hybrid_context(LOG, "app/a.py", Some("from pkg import util\n"), 10, 0);
    assert_eq!(r.len(), 2);
    assert_eq!(r[0].path, "pkg/util.py");
    assert_eq!(r[0].reasons, "imported+git-history");
    assert_eq!(r[1].path, "other.py");
    assert_eq!(r[1].reasons, "git-history");
    // total = 2: both signals = 9*2 + 5*2 = 28; git-only at rank 1 = 5*1 = 5.
    assert_eq!(r[0].score_num, 28);
    assert_eq!(r[1].score_num, 5);
    assert_eq!(r[0].score_den, 20);
    // 28/20 = 1.4 > 7*2/20 = 0.7 (import alone) and > 5/20 (history alone).
    assert!(r[0].score_num > 14);
    assert!(r[0].score_num > r[1].score_num);
}

#[test]
fn threshold_cuts_low_scores() {
    // other.py scores 5/20 = 0.25 < 0.4; pkg/util.py scores 1.4.
    let r = get_hybrid_context(LOG, "app/a.py", Some("from pkg import util\n"), 10, 400);
    assert_eq!(r.len(), 1);
    assert_eq!(r[0].path, "pkg/util.py");
    for c in &r {
        assert!(1000 * c.score_num >= 400 * c.score_den);
    }
}

#[test]
fn raising_threshold_yields_subset() {
    let low = get_hybrid_context(LOG, "app/a.py", Some("from pkg import util\n"), 10, 100);
    let high = get_hybrid_context(LOG, "app/a.py", Some("from pkg import util\n"), 10, 700);
    assert!(high.len() <= low.len());
    for (i, c) in high.iter().enumerate() {
        assert_eq!(c.path, low[i].path);
        assert_eq!(c.score_num, low[i].score_num);
    }
}

#[test]
fn no_source_degrades_to_history_signal() {
    let r = get_hybrid_context(LOG, "app/a.py", None, 10, 0);
    assert_eq!(r.len(), 2);
    assert_eq!(r[0].reasons, "git-history");
    assert_eq!(r[1].reasons, "git-history");
    // Without the static signal the miner order carries over: count 2 first.
    assert_eq!(r[0].path, "pkg/util.py");
}

#[test]
fn limit_caps_the_result() {
    let r = get_hybrid_context(LOG, "app/a.py", None, 1, 0);
    assert_eq!(r.len(), 1);
    assert_eq!(r[0].path, "pkg/util.py");
}

#[test]
fn empty_history_scores_nothing() {
    let r = get_hybrid_context("", "app/a.py", Some("from pkg import util\n"), 10, 0);
    assert_eq!(r.len(), 0);
}
