use context_engine::history::get_related_files;

#[test]
fn two_commit_history_ranks_coequal_files() {
    let log = "COMMIT_START\nA.py\nB.py\nCOMMIT_START\nA.py\nC.py\n";
    let related = get_related_files(log, "A.py", 10);
    assert_eq!(related, vec!["B.py".to_string(), "C.py".to_string()]);
}

#[test]
fn excludes_files_outside_target_commits() {
    let log = "COMMIT_START\nA.py\nB.py\nCOMMIT_START\nD.py\nE.py\n";
    let related = get_related_files(log, "A.py", 10);
    assert_eq!(related, vec!["B.py".to_string()]);
}

#[test]
fn never_returns_target_itself() {
    let log = "COMMIT_START\nA.py\nsrc/A.py\nB.py\n";
    let related = get_related_files(log, "A.py", 10);
    assert_eq!(related, vec!["B.py".to_string()]);
}

#[test]
fn sorts_by_count_descending() {
    let log = "COMMIT_START\nA.py\nB.py\nCOMMIT_START\nA.py\nC.py\nCOMMIT_START\nA.py\nC.py\n";
    let related = get_related_files(log, "A.py", 10);
    assert_eq!(related, vec!["C.py".to_string(), "B.py".to_string()]);
}

#[test]
fn respects_limit() {
    let log = "COMMIT_START\nA.py\nB.py\nC.py\nD.py\n";
    let related = get_related_files(log, "A.py", 2);
    assert_eq!(related.len(), 2);
    assert_eq!(related, vec!["B.py".to_string(), "C.py".to_string()]);
}

#[test]
fn empty_history_yields_empty_list() {
    assert_eq!(get_related_files("", "A.py", 10), Vec::<String>::new());
}

#[test]
fn suffix_match_finds_target_under_other_root() {
    let log = "COMMIT_START\nrepo/src/A.py\nrepo/src/B.py\n";
    let related = get_related_files(log, "src/A.py", 10);
    assert_eq!(related, vec!["repo/src/B.py".to_string()]);
}

#[test]
fn blank_lines_and_whitespace_are_ignored() {
    let log = "COMMIT_START\n\n  A.py  \n\nB.py\n\nCOMMIT_START\n\n";
    let related = get_related_files(log, "A.py", 10);
    assert_eq!(related, vec!["B.py".to_string()]);
}
