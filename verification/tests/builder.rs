use rchan::builder::build_candidates;
use rchan::builder::is_artifact_name;
use rchan::builder::tally_outcomes;

#[test]
fn candidates_are_filtered_and_name_sorted() {
    let names = vec![
        "zeta".to_string(),
        "pkgs".to_string(),
        "alpha".to_string(),
        "build".to_string(),
        "beta".to_string(),
    ];
    let picked = build_candidates(names);
    assert_eq!(picked, vec!["alpha", "beta", "zeta"]);
}

#[test]
fn candidate_order_ignores_discovery_order() {
    let one = build_candidates(vec!["b".to_string(), "a".to_string(), "c".to_string()]);
    let two = build_candidates(vec!["c".to_string(), "b".to_string(), "a".to_string()]);
    assert_eq!(one, two);
    assert_eq!(one, vec!["a", "b", "c"]);
}

#[test]
fn no_candidates_yield_an_empty_plan() {
    let picked = build_candidates(vec!["pkgs".to_string(), "build".to_string()]);
    assert!(picked.is_empty());
}

#[test]
fn artifact_names_are_matched_by_suffix() {
    assert!(is_artifact_name("example-1.2.3-2-x86_64.pkg.tar.zst"));
    assert!(!is_artifact_name("example-1.2.3-2-x86_64.pkg.tar.gz"));
    assert!(!is_artifact_name("zst"));
    assert!(!is_artifact_name("PKGBUILD"));
}

#[test]
fn tally_counts_successes_and_failures() {
    let (succeeded, failed) = tally_outcomes(&vec![true, false, true, true]);
    assert_eq!(succeeded, 3);
    assert_eq!(failed, 1);
    let (s0, f0) = tally_outcomes(&Vec::new());
    assert_eq!((s0, f0), (0, 0));
}
