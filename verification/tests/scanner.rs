use rchan::config::RchanConfig;
use rchan::scanner::FetchResult;
use rchan::scanner::LocalCheck;
use rchan::scanner::ScanResult;
use rchan::scanner::check_local;
use rchan::scanner::check_package;
use rchan::scanner::check_remote;
use rchan::scanner::sort_results;
use rchan::scanner::summarize;

fn ok(text: &str) -> Result<String, String> {
    Ok(text.to_string())
}

fn declaration() -> Result<String, String> {
    ok("remote_pkgbuild: https://example.org/PKGBUILD\n")
}

#[test]
fn config_from_text_reads_the_remote_location() {
    let cfg = RchanConfig::from_text("remote_pkgbuild: https://example.org/PKGBUILD\nextra: 1\n")
        .unwrap();
    assert_eq!(cfg.remote_pkgbuild, "https://example.org/PKGBUILD");
}

#[test]
fn config_without_the_key_is_rejected() {
    assert!(RchanConfig::from_text("other_key: value\n").is_none());
}

#[test]
fn config_with_wrong_type_is_rejected() {
    assert!(RchanConfig::from_text("remote_pkgbuild: [a, b]\n").is_none());
}

#[test]
fn config_unparseable_document_is_rejected() {
    assert!(RchanConfig::from_text(": [ not yaml : ]\n::").is_none());
}

#[test]
fn scenario_remote_updated() {
    let outcome = check_package(
        "foo",
        &declaration(),
        &ok("pkgver=1.0\npkgrel=1\n"),
        &FetchResult::Body("pkgver=2.0\npkgrel=1\n".to_string()),
    );
    match outcome {
        ScanResult::Updated { name, local_ver, remote_ver } => {
            assert_eq!(name, "foo");
            assert_eq!(local_ver, "1.0-1");
            assert_eq!(remote_ver, "2.0-1");
        }
        _ => panic!("expected an updated outcome"),
    }
}

#[test]
fn scenario_up_to_date() {
    let outcome = check_package(
        "foo",
        &declaration(),
        &ok("pkgver=5\npkgrel=1\n"),
        &FetchResult::Body("pkgver=5\npkgrel=1\n".to_string()),
    );
    match outcome {
        ScanResult::UpToDate { name, local_ver } => {
            assert_eq!(name, "foo");
            assert_eq!(local_ver, "5-1");
        }
        _ => panic!("expected an up-to-date outcome"),
    }
}

#[test]
fn scenario_local_recipe_missing_pkgrel() {
    let outcome = check_package(
        "foo",
        &declaration(),
        &ok("pkgver=1.0\n"),
        &FetchResult::Body("pkgver=1.0\npkgrel=1\n".to_string()),
    );
    match outcome {
        ScanResult::Error { name, message } => {
            assert_eq!(name, "foo");
            assert!(message.contains("local PKGBUILD"));
            assert!(message.contains("pkgrel"));
            assert!(!message.contains("fetch remote"));
        }
        _ => panic!("expected a failed outcome"),
    }
}

#[test]
fn scenario_remote_unreachable_leaves_others_intact() {
    let failed = check_package(
        "foo",
        &declaration(),
        &ok("pkgver=1.0\npkgrel=1\n"),
        &FetchResult::Transport("connection refused".to_string()),
    );
    let fine = check_package(
        "bar",
        &declaration(),
        &ok("pkgver=3\npkgrel=4\n"),
        &FetchResult::Body("pkgver=3\npkgrel=4\n".to_string()),
    );
    match &failed {
        ScanResult::Error { name, message } => {
            assert_eq!(name, "foo");
            assert!(message.contains("fetch remote PKGBUILD"));
            assert!(message.contains("connection refused"));
        }
        _ => panic!("expected a failed outcome"),
    }
    match &fine {
        ScanResult::UpToDate { name, local_ver } => {
            assert_eq!(name, "bar");
            assert_eq!(local_ver, "3-4");
        }
        _ => panic!("expected an up-to-date outcome"),
    }
    let sorted = sort_results(vec![failed, fine]);
    assert_eq!(sorted[0].name(), "bar");
    assert_eq!(sorted[1].name(), "foo");
}

#[test]
fn unreadable_declaration_settles_the_outcome() {
    let outcome = check_package(
        "foo",
        &Err("No such file or directory".to_string()),
        &ok("pkgver=1\npkgrel=1\n"),
        &FetchResult::Body("pkgver=1\npkgrel=1\n".to_string()),
    );
    match outcome {
        ScanResult::Error { message, .. } => {
            assert!(message.contains("rchan.yaml"));
            assert!(message.contains("No such file or directory"));
        }
        _ => panic!("expected a failed outcome"),
    }
}

#[test]
fn declaration_without_remote_key_settles_the_outcome() {
    let outcome = check_package(
        "foo",
        &ok("unrelated: true\n"),
        &ok("pkgver=1\npkgrel=1\n"),
        &FetchResult::Body("pkgver=1\npkgrel=1\n".to_string()),
    );
    match outcome {
        ScanResult::Error { message, .. } => {
            assert!(message.contains("rchan.yaml"));
            assert!(message.contains("remote_pkgbuild"));
        }
        _ => panic!("expected a failed outcome"),
    }
}

#[test]
fn unreadable_local_recipe_settles_the_outcome() {
    let outcome = check_package(
        "foo",
        &declaration(),
        &Err("Permission denied".to_string()),
        &FetchResult::Body("pkgver=1\npkgrel=1\n".to_string()),
    );
    match outcome {
        ScanResult::Error { message, .. } => {
            assert!(message.contains("local PKGBUILD"));
            assert!(message.contains("Permission denied"));
        }
        _ => panic!("expected a failed outcome"),
    }
}

#[test]
fn http_status_outside_success_range_is_reported() {
    let local = rchan::pkgbuild::parse_pkgbuild("pkgver=1\npkgrel=1\n").unwrap();
    let outcome = check_remote("foo", &local, &FetchResult::Status(404));
    match outcome {
        ScanResult::Error { message, .. } => {
            assert!(message.contains("fetch remote PKGBUILD"));
            assert!(message.contains("HTTP status 404"));
        }
        _ => panic!("expected a failed outcome"),
    }
}

#[test]
fn unparseable_remote_body_is_reported_as_a_fetch_failure() {
    let local = rchan::pkgbuild::parse_pkgbuild("pkgver=1\npkgrel=1\n").unwrap();
    let outcome = check_remote("foo", &local, &FetchResult::Body("nothing here\n".to_string()));
    match outcome {
        ScanResult::Error { message, .. } => {
            assert!(message.contains("fetch remote PKGBUILD"));
            assert!(message.contains("pkgver"));
        }
        _ => panic!("expected a failed outcome"),
    }
}

#[test]
fn check_local_hands_out_the_declared_location() {
    match check_local("foo", &declaration(), &ok("pkgver=1.0\npkgrel=2\n")) {
        LocalCheck::Ready { url, local } => {
            assert_eq!(url, "https://example.org/PKGBUILD");
            assert_eq!(local.canonical(), "1.0-2");
        }
        LocalCheck::Settled(_) => panic!("expected a ready check"),
    }
}

#[test]
fn empty_scan_yields_an_empty_report() {
    let sorted = sort_results(Vec::new());
    assert!(sorted.is_empty());
    let (updated, up_to_date, failed) = summarize(&sorted);
    assert_eq!((updated, up_to_date, failed), (0, 0, 0));
}

#[test]
fn report_is_sorted_by_name_whatever_the_scan_order() {
    let make = |name: &str| ScanResult::UpToDate {
        name: name.to_string(),
        local_ver: "1-1".to_string(),
    };
    let one = sort_results(vec![make("pear"), make("apple"), make("quince"), make("fig")]);
    let two = sort_results(vec![make("fig"), make("quince"), make("pear"), make("apple")]);
    let names_one: Vec<&String> = one.iter().map(|r| r.name()).collect();
    let names_two: Vec<&String> = two.iter().map(|r| r.name()).collect();
    assert_eq!(names_one, vec!["apple", "fig", "pear", "quince"]);
    assert_eq!(names_one, names_two);
}

#[test]
fn summary_counts_each_outcome_kind() {
    let results = sort_results(vec![
        ScanResult::Updated {
            name: "a".to_string(),
            local_ver: "1-1".to_string(),
            remote_ver: "2-1".to_string(),
        },
        ScanResult::Error { name: "b".to_string(), message: "broken".to_string() },
        ScanResult::UpToDate { name: "c".to_string(), local_ver: "1-1".to_string() },
        ScanResult::UpToDate { name: "d".to_string(), local_ver: "3-2".to_string() },
    ]);
    let (updated, up_to_date, failed) = summarize(&results);
    assert_eq!(updated, 1);
    assert_eq!(up_to_date, 2);
    assert_eq!(failed, 1);
}
