use wpt_interop::annotation::{MetadataEntry, MetadataFile, MetadataLabelEntry, MetadataLabelResult};
use wpt_interop::metadata::Metadata;
use wpt_interop::regression::{is_regression, is_subtest_regression, regressions, subtest_regressions};
use wpt_interop::results::{Results, RunResults, SubtestResult};
use wpt_interop::status::{SubtestStatus, TestStatus};

fn subtest(name: &str, status: SubtestStatus) -> SubtestResult {
    SubtestResult { name: name.to_string(), status, expected: None }
}

fn results(status: TestStatus, subtests: Vec<SubtestResult>) -> Results {
    Results { status, subtests, expected: None }
}

fn run(tests: Vec<(&str, Results)>) -> RunResults {
    let mut run = RunResults::new();
    for (path, r) in tests {
        run.insert(path, r);
    }
    run
}

fn labelled(path: &str, test: &str, labels: &[&str]) -> Metadata {
    let mut metadata = Metadata::new("r".to_string());
    let links = labels
        .iter()
        .map(|l| {
            MetadataEntry::Label(MetadataLabelEntry {
                label: l.to_string(),
                url: None,
                results: vec![MetadataLabelResult { test: test.to_string(), status: None }],
            })
        })
        .collect();
    metadata.add_from_file(path, MetadataFile { links });
    metadata
}

#[test]
fn failing_test_and_subtest_are_reported() {
    let base = run(vec![("t.html", results(TestStatus::Pass, vec![subtest("s1", SubtestStatus::Pass)]))]);
    let comparison = run(vec![("t.html", results(TestStatus::Fail, vec![subtest("s1", SubtestStatus::Fail)]))]);
    let report = regressions(&base, &comparison, None);
    assert_eq!(report.len(), 1);
    assert_eq!(report.key(0), "t.html");
    let entry = report.get("t.html").unwrap();
    assert_eq!(entry.test_regression, Some("Fail".to_string()));
    assert_eq!(entry.subtest_regressions, vec![("s1".to_string(), "Fail".to_string())]);
    assert!(entry.labels.is_empty());
}

#[test]
fn recovery_is_no_regression() {
    let base = run(vec![("t.html", results(TestStatus::Fail, vec![subtest("s1", SubtestStatus::Fail)]))]);
    let comparison = run(vec![("t.html", results(TestStatus::Pass, vec![subtest("s1", SubtestStatus::Pass)]))]);
    let report = regressions(&base, &comparison, None);
    assert_eq!(report.len(), 0);
    assert!(report.get("t.html").is_none());
}

#[test]
fn unchanged_healthy_status_is_no_regression() {
    for status in [TestStatus::Pass, TestStatus::Okay] {
        let base = run(vec![("t.html", results(status, vec![]))]);
        let comparison = run(vec![("t.html", results(status, vec![]))]);
        assert_eq!(regressions(&base, &comparison, None).len(), 0);
    }
}

#[test]
fn changed_healthy_status_carries_the_new_status() {
    let cases = [
        (TestStatus::Pass, TestStatus::Okay, "Ok"),
        (TestStatus::Okay, TestStatus::Pass, "Pass"),
        (TestStatus::Okay, TestStatus::Error, "Error"),
        (TestStatus::Pass, TestStatus::Timeout, "Timeout"),
        (TestStatus::Okay, TestStatus::Crash, "Crash"),
        (TestStatus::Pass, TestStatus::PreconditionFailed, "PreconditionFailed"),
    ];
    for (before, after, token) in cases {
        let base = run(vec![("t.html", results(before, vec![]))]);
        let comparison = run(vec![("t.html", results(after, vec![]))]);
        let report = regressions(&base, &comparison, None);
        let entry = report.get("t.html").unwrap();
        assert_eq!(entry.test_regression.as_deref(), Some(token));
        assert!(entry.subtest_regressions.is_empty());
    }
}

#[test]
fn tests_of_one_run_only_never_appear() {
    let base = run(vec![
        ("both.html", results(TestStatus::Pass, vec![])),
        ("gone.html", results(TestStatus::Pass, vec![])),
    ]);
    let comparison = run(vec![
        ("both.html", results(TestStatus::Fail, vec![])),
        ("new.html", results(TestStatus::Fail, vec![])),
    ]);
    let report = regressions(&base, &comparison, None);
    assert_eq!(report.len(), 1);
    assert!(report.get("both.html").is_some());
    assert!(report.get("gone.html").is_none());
    assert!(report.get("new.html").is_none());
}

#[test]
fn subtest_regression_alone_reports_the_test() {
    let base = run(vec![(
        "t.html",
        results(
            TestStatus::Okay,
            vec![
                subtest("a", SubtestStatus::Pass),
                subtest("b", SubtestStatus::Fail),
                subtest("c", SubtestStatus::Pass),
                subtest("only-before", SubtestStatus::Pass),
            ],
        ),
    )]);
    let comparison = run(vec![(
        "t.html",
        results(
            TestStatus::Okay,
            vec![
                subtest("c", SubtestStatus::Notrun),
                subtest("only-after", SubtestStatus::Fail),
                subtest("b", SubtestStatus::Pass),
                subtest("a", SubtestStatus::Timeout),
            ],
        ),
    )]);
    let report = regressions(&base, &comparison, None);
    let entry = report.get("t.html").unwrap();
    assert_eq!(entry.test_regression, None);
    assert_eq!(
        entry.subtest_regressions,
        vec![("c".to_string(), "Notrun".to_string()), ("a".to_string(), "Timeout".to_string())]
    );
}

#[test]
fn of_subtests_with_one_name_the_last_of_the_first_run_counts() {
    let before = results(
        TestStatus::Okay,
        vec![subtest("s", SubtestStatus::Pass), subtest("s", SubtestStatus::Fail)],
    );
    let after = results(TestStatus::Okay, vec![subtest("s", SubtestStatus::Error)]);
    assert!(subtest_regressions(&before, &after).is_empty());
    let before = results(
        TestStatus::Okay,
        vec![subtest("s", SubtestStatus::Fail), subtest("s", SubtestStatus::Pass)],
    );
    let after = results(
        TestStatus::Okay,
        vec![subtest("s", SubtestStatus::Error), subtest("s", SubtestStatus::Pass), subtest("s", SubtestStatus::Skip)],
    );
    assert_eq!(
        subtest_regressions(&before, &after),
        vec![("s".to_string(), "Error".to_string()), ("s".to_string(), "Skip".to_string())]
    );
}

#[test]
fn report_is_in_order_of_paths_and_carries_sorted_labels() {
    let base = run(vec![
        ("/z/t.html", results(TestStatus::Pass, vec![])),
        ("/a/t.html", results(TestStatus::Okay, vec![])),
        ("/m/t.html", results(TestStatus::Pass, vec![])),
    ]);
    let comparison = run(vec![
        ("/m/t.html", results(TestStatus::Pass, vec![])),
        ("/a/t.html", results(TestStatus::Error, vec![])),
        ("/z/t.html", results(TestStatus::Fail, vec![])),
    ]);
    let metadata = labelled("/z", "t.html", &["zebra", "interop-2024", "apple"]);
    let report = regressions(&base, &comparison, Some(&metadata));
    assert_eq!(report.len(), 2);
    assert_eq!(report.key(0), "/a/t.html");
    assert_eq!(report.key(1), "/z/t.html");
    assert!(report.value_at(0).labels.is_empty());
    assert_eq!(
        report.value_at(1).labels,
        vec!["apple".to_string(), "interop-2024".to_string(), "zebra".to_string()]
    );
    assert_eq!(report.value_at(0).test_regression.as_deref(), Some("Error"));
}

#[test]
fn status_predicates() {
    assert!(is_regression(TestStatus::Pass, TestStatus::Fail));
    assert!(is_regression(TestStatus::Okay, TestStatus::Error));
    assert!(is_regression(TestStatus::Pass, TestStatus::Okay));
    assert!(!is_regression(TestStatus::Pass, TestStatus::Pass));
    assert!(!is_regression(TestStatus::Okay, TestStatus::Okay));
    assert!(!is_regression(TestStatus::Fail, TestStatus::Pass));
    assert!(!is_regression(TestStatus::Timeout, TestStatus::Crash));
    assert!(is_subtest_regression(SubtestStatus::Pass, SubtestStatus::Fail));
    assert!(is_subtest_regression(SubtestStatus::Pass, SubtestStatus::Notrun));
    assert!(!is_subtest_regression(SubtestStatus::Pass, SubtestStatus::Pass));
    assert!(!is_subtest_regression(SubtestStatus::Fail, SubtestStatus::Pass));
    assert!(!is_subtest_regression(SubtestStatus::Timeout, SubtestStatus::Fail));
}

#[test]
fn empty_runs_give_an_empty_report() {
    let empty = RunResults::new();
    let some = run(vec![("t.html", results(TestStatus::Fail, vec![]))]);
    assert_eq!(regressions(&empty, &empty, None).len(), 0);
    assert_eq!(regressions(&empty, &some, None).len(), 0);
    assert_eq!(regressions(&some, &empty, None).len(), 0);
}
