use wpt_interop::categories::interop_tests;
use wpt_interop::annotation::{MetadataEntry, MetadataFile, MetadataLabelEntry, MetadataLabelResult};
use wpt_interop::error::MetadataError;
use wpt_interop::metadata::Metadata;
use wpt_interop::ordered::{TextMap, TextSet};
use wpt_interop::results::{RawResults, RawSubtestResult, Results, SubtestResult};
use wpt_interop::status::{SubtestStatus, TestStatus};
use wpt_interop::text::{compare, is_hidden, join, same_text, Rank};

const TEST_STATUSES: [(TestStatus, &str); 9] = [
    (TestStatus::Pass, "Pass"),
    (TestStatus::Fail, "Fail"),
    (TestStatus::Okay, "Ok"),
    (TestStatus::Error, "Error"),
    (TestStatus::Timeout, "Timeout"),
    (TestStatus::Crash, "Crash"),
    (TestStatus::Assert, "Assert"),
    (TestStatus::PreconditionFailed, "PreconditionFailed"),
    (TestStatus::Skip, "Skip"),
];

const SUBTEST_STATUSES: [(SubtestStatus, &str); 8] = [
    (SubtestStatus::Pass, "Pass"),
    (SubtestStatus::Fail, "Fail"),
    (SubtestStatus::Error, "Error"),
    (SubtestStatus::Timeout, "Timeout"),
    (SubtestStatus::Assert, "Assert"),
    (SubtestStatus::PreconditionFailed, "PreconditionFailed"),
    (SubtestStatus::Notrun, "Notrun"),
    (SubtestStatus::Skip, "Skip"),
];

#[test]
fn status_tokens_read_back() {
    for (status, token) in TEST_STATUSES {
        assert_eq!(status.as_str(), token);
        assert_eq!(status.to_string(), token);
        assert_eq!(TestStatus::from_token(token).unwrap(), status);
    }
    for (status, token) in SUBTEST_STATUSES {
        assert_eq!(status.as_str(), token);
        assert_eq!(status.to_string(), token);
        assert_eq!(SubtestStatus::from_token(token).unwrap(), status);
    }
}

#[test]
fn unknown_tokens_are_errors_that_carry_them() {
    for token in ["", "pass", "PASS", "Pass ", "Notrun", "Passed"] {
        match TestStatus::from_token(token) {
            Err(MetadataError::StatusParse(t)) => assert_eq!(t, token),
            other => panic!("{:?}", other),
        }
    }
    for token in ["", "Ok", "Crash", "fail"] {
        match SubtestStatus::from_token(token) {
            Err(MetadataError::StatusParse(t)) => assert_eq!(t, token),
            other => panic!("{:?}", other),
        }
    }
}

fn raw_subtest(name: &str, status: &str, expected: Option<&str>) -> RawSubtestResult {
    RawSubtestResult { name: name.to_string(), status: status.to_string(), expected: expected.map(|e| e.to_string()) }
}

#[test]
fn results_are_read_from_tokens_and_written_back() {
    let raw = RawResults {
        status: "Ok".to_string(),
        subtests: vec![raw_subtest("one", "Pass", None), raw_subtest("two", "Notrun", Some("Fail"))],
        expected: Some("Error".to_string()),
    };
    let results = Results::try_from_raw(&raw).unwrap();
    assert_eq!(results.status, TestStatus::Okay);
    assert_eq!(results.expected, Some(TestStatus::Error));
    assert_eq!(results.subtests.len(), 2);
    assert_eq!(results.subtests[0].name, "one");
    assert_eq!(results.subtests[0].status, SubtestStatus::Pass);
    assert_eq!(results.subtests[0].expected, None);
    assert_eq!(results.subtests[1].status, SubtestStatus::Notrun);
    assert_eq!(results.subtests[1].expected, Some(SubtestStatus::Fail));
    let back = results.to_raw();
    assert_eq!(back.status, raw.status);
    assert_eq!(back.expected, raw.expected);
    assert_eq!(back.subtests.len(), 2);
    assert_eq!(back.subtests[1].name, "two");
    assert_eq!(back.subtests[1].status, "Notrun");
    assert_eq!(back.subtests[1].expected.as_deref(), Some("Fail"));
    let one = SubtestResult::try_from_raw(&raw_subtest("s", "Timeout", Some("Pass"))).unwrap();
    assert_eq!(one.to_raw().status, "Timeout");
}

#[test]
fn the_first_bad_token_is_the_error() {
    let bad = |status: &str, subtests: Vec<RawSubtestResult>, expected: Option<&str>| {
        let raw = RawResults { status: status.to_string(), subtests, expected: expected.map(|e| e.to_string()) };
        match Results::try_from_raw(&raw) {
            Err(MetadataError::StatusParse(token)) => token,
            other => panic!("{:?}", other),
        }
    };
    assert_eq!(bad("nope", vec![raw_subtest("s", "worse", None)], Some("worst")), "nope");
    assert_eq!(bad("Pass", vec![raw_subtest("s", "Pass", Some("x1")), raw_subtest("t", "x2", None)], Some("x3")), "x1");
    assert_eq!(bad("Pass", vec![raw_subtest("s", "Pass", None), raw_subtest("t", "x2", Some("x4"))], Some("x3")), "x2");
    assert_eq!(bad("Pass", vec![raw_subtest("s", "Pass", None)], Some("x3")), "x3");
    assert_eq!(bad("Pass", vec![raw_subtest("s", "Ok", None)], None), "Ok");
}

#[test]
fn strings_compare_byte_by_byte() {
    assert_eq!(compare("a", "b"), Rank::Before);
    assert_eq!(compare("b", "a"), Rank::After);
    assert_eq!(compare("abc", "abc"), Rank::Same);
    assert_eq!(compare("", ""), Rank::Same);
    assert_eq!(compare("", "a"), Rank::Before);
    assert_eq!(compare("ab", "abc"), Rank::Before);
    assert_eq!(compare("abc", "ab"), Rank::After);
    assert_eq!(compare("Z", "a"), Rank::Before);
    assert_eq!(compare("a/b", "a.b"), Rank::After);
    assert_eq!(compare("z", "é"), Rank::Before);
    assert_eq!(compare("é", "日本"), Rank::Before);
    for (a, b) in [("x", "y"), ("/a/b", "/a/b/c"), ("é", "e"), ("10", "9")] {
        let expected = match a.cmp(b) {
            std::cmp::Ordering::Less => Rank::Before,
            std::cmp::Ordering::Equal => Rank::Same,
            std::cmp::Ordering::Greater => Rank::After,
        };
        assert_eq!(compare(a, b), expected);
    }
    assert!(same_text("META.yml", "META.yml"));
    assert!(!same_text("META.yml", "META.yaml"));
}

#[test]
fn names_and_paths() {
    assert!(is_hidden(".git"));
    assert!(is_hidden("."));
    assert!(!is_hidden(""));
    assert!(!is_hidden("a.b"));
    assert!(!is_hidden("é.x"));
    assert_eq!(join("", "a"), "/a");
    assert_eq!(join("/a", "b c"), "/a/b c");
}

#[test]
fn text_set_keeps_members_once_and_in_order() {
    let mut set = TextSet::new();
    assert_eq!(set.len(), 0);
    assert!(set.insert("pear"));
    assert!(set.insert("apple"));
    assert!(set.insert("zebra"));
    assert!(!set.insert("pear"));
    assert!(set.insert(""));
    assert_eq!(set.len(), 4);
    assert_eq!(set.to_vec(), vec!["".to_string(), "apple".to_string(), "pear".to_string(), "zebra".to_string()]);
    assert_eq!(set.get(1), "apple");
    assert!(set.contains("zebra"));
    assert!(!set.contains("zebr"));
    let mut other = TextSet::new();
    other.insert("mango");
    other.insert("apple");
    set.extend(&other);
    assert_eq!(set.len(), 5);
    assert_eq!(set.get(2), "mango");
}

#[test]
fn text_map_keeps_keys_in_order() {
    let mut map: TextMap<u32> = TextMap::new();
    assert_eq!(map.insert("m", 1), None);
    assert_eq!(map.insert("a", 2), None);
    assert_eq!(map.insert("z", 3), None);
    assert_eq!(map.insert("m", 4), Some(1));
    assert_eq!(map.len(), 3);
    assert_eq!(map.key(0), "a");
    assert_eq!(map.key(1), "m");
    assert_eq!(map.key(2), "z");
    assert_eq!(*map.value_at(1), 4);
    assert_eq!(map.get("z"), Some(&3));
    assert_eq!(map.get("q"), None);
    assert_eq!(map.find("a"), Some(0));
    assert_eq!(map.find("b"), None);
    let place = map.ensure("b", 9);
    assert_eq!(place, 1);
    assert_eq!(map.ensure("z", 10), 3);
    assert_eq!(map.get("z"), Some(&3));
    *map.value_mut(place) += 1;
    assert_eq!(map.get("b"), Some(&10));
    assert_eq!(map.len(), 4);
}

#[test]
fn tests_of_categories_are_the_paths_that_carry_their_labels() {
    let mut metadata = Metadata::new("abc123".to_string());
    let label = |label: &str, tests: &[&str]| {
        MetadataEntry::Label(MetadataLabelEntry {
            label: label.to_string(),
            url: None,
            results: tests.iter().map(|t| MetadataLabelResult { test: t.to_string(), status: None }).collect(),
        })
    };
    metadata.add_from_file(
        "/css",
        MetadataFile { links: vec![label("grid", &["g1.html", "g2.html"]), label("flex", &["f.html", "g1.html"])] },
    );
    metadata.add_from_file("/dom", MetadataFile { links: vec![label("events", &["e.html"])] });
    let mut labels_by_category: TextMap<TextSet> = TextMap::new();
    let mut layout = TextSet::new();
    layout.insert("grid");
    layout.insert("flex");
    layout.insert("unknown");
    labels_by_category.insert("layout", layout);
    let mut flex = TextSet::new();
    flex.insert("flex");
    labels_by_category.insert("flex-only", flex);
    labels_by_category.insert("nothing", TextSet::new());
    let (revision, by_category, all) = interop_tests(&metadata, &labels_by_category);
    assert_eq!(revision, "abc123");
    assert_eq!(by_category.len(), 3);
    assert_eq!(
        by_category.get("layout").unwrap().to_vec(),
        vec!["/css/f.html".to_string(), "/css/g1.html".to_string(), "/css/g2.html".to_string()]
    );
    assert_eq!(
        by_category.get("flex-only").unwrap().to_vec(),
        vec!["/css/f.html".to_string(), "/css/g1.html".to_string()]
    );
    assert_eq!(by_category.get("nothing").unwrap().len(), 0);
    assert_eq!(
        all.to_vec(),
        vec!["/css/f.html".to_string(), "/css/g1.html".to_string(), "/css/g2.html".to_string()]
    );
}
