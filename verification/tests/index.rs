use wpt_interop::annotation::{
    decode_document, decode_entry, parse_annotations, MetadataEntry, MetadataFile, MetadataLabelEntry, MetadataLabelResult,
    MetadataLinkEntry, MetadataLinkResult,
};
use wpt_interop::error::MetadataError;
use wpt_interop::metadata::Metadata;
use wpt_interop::ordered::TextSet;
use wpt_interop::status::TestStatus;

fn label_entry(label: &str, url: Option<&str>, tests: &[&str]) -> MetadataEntry {
    MetadataEntry::Label(MetadataLabelEntry {
        label: label.to_string(),
        url: url.map(|u| u.to_string()),
        results: tests
            .iter()
            .map(|t| MetadataLabelResult { test: t.to_string(), status: None })
            .collect(),
    })
}

fn link_entry(url: &str, product: Option<&str>, rows: &[(&str, Option<&str>, Option<TestStatus>)]) -> MetadataEntry {
    MetadataEntry::Link(MetadataLinkEntry {
        url: url.to_string(),
        product: product.map(|p| p.to_string()),
        results: rows
            .iter()
            .map(|(t, s, st)| MetadataLinkResult {
                test: t.to_string(),
                subtest: s.map(|x| x.to_string()),
                status: *st,
            })
            .collect(),
    })
}

#[test]
fn label_entry_lands_under_directory_and_test() {
    let mut metadata = Metadata::new("0123abcd".to_string());
    let file = MetadataFile { links: vec![label_entry("interop-2024", None, &["c.html"])] };
    metadata.add_from_file("a/b", file);
    assert_eq!(metadata.len(), 1);
    assert_eq!(metadata.path(0), "a/b/c.html");
    let known = metadata.get("a/b/c.html").unwrap();
    assert_eq!(known.labels.to_vec(), vec!["interop-2024".to_string()]);
    assert_eq!(known.links.len(), 0);
    assert_eq!(metadata.revision, "0123abcd");
}

#[test]
fn two_documents_merge_their_labels() {
    let mut metadata = Metadata::new("r".to_string());
    metadata.add_from_file("a/b", MetadataFile { links: vec![label_entry("zeta", None, &["c.html"])] });
    metadata.add_from_file("a/b", MetadataFile { links: vec![label_entry("alpha", None, &["c.html"])] });
    metadata.add_from_file("a/b", MetadataFile { links: vec![label_entry("zeta", None, &["c.html"])] });
    assert_eq!(metadata.len(), 1);
    let known = metadata.get("a/b/c.html").unwrap();
    assert_eq!(known.labels.to_vec(), vec!["alpha".to_string(), "zeta".to_string()]);
}

#[test]
fn link_filters_are_kept_in_order_and_never_merged() {
    let mut metadata = Metadata::new("r".to_string());
    let file = MetadataFile {
        links: vec![
            link_entry("https://bug/1", Some("chrome"), &[("t.html", Some("s1"), Some(TestStatus::Fail)), ("t.html", None, None)]),
            link_entry("https://bug/1", Some("chrome"), &[("t.html", Some("s1"), Some(TestStatus::Fail))]),
        ],
    };
    metadata.add_from_file("/d", file);
    let known = metadata.get("/d/t.html").unwrap();
    assert_eq!(known.labels.len(), 0);
    let filters = known.links.get("https://bug/1").unwrap();
    assert_eq!(filters.len(), 3);
    assert_eq!(filters[0].product.as_deref(), Some("chrome"));
    assert_eq!(filters[0].subtest.as_deref(), Some("s1"));
    assert_eq!(filters[0].status, Some(TestStatus::Fail));
    assert_eq!(filters[1].subtest, None);
    assert_eq!(filters[1].status, None);
    assert_eq!(filters[2].subtest.as_deref(), Some("s1"));
}

#[test]
fn label_url_registers_a_link_without_filters() {
    let mut metadata = Metadata::new("r".to_string());
    metadata.add_from_file("/d", MetadataFile { links: vec![label_entry("l", Some("https://bug/2"), &["t.html"])] });
    let known = metadata.get("/d/t.html").unwrap();
    assert_eq!(known.links.len(), 1);
    assert!(known.links.get("https://bug/2").unwrap().is_empty());
}

#[test]
fn label_url_does_not_wipe_filters_met_before() {
    let mut metadata = Metadata::new("r".to_string());
    let file = MetadataFile {
        links: vec![
            link_entry("https://bug/3", None, &[("t.html", None, Some(TestStatus::Timeout))]),
            label_entry("l", Some("https://bug/3"), &["t.html"]),
        ],
    };
    metadata.add_from_file("/d", file);
    let known = metadata.get("/d/t.html").unwrap();
    assert_eq!(known.links.get("https://bug/3").unwrap().len(), 1);
    assert_eq!(known.labels.to_vec(), vec!["l".to_string()]);
}

#[test]
fn unknown_path_is_absent_not_an_error() {
    let metadata = Metadata::new("r".to_string());
    assert!(metadata.get("/nothing/here.html").is_none());
    assert_eq!(metadata.len(), 0);
}

#[test]
fn file_path_joins_with_a_slash() {
    assert_eq!(Metadata::file_path("/a/b", "c.html"), "/a/b/c.html");
    assert_eq!(Metadata::file_path("", "c.html"), "/c.html");
    assert_eq!(Metadata::file_path("a", ""), "a/");
}

fn sample() -> Metadata {
    let mut metadata = Metadata::new("r".to_string());
    metadata.add_from_file(
        "/css",
        MetadataFile {
            links: vec![
                label_entry("interop-2024", None, &["b.html", "a.html"]),
                label_entry("flaky", None, &["b.html"]),
            ],
        },
    );
    metadata.add_from_file("/dom", MetadataFile { links: vec![label_entry("interop-2024", None, &["x.html"])] });
    metadata
}

#[test]
fn patterns_by_label_inverts_the_index() {
    let by_label = sample().patterns_by_label(None);
    assert_eq!(by_label.len(), 2);
    assert_eq!(by_label.key(0), "flaky");
    assert_eq!(by_label.key(1), "interop-2024");
    assert_eq!(by_label.get("flaky").unwrap().to_vec(), vec!["/css/b.html".to_string()]);
    assert_eq!(
        by_label.get("interop-2024").unwrap().to_vec(),
        vec!["/css/a.html".to_string(), "/css/b.html".to_string(), "/dom/x.html".to_string()]
    );
}

#[test]
fn patterns_by_label_keeps_only_filtered_labels() {
    let mut filter = TextSet::new();
    filter.insert("flaky");
    filter.insert("unused");
    let metadata = sample();
    let by_label = metadata.patterns_by_label(Some(&filter));
    assert_eq!(by_label.len(), 1);
    assert_eq!(by_label.get("flaky").unwrap().to_vec(), vec!["/css/b.html".to_string()]);
    assert!(by_label.get("interop-2024").is_none());
    let all = metadata.patterns_by_label(None);
    assert_eq!(all.get("flaky").unwrap().to_vec(), by_label.get("flaky").unwrap().to_vec());
}

#[test]
fn parse_reads_both_shapes_in_order() {
    let text = "links:\n  - label: interop-2024\n    url: https://example.org/i\n    results:\n      - test: c.html\n      - test: d.html\n        status: Fail\n  - product: chrome\n    url: https://bug/7\n    results:\n      - test: e.html\n        subtest: first\n        status: Timeout\n";
    let file = parse_annotations("/a", text.as_bytes()).unwrap();
    assert_eq!(file.links.len(), 2);
    match &file.links[0] {
        MetadataEntry::Label(e) => {
            assert_eq!(e.label, "interop-2024");
            assert_eq!(e.url.as_deref(), Some("https://example.org/i"));
            assert_eq!(e.results.len(), 2);
            assert_eq!(e.results[0].test, "c.html");
            assert_eq!(e.results[0].status, None);
            assert_eq!(e.results[1].status, Some(TestStatus::Fail));
        }
        MetadataEntry::Link(_) => panic!("the first entry has the label shape"),
    }
    match &file.links[1] {
        MetadataEntry::Link(e) => {
            assert_eq!(e.url, "https://bug/7");
            assert_eq!(e.product.as_deref(), Some("chrome"));
            assert_eq!(e.results[0].test, "e.html");
            assert_eq!(e.results[0].subtest.as_deref(), Some("first"));
            assert_eq!(e.results[0].status, Some(TestStatus::Timeout));
        }
        MetadataEntry::Label(_) => panic!("the second entry has the link shape"),
    }
}

#[test]
fn parse_rejects_what_has_neither_shape() {
    for text in [
        "links:\n  - results:\n      - test: a.html\n",
        "links:\n  - label: l\n    results:\n      - status: Fail\n",
        "links:\n  - url: u\n    results:\n      - subtest: s\n",
        "links:\n  - label: l\n    results:\n      - test: a.html\n        status: Sideways\n",
        "links: 3\n",
        "other: []\n",
        "links: [unterminated\n",
        "- just\n- a list\n",
    ] {
        match parse_annotations("/where", text.as_bytes()) {
            Err(MetadataError::Schema(path)) => assert_eq!(path, "/where"),
            other => panic!("{:?} for {:?}", other, text),
        }
    }
}

#[test]
fn parse_takes_null_for_a_missing_option_and_ignores_other_keys() {
    let text = "links:\n  - label: l\n    url: ~\n    note: kept out\n    results:\n      - test: a.html\n        status: null\n        subtest: ignored here\n";
    let file = parse_annotations("", text.as_bytes()).unwrap();
    match &file.links[0] {
        MetadataEntry::Label(e) => {
            assert_eq!(e.url, None);
            assert_eq!(e.results[0].status, None);
        }
        MetadataEntry::Link(_) => panic!("label shape expected"),
    }
    let empty = parse_annotations("", b"links: []\n").unwrap();
    assert!(empty.links.is_empty());
}

#[test]
fn decode_takes_a_decoded_value() {
    let mut row = serde_yaml::Mapping::new();
    row.insert(serde_yaml::Value::String("test".to_string()), serde_yaml::Value::String("t.html".to_string()));
    row.insert(serde_yaml::Value::String("status".to_string()), serde_yaml::Value::String("Crash".to_string()));
    let mut entry = serde_yaml::Mapping::new();
    entry.insert(serde_yaml::Value::String("url".to_string()), serde_yaml::Value::String("https://bug/9".to_string()));
    entry.insert(serde_yaml::Value::String("product".to_string()), serde_yaml::Value::Null);
    entry.insert(
        serde_yaml::Value::String("results".to_string()),
        serde_yaml::Value::Sequence(vec![serde_yaml::Value::Mapping(row)]),
    );
    let entry = serde_yaml::Value::Mapping(entry);
    match decode_entry(&entry) {
        Some(MetadataEntry::Link(e)) => {
            assert_eq!(e.url, "https://bug/9");
            assert_eq!(e.product, None);
            assert_eq!(e.results.len(), 1);
            assert_eq!(e.results[0].status, Some(TestStatus::Crash));
        }
        other => panic!("{:?}", other),
    }
    let mut document = serde_yaml::Mapping::new();
    document.insert(
        serde_yaml::Value::String("links".to_string()),
        serde_yaml::Value::Sequence(vec![entry.clone(), entry]),
    );
    let file = decode_document(&serde_yaml::Value::Mapping(document)).unwrap();
    assert_eq!(file.links.len(), 2);
    assert!(decode_document(&serde_yaml::Value::Null).is_none());
    assert!(decode_entry(&serde_yaml::Value::String("label".to_string())).is_none());
    assert!(decode_entry(&serde_yaml::Value::Sequence(Vec::new())).is_none());
}

#[test]
fn a_text_that_looks_like_a_number_is_no_string() {
    assert!(parse_annotations("", b"links:\n  - label: 2024\n    results: []\n").is_err());
    let file = parse_annotations("", b"links:\n  - label: '2024'\n    results: []\n").unwrap();
    match &file.links[0] {
        MetadataEntry::Label(e) => {
            assert_eq!(e.label, "2024");
            assert!(e.results.is_empty());
        }
        MetadataEntry::Link(_) => panic!("label shape expected"),
    }
}

#[test]
fn an_entry_with_both_a_label_and_a_url_has_the_label_shape() {
    let text = "links:\n  - label: l\n    url: u\n    product: p\n    results:\n      - test: t\n        subtest: s\n";
    let file = parse_annotations("", text.as_bytes()).unwrap();
    assert!(matches!(&file.links[0], MetadataEntry::Label(e) if e.url.as_deref() == Some("u")));
}
