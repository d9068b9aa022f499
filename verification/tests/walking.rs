use wpt_interop::error::MetadataError;
use wpt_interop::metadata::Metadata;
use wpt_interop::walk::{classify, ObjectKind, Step, TreeEntry, Visit, Walk};

/// A store kept in memory: trees and blobs by id.
struct Store {
    trees: Vec<(String, Vec<(Option<String>, ObjectKind, String)>)>,
    blobs: Vec<(String, Vec<u8>)>,
    asked: Vec<String>,
}

impl Store {
    fn new() -> Store {
        Store { trees: Vec::new(), blobs: Vec::new(), asked: Vec::new() }
    }

    fn tree(&mut self, id: &str, entries: &[(&str, ObjectKind, &str)]) {
        let entries = entries
            .iter()
            .map(|(name, kind, id)| (Some(name.to_string()), *kind, id.to_string()))
            .collect();
        self.trees.push((id.to_string(), entries));
    }

    fn blob(&mut self, id: &str, content: &str) {
        self.blobs.push((id.to_string(), content.as_bytes().to_vec()));
    }

    fn list(&mut self, id: &str) -> Vec<TreeEntry> {
        self.asked.push(id.to_string());
        let (_, entries) = self.trees.iter().find(|(i, _)| i == id).unwrap();
        entries
            .iter()
            .map(|(name, kind, id)| TreeEntry { name: name.clone(), kind: *kind, id: id.clone() })
            .collect()
    }

    fn read(&mut self, id: &str) -> Vec<u8> {
        self.asked.push(id.to_string());
        self.blobs.iter().find(|(i, _)| i == id).unwrap().1.clone()
    }

    fn build(&mut self, revision: &str, root: &str) -> Result<Metadata, MetadataError> {
        let mut walk = Walk::new(revision.to_string(), self.list(root));
        loop {
            match walk.next() {
                Step::Tree(request) => {
                    let entries = self.list(request.id());
                    walk = request.supply(entries);
                }
                Step::Blob(request) => {
                    let content = self.read(request.id());
                    walk = request.supply(&content)?;
                }
                Step::Done(metadata) => return Ok(metadata),
                Step::Failed(e) => return Err(e),
            }
        }
    }
}

fn label_document(label: &str, tests: &[&str]) -> String {
    let mut text = format!("links:\n  - label: {}\n    results:\n", label);
    for test in tests {
        text.push_str(&format!("      - test: {}\n", test));
    }
    text
}

fn sample() -> Store {
    let mut store = Store::new();
    store.tree(
        "root",
        &[
            (".git", ObjectKind::Tree, "hidden"),
            ("README.md", ObjectKind::Blob, "readme"),
            ("a", ObjectKind::Tree, "a"),
            ("css", ObjectKind::Tree, "css"),
            ("META.yml", ObjectKind::Blob, "root-meta"),
        ],
    );
    store.tree("hidden", &[("META.yml", ObjectKind::Blob, "hidden-meta")]);
    store.tree("a", &[("b", ObjectKind::Tree, "b"), ("notes.txt", ObjectKind::Blob, "notes")]);
    store.tree("b", &[("META.yml", ObjectKind::Blob, "b-meta"), (".cache", ObjectKind::Tree, "hidden")]);
    store.tree("css", &[("META.yml", ObjectKind::Blob, "css-meta")]);
    store.blob("hidden-meta", &label_document("never", &["seen.html"]));
    store.blob("b-meta", &label_document("interop-2024", &["c.html"]));
    store.blob("css-meta", &label_document("layout", &["grid.html", "flex.html"]));
    store.blob("root-meta", &label_document("top", &["index.html"]));
    store.blob("readme", "not yaml at all: [");
    store.blob("notes", "links: 12");
    store
}

#[test]
fn walk_indexes_annotations_under_directory_paths() {
    let metadata = sample().build("4b825dc6", "root").unwrap();
    assert_eq!(metadata.revision, "4b825dc6");
    let paths: Vec<String> = (0..metadata.len()).map(|i| metadata.path(i).clone()).collect();
    assert_eq!(
        paths,
        vec![
            "/a/b/c.html".to_string(),
            "/css/flex.html".to_string(),
            "/css/grid.html".to_string(),
            "/index.html".to_string(),
        ]
    );
    assert_eq!(metadata.get("/a/b/c.html").unwrap().labels.to_vec(), vec!["interop-2024".to_string()]);
    assert_eq!(metadata.get("/index.html").unwrap().labels.to_vec(), vec!["top".to_string()]);
}

#[test]
fn hidden_directories_are_never_entered() {
    let mut store = sample();
    let metadata = store.build("r", "root").unwrap();
    assert!(!store.asked.iter().any(|id| id == "hidden" || id == "hidden-meta"));
    assert!(!store.asked.iter().any(|id| id == "readme" || id == "notes"));
    for i in 0..metadata.len() {
        let path = metadata.path(i);
        assert!(!path.contains("/."), "{}", path);
        assert!(!metadata.get(path).unwrap().labels.contains("never"));
    }
    assert!(metadata.get("/.git/seen.html").is_none());
}

#[test]
fn walk_takes_the_directory_listed_last_first() {
    let mut store = sample();
    store.build("r", "root").unwrap();
    assert_eq!(store.asked, vec!["root", "a", "css", "root-meta", "css-meta", "b", "b-meta"]);
}

#[test]
fn building_twice_gives_the_same_index() {
    let first = sample().build("r", "root").unwrap();
    let second = sample().build("r", "root").unwrap();
    assert_eq!(format!("{:?}", first), format!("{:?}", second));
    assert_eq!(first.len(), second.len());
    for i in 0..first.len() {
        assert_eq!(first.path(i), second.path(i));
        let (a, b) = (first.get(first.path(i)).unwrap(), second.get(second.path(i)).unwrap());
        assert_eq!(a.labels.to_vec(), b.labels.to_vec());
        assert_eq!(a.links.len(), b.links.len());
    }
}

#[test]
fn documents_of_several_directories_meet_in_one_path() {
    let mut store = Store::new();
    store.tree("root", &[("META.yml", ObjectKind::Blob, "m1"), ("a", ObjectKind::Tree, "a")]);
    store.tree("a", &[("META.yml", ObjectKind::Blob, "m2")]);
    store.blob("m1", &label_document("one", &["a/t.html"]));
    store.blob("m2", &label_document("two", &["t.html"]));
    let metadata = store.build("r", "root").unwrap();
    assert_eq!(metadata.len(), 1);
    assert_eq!(
        metadata.get("/a/t.html").unwrap().labels.to_vec(),
        vec!["one".to_string(), "two".to_string()]
    );
}

#[test]
fn other_objects_end_the_walk() {
    let mut store = sample();
    store.tree("css", &[("sub", ObjectKind::Other, "0f0f")]);
    store.trees.retain(|(id, entries)| id != "css" || entries[0].2 == "0f0f");
    match store.build("r", "root") {
        Err(MetadataError::UnexpectedObject(id)) => assert_eq!(id, "0f0f"),
        other => panic!("{:?}", other),
    }
}

#[test]
fn names_that_are_not_utf8_end_the_walk() {
    for kind in [ObjectKind::Tree, ObjectKind::Blob] {
        let root = vec![
            TreeEntry { name: Some("a".to_string()), kind: ObjectKind::Blob, id: "1".to_string() },
            TreeEntry { name: None, kind, id: "2".to_string() },
        ];
        match Walk::new("r".to_string(), root).next() {
            Step::Failed(MetadataError::Encoding(path)) => assert_eq!(path, ""),
            other => panic!("{:?}", other),
        }
    }
}

#[test]
fn a_document_that_cannot_be_read_ends_the_walk() {
    let mut store = Store::new();
    store.tree("root", &[("d", ObjectKind::Tree, "d")]);
    store.tree("d", &[("META.yml", ObjectKind::Blob, "bad")]);
    store.blob("bad", "links:\n  - neither: shape\n");
    match store.build("r", "root") {
        Err(MetadataError::Schema(path)) => assert_eq!(path, "/d"),
        other => panic!("{:?}", other),
    }
}

#[test]
fn an_empty_tree_gives_an_empty_index() {
    match Walk::new("r".to_string(), Vec::new()).next() {
        Step::Done(metadata) => {
            assert_eq!(metadata.len(), 0);
            assert_eq!(metadata.revision, "r");
        }
        other => panic!("{:?}", other),
    }
}

#[test]
fn requests_name_the_object_and_the_directory() {
    let root = vec![TreeEntry { name: Some("dir".to_string()), kind: ObjectKind::Tree, id: "abc".to_string() }];
    match Walk::new("r".to_string(), root).next() {
        Step::Tree(request) => {
            assert_eq!(request.id(), "abc");
            assert_eq!(request.path(), "/dir");
        }
        other => panic!("{:?}", other),
    }
    let root = vec![TreeEntry { name: Some("META.yml".to_string()), kind: ObjectKind::Blob, id: "def".to_string() }];
    match Walk::new("r".to_string(), root).next() {
        Step::Blob(request) => assert_eq!(request.id(), "def"),
        other => panic!("{:?}", other),
    }
}

#[test]
fn classify_decides_by_kind_and_name() {
    let entry = |name: Option<&str>, kind| TreeEntry { name: name.map(|n| n.to_string()), kind, id: "id".to_string() };
    assert!(matches!(classify("/p", &entry(Some(".hidden"), ObjectKind::Tree)), Ok(Visit::Skip)));
    assert!(matches!(classify("/p", &entry(Some("."), ObjectKind::Tree)), Ok(Visit::Skip)));
    match classify("/p", &entry(Some("q"), ObjectKind::Tree)) {
        Ok(Visit::Descend(path)) => assert_eq!(path, "/p/q"),
        other => panic!("{:?}", other),
    }
    match classify("/p", &entry(Some("a.b"), ObjectKind::Tree)) {
        Ok(Visit::Descend(path)) => assert_eq!(path, "/p/a.b"),
        other => panic!("{:?}", other),
    }
    assert!(matches!(classify("/p", &entry(Some("META.yml"), ObjectKind::Blob)), Ok(Visit::Read)));
    assert!(matches!(classify("/p", &entry(Some("meta.yml"), ObjectKind::Blob)), Ok(Visit::Skip)));
    assert!(matches!(classify("/p", &entry(Some(".META.yml"), ObjectKind::Blob)), Ok(Visit::Skip)));
    assert!(matches!(classify("/p", &entry(Some("META.yml"), ObjectKind::Tree)), Ok(Visit::Descend(_))));
    assert!(matches!(classify("/p", &entry(Some("x"), ObjectKind::Other)), Err(MetadataError::UnexpectedObject(_))));
    assert!(matches!(classify("/p", &entry(None, ObjectKind::Other)), Err(MetadataError::UnexpectedObject(_))));
    assert!(matches!(classify("/p", &entry(None, ObjectKind::Blob)), Err(MetadataError::Encoding(_))));
}

#[test]
fn test_parse_metadata() {
    let metadata = sample().build("head", "root").unwrap();
    println!("{:?}", metadata);
}
