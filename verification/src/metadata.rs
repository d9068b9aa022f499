//! The index: for each test path, its labels and the URLs linked to it.

use vstd::prelude::*;
use crate::annotation::{EntryView, FileView, LabelEntryView, LinkEntryView};
use crate::annotation::{MetadataEntry, MetadataFile, MetadataLabelEntry, MetadataLinkEntry};
use crate::ordered::{TextMap, TextSet};
use crate::status::TestStatus;
use crate::text::{join, joined};

verus! {

/// One condition under which a link applies. The filters of a URL are
/// alternatives; a URL with no filter applies without condition.
#[derive(Debug)]
pub struct LinkFilter {
    pub product: Option<String>,
    pub status: Option<TestStatus>,
    pub subtest: Option<String>,
}

pub struct LinkFilterView {
    pub product: Option<Seq<char>>,
    pub status: Option<TestStatus>,
    pub subtest: Option<Seq<char>>,
}

impl View for LinkFilter {
    type V = LinkFilterView;

    open spec fn view(&self) -> LinkFilterView {
        LinkFilterView {
            product: self.product.deep_view(),
            status: self.status,
            subtest: self.subtest.deep_view(),
        }
    }
}

impl DeepView for LinkFilter {
    type V = LinkFilterView;

    open spec fn deep_view(&self) -> LinkFilterView {
        self@
    }
}

impl Default for LinkFilter {
    fn default() -> (r: LinkFilter)
        ensures
            r@ == (LinkFilterView { product: None, status: None, subtest: None }),
    {
        LinkFilter { product: None, status: None, subtest: None }
    }
}

/// What the index knows of one test path.
#[derive(Debug)]
pub struct PathMetadata {
    pub labels: TextSet,
    /// From each URL to its filters, in the order in which they were met.
    pub links: TextMap<Vec<LinkFilter>>,
}

pub struct PathMetadataView {
    pub labels: Set<Seq<char>>,
    pub links: Map<Seq<char>, Seq<LinkFilterView>>,
}

impl View for PathMetadata {
    type V = PathMetadataView;

    open spec fn view(&self) -> PathMetadataView {
        PathMetadataView { labels: self.labels@, links: self.links@ }
    }
}

impl DeepView for PathMetadata {
    type V = PathMetadataView;

    open spec fn deep_view(&self) -> PathMetadataView {
        self@
    }
}

/// A path of which nothing is known yet.
pub open spec fn blank() -> PathMetadataView {
    PathMetadataView { labels: Set::empty(), links: Map::empty() }
}

impl Default for PathMetadata {
    fn default() -> (r: PathMetadata)
        ensures
            r@ == blank(),
    {
        PathMetadata { labels: TextSet::new(), links: TextMap::new() }
    }
}

/// What `data` knows of `key`: nothing, if it has no entry for it.
pub open spec fn known(data: Map<Seq<char>, PathMetadataView>, key: Seq<char>) -> PathMetadataView {
    if data.contains_key(key) {
        data[key]
    } else {
        blank()
    }
}

/// `data` after one row of a label entry: `key` has the label, and the URL,
/// where the entry has one, is linked to `key`, with no filter if it was
/// not linked before.
pub open spec fn with_label(
    data: Map<Seq<char>, PathMetadataView>,
    key: Seq<char>,
    label: Seq<char>,
    url: Option<Seq<char>>,
) -> Map<Seq<char>, PathMetadataView> {
    let was = known(data, key);
    let links = match url {
        Some(u) => if was.links.contains_key(u) {
            was.links
        } else {
            was.links.insert(u, Seq::empty())
        },
        None => was.links,
    };
    data.insert(key, PathMetadataView { labels: was.labels.insert(label), links })
}

/// `data` after one row of a link entry: the filter is added behind those
/// that `url` already has for `key`.
pub open spec fn with_link(
    data: Map<Seq<char>, PathMetadataView>,
    key: Seq<char>,
    url: Seq<char>,
    filter: LinkFilterView,
) -> Map<Seq<char>, PathMetadataView> {
    let was = known(data, key);
    let filters = if was.links.contains_key(url) {
        was.links[url]
    } else {
        Seq::empty()
    };
    data.insert(
        key,
        PathMetadataView { labels: was.labels, links: was.links.insert(url, filters.push(filter)) },
    )
}

/// `data` after the first `n` rows of a label entry found in directory `path`.
pub open spec fn with_label_rows(
    data: Map<Seq<char>, PathMetadataView>,
    path: Seq<char>,
    entry: LabelEntryView,
    n: int,
) -> Map<Seq<char>, PathMetadataView>
    decreases n,
{
    if n <= 0 {
        data
    } else {
        with_label(
            with_label_rows(data, path, entry, n - 1),
            joined(path, entry.results[n - 1].test),
            entry.label,
            entry.url,
        )
    }
}

/// `data` after the first `n` rows of a link entry found in directory `path`.
pub open spec fn with_link_rows(
    data: Map<Seq<char>, PathMetadataView>,
    path: Seq<char>,
    entry: LinkEntryView,
    n: int,
) -> Map<Seq<char>, PathMetadataView>
    decreases n,
{
    if n <= 0 {
        data
    } else {
        with_link(
            with_link_rows(data, path, entry, n - 1),
            joined(path, entry.results[n - 1].test),
            entry.url,
            LinkFilterView {
                product: entry.product,
                status: entry.results[n - 1].status,
                subtest: entry.results[n - 1].subtest,
            },
        )
    }
}

/// `data` after all rows of one entry.
pub open spec fn with_entry(
    data: Map<Seq<char>, PathMetadataView>,
    path: Seq<char>,
    entry: EntryView,
) -> Map<Seq<char>, PathMetadataView> {
    match entry {
        EntryView::Label(e) => with_label_rows(data, path, e, e.results.len() as int),
        EntryView::Link(e) => with_link_rows(data, path, e, e.results.len() as int),
    }
}

/// `data` after the first `n` entries of a document found in directory `path`.
pub open spec fn with_entries(
    data: Map<Seq<char>, PathMetadataView>,
    path: Seq<char>,
    entries: Seq<EntryView>,
    n: int,
) -> Map<Seq<char>, PathMetadataView>
    decreases n,
{
    if n <= 0 {
        data
    } else {
        with_entry(with_entries(data, path, entries, n - 1), path, entries[n - 1])
    }
}

/// The index of one revision.
#[derive(Debug)]
pub struct Metadata {
    pub revision: String,
    data: TextMap<PathMetadata>,
}

pub struct MetadataView {
    pub revision: Seq<char>,
    pub data: Map<Seq<char>, PathMetadataView>,
}

impl View for Metadata {
    type V = MetadataView;

    closed spec fn view(&self) -> MetadataView {
        MetadataView { revision: self.revision@, data: self.data@ }
    }
}

impl Metadata {
    /// The test paths of the index in ascending order.
    pub closed spec fn paths(&self) -> Seq<Seq<char>> {
        self.data.keys()
    }

    /// Whether the index keeps its paths in order, as every index that the
    /// library hands out does.
    pub closed spec fn ordered(&self) -> bool {
        self.data.ordered()
    }

    /// The paths are those that the index knows, each once, ascending.
    pub proof fn lemma_paths(&self)
        requires
            self.ordered(),
        ensures
            crate::text::ascending(self.paths()),
            self.paths().no_duplicates(),
            self.paths().to_set() == self@.data.dom(),
            self@.data.dom().finite(),
            self@.data.len() == self.paths().len(),
    {
        self.data.lemma_keys();
    }

    /// An index of `revision` that knows no path.
    pub fn new(revision: String) -> (r: Metadata)
        ensures
            r@ == (MetadataView { revision: revision@, data: Map::empty() }),
    {
        Metadata { revision, data: TextMap::new() }
    }

    /// The path of a test: the directory of the document that names it, a
    /// slash, and the name as the document gives it.
    pub fn file_path(path: &str, test: &str) -> (r: String)
        ensures
            r@ == joined(path@, test@),
    {
        join(path, test)
    }

    fn add_label_entry(&mut self, path: &str, entry: &MetadataLabelEntry)
        ensures
            final(self)@.revision == old(self)@.revision,
            final(self)@.data == with_label_rows(
                old(self)@.data,
                path@,
                entry@,
                entry@.results.len() as int,
            ),
    {
        let mut j: usize = 0;
        while j < entry.results.len()
            invariant
                0 <= j <= entry.results.len(),
                entry@.results.len() == entry.results.len(),
                self.revision == old(self).revision,
                self.data@ == with_label_rows(old(self)@.data, path@, entry@, j as int),
            decreases entry.results.len() - j,
        {
            let test_path = Metadata::file_path(path, entry.results[j].test.as_str());
            let ghost before = self.data@;
            let p = self.data.ensure(test_path.as_str(), PathMetadata::default());
            let ghost held = self.data;
            let slot = self.data.value_mut(p);
            let ghost was = slot@;
            slot.labels.insert(entry.label.as_str());
            match &entry.url {
                Some(u) => {
                    let fresh: Vec<LinkFilter> = Vec::new();
                    assert(fresh.deep_view() =~= Seq::<LinkFilterView>::empty());
                    slot.links.ensure(u.as_str(), fresh);
                },
                None => {},
            }
            proof {
                held.lemma_entries();
                held.lemma_update(&self.data, p as int);
                assert(entry@.results[j as int].test == entry.results[j as int].test@);
                assert(was == known(before, test_path@));
                assert(self.data@ =~= with_label(before, test_path@, entry@.label, entry@.url));
            }
            j = j + 1;
        }
    }

    fn add_link_entry(&mut self, path: &str, entry: &MetadataLinkEntry)
        ensures
            final(self)@.revision == old(self)@.revision,
            final(self)@.data == with_link_rows(
                old(self)@.data,
                path@,
                entry@,
                entry@.results.len() as int,
            ),
    {
        let mut j: usize = 0;
        while j < entry.results.len()
            invariant
                0 <= j <= entry.results.len(),
                entry@.results.len() == entry.results.len(),
                self.revision == old(self).revision,
                self.data@ == with_link_rows(old(self)@.data, path@, entry@, j as int),
            decreases entry.results.len() - j,
        {
            let row = &entry.results[j];
            let test_path = Metadata::file_path(path, row.test.as_str());
            let filter = LinkFilter {
                product: copy_text(&entry.product),
                status: row.status,
                subtest: copy_text(&row.subtest),
            };
            let ghost before = self.data@;
            let p = self.data.ensure(test_path.as_str(), PathMetadata::default());
            let ghost held = self.data;
            let slot = self.data.value_mut(p);
            let ghost was = slot@;
            let fresh: Vec<LinkFilter> = Vec::new();
            assert(fresh.deep_view() =~= Seq::<LinkFilterView>::empty());
            let q = slot.links.ensure(entry.url.as_str(), fresh);
            let ghost links_held = slot.links;
            let filters = slot.links.value_mut(q);
            let ghost filters_were = filters.deep_view();
            filters.push(filter);
            proof {
                assert(filters.deep_view() =~= filters_were.push(filter@));
                links_held.lemma_entries();
                links_held.lemma_update(&slot.links, q as int);
                held.lemma_entries();
                held.lemma_update(&self.data, p as int);
                assert(entry@.results[j as int] == row@);
                assert(was == known(before, test_path@));
                assert(filters_were == links_held@[entry.url@]);
                assert(slot@.links =~= was.links.insert(entry@.url, filters_were.push(filter@)));
                assert(self.data@ =~= with_link(before, test_path@, entry@.url, filter@));
            }
            j = j + 1;
        }
    }

    /// Takes up an annotation document found in directory `path`: each row
    /// of each entry, in order, under the path of the row's test.
    pub fn add_from_file(&mut self, path: &str, metadata_file: MetadataFile)
        ensures
            final(self)@ == merged(old(self)@, path@, metadata_file@),
    {
        let mut i: usize = 0;
        while i < metadata_file.links.len()
            invariant
                0 <= i <= metadata_file.links.len(),
                metadata_file@.links.len() == metadata_file.links.len(),
                self@.revision == old(self)@.revision,
                self.data@ == with_entries(old(self)@.data, path@, metadata_file@.links, i as int),
            decreases metadata_file.links.len() - i,
        {
            assert(metadata_file@.links[i as int] == metadata_file.links[i as int]@);
            match &metadata_file.links[i] {
                MetadataEntry::Label(entry) => {
                    self.add_label_entry(path, entry);
                },
                MetadataEntry::Link(entry) => {
                    self.add_link_entry(path, entry);
                },
            }
            i = i + 1;
        }
    }

    spec fn labels_at(&self, a: int) -> Seq<Seq<char>> {
        self.data.values()[a].labels.elements()
    }

    /// Place `b` among the labels of the path at place `a` comes before
    /// place `j` of path `i`.
    spec fn cell(&self, a: int, b: int, i: int, j: int) -> bool {
        &&& 0 <= a < self.data.keys().len()
        &&& 0 <= b < self.labels_at(a).len()
        &&& (a < i || (a == i && b < j))
    }

    /// Path `p` carries label `l` at a place before place `j` of path `i`.
    spec fn tagged(&self, l: Seq<char>, p: Seq<char>, i: int, j: int) -> bool {
        exists|a: int, b: int| #[trigger]
            self.cell(a, b, i, j) && self.labels_at(a)[b] == l && self.data.keys()[a] == p
    }

    /// Some path carries label `l` at a place before place `j` of path `i`.
    spec fn carried(&self, l: Seq<char>, i: int, j: int) -> bool {
        exists|p: Seq<char>| self.tagged(l, p, i, j)
    }

    proof fn lemma_tagged_step(&self, i: int, j: int, j1: int)
        requires
            0 <= i < self.data.keys().len(),
            0 <= j < self.labels_at(i).len(),
            j1 == j + 1,
        ensures
            forall|l: Seq<char>, p: Seq<char>| #[trigger]
                self.tagged(l, p, i, j1) <==> self.tagged(l, p, i, j) || (l == self.labels_at(
                    i,
                )[j] && p == self.data.keys()[i]),
            forall|l: Seq<char>| #[trigger]
                self.carried(l, i, j1) <==> self.carried(l, i, j) || l == self.labels_at(i)[j],
    {
        assert forall|l: Seq<char>, p: Seq<char>| #[trigger]
            self.tagged(l, p, i, j1) <==> self.tagged(l, p, i, j) || (l == self.labels_at(i)[j]
                && p == self.data.keys()[i]) by {
            if self.tagged(l, p, i, j1) {
                let (a, b) = choose|a: int, b: int| #[trigger]
                    self.cell(a, b, i, j1) && self.labels_at(a)[b] == l && self.data.keys()[a]
                        == p;
                if !(a == i && b == j) {
                    assert(self.cell(a, b, i, j));
                }
            }
            if self.tagged(l, p, i, j) {
                let (a, b) = choose|a: int, b: int| #[trigger]
                    self.cell(a, b, i, j) && self.labels_at(a)[b] == l && self.data.keys()[a] == p;
                assert(self.cell(a, b, i, j1));
            }
            if l == self.labels_at(i)[j] && p == self.data.keys()[i] {
                assert(self.cell(i, j, i, j1));
            }
        }
        assert forall|l: Seq<char>| #[trigger]
            self.carried(l, i, j1) <==> self.carried(l, i, j) || l == self.labels_at(i)[j] by {
            if self.carried(l, i, j1) {
                let p = choose|p: Seq<char>| self.tagged(l, p, i, j1);
                assert(self.tagged(l, p, i, j) || l == self.labels_at(i)[j]);
            }
            if self.carried(l, i, j) {
                let p = choose|p: Seq<char>| self.tagged(l, p, i, j);
                assert(self.tagged(l, p, i, j1));
            }
            if l == self.labels_at(i)[j] {
                assert(self.tagged(l, self.data.keys()[i], i, j1));
            }
        }
    }

    proof fn lemma_tagged_next(&self, i: int, i1: int)
        requires
            0 <= i < self.data.keys().len(),
            i1 == i + 1,
        ensures
            forall|l: Seq<char>, p: Seq<char>| #[trigger]
                self.tagged(l, p, i1, 0) <==> self.tagged(l, p, i, self.labels_at(i).len() as int),
            forall|l: Seq<char>| #[trigger]
                self.carried(l, i1, 0) <==> self.carried(l, i, self.labels_at(i).len() as int),
    {
        let n = self.labels_at(i).len() as int;
        assert forall|l: Seq<char>, p: Seq<char>| #[trigger]
            self.tagged(l, p, i1, 0) <==> self.tagged(l, p, i, n) by {
            if self.tagged(l, p, i1, 0) {
                let (a, b) = choose|a: int, b: int| #[trigger]
                    self.cell(a, b, i1, 0) && self.labels_at(a)[b] == l && self.data.keys()[a]
                        == p;
                assert(self.cell(a, b, i, n));
            }
            if self.tagged(l, p, i, n) {
                let (a, b) = choose|a: int, b: int| #[trigger]
                    self.cell(a, b, i, n) && self.labels_at(a)[b] == l && self.data.keys()[a] == p;
                assert(self.cell(a, b, i1, 0));
            }
        }
        assert forall|l: Seq<char>| #[trigger]
            self.carried(l, i1, 0) <==> self.carried(l, i, n) by {
            if self.carried(l, i1, 0) {
                let p = choose|p: Seq<char>| self.tagged(l, p, i1, 0);
                assert(self.tagged(l, p, i, n));
            }
            if self.carried(l, i, n) {
                let p = choose|p: Seq<char>| self.tagged(l, p, i, n);
                assert(self.tagged(l, p, i1, 0));
            }
        }
    }

    proof fn lemma_tagged_all(&self)
        requires
            self.data.ordered(),
        ensures
            forall|l: Seq<char>, p: Seq<char>| #[trigger]
                self.tagged(l, p, self.data.keys().len() as int, 0) <==> patterns_of(
                    self@.data,
                    l,
                ).contains(p),
            forall|l: Seq<char>| #[trigger]
                self.carried(l, self.data.keys().len() as int, 0) <==> exists|p: Seq<char>| #[trigger]
                    patterns_of(self@.data, l).contains(p),
    {
        let n = self.data.keys().len() as int;
        self.data.lemma_entries();
        assert forall|l: Seq<char>, p: Seq<char>| #[trigger]
            self.tagged(l, p, n, 0) <==> patterns_of(self@.data, l).contains(p) by {
            if self.tagged(l, p, n, 0) {
                let (a, b) = choose|a: int, b: int| #[trigger]
                    self.cell(a, b, n, 0) && self.labels_at(a)[b] == l && self.data.keys()[a] == p;
                self.data.values()[a].labels.lemma_elements();
                assert(self.labels_at(a).contains(l));
            }
            if patterns_of(self@.data, l).contains(p) {
                let a = self.data.keys().index_of(p);
                assert(self.data.keys()[a] == p);
                self.data.values()[a].labels.lemma_elements();
                assert(self.labels_at(a).contains(l));
                let b = self.labels_at(a).index_of(l);
                assert(self.cell(a, b, n, 0));
            }
        }
        assert forall|l: Seq<char>| #[trigger]
            self.carried(l, n, 0) <==> exists|p: Seq<char>| #[trigger]
                patterns_of(self@.data, l).contains(p) by {
            if self.carried(l, n, 0) {
                let p = choose|p: Seq<char>| self.tagged(l, p, n, 0);
                assert(patterns_of(self@.data, l).contains(p));
            }
            if exists|p: Seq<char>| #[trigger] patterns_of(self@.data, l).contains(p) {
                let p = choose|p: Seq<char>| #[trigger] patterns_of(self@.data, l).contains(p);
                assert(self.tagged(l, p, n, 0));
            }
        }
    }

    /// The index turned round: from each label to the paths that carry it.
    /// With a filter, only the labels in the filter are kept.
    pub fn patterns_by_label(&self, filter_labels: Option<&TextSet>) -> (r: TextMap<TextSet>)
        ensures
            r@ == inverted(self@.data, filter_model(filter_labels)),
            r.ordered(),
    {
        let ghost filter = filter_model(filter_labels);
        let mut by_label: TextMap<TextSet> = TextMap::new();
        let n = self.data.len();
        let mut i: usize = 0;
        assert(forall|l: Seq<char>, p: Seq<char>| !self.tagged(l, p, 0, 0));
        while i < n
            invariant
                n == self.data.keys().len(),
                n == self.data.values().len(),
                0 <= i <= n,
                filter == filter_model(filter_labels),
                forall|l: Seq<char>| #[trigger]
                    by_label.contains_key(l) <==> wanted(filter, l) && self.carried(l, i as int, 0),
                forall|l: Seq<char>, p: Seq<char>|
                    by_label.contains_key(l) ==> (#[trigger] by_label@[l].contains(p)
                        <==> self.tagged(l, p, i as int, 0)),
            decreases n - i,
        {
            let pattern = self.data.key(i);
            let known = self.data.value_at(i);
            let m = known.labels.len();
            let mut j: usize = 0;
            while j < m
                invariant
                    n == self.data.keys().len(),
                    n == self.data.values().len(),
                    0 <= i < n,
                    0 <= j <= m,
                    pattern@ == self.data.keys()[i as int],
                    *known == self.data.values()[i as int],
                    m == self.labels_at(i as int).len(),
                    filter == filter_model(filter_labels),
                    forall|l: Seq<char>| #[trigger]
                        by_label.contains_key(l) <==> wanted(filter, l) && self.carried(
                            l,
                            i as int,
                            j as int,
                        ),
                    forall|l: Seq<char>, p: Seq<char>|
                        by_label.contains_key(l) ==> (#[trigger] by_label@[l].contains(p)
                            <==> self.tagged(l, p, i as int, j as int)),
                decreases m - j,
            {
                let label = known.labels.get(j);
                let keep = match filter_labels {
                    Some(filters) => filters.contains(label.as_str()),
                    None => true,
                };
                proof {
                    self.lemma_tagged_step(i as int, j as int, j + 1);
                }
                if keep {
                    let ghost before = by_label@;
                    let ghost old_map = by_label;
                    let ghost had = by_label.contains_key(label@);
                    let q = by_label.ensure(label.as_str(), TextSet::new());
                    let ghost held = by_label;
                    let patterns = by_label.value_mut(q);
                    let ghost were = patterns@;
                    patterns.insert(pattern.as_str());
                    proof {
                        held.lemma_entries();
                        held.lemma_update(&by_label, q as int);
                        assert(were == if had {
                            before[label@]
                        } else {
                            Set::<Seq<char>>::empty()
                        });
                        assert(by_label@ =~= before.insert(label@, were.insert(pattern@)));
                        assert forall|l: Seq<char>| #[trigger]
                            by_label.contains_key(l) <==> wanted(filter, l) && self.carried(
                                l,
                                i as int,
                                j + 1,
                            ) by {
                            assert(by_label.contains_key(l) <==> held.contains_key(l));
                            assert(held.contains_key(l) <==> old_map.contains_key(l) || l
                                == label@);
                        }
                    }
                } else {
                    assert forall|l: Seq<char>| #[trigger]
                        by_label.contains_key(l) <==> wanted(filter, l) && self.carried(
                            l,
                            i as int,
                            j + 1,
                        ) by {
                        assert(!wanted(filter, label@));
                    }
                }
                j = j + 1;
            }
            proof {
                self.lemma_tagged_next(i as int, i + 1);
            }
            i = i + 1;
        }
        proof {
            use_type_invariant(&self.data);
            self.lemma_tagged_all();
            let goal = inverted(self@.data, filter);
            assert forall|l: Seq<char>| by_label@.contains_key(l) implies by_label@[l] == goal[l] by {
                assert(by_label@[l] =~= patterns_of(self@.data, l));
            }
            assert(by_label@ =~= goal);
            use_type_invariant(&by_label);
        }
        by_label
    }

    /// The revision that the index was built from.
    pub fn revision(&self) -> (r: &String)
        ensures
            r@ == self@.revision,
    {
        &self.revision
    }

    /// The number of test paths.
    pub fn len(&self) -> (n: usize)
        ensures
            n == self.paths().len(),
            n == self@.data.len(),
            self@.data.dom().finite(),
            self.ordered(),
    {
        proof {
            use_type_invariant(&self.data);
            self.lemma_paths();
        }
        self.data.len()
    }

    /// The test path at place `i` in ascending order.
    pub fn path(&self, i: usize) -> (r: &String)
        requires
            i < self.paths().len(),
        ensures
            r@ == self.paths()[i as int],
            self@.data.contains_key(r@),
    {
        self.data.key(i)
    }

    /// What the index knows of `test_path`, if it knows the path.
    pub fn get(&self, test_path: &str) -> (r: Option<&PathMetadata>)
        ensures
            r is Some <==> self@.data.contains_key(test_path@),
            r matches Some(known) ==> known@ == self@.data[test_path@],
    {
        self.data.get(test_path)
    }
}

/// The paths that carry `label`.
pub open spec fn patterns_of(data: Map<Seq<char>, PathMetadataView>, label: Seq<char>) -> Set<
    Seq<char>,
> {
    Set::new(|p: Seq<char>| data.contains_key(p) && data[p].labels.contains(label))
}

/// Whether a filter lets `label` through; no filter lets every label through.
pub open spec fn wanted(filter: Option<Set<Seq<char>>>, label: Seq<char>) -> bool {
    match filter {
        Some(f) => f.contains(label),
        None => true,
    }
}

/// The labels of a filter.
pub open spec fn filter_model(filter_labels: Option<&TextSet>) -> Option<Set<Seq<char>>> {
    match filter_labels {
        Some(f) => Some(f@),
        None => None,
    }
}

/// The inversion of an index: each label that the filter lets through and
/// that some path carries, with all the paths that carry it.
pub open spec fn inverted(data: Map<Seq<char>, PathMetadataView>, filter: Option<Set<Seq<char>>>) -> Map<
    Seq<char>,
    Set<Seq<char>>,
> {
    Map::new(
        |l: Seq<char>|
            wanted(filter, l) && exists|p: Seq<char>| #[trigger] patterns_of(data, l).contains(p),
        |l: Seq<char>| patterns_of(data, l),
    )
}

/// An index after a document found in directory `path` was taken up: the
/// rows of its entries, each under its path, in the order of the document.
pub open spec fn merged(index: MetadataView, path: Seq<char>, file: FileView) -> MetadataView {
    MetadataView {
        revision: index.revision,
        data: with_entries(index.data, path, file.links, file.links.len() as int),
    }
}

/// With no filter the inversion holds each label that some path carries,
/// with exactly the paths that carry it; with a filter it is that map, cut
/// down to the labels of the filter.
pub proof fn lemma_filtered_inversion(data: Map<Seq<char>, PathMetadataView>, filter: Set<Seq<char>>)
    ensures
        forall|l: Seq<char>, p: Seq<char>|
            inverted(data, None).contains_key(l) && inverted(data, None)[l].contains(p) <==> data.contains_key(p)
                && #[trigger] data[p].labels.contains(l),
        inverted(data, Some(filter)) == inverted(data, None).restrict(filter),
        inverted(data, Some(filter)).submap_of(inverted(data, None)),
{
    assert forall|l: Seq<char>, p: Seq<char>|
        inverted(data, None).contains_key(l) && inverted(data, None)[l].contains(p) <==> data.contains_key(p)
            && #[trigger] data[p].labels.contains(l) by {
        if data.contains_key(p) && data[p].labels.contains(l) {
            assert(patterns_of(data, l).contains(p));
        }
    }
    assert(inverted(data, Some(filter)) =~= inverted(data, None).restrict(filter));
}

/// What was known of a path is still known: its labels are kept, and each
/// of its URLs still has the filters that it had, in their order, in front
/// of any that were added.
pub open spec fn carried_over(was: PathMetadataView, now: PathMetadataView) -> bool {
    &&& was.labels.subset_of(now.labels)
    &&& forall|url: Seq<char>| #[trigger]
        was.links.contains_key(url) ==> now.links.contains_key(url) && was.links[url].is_prefix_of(
            now.links[url],
        )
}

/// Everything that `before` knew, `after` knows.
pub open spec fn grown(
    before: Map<Seq<char>, PathMetadataView>,
    after: Map<Seq<char>, PathMetadataView>,
) -> bool {
    forall|key: Seq<char>| #[trigger]
        before.contains_key(key) ==> after.contains_key(key) && carried_over(
            before[key],
            after[key],
        )
}

proof fn lemma_grown_further(
    a: Map<Seq<char>, PathMetadataView>,
    b: Map<Seq<char>, PathMetadataView>,
    c: Map<Seq<char>, PathMetadataView>,
)
    requires
        grown(a, b),
        grown(b, c),
    ensures
        grown(a, c),
{
    assert forall|key: Seq<char>| #[trigger] a.contains_key(key) implies c.contains_key(key)
        && carried_over(a[key], c[key]) by {
        assert(b.contains_key(key));
        assert forall|url: Seq<char>| #[trigger] a[key].links.contains_key(url) implies c[key].links.contains_key(
            url,
        ) && a[key].links[url].is_prefix_of(c[key].links[url]) by {
            let x = a[key].links[url];
            let y = b[key].links[url];
            let z = c[key].links[url];
            assert(b[key].links.contains_key(url));
            assert(x.is_prefix_of(y));
            assert(y.is_prefix_of(z));
            assert forall|i: int| 0 <= i < x.len() implies x[i] == z[i] by {
                assert(x[i] == y.subrange(0, x.len() as int)[i]);
                assert(y[i] == z.subrange(0, y.len() as int)[i]);
            }
            assert(x =~= z.subrange(0, x.len() as int));
        }
    }
}

proof fn lemma_label_rows_grow(
    data: Map<Seq<char>, PathMetadataView>,
    path: Seq<char>,
    entry: LabelEntryView,
    n: int,
)
    ensures
        grown(data, with_label_rows(data, path, entry, n)),
    decreases n,
{
    if n > 0 {
        lemma_label_rows_grow(data, path, entry, n - 1);
        let before = with_label_rows(data, path, entry, n - 1);
        let after = with_label_rows(data, path, entry, n);
        assert(grown(before, after));
        lemma_grown_further(data, before, after);
    }
}

proof fn lemma_link_rows_grow(
    data: Map<Seq<char>, PathMetadataView>,
    path: Seq<char>,
    entry: LinkEntryView,
    n: int,
)
    ensures
        grown(data, with_link_rows(data, path, entry, n)),
    decreases n,
{
    if n > 0 {
        lemma_link_rows_grow(data, path, entry, n - 1);
        let before = with_link_rows(data, path, entry, n - 1);
        let after = with_link_rows(data, path, entry, n);
        assert(grown(before, after));
        lemma_grown_further(data, before, after);
    }
}

proof fn lemma_entries_grow(
    data: Map<Seq<char>, PathMetadataView>,
    path: Seq<char>,
    entries: Seq<EntryView>,
    n: int,
)
    ensures
        grown(data, with_entries(data, path, entries, n)),
    decreases n,
{
    if n > 0 {
        lemma_entries_grow(data, path, entries, n - 1);
        let before = with_entries(data, path, entries, n - 1);
        match entries[n - 1] {
            EntryView::Label(e) => {
                lemma_label_rows_grow(before, path, e, e.results.len() as int);
            },
            EntryView::Link(e) => {
                lemma_link_rows_grow(before, path, e, e.results.len() as int);
            },
        }
        lemma_grown_further(data, before, with_entries(data, path, entries, n));
    }
}

/// Row `j` of entry `i` gives `key` the label `label`: the entry is a label
/// entry with that label, and the row names the test whose path `key` is.
pub open spec fn gives_label(
    path: Seq<char>,
    entries: Seq<EntryView>,
    i: int,
    j: int,
    key: Seq<char>,
    label: Seq<char>,
) -> bool {
    &&& 0 <= i < entries.len()
    &&& entries[i] matches EntryView::Label(e)
    &&& e.label == label
    &&& 0 <= j < e.results.len()
    &&& joined(path, e.results[j].test) == key
}

/// Some row among the first `m` entries gives `key` the label `label`; of
/// entry `m` itself only the first `n` rows count.
pub open spec fn labelled_so_far(
    path: Seq<char>,
    entries: Seq<EntryView>,
    m: int,
    n: int,
    key: Seq<char>,
    label: Seq<char>,
) -> bool {
    exists|i: int, j: int| #[trigger]
        gives_label(path, entries, i, j, key, label) && (i < m || (i == m && j < n))
}

/// The labels that the rows counted by [`labelled_so_far`] give `key`.
pub open spec fn labels_given(
    path: Seq<char>,
    entries: Seq<EntryView>,
    m: int,
    n: int,
    key: Seq<char>,
) -> Set<Seq<char>> {
    Set::new(|label: Seq<char>| labelled_so_far(path, entries, m, n, key, label))
}

proof fn lemma_given_one_more(path: Seq<char>, entries: Seq<EntryView>, m: int, n: int, key: Seq<char>)
    requires
        0 <= m < entries.len(),
        entries[m] is Label,
        0 < n <= entries[m]->Label_0.results.len(),
    ensures
        labels_given(path, entries, m, n, key) == if joined(
            path,
            entries[m]->Label_0.results[n - 1].test,
        ) == key {
            labels_given(path, entries, m, n - 1, key).insert(entries[m]->Label_0.label)
        } else {
            labels_given(path, entries, m, n - 1, key)
        },
{
    let e = entries[m]->Label_0;
    let hit = joined(path, e.results[n - 1].test) == key;
    let more = labels_given(path, entries, m, n, key);
    let less = labels_given(path, entries, m, n - 1, key);
    assert forall|label: Seq<char>| more.contains(label) <==> less.contains(label) || (hit && label
        == e.label) by {
        if more.contains(label) {
            let (i, j) = choose|i: int, j: int| #[trigger]
                gives_label(path, entries, i, j, key, label) && (i < m || (i == m && j < n));
            if !(i == m && j == n - 1) {
                assert(gives_label(path, entries, i, j, key, label) && (i < m || (i == m && j < n
                    - 1)));
            }
        }
        if less.contains(label) {
            let (i, j) = choose|i: int, j: int| #[trigger]
                gives_label(path, entries, i, j, key, label) && (i < m || (i == m && j < n - 1));
            assert(gives_label(path, entries, i, j, key, label) && (i < m || (i == m && j < n)));
        }
        if hit && label == e.label {
            assert(gives_label(path, entries, m, n - 1, key, label));
        }
    }
    if hit {
        assert(more =~= less.insert(e.label));
    } else {
        assert(more =~= less);
    }
}

proof fn lemma_given_next_entry(path: Seq<char>, entries: Seq<EntryView>, m: int, key: Seq<char>)
    requires
        0 <= m < entries.len(),
    ensures
        labels_given(path, entries, m + 1, 0, key) == labels_given(
            path,
            entries,
            m,
            match entries[m] {
                EntryView::Label(e) => e.results.len() as int,
                EntryView::Link(_) => 0,
            },
            key,
        ),
{
    let n = match entries[m] {
        EntryView::Label(e) => e.results.len() as int,
        EntryView::Link(_) => 0,
    };
    let next = labels_given(path, entries, m + 1, 0, key);
    let this = labels_given(path, entries, m, n, key);
    assert forall|label: Seq<char>| next.contains(label) <==> this.contains(label) by {
        if next.contains(label) {
            let (i, j) = choose|i: int, j: int| #[trigger]
                gives_label(path, entries, i, j, key, label) && (i < m + 1 || (i == m + 1 && j
                    < 0));
            assert(gives_label(path, entries, i, j, key, label) && (i < m || (i == m && j < n)));
        }
        if this.contains(label) {
            let (i, j) = choose|i: int, j: int| #[trigger]
                gives_label(path, entries, i, j, key, label) && (i < m || (i == m && j < n));
            assert(gives_label(path, entries, i, j, key, label) && (i < m + 1 || (i == m + 1 && j
                < 0)));
        }
    }
    assert(next =~= this);
}

proof fn lemma_label_rows_labels(
    data: Map<Seq<char>, PathMetadataView>,
    start: Map<Seq<char>, PathMetadataView>,
    path: Seq<char>,
    entries: Seq<EntryView>,
    m: int,
    n: int,
    key: Seq<char>,
)
    requires
        0 <= m < entries.len(),
        entries[m] is Label,
        0 <= n <= entries[m]->Label_0.results.len(),
        known(start, key).labels == known(data, key).labels.union(
            labels_given(path, entries, m, 0, key),
        ),
    ensures
        known(with_label_rows(start, path, entries[m]->Label_0, n), key).labels == known(
            data,
            key,
        ).labels.union(labels_given(path, entries, m, n, key)),
    decreases n,
{
    let e = entries[m]->Label_0;
    if n > 0 {
        lemma_label_rows_labels(data, start, path, entries, m, n - 1, key);
        lemma_given_one_more(path, entries, m, n, key);
        let before = with_label_rows(start, path, e, n - 1);
        let after = with_label_rows(start, path, e, n);
        let less = labels_given(path, entries, m, n - 1, key);
        if joined(path, e.results[n - 1].test) == key {
            assert(known(after, key).labels == known(before, key).labels.insert(e.label));
            assert(known(data, key).labels.union(less).insert(e.label) =~= known(
                data,
                key,
            ).labels.union(less.insert(e.label)));
        } else {
            assert(known(after, key).labels == known(before, key).labels);
        }
    }
}

proof fn lemma_link_rows_labels(
    data: Map<Seq<char>, PathMetadataView>,
    path: Seq<char>,
    entry: LinkEntryView,
    n: int,
    key: Seq<char>,
)
    ensures
        known(with_link_rows(data, path, entry, n), key).labels == known(data, key).labels,
    decreases n,
{
    if n > 0 {
        lemma_link_rows_labels(data, path, entry, n - 1, key);
    }
}

proof fn lemma_entries_labels(
    data: Map<Seq<char>, PathMetadataView>,
    path: Seq<char>,
    entries: Seq<EntryView>,
    m: int,
    key: Seq<char>,
)
    requires
        0 <= m <= entries.len(),
    ensures
        known(with_entries(data, path, entries, m), key).labels == known(data, key).labels.union(
            labels_given(path, entries, m, 0, key),
        ),
    decreases m,
{
    if m > 0 {
        lemma_entries_labels(data, path, entries, m - 1, key);
        lemma_given_next_entry(path, entries, m - 1, key);
        let start = with_entries(data, path, entries, m - 1);
        match entries[m - 1] {
            EntryView::Label(e) => {
                lemma_label_rows_labels(
                    data,
                    start,
                    path,
                    entries,
                    m - 1,
                    e.results.len() as int,
                    key,
                );
            },
            EntryView::Link(e) => {
                lemma_link_rows_labels(start, path, e, e.results.len() as int, key);
            },
        }
    } else {
        assert forall|label: Seq<char>| !labels_given(path, entries, 0, 0, key).contains(label) by {
            if labelled_so_far(path, entries, 0, 0, key, label) {
                let (i, j) = choose|i: int, j: int| #[trigger]
                    gives_label(path, entries, i, j, key, label) && (i < 0 || (i == 0 && j < 0));
            }
        }
        assert(known(data, key).labels.union(labels_given(path, entries, 0, 0, key)) =~= known(
            data,
            key,
        ).labels);
    }
}

/// Label sets are united: after a document is taken up, a path has the
/// labels that it had and those that a row of a label entry of the
/// document gives it, and no others.
pub proof fn lemma_merge_labels(
    index: MetadataView,
    path: Seq<char>,
    file: FileView,
    key: Seq<char>,
    label: Seq<char>,
)
    ensures
        known(merged(index, path, file).data, key).labels.contains(label) <==> known(
            index.data,
            key,
        ).labels.contains(label) || exists|i: int, j: int| #[trigger]
            gives_label(path, file.links, i, j, key, label),
{
    let n = file.links.len() as int;
    lemma_entries_labels(index.data, path, file.links, n, key);
    if labelled_so_far(path, file.links, n, 0, key, label) {
        let (i, j) = choose|i: int, j: int| #[trigger]
            gives_label(path, file.links, i, j, key, label) && (i < n || (i == n && j < 0));
        assert(gives_label(path, file.links, i, j, key, label));
    }
    if exists|i: int, j: int| #[trigger] gives_label(path, file.links, i, j, key, label) {
        let (i, j) = choose|i: int, j: int| #[trigger] gives_label(path, file.links, i, j, key, label);
        assert(gives_label(path, file.links, i, j, key, label) && (i < n || (i == n && j < 0)));
    }
}

/// Taking up a document overwrites nothing: every path keeps its labels,
/// and every URL of a path keeps its filters in front of those that the
/// document adds.
pub proof fn lemma_merge_keeps(index: MetadataView, path: Seq<char>, file: FileView)
    ensures
        merged(index, path, file).revision == index.revision,
        grown(index.data, merged(index, path, file).data),
{
    lemma_entries_grow(index.data, path, file.links, file.links.len() as int);
}

/// Taking up a document adds no path but those of tests below its
/// directory, and loses none.
pub proof fn lemma_merge_paths(index: MetadataView, path: Seq<char>, file: FileView)
    ensures
        forall|key: Seq<char>| index.data.contains_key(key) ==> merged(index, path, file).data.contains_key(key),
        forall|key: Seq<char>| #[trigger]
            merged(index, path, file).data.contains_key(key) ==> index.data.contains_key(key)
                || exists|test: Seq<char>| #[trigger] joined(path, test) == key,
{
    lemma_entries_paths(index.data, path, file.links, file.links.len() as int);
}

proof fn lemma_label_rows_paths(
    data: Map<Seq<char>, PathMetadataView>,
    path: Seq<char>,
    entry: LabelEntryView,
    n: int,
)
    ensures
        forall|key: Seq<char>| data.contains_key(key) ==> with_label_rows(data, path, entry, n).contains_key(key),
        forall|key: Seq<char>| #[trigger]
            with_label_rows(data, path, entry, n).contains_key(key) ==> data.contains_key(key)
                || exists|test: Seq<char>| #[trigger] joined(path, test) == key,
    decreases n,
{
    if n > 0 {
        lemma_label_rows_paths(data, path, entry, n - 1);
        let before = with_label_rows(data, path, entry, n - 1);
        let test = entry.results[n - 1].test;
        let added = joined(path, test);
        assert(with_label_rows(data, path, entry, n) == with_label(
            before,
            added,
            entry.label,
            entry.url,
        ));
        assert forall|key: Seq<char>| #[trigger]
            with_label_rows(data, path, entry, n).contains_key(key) implies data.contains_key(key)
            || exists|test: Seq<char>| #[trigger] joined(path, test) == key by {
            if key == added {
                assert(joined(path, test) == key);
            } else {
                assert(before.contains_key(key));
            }
        }
    }
}

proof fn lemma_link_rows_paths(
    data: Map<Seq<char>, PathMetadataView>,
    path: Seq<char>,
    entry: LinkEntryView,
    n: int,
)
    ensures
        forall|key: Seq<char>| data.contains_key(key) ==> with_link_rows(data, path, entry, n).contains_key(key),
        forall|key: Seq<char>| #[trigger]
            with_link_rows(data, path, entry, n).contains_key(key) ==> data.contains_key(key)
                || exists|test: Seq<char>| #[trigger] joined(path, test) == key,
    decreases n,
{
    if n > 0 {
        lemma_link_rows_paths(data, path, entry, n - 1);
        let before = with_link_rows(data, path, entry, n - 1);
        let test = entry.results[n - 1].test;
        let added = joined(path, test);
        assert forall|key: Seq<char>| #[trigger]
            with_link_rows(data, path, entry, n).contains_key(key) implies data.contains_key(key)
            || exists|test: Seq<char>| #[trigger] joined(path, test) == key by {
            if key == added {
                assert(joined(path, test) == key);
            } else {
                assert(before.contains_key(key));
            }
        }
    }
}

proof fn lemma_entries_paths(
    data: Map<Seq<char>, PathMetadataView>,
    path: Seq<char>,
    entries: Seq<EntryView>,
    n: int,
)
    ensures
        forall|key: Seq<char>| data.contains_key(key) ==> with_entries(data, path, entries, n).contains_key(key),
        forall|key: Seq<char>| #[trigger]
            with_entries(data, path, entries, n).contains_key(key) ==> data.contains_key(key)
                || exists|test: Seq<char>| #[trigger] joined(path, test) == key,
    decreases n,
{
    if n > 0 {
        lemma_entries_paths(data, path, entries, n - 1);
        let before = with_entries(data, path, entries, n - 1);
        match entries[n - 1] {
            EntryView::Label(e) => {
                lemma_label_rows_paths(before, path, e, e.results.len() as int);
            },
            EntryView::Link(e) => {
                lemma_link_rows_paths(before, path, e, e.results.len() as int);
            },
        }
    }
}

/// A copy of an optional string.
pub fn copy_text(text: &Option<String>) -> (r: Option<String>)
    ensures
        r.deep_view() == text.deep_view(),
{
    match text {
        Some(t) => Some(t.clone()),
        None => None,
    }
}

} // verus!
