//! The entries of an annotation document.
//!
//! A document lists entries of two shapes. A label entry attaches a label,
//! and optionally a URL, to tests; a link entry attaches a URL to tests,
//! each under the conditions of one filter.

use vstd::prelude::*;
use crate::error::{ErrorView, MetadataError};
use crate::status::TestStatus;
use crate::yaml::{decode_yaml, field, yaml_document, yaml_get, yaml_is_null, yaml_model};
use crate::yaml::{yaml_models, yaml_sequence, yaml_str, Yaml};

verus! {

/// One row of a label entry: a test, named relative to the directory of the
/// document.
#[derive(Debug)]
pub struct MetadataLabelResult {
    pub test: String,
    pub status: Option<TestStatus>,
}

/// One row of a link entry.
#[derive(Debug)]
pub struct MetadataLinkResult {
    pub test: String,
    pub subtest: Option<String>,
    pub status: Option<TestStatus>,
}

/// An entry that labels tests.
#[derive(Debug)]
pub struct MetadataLabelEntry {
    pub label: String,
    pub url: Option<String>,
    pub results: Vec<MetadataLabelResult>,
}

/// An entry that links a URL to tests.
#[derive(Debug)]
pub struct MetadataLinkEntry {
    pub url: String,
    pub product: Option<String>,
    pub results: Vec<MetadataLinkResult>,
}

/// An entry of an annotation document.
#[derive(Debug)]
pub enum MetadataEntry {
    Label(MetadataLabelEntry),
    Link(MetadataLinkEntry),
}

/// An annotation document: its entries in the order in which it lists them.
#[derive(Debug)]
pub struct MetadataFile {
    pub links: Vec<MetadataEntry>,
}

pub struct LabelResultView {
    pub test: Seq<char>,
    pub status: Option<TestStatus>,
}

pub struct LinkResultView {
    pub test: Seq<char>,
    pub subtest: Option<Seq<char>>,
    pub status: Option<TestStatus>,
}

pub struct LabelEntryView {
    pub label: Seq<char>,
    pub url: Option<Seq<char>>,
    pub results: Seq<LabelResultView>,
}

pub struct LinkEntryView {
    pub url: Seq<char>,
    pub product: Option<Seq<char>>,
    pub results: Seq<LinkResultView>,
}

pub enum EntryView {
    Label(LabelEntryView),
    Link(LinkEntryView),
}

pub struct FileView {
    pub links: Seq<EntryView>,
}

impl View for MetadataLabelResult {
    type V = LabelResultView;

    open spec fn view(&self) -> LabelResultView {
        LabelResultView { test: self.test@, status: self.status }
    }
}

impl DeepView for MetadataLabelResult {
    type V = LabelResultView;

    open spec fn deep_view(&self) -> LabelResultView {
        self@
    }
}

impl View for MetadataLinkResult {
    type V = LinkResultView;

    open spec fn view(&self) -> LinkResultView {
        LinkResultView {
            test: self.test@,
            subtest: self.subtest.deep_view(),
            status: self.status,
        }
    }
}

impl DeepView for MetadataLinkResult {
    type V = LinkResultView;

    open spec fn deep_view(&self) -> LinkResultView {
        self@
    }
}

impl View for MetadataLabelEntry {
    type V = LabelEntryView;

    open spec fn view(&self) -> LabelEntryView {
        LabelEntryView {
            label: self.label@,
            url: self.url.deep_view(),
            results: self.results.deep_view(),
        }
    }
}

impl DeepView for MetadataLabelEntry {
    type V = LabelEntryView;

    open spec fn deep_view(&self) -> LabelEntryView {
        self@
    }
}

impl View for MetadataLinkEntry {
    type V = LinkEntryView;

    open spec fn view(&self) -> LinkEntryView {
        LinkEntryView {
            url: self.url@,
            product: self.product.deep_view(),
            results: self.results.deep_view(),
        }
    }
}

impl DeepView for MetadataLinkEntry {
    type V = LinkEntryView;

    open spec fn deep_view(&self) -> LinkEntryView {
        self@
    }
}

impl View for MetadataEntry {
    type V = EntryView;

    open spec fn view(&self) -> EntryView {
        match self {
            MetadataEntry::Label(e) => EntryView::Label(e@),
            MetadataEntry::Link(e) => EntryView::Link(e@),
        }
    }
}

impl DeepView for MetadataEntry {
    type V = EntryView;

    open spec fn deep_view(&self) -> EntryView {
        self@
    }
}

impl View for MetadataFile {
    type V = FileView;

    open spec fn view(&self) -> FileView {
        FileView { links: self.links.deep_view() }
    }
}

impl DeepView for MetadataFile {
    type V = FileView;

    open spec fn deep_view(&self) -> FileView {
        self@
    }
}

/// All of a sequence of optional values, if none is missing.
pub open spec fn gathered<T>(options: Seq<Option<T>>) -> Option<Seq<T>> {
    if forall|i: int| 0 <= i < options.len() ==> (#[trigger] options[i]) is Some {
        Some(Seq::new(options.len(), |i: int| options[i]->0))
    } else {
        None
    }
}

/// A field that must hold a string.
pub open spec fn text_field(y: Yaml, key: Seq<char>) -> Option<Seq<char>> {
    match field(y, key) {
        Some(Yaml::Text(t)) => Some(t),
        _ => None,
    }
}

/// A field that may be missing or null, and otherwise must hold a string.
/// The outer `None` says that it holds something else.
pub open spec fn optional_text_field(y: Yaml, key: Seq<char>) -> Option<Option<Seq<char>>> {
    match field(y, key) {
        None => Some(None),
        Some(Yaml::Null) => Some(None),
        Some(Yaml::Text(t)) => Some(Some(t)),
        Some(_) => None,
    }
}

/// A field that may be missing or null, and otherwise must hold the token
/// of a status. The outer `None` says that it holds something else.
pub open spec fn status_field(y: Yaml, key: Seq<char>) -> Option<Option<TestStatus>> {
    match optional_text_field(y, key) {
        None => None,
        Some(None) => Some(None),
        Some(Some(t)) => match TestStatus::named(t) {
            Some(status) => Some(Some(status)),
            None => None,
        },
    }
}

/// A field that must hold a sequence.
pub open spec fn list_field(y: Yaml, key: Seq<char>) -> Option<Seq<Yaml>> {
    match field(y, key) {
        Some(Yaml::List(items)) => Some(items),
        _ => None,
    }
}

/// A row of a label entry: a table with a test and, optionally, a status.
pub open spec fn label_row(y: Yaml) -> Option<LabelResultView> {
    match (text_field(y, "test"@), status_field(y, "status"@)) {
        (Some(test), Some(status)) => Some(LabelResultView { test, status }),
        _ => None,
    }
}

/// A row of a link entry: a table with a test and, optionally, a subtest
/// and a status.
pub open spec fn link_row(y: Yaml) -> Option<LinkResultView> {
    match (text_field(y, "test"@), optional_text_field(y, "subtest"@), status_field(y, "status"@)) {
        (Some(test), Some(subtest), Some(status)) => Some(
            LinkResultView { test, subtest, status },
        ),
        _ => None,
    }
}

pub open spec fn label_rows(items: Seq<Yaml>) -> Option<Seq<LabelResultView>> {
    gathered(Seq::new(items.len(), |i: int| label_row(items[i])))
}

pub open spec fn link_rows(items: Seq<Yaml>) -> Option<Seq<LinkResultView>> {
    gathered(Seq::new(items.len(), |i: int| link_row(items[i])))
}

/// The label shape: a table with a label, optionally a URL, and rows.
pub open spec fn label_entry(y: Yaml) -> Option<LabelEntryView> {
    match (text_field(y, "label"@), optional_text_field(y, "url"@), list_field(y, "results"@)) {
        (Some(label), Some(url), Some(items)) => match label_rows(items) {
            Some(results) => Some(LabelEntryView { label, url, results }),
            None => None,
        },
        _ => None,
    }
}

/// The link shape: a table with a URL, optionally a product, and rows.
pub open spec fn link_entry(y: Yaml) -> Option<LinkEntryView> {
    match (text_field(y, "url"@), optional_text_field(y, "product"@), list_field(y, "results"@)) {
        (Some(url), Some(product), Some(items)) => match link_rows(items) {
            Some(results) => Some(LinkEntryView { url, product, results }),
            None => None,
        },
        _ => None,
    }
}

/// An entry: what has the label shape is a label entry; what has not, and
/// has the link shape, is a link entry; anything else is no entry.
pub open spec fn entry(y: Yaml) -> Option<EntryView> {
    match label_entry(y) {
        Some(e) => Some(EntryView::Label(e)),
        None => match link_entry(y) {
            Some(e) => Some(EntryView::Link(e)),
            None => None,
        },
    }
}

/// A document: a table whose field `links` lists the entries.
pub open spec fn document(y: Yaml) -> Option<FileView> {
    match list_field(y, "links"@) {
        Some(items) => match gathered(Seq::new(items.len(), |i: int| entry(items[i]))) {
            Some(links) => Some(FileView { links }),
            None => None,
        },
        None => None,
    }
}

/// What the bytes of a document say: its entries, if the bytes decode and
/// what they decode to is a document.
pub open spec fn parsed(bytes: Seq<u8>) -> Option<FileView> {
    match yaml_document(bytes) {
        Some(y) => document(y),
        None => None,
    }
}

fn required_text(value: &serde_yaml::Value, key: &str) -> (r: Option<String>)
    ensures
        r.deep_view() == text_field(yaml_model(*value), key@),
{
    match yaml_get(value, key) {
        Some(entry) => match yaml_str(entry) {
            Some(text) => Some(String::from_str(text)),
            None => None,
        },
        None => None,
    }
}

fn optional_text(value: &serde_yaml::Value, key: &str) -> (r: Option<Option<String>>)
    ensures
        r.deep_view() == optional_text_field(yaml_model(*value), key@),
{
    match yaml_get(value, key) {
        Some(entry) => {
            if yaml_is_null(entry) {
                Some(None)
            } else {
                match yaml_str(entry) {
                    Some(text) => Some(Some(String::from_str(text))),
                    None => None,
                }
            }
        },
        None => Some(None),
    }
}

fn optional_status(value: &serde_yaml::Value, key: &str) -> (r: Option<Option<TestStatus>>)
    ensures
        r == status_field(yaml_model(*value), key@),
{
    match optional_text(value, key) {
        Some(Some(token)) => match TestStatus::from_token(token.as_str()) {
            Ok(status) => Some(Some(status)),
            Err(_) => None,
        },
        Some(None) => Some(None),
        None => None,
    }
}

fn list<'a>(value: &'a serde_yaml::Value, key: &str) -> (r: Option<&'a Vec<serde_yaml::Value>>)
    ensures
        match r {
            Some(items) => list_field(yaml_model(*value), key@) == Some(yaml_models(items@)),
            None => list_field(yaml_model(*value), key@) is None,
        },
{
    match yaml_get(value, key) {
        Some(entry) => yaml_sequence(entry),
        None => None,
    }
}

fn decode_label_row(value: &serde_yaml::Value) -> (r: Option<MetadataLabelResult>)
    ensures
        r.deep_view() == label_row(yaml_model(*value)),
{
    let test = match required_text(value, "test") {
        Some(test) => test,
        None => { return None; },
    };
    let status = match optional_status(value, "status") {
        Some(status) => status,
        None => { return None; },
    };
    Some(MetadataLabelResult { test, status })
}

fn decode_link_row(value: &serde_yaml::Value) -> (r: Option<MetadataLinkResult>)
    ensures
        r.deep_view() == link_row(yaml_model(*value)),
{
    let test = match required_text(value, "test") {
        Some(test) => test,
        None => { return None; },
    };
    let subtest = match optional_text(value, "subtest") {
        Some(subtest) => subtest,
        None => { return None; },
    };
    let status = match optional_status(value, "status") {
        Some(status) => status,
        None => { return None; },
    };
    Some(MetadataLinkResult { test, subtest, status })
}

fn decode_label_rows(items: &Vec<serde_yaml::Value>) -> (r: Option<Vec<MetadataLabelResult>>)
    ensures
        r.deep_view() == label_rows(yaml_models(items@)),
{
    let ghost models = yaml_models(items@);
    let ghost rows = Seq::new(models.len(), |i: int| label_row(models[i]));
    let mut results: Vec<MetadataLabelResult> = Vec::new();
    let mut i: usize = 0;
    while i < items.len()
        invariant
            0 <= i <= items.len(),
            models == yaml_models(items@),
            rows == Seq::new(models.len(), |i: int| label_row(models[i])),
            results.len() == i,
            forall|k: int| 0 <= k < i ==> #[trigger] rows[k] == Some(results[k]@),
        decreases items.len() - i,
    {
        match decode_label_row(&items[i]) {
            Some(row) => {
                assert(rows[i as int] == Some(row@));
                results.push(row);
            },
            None => {
                assert(rows[i as int] is None);
                return None;
            },
        }
        i = i + 1;
    }
    assert(results.deep_view() =~= gathered(rows)->0);
    Some(results)
}

fn decode_link_rows(items: &Vec<serde_yaml::Value>) -> (r: Option<Vec<MetadataLinkResult>>)
    ensures
        r.deep_view() == link_rows(yaml_models(items@)),
{
    let ghost models = yaml_models(items@);
    let ghost rows = Seq::new(models.len(), |i: int| link_row(models[i]));
    let mut results: Vec<MetadataLinkResult> = Vec::new();
    let mut i: usize = 0;
    while i < items.len()
        invariant
            0 <= i <= items.len(),
            models == yaml_models(items@),
            rows == Seq::new(models.len(), |i: int| link_row(models[i])),
            results.len() == i,
            forall|k: int| 0 <= k < i ==> #[trigger] rows[k] == Some(results[k]@),
        decreases items.len() - i,
    {
        match decode_link_row(&items[i]) {
            Some(row) => {
                assert(rows[i as int] == Some(row@));
                results.push(row);
            },
            None => {
                assert(rows[i as int] is None);
                return None;
            },
        }
        i = i + 1;
    }
    assert(results.deep_view() =~= gathered(rows)->0);
    Some(results)
}

fn decode_label_entry(value: &serde_yaml::Value) -> (r: Option<MetadataLabelEntry>)
    ensures
        r.deep_view() == label_entry(yaml_model(*value)),
{
    let label = match required_text(value, "label") {
        Some(label) => label,
        None => { return None; },
    };
    let url = match optional_text(value, "url") {
        Some(url) => url,
        None => { return None; },
    };
    let items = match list(value, "results") {
        Some(items) => items,
        None => { return None; },
    };
    match decode_label_rows(items) {
        Some(results) => Some(MetadataLabelEntry { label, url, results }),
        None => None,
    }
}

fn decode_link_entry(value: &serde_yaml::Value) -> (r: Option<MetadataLinkEntry>)
    ensures
        r.deep_view() == link_entry(yaml_model(*value)),
{
    let url = match required_text(value, "url") {
        Some(url) => url,
        None => { return None; },
    };
    let product = match optional_text(value, "product") {
        Some(product) => product,
        None => { return None; },
    };
    let items = match list(value, "results") {
        Some(items) => items,
        None => { return None; },
    };
    match decode_link_rows(items) {
        Some(results) => Some(MetadataLinkEntry { url, product, results }),
        None => None,
    }
}

/// Reads one entry: the label shape is tried first, then the link shape.
pub fn decode_entry(value: &serde_yaml::Value) -> (r: Option<MetadataEntry>)
    ensures
        r.deep_view() == entry(yaml_model(*value)),
{
    match decode_label_entry(value) {
        Some(e) => Some(MetadataEntry::Label(e)),
        None => match decode_link_entry(value) {
            Some(e) => Some(MetadataEntry::Link(e)),
            None => None,
        },
    }
}

/// Reads the entries of a decoded document, in its order. There is no
/// result unless every entry has one of the two shapes.
pub fn decode_document(value: &serde_yaml::Value) -> (r: Option<MetadataFile>)
    ensures
        r.deep_view() == document(yaml_model(*value)),
{
    let items = match list(value, "links") {
        Some(items) => items,
        None => { return None; },
    };
    let ghost models = yaml_models(items@);
    let ghost all = Seq::new(models.len(), |i: int| entry(models[i]));
    let mut links: Vec<MetadataEntry> = Vec::new();
    let mut i: usize = 0;
    while i < items.len()
        invariant
            0 <= i <= items.len(),
            models == yaml_models(items@),
            all == Seq::new(models.len(), |i: int| entry(models[i])),
            list_field(yaml_model(*value), "links"@) == Some(models),
            links.len() == i,
            forall|k: int| 0 <= k < i ==> #[trigger] all[k] == Some(links[k]@),
        decreases items.len() - i,
    {
        match decode_entry(&items[i]) {
            Some(e) => {
                assert(all[i as int] == Some(e@));
                links.push(e);
            },
            None => {
                assert(all[i as int] is None);
                return None;
            },
        }
        i = i + 1;
    }
    assert(links.deep_view() =~= gathered(all)->0);
    Some(MetadataFile { links })
}

/// Reads the annotation document found in directory `path` from its bytes.
/// Bytes that do not decode, and a document of which some entry has
/// neither shape, are a schema error that names the directory.
pub fn parse_annotations(path: &str, bytes: &[u8]) -> (r: Result<MetadataFile, MetadataError>)
    ensures
        match r {
            Ok(file) => parsed(bytes@) == Some(file@),
            Err(e) => parsed(bytes@) is None && e@ == ErrorView::Schema(path@),
        },
{
    match decode_yaml(bytes) {
        Ok(value) => match decode_document(&value) {
            Some(file) => Ok(file),
            None => Err(MetadataError::Schema(String::from_str(path))),
        },
        Err(_) => Err(MetadataError::Schema(String::from_str(path))),
    }
}

} // verus!
