//! Building the index of one revision by walking its tree.
//!
//! The library does not read the object store. It decides: given the
//! listing of the root tree, a [`Walk`] says which object it needs next, a
//! tree or the blob of an annotation document, and goes on when it is given
//! that object. Directories wait on a work list; the walk takes the one that
//! was put there last, and reads the entries of a directory in their order.
//! Hidden directories are passed over with all that is below them.

use vstd::prelude::*;
use crate::annotation::{parse_annotations, parsed};
use crate::error::{ErrorView, MetadataError};
use crate::metadata::{lemma_merge_paths, merged, Metadata, MetadataView};
use crate::text::{hidden, is_hidden, join, joined, same_text};

verus! {

/// What kind of object an entry of a tree names.
#[derive(Clone, Copy, Debug, PartialEq, Eq, Structural)]
pub enum ObjectKind {
    Tree,
    Blob,
    /// Anything else, a submodule for one.
    Other,
}

/// One entry of a tree as the object store lists it.
#[derive(Debug)]
pub struct TreeEntry {
    /// The name, or nothing where the name is not UTF-8.
    pub name: Option<String>,
    pub kind: ObjectKind,
    /// The id of the object, by which the store finds it.
    pub id: String,
}

pub struct TreeEntryView {
    pub name: Option<Seq<char>>,
    pub kind: ObjectKind,
    pub id: Seq<char>,
}

impl View for TreeEntry {
    type V = TreeEntryView;

    open spec fn view(&self) -> TreeEntryView {
        TreeEntryView { name: self.name.deep_view(), kind: self.kind, id: self.id@ }
    }
}

impl DeepView for TreeEntry {
    type V = TreeEntryView;

    open spec fn deep_view(&self) -> TreeEntryView {
        self@
    }
}

/// The name that annotation documents have.
pub open spec fn annotation_file() -> Seq<char> {
    "META.yml"@
}

/// What the walk does with an entry.
#[derive(Debug)]
pub enum Visit {
    /// Nothing: a hidden directory, or a blob that is no annotation document.
    Skip,
    /// The entry is a directory to walk; holds its path.
    Descend(String),
    /// The entry is an annotation document to read.
    Read,
}

pub enum VisitView {
    Skip,
    Descend(Seq<char>),
    Read,
}

impl View for Visit {
    type V = VisitView;

    open spec fn view(&self) -> VisitView {
        match self {
            Visit::Skip => VisitView::Skip,
            Visit::Descend(path) => VisitView::Descend(path@),
            Visit::Read => VisitView::Read,
        }
    }
}

/// What the walk does with `entry`, found in directory `path`. A tree is
/// walked unless it is hidden, and a blob is read if it has the name of
/// annotation documents; either must have a name in UTF-8. Any other kind
/// of object ends the walk.
pub open spec fn visit_of(path: Seq<char>, entry: TreeEntryView) -> Result<VisitView, ErrorView> {
    match entry.kind {
        ObjectKind::Tree => match entry.name {
            None => Err(ErrorView::Encoding(path)),
            Some(name) => if hidden(name) {
                Ok(VisitView::Skip)
            } else {
                Ok(VisitView::Descend(joined(path, name)))
            },
        },
        ObjectKind::Blob => match entry.name {
            None => Err(ErrorView::Encoding(path)),
            Some(name) => if name == annotation_file() {
                Ok(VisitView::Read)
            } else {
                Ok(VisitView::Skip)
            },
        },
        ObjectKind::Other => Err(ErrorView::UnexpectedObject(entry.id)),
    }
}

/// Decides what the walk does with `entry`, found in directory `path`.
pub fn classify(path: &str, entry: &TreeEntry) -> (r: Result<Visit, MetadataError>)
    ensures
        match r {
            Ok(visit) => visit_of(path@, entry@) == Ok::<VisitView, ErrorView>(visit@),
            Err(e) => visit_of(path@, entry@) == Err::<VisitView, ErrorView>(e@),
        },
{
    match entry.kind {
        ObjectKind::Tree => match &entry.name {
            None => Err(MetadataError::Encoding(String::from_str(path))),
            Some(name) => if is_hidden(name.as_str()) {
                Ok(Visit::Skip)
            } else {
                Ok(Visit::Descend(join(path, name.as_str())))
            },
        },
        ObjectKind::Blob => match &entry.name {
            None => Err(MetadataError::Encoding(String::from_str(path))),
            Some(name) => if same_text(name.as_str(), "META.yml") {
                Ok(Visit::Read)
            } else {
                Ok(Visit::Skip)
            },
        },
        ObjectKind::Other => Err(MetadataError::UnexpectedObject(entry.id.clone())),
    }
}

/// The path that a sequence of directory names spells from the root: each
/// name behind a slash.
pub open spec fn path_of(names: Seq<Seq<char>>) -> Seq<char>
    decreases names.len(),
{
    if names.len() == 0 {
        Seq::empty()
    } else {
        joined(path_of(names.drop_last()), names.last())
    }
}

/// None of the names is hidden.
pub open spec fn visible(names: Seq<Seq<char>>) -> bool {
    forall|i: int| 0 <= i < names.len() ==> !hidden(#[trigger] names[i])
}

/// The path of a directory that is reached from the root through
/// directories that are not hidden.
pub open spec fn open_directory(path: Seq<char>) -> bool {
    exists|names: Seq<Seq<char>>| visible(names) && #[trigger] path_of(names) == path
}

/// A test path as the walk makes them: an open directory, a slash, and the
/// name of a test as a document gives it.
pub open spec fn walked_path(key: Seq<char>) -> bool {
    exists|directory: Seq<char>, test: Seq<char>|
        open_directory(directory) && #[trigger] joined(directory, test) == key
}

/// The root is an open directory.
pub proof fn lemma_root_open()
    ensures
        open_directory(Seq::empty()),
{
    let names = Seq::<Seq<char>>::empty();
    assert(visible(names) && path_of(names) == Seq::<char>::empty());
}

/// Below an open directory, a directory that is not hidden is open.
pub proof fn lemma_child_open(path: Seq<char>, name: Seq<char>)
    requires
        open_directory(path),
        !hidden(name),
    ensures
        open_directory(joined(path, name)),
{
    let names = choose|names: Seq<Seq<char>>| visible(names) && #[trigger] path_of(names) == path;
    let more = names.push(name);
    assert(more.drop_last() =~= names);
    assert(visible(more));
    assert(path_of(more) == joined(path, name));
}

/// A directory that waits to be walked, or is being walked.
#[derive(Debug)]
pub struct Directory {
    path: String,
    entries: Vec<TreeEntry>,
}

pub struct DirectoryView {
    pub path: Seq<char>,
    pub entries: Seq<TreeEntryView>,
}

impl View for Directory {
    type V = DirectoryView;

    closed spec fn view(&self) -> DirectoryView {
        DirectoryView { path: self.path@, entries: self.entries.deep_view() }
    }
}

impl DeepView for Directory {
    type V = DirectoryView;

    open spec fn deep_view(&self) -> DirectoryView {
        self@
    }
}

/// A walk between two steps.
#[derive(Debug)]
pub struct Walk {
    metadata: Metadata,
    current: Directory,
    next: usize,
    pending: Vec<Directory>,
}

pub struct WalkView {
    /// The index as far as it is built.
    pub index: MetadataView,
    /// The directory that is being walked.
    pub current: DirectoryView,
    /// The place of its next entry.
    pub next: int,
    /// The directories that wait; the last is walked next.
    pub pending: Seq<DirectoryView>,
}

impl View for Walk {
    type V = WalkView;

    closed spec fn view(&self) -> WalkView {
        WalkView {
            index: self.metadata@,
            current: self.current@,
            next: self.next as int,
            pending: self.pending.deep_view(),
        }
    }
}

/// Every directory of the walk is open, and every path of its index is one
/// that a walk makes.
pub open spec fn in_the_open(walk: WalkView) -> bool {
    &&& open_directory(walk.current.path)
    &&& forall|i: int| 0 <= i < walk.pending.len() ==> open_directory(#[trigger] walk.pending[i].path)
    &&& forall|key: Seq<char>| walk.index.data.contains_key(key) ==> walked_path(key)
}

/// The walk has a tree to ask for.
#[derive(Debug)]
pub struct TreeRequest {
    walk: Walk,
    id: String,
    path: String,
}

/// The walk has an annotation document to ask for.
#[derive(Debug)]
pub struct BlobRequest {
    walk: Walk,
    id: String,
}

/// What a walk comes to when it goes on.
#[derive(Debug)]
pub enum Step {
    /// It needs the listing of a tree.
    Tree(TreeRequest),
    /// It needs the content of a blob.
    Blob(BlobRequest),
    /// It is over; this is the index.
    Done(Metadata),
    /// It met an entry that ends it.
    Failed(MetadataError),
}

pub enum StepView {
    Tree { walk: WalkView, id: Seq<char>, path: Seq<char> },
    Blob { walk: WalkView, id: Seq<char> },
    Done(MetadataView),
    Failed(ErrorView),
}

impl View for TreeRequest {
    type V = StepView;

    closed spec fn view(&self) -> StepView {
        StepView::Tree { walk: self.walk@, id: self.id@, path: self.path@ }
    }
}

impl View for BlobRequest {
    type V = StepView;

    closed spec fn view(&self) -> StepView {
        StepView::Blob { walk: self.walk@, id: self.id@ }
    }
}

impl View for Step {
    type V = StepView;

    open spec fn view(&self) -> StepView {
        match self {
            Step::Tree(request) => request@,
            Step::Blob(request) => request@,
            Step::Done(metadata) => StepView::Done(metadata@),
            Step::Failed(e) => StepView::Failed(e@),
        }
    }
}

/// The walk with its place in the current directory moved on by one.
pub open spec fn past(walk: WalkView) -> WalkView {
    WalkView { next: walk.next + 1, ..walk }
}

/// What a walk comes to: it passes over the entries that it skips, takes
/// up the directory that was put on the work list last when the current one
/// is at its end, and stops at the first entry that it needs an object
/// for, at the first that ends it, or when nothing is left.
pub open spec fn step_of(walk: WalkView) -> StepView
    decreases walk.pending.len(), walk.current.entries.len() - walk.next,
{
    if walk.next < 0 || walk.next >= walk.current.entries.len() {
        if walk.pending.len() == 0 {
            StepView::Done(walk.index)
        } else {
            step_of(
                WalkView {
                    index: walk.index,
                    current: walk.pending.last(),
                    next: 0,
                    pending: walk.pending.drop_last(),
                },
            )
        }
    } else {
        let entry = walk.current.entries[walk.next];
        match visit_of(walk.current.path, entry) {
            Err(e) => StepView::Failed(e),
            Ok(VisitView::Skip) => step_of(past(walk)),
            Ok(VisitView::Descend(path)) => StepView::Tree { walk: past(walk), id: entry.id, path },
            Ok(VisitView::Read) => StepView::Blob { walk: past(walk), id: entry.id },
        }
    }
}

/// The walk after it was handed the entries of the directory `path`: the
/// directory waits on the work list, behind those that waited before.
pub open spec fn after_tree(walk: WalkView, path: Seq<char>, entries: Seq<TreeEntryView>) -> WalkView {
    WalkView { pending: walk.pending.push(DirectoryView { path, entries }), ..walk }
}

/// The walk after it was handed the bytes of the annotation document of its
/// current directory: the document is taken up into the index, or, where
/// it cannot be read, the walk ends with a schema error.
pub open spec fn after_blob(walk: WalkView, content: Seq<u8>) -> Result<WalkView, ErrorView> {
    match parsed(content) {
        Some(file) => Ok(WalkView { index: merged(walk.index, walk.current.path, file), ..walk }),
        None => Err(ErrorView::Schema(walk.current.path)),
    }
}

/// What a walk comes to in the end when each tree that it asks for is
/// listed by `trees` and each blob is held by `blobs`, both by id, and it
/// may ask `fuel` times: the index, or the error that ended it. There is
/// no outcome where an object is missing or the fuel runs out.
pub open spec fn outcome(
    walk: WalkView,
    trees: Map<Seq<char>, Seq<TreeEntryView>>,
    blobs: Map<Seq<char>, Seq<u8>>,
    fuel: nat,
) -> Option<Result<MetadataView, ErrorView>>
    decreases fuel,
{
    match step_of(walk) {
        StepView::Done(index) => Some(Ok(index)),
        StepView::Failed(e) => Some(Err(e)),
        StepView::Tree { walk: then, id, path } => if fuel == 0 || !trees.contains_key(id) {
            None
        } else {
            outcome(after_tree(then, path, trees[id]), trees, blobs, (fuel - 1) as nat)
        },
        StepView::Blob { walk: then, id } => if fuel == 0 || !blobs.contains_key(id) {
            None
        } else {
            match after_blob(then, blobs[id]) {
                Ok(next) => outcome(next, trees, blobs, (fuel - 1) as nat),
                Err(e) => Some(Err(e)),
            }
        },
    }
}

/// A walk over the same objects comes to the same end however often it is
/// made and however much it may ask: once there is an outcome, more fuel
/// does not change it.
pub proof fn lemma_outcome_settled(
    walk: WalkView,
    trees: Map<Seq<char>, Seq<TreeEntryView>>,
    blobs: Map<Seq<char>, Seq<u8>>,
    fuel: nat,
    more: nat,
)
    requires
        outcome(walk, trees, blobs, fuel) is Some,
        fuel <= more,
    ensures
        outcome(walk, trees, blobs, more) == outcome(walk, trees, blobs, fuel),
    decreases fuel,
{
    match step_of(walk) {
        StepView::Done(_) => {},
        StepView::Failed(_) => {},
        StepView::Tree { walk: then, id, path } => {
            lemma_outcome_settled(
                after_tree(then, path, trees[id]),
                trees,
                blobs,
                (fuel - 1) as nat,
                (more - 1) as nat,
            );
        },
        StepView::Blob { walk: then, id } => {
            match after_blob(then, blobs[id]) {
                Ok(next) => {
                    lemma_outcome_settled(next, trees, blobs, (fuel - 1) as nat, (more - 1) as nat);
                },
                Err(_) => {},
            }
        },
    }
}

/// A step leaves a walk in the open: the walk that goes on from a request
/// is in the open, the directory that is asked for is open, and an index
/// that comes out holds only paths that a walk makes.
pub proof fn lemma_step_in_the_open(walk: WalkView)
    requires
        in_the_open(walk),
    ensures
        match step_of(walk) {
            StepView::Tree { walk: then, path, .. } => in_the_open(then) && open_directory(path),
            StepView::Blob { walk: then, .. } => in_the_open(then),
            StepView::Done(index) => forall|key: Seq<char>|
                index.data.contains_key(key) ==> walked_path(key),
            StepView::Failed(_) => true,
        },
    decreases walk.pending.len(), walk.current.entries.len() - walk.next,
{
    if walk.next < 0 || walk.next >= walk.current.entries.len() {
        if walk.pending.len() > 0 {
            let then = WalkView {
                index: walk.index,
                current: walk.pending.last(),
                next: 0,
                pending: walk.pending.drop_last(),
            };
            assert forall|i: int| 0 <= i < then.pending.len() implies open_directory(
                #[trigger] then.pending[i].path,
            ) by {
                assert(then.pending[i] == walk.pending[i]);
            }
            lemma_step_in_the_open(then);
        }
    } else {
        let entry = walk.current.entries[walk.next];
        match visit_of(walk.current.path, entry) {
            Err(_) => {},
            Ok(VisitView::Skip) => {
                lemma_step_in_the_open(past(walk));
            },
            Ok(VisitView::Descend(_)) => {
                lemma_child_open(walk.current.path, entry.name->0);
            },
            Ok(VisitView::Read) => {},
        }
    }
}

/// Handing a walk what it asked for leaves it in the open.
pub proof fn lemma_supplied_in_the_open(
    walk: WalkView,
    path: Seq<char>,
    entries: Seq<TreeEntryView>,
    content: Seq<u8>,
)
    requires
        in_the_open(walk),
    ensures
        open_directory(path) ==> in_the_open(after_tree(walk, path, entries)),
        after_blob(walk, content) matches Ok(then) ==> in_the_open(then),
{
    if open_directory(path) {
        let then = after_tree(walk, path, entries);
        assert forall|i: int| 0 <= i < then.pending.len() implies open_directory(
            #[trigger] then.pending[i].path,
        ) by {
            if i < walk.pending.len() {
                assert(then.pending[i] == walk.pending[i]);
            }
        }
    }
    if let Ok(then) = after_blob(walk, content) {
        let file = parsed(content)->0;
        lemma_merge_paths(walk.index, walk.current.path, file);
        assert forall|key: Seq<char>| then.index.data.contains_key(key) implies walked_path(key) by {
            if !walk.index.data.contains_key(key) {
                let test = choose|test: Seq<char>| #[trigger] joined(walk.current.path, test) == key;
                assert(open_directory(walk.current.path) && joined(walk.current.path, test) == key);
            }
        }
    }
}

/// Every index that a walk from the root comes to, whatever the objects
/// are, holds only paths made of an open directory, a slash and the name
/// of a test.
pub proof fn lemma_outcome_in_the_open(
    walk: WalkView,
    trees: Map<Seq<char>, Seq<TreeEntryView>>,
    blobs: Map<Seq<char>, Seq<u8>>,
    fuel: nat,
)
    requires
        in_the_open(walk),
    ensures
        outcome(walk, trees, blobs, fuel) matches Some(Ok(index)) ==> forall|key: Seq<char>|
            index.data.contains_key(key) ==> walked_path(key),
    decreases fuel,
{
    lemma_step_in_the_open(walk);
    match step_of(walk) {
        StepView::Done(_) => {},
        StepView::Failed(_) => {},
        StepView::Tree { walk: then, id, path } => {
            if fuel > 0 && trees.contains_key(id) {
                lemma_supplied_in_the_open(then, path, trees[id], Seq::empty());
                lemma_outcome_in_the_open(
                    after_tree(then, path, trees[id]),
                    trees,
                    blobs,
                    (fuel - 1) as nat,
                );
            }
        },
        StepView::Blob { walk: then, id } => {
            if fuel > 0 && blobs.contains_key(id) {
                lemma_supplied_in_the_open(then, Seq::empty(), Seq::empty(), blobs[id]);
                match after_blob(then, blobs[id]) {
                    Ok(next) => {
                        lemma_outcome_in_the_open(next, trees, blobs, (fuel - 1) as nat);
                    },
                    Err(_) => {},
                }
            }
        },
    }
}

impl Walk {
    /// The walk never leaves the open: see [`in_the_open`].
    #[verifier::type_invariant]
    pub closed spec fn sound(&self) -> bool {
        in_the_open(self@)
    }

    /// A walk of `revision` that starts at the root, whose entries are `root`.
    pub fn new(revision: String, root: Vec<TreeEntry>) -> (r: Walk)
        ensures
            r@ == (WalkView {
                index: MetadataView { revision: revision@, data: Map::empty() },
                current: DirectoryView { path: Seq::empty(), entries: root.deep_view() },
                next: 0,
                pending: Seq::empty(),
            }),
    {
        proof {
            lemma_root_open();
        }
        let r = Walk {
            metadata: Metadata::new(revision),
            current: Directory { path: String::new(), entries: root },
            next: 0,
            pending: Vec::new(),
        };
        assert(r.pending.deep_view() =~= Seq::<DirectoryView>::empty());
        r
    }

    /// Goes on to the next thing that the walk needs, or to its end. An
    /// index that comes out holds only paths that a walk makes.
    pub fn next(self) -> (r: Step)
        ensures
            r@ == step_of(self@),
            r is Tree <==> step_of(self@) is Tree,
            r is Blob <==> step_of(self@) is Blob,
            r is Done <==> step_of(self@) is Done,
            r is Failed <==> step_of(self@) is Failed,
            in_the_open(self@),
            r matches Step::Done(metadata) ==> forall|key: Seq<char>|
                metadata@.data.contains_key(key) ==> walked_path(key),
    {
        proof {
            use_type_invariant(&self);
        }
        let ghost start = self@;
        let Walk { metadata, mut current, mut next, mut pending } = self;
        loop
            invariant
                start == self@,
                in_the_open(start),
                in_the_open(
                    WalkView {
                        index: metadata@,
                        current: current@,
                        next: next as int,
                        pending: pending.deep_view(),
                    },
                ),
                step_of(
                    WalkView {
                        index: metadata@,
                        current: current@,
                        next: next as int,
                        pending: pending.deep_view(),
                    },
                ) == step_of(start),
            decreases pending.len(), current.entries.len() - next,
        {
            let ghost here = WalkView {
                index: metadata@,
                current: current@,
                next: next as int,
                pending: pending.deep_view(),
            };
            if next >= current.entries.len() {
                let ghost waiting = pending.deep_view();
                match pending.pop() {
                    None => {
                        return Step::Done(metadata);
                    },
                    Some(directory) => {
                        assert(pending.deep_view() =~= waiting.drop_last());
                        assert(directory@ == waiting.last());
                        current = directory;
                        next = 0;
                    },
                }
            } else {
                let entry = &current.entries[next];
                assert(here.current.entries[next as int] == entry@);
                match classify(current.path.as_str(), entry) {
                    Err(e) => {
                        return Step::Failed(e);
                    },
                    Ok(Visit::Skip) => {
                        next = next + 1;
                    },
                    Ok(Visit::Descend(path)) => {
                        proof {
                            lemma_child_open(current.path@, entry@.name->0);
                        }
                        let id = entry.id.clone();
                        let walk = Walk { metadata, current, next: next + 1, pending };
                        return Step::Tree(TreeRequest { walk, id, path });
                    },
                    Ok(Visit::Read) => {
                        let id = entry.id.clone();
                        let walk = Walk { metadata, current, next: next + 1, pending };
                        return Step::Blob(BlobRequest { walk, id });
                    },
                }
            }
        }
    }
}

impl TreeRequest {
    /// The directory that is asked for is open.
    #[verifier::type_invariant]
    pub closed spec fn sound(&self) -> bool {
        open_directory(self.path@)
    }

    /// The id of the tree that the walk needs.
    pub fn id(&self) -> (r: &str)
        ensures
            self@ matches StepView::Tree { id, .. } && r@ == id,
    {
        self.id.as_str()
    }

    /// The path of the directory that the tree is.
    pub fn path(&self) -> (r: &str)
        ensures
            self@ matches StepView::Tree { path, .. } && r@ == path,
            open_directory(r@),
    {
        proof {
            use_type_invariant(self);
        }
        self.path.as_str()
    }

    /// Hands the walk the entries of the tree that it asked for: the
    /// directory is put on the work list.
    pub fn supply(self, entries: Vec<TreeEntry>) -> (r: Walk)
        ensures
            self@ matches StepView::Tree { walk, path, .. } && r@ == after_tree(
                walk,
                path,
                entries.deep_view(),
            ),
    {
        proof {
            use_type_invariant(&self);
        }
        let TreeRequest { walk, id: _, path } = self;
        proof {
            use_type_invariant(&walk);
        }
        let ghost held = walk@;
        assert(in_the_open(held) && open_directory(path@));
        let Walk { metadata, current, next, mut pending } = walk;
        let ghost waiting = pending.deep_view();
        assert(waiting == held.pending);
        let directory = Directory { path, entries };
        pending.push(directory);
        assert(pending.deep_view() =~= waiting.push(directory@));
        assert forall|i: int| 0 <= i < pending.deep_view().len() implies open_directory(
            #[trigger] pending.deep_view()[i].path,
        ) by {
            if i < waiting.len() {
                assert(pending.deep_view()[i] == waiting[i]);
            }
        }
        Walk { metadata, current, next, pending }
    }
}

impl BlobRequest {
    /// The id of the blob that the walk needs.
    pub fn id(&self) -> (r: &str)
        ensures
            self@ matches StepView::Blob { id, .. } && r@ == id,
    {
        self.id.as_str()
    }

    /// Hands the walk the content of the blob that it asked for: the
    /// document is read and taken up into the index under the directory
    /// that is being walked. A document that cannot be read ends the walk.
    pub fn supply(self, content: &[u8]) -> (r: Result<Walk, MetadataError>)
        ensures
            self@ matches StepView::Blob { walk, .. } && match r {
                Ok(then) => after_blob(walk, content@) == Ok::<WalkView, ErrorView>(then@),
                Err(e) => after_blob(walk, content@) == Err::<WalkView, ErrorView>(e@),
            },
    {
        let BlobRequest { walk, id: _ } = self;
        proof {
            use_type_invariant(&walk);
        }
        let ghost held = walk@;
        assert(in_the_open(held));
        let Walk { mut metadata, current, next, pending } = walk;
        assert(pending.deep_view() == held.pending && current@ == held.current);
        match parse_annotations(current.path.as_str(), content) {
            Ok(file) => {
                let ghost before = metadata@;
                metadata.add_from_file(current.path.as_str(), file);
                proof {
                    lemma_merge_paths(before, current.path@, file@);
                    assert forall|key: Seq<char>| metadata@.data.contains_key(key) implies walked_path(
                        key,
                    ) by {
                        if !before.data.contains_key(key) {
                            let test = choose|test: Seq<char>| #[trigger]
                                joined(current.path@, test) == key;
                            assert(open_directory(current.path@) && joined(current.path@, test)
                                == key);
                        }
                    }
                }
                Ok(Walk { metadata, current, next, pending })
            },
            Err(e) => Err(e),
        }
    }
}

} // verus!
