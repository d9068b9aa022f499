//! Regressions between two runs: tests and subtests that were healthy in
//! the first run and have another status in the second.

use vstd::prelude::*;
use crate::metadata::{Metadata, MetadataView};
use crate::ordered::{among, lemma_among_step, TextMap};
use crate::results::{Results, ResultsView, RunResults, SubtestResult, SubtestResultView};
use crate::status::{SubtestStatus, TestStatus};
use crate::text::ascending;

verus! {

/// What is reported of one regressed test.
#[derive(Debug)]
pub struct Regression {
    /// The token of the test's new status, if the test itself regressed.
    pub test_regression: Option<String>,
    /// The regressed subtests, each with the token of its new status, in
    /// the order of the second run.
    pub subtest_regressions: Vec<(String, String)>,
    /// The labels of the test, ascending.
    pub labels: Vec<String>,
}

pub struct RegressionView {
    pub test_regression: Option<Seq<char>>,
    pub subtest_regressions: Seq<(Seq<char>, Seq<char>)>,
    pub labels: Seq<Seq<char>>,
}

impl View for Regression {
    type V = RegressionView;

    open spec fn view(&self) -> RegressionView {
        RegressionView {
            test_regression: self.test_regression.deep_view(),
            subtest_regressions: self.subtest_regressions.deep_view(),
            labels: self.labels.deep_view(),
        }
    }
}

impl DeepView for Regression {
    type V = RegressionView;

    open spec fn deep_view(&self) -> RegressionView {
        self@
    }
}

/// A test regressed when it passed, or was in order, and now has another
/// status. A test that was not healthy before never regresses.
pub open spec fn regressed(prev: TestStatus, new: TestStatus) -> bool {
    (prev == TestStatus::Pass || prev == TestStatus::Okay) && new != prev
}

/// A subtest regressed when it passed and now has another status.
pub open spec fn subtest_regressed(prev: SubtestStatus, new: SubtestStatus) -> bool {
    prev == SubtestStatus::Pass && new != prev
}

/// The status of the subtest called `name`: that of the last one, where
/// several have the name.
pub open spec fn last_status(subtests: Seq<SubtestResultView>, name: Seq<char>) -> Option<
    SubtestStatus,
>
    decreases subtests.len(),
{
    if subtests.len() == 0 {
        None
    } else if subtests.last().name == name {
        Some(subtests.last().status)
    } else {
        last_status(subtests.drop_last(), name)
    }
}

/// The statuses of the subtests of one test, by name.
pub open spec fn statuses(subtests: Seq<SubtestResultView>) -> Map<Seq<char>, SubtestStatus> {
    Map::new(
        |name: Seq<char>| last_status(subtests, name) is Some,
        |name: Seq<char>| last_status(subtests, name)->0,
    )
}

/// The regressions among the first `n` subtests of the second run: each
/// subtest whose name the first run has too and which regressed, with the
/// token of its new status.
pub open spec fn subtest_changes(
    base: Seq<SubtestResultView>,
    comparison: Seq<SubtestResultView>,
    n: int,
) -> Seq<(Seq<char>, Seq<char>)>
    decreases n,
{
    if n <= 0 {
        Seq::empty()
    } else {
        let rest = subtest_changes(base, comparison, n - 1);
        let now = comparison[n - 1];
        match last_status(base, now.name) {
            Some(prev) => if subtest_regressed(prev, now.status) {
                rest.push((now.name, now.status.token()))
            } else {
                rest
            },
            None => rest,
        }
    }
}

/// All the subtest regressions of one test.
pub open spec fn all_subtest_changes(base: ResultsView, comparison: ResultsView) -> Seq<
    (Seq<char>, Seq<char>),
> {
    subtest_changes(base.subtests, comparison.subtests, comparison.subtests.len() as int)
}

/// The token of the new status of a test that regressed.
pub open spec fn test_change(base: ResultsView, comparison: ResultsView) -> Option<Seq<char>> {
    if regressed(base.status, comparison.status) {
        Some(comparison.status.token())
    } else {
        None
    }
}

/// A test is reported when it regressed or one of its subtests did.
pub open spec fn reported(base: ResultsView, comparison: ResultsView) -> bool {
    test_change(base, comparison) is Some || all_subtest_changes(base, comparison).len() > 0
}

/// The labels that the index, if there is one, has for `path`.
pub open spec fn labels_of(metadata: Option<MetadataView>, path: Seq<char>) -> Set<Seq<char>> {
    match metadata {
        Some(m) => if m.data.contains_key(path) {
            m.data[path].labels
        } else {
            Set::empty()
        },
        None => Set::empty(),
    }
}

/// The model of an index that may be missing.
pub open spec fn metadata_model(metadata: Option<&Metadata>) -> Option<MetadataView> {
    match metadata {
        Some(m) => Some(m@),
        None => None,
    }
}

/// What is reported of a test at `path`, given its results in both runs.
pub open spec fn right_report(
    report: RegressionView,
    base: ResultsView,
    comparison: ResultsView,
    metadata: Option<MetadataView>,
    path: Seq<char>,
) -> bool {
    &&& report.test_regression == test_change(base, comparison)
    &&& report.subtest_regressions == all_subtest_changes(base, comparison)
    &&& ascending(report.labels)
    &&& report.labels.to_set() == labels_of(metadata, path)
}

/// A test whose status did not change is no regression, and a test that
/// was not healthy is none whatever became of it; a healthy test whose
/// status changed is one, and what is reported is its new status.
pub proof fn lemma_test_change(base: ResultsView, comparison: ResultsView)
    ensures
        comparison.status == base.status ==> test_change(base, comparison) is None,
        base.status != TestStatus::Pass && base.status != TestStatus::Okay ==> test_change(
            base,
            comparison,
        ) is None,
        (base.status == TestStatus::Pass || base.status == TestStatus::Okay) && comparison.status
            != base.status ==> test_change(base, comparison) == Some(comparison.status.token()),
{
}

/// Tells whether a test regressed from `prev_status` to `new_status`.
pub fn is_regression(prev_status: TestStatus, new_status: TestStatus) -> (r: bool)
    ensures
        r == regressed(prev_status, new_status),
{
    (prev_status == TestStatus::Pass || prev_status == TestStatus::Okay) && new_status
        != prev_status
}

/// Tells whether a subtest regressed from `prev_status` to `new_status`.
pub fn is_subtest_regression(prev_status: SubtestStatus, new_status: SubtestStatus) -> (r: bool)
    ensures
        r == subtest_regressed(prev_status, new_status),
{
    prev_status == SubtestStatus::Pass && new_status != prev_status
}

/// The statuses of the subtests of one test, by name; of several subtests
/// with one name the last counts.
pub fn statuses_by_name(subtests: &Vec<SubtestResult>) -> (r: TextMap<SubtestStatus>)
    ensures
        r@ == statuses(subtests.deep_view()),
{
    let ghost all = subtests.deep_view();
    let mut by_name: TextMap<SubtestStatus> = TextMap::new();
    let mut i: usize = 0;
    assert(by_name@ =~= statuses(all.take(0)));
    while i < subtests.len()
        invariant
            0 <= i <= subtests.len(),
            all == subtests.deep_view(),
            all.len() == subtests.len(),
            by_name@ == statuses(all.take(i as int)),
        decreases subtests.len() - i,
    {
        by_name.insert(subtests[i].name.as_str(), subtests[i].status);
        proof {
            let more = all.take(i + 1);
            assert(more.drop_last() =~= all.take(i as int));
            assert(more.last() == subtests[i as int]@);
            assert(by_name@ =~= statuses(more));
        }
        i = i + 1;
    }
    assert(all.take(i as int) =~= all);
    by_name
}

/// The subtests that regressed from `prev_results` to `new_results`, each
/// with the token of its new status, in the order of `new_results`.
pub fn subtest_regressions(prev_results: &Results, new_results: &Results) -> (r: Vec<
    (String, String),
>)
    ensures
        r.deep_view() == all_subtest_changes(prev_results@, new_results@),
{
    let prev_subtest_results = statuses_by_name(&prev_results.subtests);
    let ghost base = prev_results@.subtests;
    let ghost comparison = new_results@.subtests;
    let mut found: Vec<(String, String)> = Vec::new();
    let mut k: usize = 0;
    assert(found.deep_view() =~= subtest_changes(base, comparison, 0));
    while k < new_results.subtests.len()
        invariant
            0 <= k <= new_results.subtests.len(),
            base == prev_results@.subtests,
            comparison == new_results@.subtests,
            comparison.len() == new_results.subtests.len(),
            prev_subtest_results@ == statuses(base),
            found.deep_view() == subtest_changes(base, comparison, k as int),
        decreases new_results.subtests.len() - k,
    {
        let now = &new_results.subtests[k];
        assert(comparison[k as int] == now@);
        let ghost so_far = found.deep_view();
        proof {
            use_type_invariant(&prev_subtest_results);
            prev_subtest_results.lemma_entries();
        }
        match prev_subtest_results.get(now.name.as_str()) {
            Some(prev_status) => {
                assert(prev_subtest_results@.contains_key(now.name@));
                assert(prev_subtest_results@[now.name@] == *prev_status);
                assert(last_status(base, now.name@) == Some(*prev_status));
                if is_subtest_regression(*prev_status, now.status) {
                    let change = (now.name.clone(), now.status.to_string());
                    found.push(change);
                    assert(found.deep_view() =~= so_far.push((now.name@, now.status.token())));
                }
            },
            None => {
                assert(!prev_subtest_results@.contains_key(now.name@));
                assert(last_status(base, now.name@) is None);
            },
        }
        assert(found.deep_view() == subtest_changes(base, comparison, k + 1));
        k = k + 1;
    }
    found
}

/// The tests that regressed from the first run to the second, in ascending
/// order of their paths. Only a test that both runs have can regress. Each
/// comes with the labels that the index has for it; without an index, or
/// where the index does not know the test, with none.
pub fn regressions(
    base_results: &RunResults,
    comparison_results: &RunResults,
    metadata: Option<&Metadata>,
) -> (r: TextMap<Regression>)
    ensures
        forall|path: Seq<char>| #[trigger]
            r@.contains_key(path) <==> base_results@.contains_key(path)
                && comparison_results@.contains_key(path) && reported(
                base_results@[path],
                comparison_results@[path],
            ),
        forall|path: Seq<char>|
            r@.contains_key(path) ==> right_report(
                #[trigger] r@[path],
                base_results@[path],
                comparison_results@[path],
                metadata_model(metadata),
                path,
            ),
        r.ordered(),
{
    let ghost paths = comparison_results.keys();
    let ghost index = metadata_model(metadata);
    let mut regressed: TextMap<Regression> = TextMap::new();
    let n = comparison_results.len();
    let mut i: usize = 0;
    while i < n
        invariant
            n == paths.len(),
            paths == comparison_results.keys(),
            index == metadata_model(metadata),
            0 <= i <= n,
            forall|path: Seq<char>| #[trigger]
                regressed@.contains_key(path) <==> among(paths, path, i as int)
                    && base_results@.contains_key(path) && reported(
                    base_results@[path],
                    comparison_results@[path],
                ),
            forall|path: Seq<char>|
                regressed@.contains_key(path) ==> right_report(
                    #[trigger] regressed@[path],
                    base_results@[path],
                    comparison_results@[path],
                    index,
                    path,
                ),
        decreases n - i,
    {
        let test = comparison_results.key(i);
        let new_results = comparison_results.value_at(i);
        proof {
            lemma_among_step(paths, i as int, i + 1);
        }
        assert(comparison_results@[test@] == new_results@);
        if let Some(prev_results) = base_results.get(test.as_str()) {
            assert(base_results@[test@] == prev_results@);
            let test_regression = if is_regression(prev_results.status, new_results.status) {
                Some(new_results.status.to_string())
            } else {
                None
            };
            let subtest_regressions = subtest_regressions(prev_results, new_results);
            if test_regression.is_some() || subtest_regressions.len() > 0 {
                let labels = match metadata {
                    Some(m) => match m.get(test.as_str()) {
                        Some(known) => known.labels.to_vec(),
                        None => Vec::new(),
                    },
                    None => Vec::new(),
                };
                assert(labels.deep_view().to_set() =~= labels_of(index, test@));
                let report = Regression { test_regression, subtest_regressions, labels };
                regressed.insert(test.as_str(), report);
            }
        }
        i = i + 1;
    }
    proof {
        assert forall|path: Seq<char>| among(paths, path, n as int)
            <==> comparison_results@.contains_key(path) by {
            if comparison_results@.contains_key(path) {
                let a = paths.index_of(path);
                assert(paths[a] == path);
            }
        }
        use_type_invariant(&regressed);
    }
    regressed
}

} // verus!
