//! The results of one run of the test suite.

use vstd::prelude::*;
use crate::error::{ErrorView, MetadataError};
use crate::ordered::TextMap;
use crate::status::{SubtestStatus, TestStatus};

verus! {

/// The outcome of one subtest in one run.
#[derive(Debug)]
pub struct SubtestResult {
    pub name: String,
    pub status: SubtestStatus,
    pub expected: Option<SubtestStatus>,
}

/// The outcome of one test in one run, with its subtests in the order in
/// which the run reported them.
#[derive(Debug)]
pub struct Results {
    pub status: TestStatus,
    pub subtests: Vec<SubtestResult>,
    pub expected: Option<TestStatus>,
}

/// One run: the results of its tests, by test path.
pub type RunResults = TextMap<Results>;

pub struct SubtestResultView {
    pub name: Seq<char>,
    pub status: SubtestStatus,
    pub expected: Option<SubtestStatus>,
}

pub struct ResultsView {
    pub status: TestStatus,
    pub subtests: Seq<SubtestResultView>,
    pub expected: Option<TestStatus>,
}

impl View for SubtestResult {
    type V = SubtestResultView;

    open spec fn view(&self) -> SubtestResultView {
        SubtestResultView { name: self.name@, status: self.status, expected: self.expected }
    }
}

impl DeepView for SubtestResult {
    type V = SubtestResultView;

    open spec fn deep_view(&self) -> SubtestResultView {
        self@
    }
}

impl View for Results {
    type V = ResultsView;

    open spec fn view(&self) -> ResultsView {
        ResultsView {
            status: self.status,
            subtests: self.subtests.deep_view(),
            expected: self.expected,
        }
    }
}

impl DeepView for Results {
    type V = ResultsView;

    open spec fn deep_view(&self) -> ResultsView {
        self@
    }
}

/// The outcome of one subtest with its statuses as tokens, as they come
/// from outside.
#[derive(Debug)]
pub struct RawSubtestResult {
    pub name: String,
    pub status: String,
    pub expected: Option<String>,
}

/// The outcome of one test with its statuses as tokens.
#[derive(Debug)]
pub struct RawResults {
    pub status: String,
    pub subtests: Vec<RawSubtestResult>,
    pub expected: Option<String>,
}

pub struct RawSubtestResultView {
    pub name: Seq<char>,
    pub status: Seq<char>,
    pub expected: Option<Seq<char>>,
}

pub struct RawResultsView {
    pub status: Seq<char>,
    pub subtests: Seq<RawSubtestResultView>,
    pub expected: Option<Seq<char>>,
}

impl View for RawSubtestResult {
    type V = RawSubtestResultView;

    open spec fn view(&self) -> RawSubtestResultView {
        RawSubtestResultView {
            name: self.name@,
            status: self.status@,
            expected: self.expected.deep_view(),
        }
    }
}

impl DeepView for RawSubtestResult {
    type V = RawSubtestResultView;

    open spec fn deep_view(&self) -> RawSubtestResultView {
        self@
    }
}

impl View for RawResults {
    type V = RawResultsView;

    open spec fn view(&self) -> RawResultsView {
        RawResultsView {
            status: self.status@,
            subtests: self.subtests.deep_view(),
            expected: self.expected.deep_view(),
        }
    }
}

impl DeepView for RawResults {
    type V = RawResultsView;

    open spec fn deep_view(&self) -> RawResultsView {
        self@
    }
}

/// The status of a test that a token names, or the error for a token that
/// names none.
pub open spec fn test_status_of(token: Seq<char>) -> Result<TestStatus, ErrorView> {
    match TestStatus::named(token) {
        Some(status) => Ok(status),
        None => Err(ErrorView::StatusParse(token)),
    }
}

/// The status of a subtest that a token names, or the error for a token
/// that names none.
pub open spec fn subtest_status_of(token: Seq<char>) -> Result<SubtestStatus, ErrorView> {
    match SubtestStatus::named(token) {
        Some(status) => Ok(status),
        None => Err(ErrorView::StatusParse(token)),
    }
}

/// A subtest result read from tokens: the status is read first, then the
/// expected status.
pub open spec fn typed_subtest(raw: RawSubtestResultView) -> Result<SubtestResultView, ErrorView> {
    match subtest_status_of(raw.status) {
        Err(e) => Err(e),
        Ok(status) => match raw.expected {
            None => Ok(SubtestResultView { name: raw.name, status, expected: None }),
            Some(token) => match subtest_status_of(token) {
                Err(e) => Err(e),
                Ok(expected) => Ok(
                    SubtestResultView { name: raw.name, status, expected: Some(expected) },
                ),
            },
        },
    }
}

/// The first `n` subtest results read from tokens; the first that cannot
/// be read gives the error.
pub open spec fn typed_subtests(raw: Seq<RawSubtestResultView>, n: int) -> Result<
    Seq<SubtestResultView>,
    ErrorView,
>
    decreases n,
{
    if n <= 0 {
        Ok(Seq::empty())
    } else {
        match typed_subtests(raw, n - 1) {
            Err(e) => Err(e),
            Ok(before) => match typed_subtest(raw[n - 1]) {
                Err(e) => Err(e),
                Ok(subtest) => Ok(before.push(subtest)),
            },
        }
    }
}

/// The results of a test read from tokens: the status is read first, then
/// the subtests in order, then the expected status.
pub open spec fn typed(raw: RawResultsView) -> Result<ResultsView, ErrorView> {
    match test_status_of(raw.status) {
        Err(e) => Err(e),
        Ok(status) => match typed_subtests(raw.subtests, raw.subtests.len() as int) {
            Err(e) => Err(e),
            Ok(subtests) => match raw.expected {
                None => Ok(ResultsView { status, subtests, expected: None }),
                Some(token) => match test_status_of(token) {
                    Err(e) => Err(e),
                    Ok(expected) => Ok(ResultsView { status, subtests, expected: Some(expected) }),
                },
            },
        },
    }
}

/// A subtest result written with tokens.
pub open spec fn raw_subtest(subtest: SubtestResultView) -> RawSubtestResultView {
    RawSubtestResultView {
        name: subtest.name,
        status: subtest.status.token(),
        expected: match subtest.expected {
            Some(status) => Some(status.token()),
            None => None,
        },
    }
}

/// The results of a test written with tokens.
pub open spec fn raw(results: ResultsView) -> RawResultsView {
    RawResultsView {
        status: results.status.token(),
        subtests: Seq::new(results.subtests.len(), |i: int| raw_subtest(results.subtests[i])),
        expected: match results.expected {
            Some(status) => Some(status.token()),
            None => None,
        },
    }
}

/// Once a subtest cannot be read, reading more of them gives the same error.
proof fn lemma_typed_subtests_stuck(raw: Seq<RawSubtestResultView>, n: int, m: int)
    requires
        0 <= n <= m,
        typed_subtests(raw, n) is Err,
    ensures
        typed_subtests(raw, m) == typed_subtests(raw, n),
    decreases m - n,
{
    if n < m {
        lemma_typed_subtests_stuck(raw, n, m - 1);
    }
}

/// Results written with tokens read back as they were.
pub proof fn lemma_raw_round_trip(results: ResultsView)
    ensures
        typed(raw(results)) == Ok::<ResultsView, ErrorView>(results),
{
    let written = raw(results);
    results.status.lemma_token_round_trip();
    if results.expected is Some {
        results.expected->0.lemma_token_round_trip();
    }
    lemma_raw_subtests_round_trip(results.subtests, results.subtests.len() as int);
    assert(results.subtests.take(results.subtests.len() as int) =~= results.subtests);
}

proof fn lemma_raw_subtests_round_trip(subtests: Seq<SubtestResultView>, n: int)
    requires
        0 <= n <= subtests.len(),
    ensures
        typed_subtests(Seq::new(subtests.len(), |i: int| raw_subtest(subtests[i])), n) == Ok::<
            Seq<SubtestResultView>,
            ErrorView,
        >(subtests.take(n)),
    decreases n,
{
    let written = Seq::new(subtests.len(), |i: int| raw_subtest(subtests[i]));
    if n > 0 {
        lemma_raw_subtests_round_trip(subtests, n - 1);
        let subtest = subtests[n - 1];
        subtest.status.lemma_token_round_trip();
        if subtest.expected is Some {
            subtest.expected->0.lemma_token_round_trip();
        }
        assert(written[n - 1] == raw_subtest(subtest));
        assert(typed_subtest(written[n - 1]) == Ok::<SubtestResultView, ErrorView>(subtest));
        assert(subtests.take(n - 1).push(subtest) =~= subtests.take(n));
    } else {
        assert(subtests.take(n) =~= Seq::<SubtestResultView>::empty());
    }
}

impl SubtestResult {
    /// Reads a subtest result from its tokens. A token that names no
    /// status is an error that carries it.
    pub fn try_from_raw(value: &RawSubtestResult) -> (r: Result<SubtestResult, MetadataError>)
        ensures
            match r {
                Ok(subtest) => typed_subtest(value@) == Ok::<SubtestResultView, ErrorView>(subtest@),
                Err(e) => typed_subtest(value@) == Err::<SubtestResultView, ErrorView>(e@),
            },
    {
        let status = match SubtestStatus::from_token(value.status.as_str()) {
            Ok(status) => status,
            Err(e) => { return Err(e); },
        };
        let expected = match &value.expected {
            Some(token) => match SubtestStatus::from_token(token.as_str()) {
                Ok(expected) => Some(expected),
                Err(e) => { return Err(e); },
            },
            None => None,
        };
        Ok(SubtestResult { name: value.name.clone(), status, expected })
    }

    /// Writes a subtest result with tokens for its statuses.
    pub fn to_raw(&self) -> (r: RawSubtestResult)
        ensures
            r@ == raw_subtest(self@),
    {
        RawSubtestResult {
            name: self.name.clone(),
            status: self.status.to_string(),
            expected: match self.expected {
                Some(expected) => Some(expected.to_string()),
                None => None,
            },
        }
    }
}

impl Results {
    /// Reads the results of a test from their tokens. The first token that
    /// names no status, going by the status, the subtests in order and the
    /// expected status, is an error that carries it.
    pub fn try_from_raw(value: &RawResults) -> (r: Result<Results, MetadataError>)
        ensures
            match r {
                Ok(results) => typed(value@) == Ok::<ResultsView, ErrorView>(results@),
                Err(e) => typed(value@) == Err::<ResultsView, ErrorView>(e@),
            },
    {
        let status = match TestStatus::from_token(value.status.as_str()) {
            Ok(status) => status,
            Err(e) => { return Err(e); },
        };
        let ghost all = value@.subtests;
        let mut subtests: Vec<SubtestResult> = Vec::new();
        let mut i: usize = 0;
        assert(subtests.deep_view() =~= Seq::<SubtestResultView>::empty());
        while i < value.subtests.len()
            invariant
                0 <= i <= value.subtests.len(),
                all == value@.subtests,
                all.len() == value.subtests.len(),
                TestStatus::named(value@.status) == Some(status),
                typed_subtests(all, i as int) == Ok::<Seq<SubtestResultView>, ErrorView>(
                    subtests.deep_view(),
                ),
            decreases value.subtests.len() - i,
        {
            let ghost before = subtests.deep_view();
            assert(all[i as int] == value.subtests[i as int]@);
            match SubtestResult::try_from_raw(&value.subtests[i]) {
                Ok(subtest) => {
                    subtests.push(subtest);
                    assert(subtests.deep_view() =~= before.push(subtest@));
                },
                Err(e) => {
                    proof {
                        assert(typed_subtests(all, i + 1) == Err::<
                            Seq<SubtestResultView>,
                            ErrorView,
                        >(e@));
                        lemma_typed_subtests_stuck(all, i + 1, all.len() as int);
                    }
                    return Err(e);
                },
            }
            i = i + 1;
        }
        let expected = match &value.expected {
            Some(token) => match TestStatus::from_token(token.as_str()) {
                Ok(expected) => Some(expected),
                Err(e) => { return Err(e); },
            },
            None => None,
        };
        Ok(Results { status, subtests, expected })
    }

    /// Writes the results of a test with tokens for its statuses.
    pub fn to_raw(&self) -> (r: RawResults)
        ensures
            r@ == raw(self@),
    {
        let mut subtests: Vec<RawSubtestResult> = Vec::new();
        let mut i: usize = 0;
        while i < self.subtests.len()
            invariant
                0 <= i <= self.subtests.len(),
                subtests.len() == i,
                forall|k: int| 0 <= k < i ==> #[trigger] subtests[k]@ == raw_subtest(self.subtests[k]@),
            decreases self.subtests.len() - i,
        {
            subtests.push(self.subtests[i].to_raw());
            i = i + 1;
        }
        let r = RawResults {
            status: self.status.to_string(),
            subtests,
            expected: match self.expected {
                Some(expected) => Some(expected.to_string()),
                None => None,
            },
        };
        assert(r@.subtests =~= raw(self@).subtests);
        r
    }
}

} // verus!
