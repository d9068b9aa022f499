//! The outcomes of a test and of a subtest, and their textual tokens.

use vstd::prelude::*;
use crate::error::{ErrorView, MetadataError};
use crate::text::same_text;

verus! {

/// The outcome of a whole test.
#[derive(Clone, Copy, Debug, PartialEq, Eq, Structural, Hash)]
pub enum TestStatus {
    Pass,
    Fail,
    Okay,
    Error,
    Timeout,
    Crash,
    Assert,
    PreconditionFailed,
    Skip,
}

/// The outcome of one subtest.
#[derive(Clone, Copy, Debug, PartialEq, Eq, Structural, Hash)]
pub enum SubtestStatus {
    Pass,
    Fail,
    Error,
    Timeout,
    Assert,
    PreconditionFailed,
    Notrun,
    Skip,
}

impl DeepView for TestStatus {
    type V = TestStatus;

    open spec fn deep_view(&self) -> TestStatus {
        *self
    }
}

impl DeepView for SubtestStatus {
    type V = SubtestStatus;

    open spec fn deep_view(&self) -> SubtestStatus {
        *self
    }
}

impl TestStatus {
    /// The canonical token of the status.
    pub open spec fn token(self) -> Seq<char> {
        match self {
            TestStatus::Pass => "Pass"@,
            TestStatus::Fail => "Fail"@,
            TestStatus::Okay => "Ok"@,
            TestStatus::Error => "Error"@,
            TestStatus::Timeout => "Timeout"@,
            TestStatus::Crash => "Crash"@,
            TestStatus::Assert => "Assert"@,
            TestStatus::PreconditionFailed => "PreconditionFailed"@,
            TestStatus::Skip => "Skip"@,
        }
    }

    /// The status that `token` names, if it names one.
    pub open spec fn named(token: Seq<char>) -> Option<TestStatus> {
        if token == "Pass"@ {
            Some(TestStatus::Pass)
        } else if token == "Fail"@ {
            Some(TestStatus::Fail)
        } else if token == "Ok"@ {
            Some(TestStatus::Okay)
        } else if token == "Error"@ {
            Some(TestStatus::Error)
        } else if token == "Timeout"@ {
            Some(TestStatus::Timeout)
        } else if token == "Crash"@ {
            Some(TestStatus::Crash)
        } else if token == "Assert"@ {
            Some(TestStatus::Assert)
        } else if token == "PreconditionFailed"@ {
            Some(TestStatus::PreconditionFailed)
        } else if token == "Skip"@ {
            Some(TestStatus::Skip)
        } else {
            None
        }
    }

    /// A token names the status whose token it is, and no other text names
    /// a status: reading a status back from its token gives that status.
    pub proof fn lemma_token_round_trip(self)
        ensures
            TestStatus::named(self.token()) == Some(self),
            forall|t: Seq<char>| TestStatus::named(t) == Some(self) <==> t == self.token(),
    {
        reveal_strlit("Pass");
        reveal_strlit("Fail");
        reveal_strlit("Ok");
        reveal_strlit("Error");
        reveal_strlit("Timeout");
        reveal_strlit("Crash");
        reveal_strlit("Assert");
        reveal_strlit("PreconditionFailed");
        reveal_strlit("Skip");
        let t = self.token();
        assert(t.len() > 0);
        let c = t[0];
    }

    /// The canonical token of the status.
    pub fn as_str(self) -> (r: &'static str)
        ensures
            r@ == self.token(),
    {
        match self {
            TestStatus::Pass => "Pass",
            TestStatus::Fail => "Fail",
            TestStatus::Okay => "Ok",
            TestStatus::Error => "Error",
            TestStatus::Timeout => "Timeout",
            TestStatus::Crash => "Crash",
            TestStatus::Assert => "Assert",
            TestStatus::PreconditionFailed => "PreconditionFailed",
            TestStatus::Skip => "Skip",
        }
    }

    /// The canonical token of the status, as an owned string.
    pub fn to_string(&self) -> (r: String)
        ensures
            r@ == self.token(),
    {
        String::from_str(self.as_str())
    }

    /// Reads a status from its token. A text that is no token is an error
    /// that carries the text.
    pub fn from_token(token: &str) -> (r: Result<TestStatus, MetadataError>)
        ensures
            match r {
                Ok(s) => TestStatus::named(token@) == Some(s),
                Err(e) => TestStatus::named(token@) is None && e@ == ErrorView::StatusParse(
                    token@,
                ),
            },
    {
        if same_text(token, "Pass") {
            Ok(TestStatus::Pass)
        } else if same_text(token, "Fail") {
            Ok(TestStatus::Fail)
        } else if same_text(token, "Ok") {
            Ok(TestStatus::Okay)
        } else if same_text(token, "Error") {
            Ok(TestStatus::Error)
        } else if same_text(token, "Timeout") {
            Ok(TestStatus::Timeout)
        } else if same_text(token, "Crash") {
            Ok(TestStatus::Crash)
        } else if same_text(token, "Assert") {
            Ok(TestStatus::Assert)
        } else if same_text(token, "PreconditionFailed") {
            Ok(TestStatus::PreconditionFailed)
        } else if same_text(token, "Skip") {
            Ok(TestStatus::Skip)
        } else {
            Err(MetadataError::StatusParse(String::from_str(token)))
        }
    }
}

impl SubtestStatus {
    /// The canonical token of the status.
    pub open spec fn token(self) -> Seq<char> {
        match self {
            SubtestStatus::Pass => "Pass"@,
            SubtestStatus::Fail => "Fail"@,
            SubtestStatus::Error => "Error"@,
            SubtestStatus::Timeout => "Timeout"@,
            SubtestStatus::Assert => "Assert"@,
            SubtestStatus::PreconditionFailed => "PreconditionFailed"@,
            SubtestStatus::Notrun => "Notrun"@,
            SubtestStatus::Skip => "Skip"@,
        }
    }

    /// The status that `token` names, if it names one.
    pub open spec fn named(token: Seq<char>) -> Option<SubtestStatus> {
        if token == "Pass"@ {
            Some(SubtestStatus::Pass)
        } else if token == "Fail"@ {
            Some(SubtestStatus::Fail)
        } else if token == "Error"@ {
            Some(SubtestStatus::Error)
        } else if token == "Timeout"@ {
            Some(SubtestStatus::Timeout)
        } else if token == "Assert"@ {
            Some(SubtestStatus::Assert)
        } else if token == "PreconditionFailed"@ {
            Some(SubtestStatus::PreconditionFailed)
        } else if token == "Notrun"@ {
            Some(SubtestStatus::Notrun)
        } else if token == "Skip"@ {
            Some(SubtestStatus::Skip)
        } else {
            None
        }
    }

    /// A token names the status whose token it is, and no other text names
    /// a status: reading a status back from its token gives that status.
    pub proof fn lemma_token_round_trip(self)
        ensures
            SubtestStatus::named(self.token()) == Some(self),
            forall|t: Seq<char>| SubtestStatus::named(t) == Some(self) <==> t == self.token(),
    {
        reveal_strlit("Pass");
        reveal_strlit("Fail");
        reveal_strlit("Error");
        reveal_strlit("Timeout");
        reveal_strlit("Assert");
        reveal_strlit("PreconditionFailed");
        reveal_strlit("Notrun");
        reveal_strlit("Skip");
        let t = self.token();
        assert(t.len() > 0);
        let c = t[0];
    }

    /// The canonical token of the status.
    pub fn as_str(self) -> (r: &'static str)
        ensures
            r@ == self.token(),
    {
        match self {
            SubtestStatus::Pass => "Pass",
            SubtestStatus::Fail => "Fail",
            SubtestStatus::Error => "Error",
            SubtestStatus::Timeout => "Timeout",
            SubtestStatus::Assert => "Assert",
            SubtestStatus::PreconditionFailed => "PreconditionFailed",
            SubtestStatus::Notrun => "Notrun",
            SubtestStatus::Skip => "Skip",
        }
    }

    /// The canonical token of the status, as an owned string.
    pub fn to_string(&self) -> (r: String)
        ensures
            r@ == self.token(),
    {
        String::from_str(self.as_str())
    }

    /// Reads a status from its token. A text that is no token is an error
    /// that carries the text.
    pub fn from_token(token: &str) -> (r: Result<SubtestStatus, MetadataError>)
        ensures
            match r {
                Ok(s) => SubtestStatus::named(token@) == Some(s),
                Err(e) => SubtestStatus::named(token@) is None && e@ == ErrorView::StatusParse(
                    token@,
                ),
            },
    {
        if same_text(token, "Pass") {
            Ok(SubtestStatus::Pass)
        } else if same_text(token, "Fail") {
            Ok(SubtestStatus::Fail)
        } else if same_text(token, "Error") {
            Ok(SubtestStatus::Error)
        } else if same_text(token, "Timeout") {
            Ok(SubtestStatus::Timeout)
        } else if same_text(token, "Assert") {
            Ok(SubtestStatus::Assert)
        } else if same_text(token, "PreconditionFailed") {
            Ok(SubtestStatus::PreconditionFailed)
        } else if same_text(token, "Notrun") {
            Ok(SubtestStatus::Notrun)
        } else if same_text(token, "Skip") {
            Ok(SubtestStatus::Skip)
        } else {
            Err(MetadataError::StatusParse(String::from_str(token)))
        }
    }
}

} // verus!
