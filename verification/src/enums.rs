use vstd::prelude::*;

use crate::strings::str_eq;

verus! {

/// The lifecycle status of a test node. The last entry of a node's history
/// is its current status.
#[derive(Debug, Clone, Copy, PartialEq, Eq, Structural)]
pub enum TestStatus {
    /// Waiting to be started.
    NotStarted,
    /// Currently executing.
    Running,
    /// Finished successfully.
    Completed,
    /// The execution itself failed.
    Failed,
    /// The response checks failed.
    AssertionFailed,
    /// Skipped because a predecessor failed or was skipped.
    Skipped,
}

/// Which manifest dialect a test was declared in.
#[derive(Debug, Clone, Copy, PartialEq, Eq, Structural)]
pub enum ManifestKind {
    Grpc,
    Scripts,
}

/// The file extension of a manifest file.
#[derive(Debug, Clone, Copy, PartialEq, Eq, Structural)]
pub enum ExtType {
    Json,
    Yaml,
}

/// The errors of this library.
#[derive(Debug, PartialEq, Eq)]
pub enum Error {
    /// A `depends_on` entry names a test id that does not exist.
    UnknownDependency { id: String },
    /// A grpc test body holds a malformed escape sequence.
    InvalidEscape { id: String },
    /// A manifest file name does not match `<name>.<kind>.<ext>`.
    MalformedFileName { path: String },
    /// A string does not name a variant of an enum of this library.
    UnknownVariant,
    /// The dependency graph has a cycle through the named test.
    Cycle { id: String },
    /// The operation needs a workflow built from a manifest.
    MissingManifest,
    /// No node with the requested id is stored.
    NodeNotFound,
    /// A manifest declares more tests than an index can count.
    TooManyTests,
}

impl Default for ManifestKind {
    fn default() -> (r: Self)
        ensures
            r == ManifestKind::Scripts,
    {
        ManifestKind::Scripts
    }
}

/// A status is terminal when the node will never be executed again.
pub open spec fn is_terminal(s: TestStatus) -> bool {
    s == TestStatus::Completed || s == TestStatus::Failed || s == TestStatus::AssertionFailed
        || s == TestStatus::Skipped
}

/// The statuses whose arrival propagates `Skipped` to every successor.
pub open spec fn is_fail_status(s: TestStatus) -> bool {
    s == TestStatus::Failed || s == TestStatus::AssertionFailed || s == TestStatus::Skipped
}

/// The allowed single steps of the status state machine: `Running` only from
/// `NotStarted`; success and failure only from `Running`; `Skipped` from any
/// non-terminal status.
pub open spec fn legal_step(from: TestStatus, to: TestStatus) -> bool {
    ||| (from == TestStatus::NotStarted && (to == TestStatus::Running || to
        == TestStatus::Skipped))
    ||| (from == TestStatus::Running && (to == TestStatus::Completed || to == TestStatus::Failed
        || to == TestStatus::AssertionFailed || to == TestStatus::Skipped))
}

/// The current status encoded by a history: the last entry, or `NotStarted`
/// for an empty history.
pub open spec fn current_of(h: Seq<TestStatus>) -> TestStatus {
    if h.len() == 0 {
        TestStatus::NotStarted
    } else {
        h.last()
    }
}

/// A well-formed history: non-empty, starts at `NotStarted`, and every step
/// is a legal transition.
pub open spec fn valid_history(h: Seq<TestStatus>) -> bool {
    &&& h.len() >= 1
    &&& h[0] == TestStatus::NotStarted
    &&& forall|i: int| 0 <= i < h.len() - 1 ==> legal_step(h[i], #[trigger] h[i + 1])
}

/// In a well-formed history only the last entry can be terminal, so no
/// node's history ever holds `Running` after a terminal status.
pub proof fn lemma_valid_history_terminal_is_last(h: Seq<TestStatus>)
    requires
        valid_history(h),
    ensures
        forall|i: int| 0 <= i < h.len() - 1 ==> !is_terminal(#[trigger] h[i]),
        forall|i: int, j: int|
            0 <= i < j < h.len() && is_terminal(#[trigger] h[i]) ==> #[trigger] h[j]
                != TestStatus::Running,
{
    assert forall|i: int| 0 <= i < h.len() - 1 implies !is_terminal(#[trigger] h[i]) by {
        assert(legal_step(h[i], h[i + 1]));
    }
}

/// Appending a legal step keeps a history well formed.
pub proof fn lemma_valid_history_push(h: Seq<TestStatus>, s: TestStatus)
    requires
        valid_history(h),
        legal_step(current_of(h), s),
    ensures
        valid_history(h.push(s)),
{
    let h2 = h.push(s);
    assert forall|i: int| 0 <= i < h2.len() - 1 implies legal_step(h2[i], #[trigger] h2[i + 1]) by {
        if i < h.len() - 1 {
            assert(legal_step(h[i], h[i + 1]));
        } else {
            assert(h2[i] == h.last());
        }
    }
}

/// From any non-terminal status a step to `Skipped` is legal.
pub proof fn lemma_skip_step_legal(c: TestStatus)
    requires
        !is_terminal(c),
    ensures
        legal_step(c, TestStatus::Skipped),
{
}

/// The fixed string under which a status is persisted and rendered.
pub open spec fn status_label_spec(s: TestStatus) -> Seq<char> {
    match s {
        TestStatus::NotStarted => "NotStarted"@,
        TestStatus::Running => "Running"@,
        TestStatus::Completed => "Completed"@,
        TestStatus::Failed => "Failed"@,
        TestStatus::AssertionFailed => "AssertionFailed"@,
        TestStatus::Skipped => "Skipped"@,
    }
}

impl TestStatus {
    /// Whether this status is terminal.
    pub fn is_terminal_status(&self) -> (r: bool)
        ensures
            r == is_terminal(*self),
    {
        match self {
            TestStatus::Completed | TestStatus::Failed | TestStatus::AssertionFailed
            | TestStatus::Skipped => true,
            _ => false,
        }
    }

    /// Whether this status propagates `Skipped` to every successor.
    pub fn is_fail_like(&self) -> (r: bool)
        ensures
            r == is_fail_status(*self),
    {
        match self {
            TestStatus::Failed | TestStatus::AssertionFailed | TestStatus::Skipped => true,
            _ => false,
        }
    }

    /// The fixed serialization of this status.
    pub fn label(&self) -> (r: &'static str)
        ensures
            r@ == status_label_spec(*self),
    {
        match self {
            TestStatus::NotStarted => "NotStarted",
            TestStatus::Running => "Running",
            TestStatus::Completed => "Completed",
            TestStatus::Failed => "Failed",
            TestStatus::AssertionFailed => "AssertionFailed",
            TestStatus::Skipped => "Skipped",
        }
    }
}


impl ExtType {
    /// Reads an extension from its lowercase name: `yaml` or `json`,
    /// exactly; anything else is refused.
    pub fn parse(s: &str) -> (r: Result<ExtType, Error>)
        ensures
            r == (if s@ == "yaml"@ {
                Ok::<ExtType, Error>(ExtType::Yaml)
            } else if s@ == "json"@ {
                Ok::<ExtType, Error>(ExtType::Json)
            } else {
                Err::<ExtType, Error>(Error::UnknownVariant)
            }),
    {
        if str_eq(s, "yaml") {
            Ok(ExtType::Yaml)
        } else if str_eq(s, "json") {
            Ok(ExtType::Json)
        } else {
            Err(Error::UnknownVariant)
        }
    }
}

impl ManifestKind {
    /// Reads a manifest kind from its lowercase name: `scripts` or `grpc`,
    /// exactly; anything else is refused.
    pub fn parse(s: &str) -> (r: Result<ManifestKind, Error>)
        ensures
            r == (if s@ == "scripts"@ {
                Ok::<ManifestKind, Error>(ManifestKind::Scripts)
            } else if s@ == "grpc"@ {
                Ok::<ManifestKind, Error>(ManifestKind::Grpc)
            } else {
                Err::<ManifestKind, Error>(Error::UnknownVariant)
            }),
    {
        if str_eq(s, "scripts") {
            Ok(ManifestKind::Scripts)
        } else if str_eq(s, "grpc") {
            Ok(ManifestKind::Grpc)
        } else {
            Err(Error::UnknownVariant)
        }
    }
}

impl core::str::FromStr for ExtType {
    type Err = Error;

    fn from_str(s: &str) -> Result<Self, Self::Err> {
        Self::parse(s)
    }
}

impl core::str::FromStr for ManifestKind {
    type Err = Error;

    fn from_str(s: &str) -> Result<Self, Self::Err> {
        Self::parse(s)
    }
}

} // verus!
