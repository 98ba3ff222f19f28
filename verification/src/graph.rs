use vstd::prelude::*;
use vstd::string::StringExecFns;

use crate::enums::{current_of, status_label_spec, ManifestKind, TestStatus};

verus! {

/// An equality constraint on nodes: every field that is present must match.
/// An all-empty filter matches every node.
pub struct FilterOptions {
    pub id: Option<String>,
    pub status: Option<TestStatus>,
    pub index: Option<u32>,
}

/// The executable payload of a test node.
pub struct TestExecutable {
    pub id: String,
    pub service: String,
    pub name: String,
    pub command: String,
    pub description: String,
    pub output: Option<String>,
    pub exit_code: Option<i32>,
    pub kind: ManifestKind,
}

/// A vertex of the dependency graph.
pub struct TestNode {
    pub id: String,
    pub index: u32,
    pub depends_on: Vec<String>,
    /// The status history: the last entry is the current status.
    pub status: Vec<TestStatus>,
    pub executable: TestExecutable,
}

/// The mathematical value of a `TestExecutable`.
pub ghost struct ExecutableView {
    pub id: Seq<char>,
    pub service: Seq<char>,
    pub name: Seq<char>,
    pub command: Seq<char>,
    pub description: Seq<char>,
    pub output: Option<Seq<char>>,
    pub exit_code: Option<i32>,
    pub kind: ManifestKind,
}

/// The mathematical value of a `TestNode`.
pub ghost struct NodeView {
    pub id: Seq<char>,
    pub index: u32,
    pub depends_on: Seq<Seq<char>>,
    pub status: Seq<TestStatus>,
    pub executable: ExecutableView,
}

impl View for TestExecutable {
    type V = ExecutableView;

    open spec fn view(&self) -> ExecutableView {
        ExecutableView {
            id: self.id@,
            service: self.service@,
            name: self.name@,
            command: self.command@,
            description: self.description@,
            output: self.output.deep_view(),
            exit_code: self.exit_code,
            kind: self.kind,
        }
    }
}

impl DeepView for TestExecutable {
    type V = ExecutableView;

    open spec fn deep_view(&self) -> ExecutableView {
        self.view()
    }
}

impl View for TestNode {
    type V = NodeView;

    open spec fn view(&self) -> NodeView {
        NodeView {
            id: self.id@,
            index: self.index,
            depends_on: self.depends_on.deep_view(),
            status: self.status@,
            executable: self.executable@,
        }
    }
}

impl DeepView for TestNode {
    type V = NodeView;

    open spec fn deep_view(&self) -> NodeView {
        self.view()
    }
}

impl Default for TestExecutable {
    /// The empty payload: every text empty, nothing captured, a scripts
    /// command.
    fn default() -> (r: Self)
        ensures
            r@.id.len() == 0,
            r@.service.len() == 0,
            r@.name.len() == 0,
            r@.command.len() == 0,
            r@.description.len() == 0,
            r@.output is None,
            r@.exit_code is None,
            r@.kind == ManifestKind::Scripts,
    {
        TestExecutable {
            id: String::new(),
            service: String::new(),
            name: String::new(),
            command: String::new(),
            description: String::new(),
            output: None,
            exit_code: None,
            kind: ManifestKind::Scripts,
        }
    }
}

impl Clone for TestExecutable {
    fn clone(&self) -> (r: Self)
        ensures
            r@ == self@,
    {
        TestExecutable {
            id: self.id.clone(),
            service: self.service.clone(),
            name: self.name.clone(),
            command: self.command.clone(),
            description: self.description.clone(),
            output: match &self.output {
                Some(o) => Some(o.clone()),
                None => None,
            },
            exit_code: self.exit_code,
            kind: self.kind,
        }
    }
}

impl Clone for TestNode {
    fn clone(&self) -> (r: Self)
        ensures
            r@ == self@,
    {
        TestNode {
            id: self.id.clone(),
            index: self.index,
            depends_on: clone_string_vec(&self.depends_on),
            status: clone_status_vec(&self.status),
            executable: self.executable.clone(),
        }
    }
}

/// Clones a vector of strings, keeping the sequence of character sequences.
pub fn clone_string_vec(v: &Vec<String>) -> (r: Vec<String>)
    ensures
        r.deep_view() == v.deep_view(),
{
    let mut r: Vec<String> = Vec::new();
    let mut i: usize = 0;
    while i < v.len()
        invariant
            0 <= i <= v.len(),
            r@ =~= v@.subrange(0, i as int),
        decreases v.len() - i,
    {
        r.push(v[i].clone());
        i += 1;
    }
    proof {
        assert(r@ =~= v@);
        assert(r.deep_view() =~= v.deep_view());
    }
    r
}

/// Clones a status history.
pub fn clone_status_vec(v: &Vec<TestStatus>) -> (r: Vec<TestStatus>)
    ensures
        r@ == v@,
{
    let mut r: Vec<TestStatus> = Vec::new();
    let mut i: usize = 0;
    while i < v.len()
        invariant
            0 <= i <= v.len(),
            r@ =~= v@.subrange(0, i as int),
        decreases v.len() - i,
    {
        r.push(v[i]);
        i += 1;
    }
    proof {
        assert(r@ =~= v@);
    }
    r
}

/// The label under which a node is rendered: `<id>-<current status>`.
pub open spec fn node_label_spec(n: NodeView) -> Seq<char> {
    n.id + "-"@ + status_label_spec(current_of(n.status))
}

impl TestNode {
    /// The current status: the last history entry, or `NotStarted` for an
    /// empty history.
    pub fn last_status(&self) -> (r: TestStatus)
        ensures
            r == current_of(self@.status),
    {
        if self.status.len() == 0 {
            TestStatus::NotStarted
        } else {
            self.status[self.status.len() - 1]
        }
    }

    /// The `<id>-<current status>` label used by the DOT rendering.
    pub fn display_label(&self) -> (r: String)
        ensures
            r@ == node_label_spec(self@),
    {
        let mut r = self.id.clone();
        r.append("-");
        r.append(self.last_status().label());
        r
    }
}

/// What it means for a node to match a filter: each present field is an
/// equality constraint and all present fields must hold.
pub open spec fn matches_spec(f: FilterOptions, n: NodeView) -> bool {
    &&& (f.index matches Some(ix) ==> n.index == ix)
    &&& (f.id matches Some(id) ==> n.id == id@)
    &&& (f.status matches Some(st) ==> current_of(n.status) == st)
}

impl FilterOptions {
    /// Whether the node matches every present constraint of this filter.
    pub fn check(&self, node: &TestNode) -> (r: bool)
        ensures
            r == matches_spec(*self, node@),
    {
        if let Some(index) = self.index {
            if node.index != index {
                return false;
            }
        }
        if let Some(id) = &self.id {
            if !(node.id == *id) {
                return false;
            }
        }
        if let Some(status) = self.status {
            if node.last_status() != status {
                return false;
            }
        }
        true
    }

    /// The filter that matches `Completed` nodes.
    pub fn completed() -> (r: Self)
        ensures
            r.id is None,
            r.status == Some(TestStatus::Completed),
            r.index is None,
    {
        Self { id: None, status: Some(TestStatus::Completed), index: None }
    }

    /// The filter that matches `NotStarted` nodes.
    pub fn not_started() -> (r: Self)
        ensures
            r.id is None,
            r.status == Some(TestStatus::NotStarted),
            r.index is None,
    {
        Self { id: None, status: Some(TestStatus::NotStarted), index: None }
    }

    /// The filter that matches `Failed` nodes.
    pub fn failed() -> (r: Self)
        ensures
            r.id is None,
            r.status == Some(TestStatus::Failed),
            r.index is None,
    {
        Self { id: None, status: Some(TestStatus::Failed), index: None }
    }

    /// The filter that matches `Skipped` nodes.
    pub fn skipped() -> (r: Self)
        ensures
            r.id is None,
            r.status == Some(TestStatus::Skipped),
            r.index is None,
    {
        Self { id: None, status: Some(TestStatus::Skipped), index: None }
    }

    /// The filter that matches `Running` nodes.
    pub fn running() -> (r: Self)
        ensures
            r.id is None,
            r.status == Some(TestStatus::Running),
            r.index is None,
    {
        Self { id: None, status: Some(TestStatus::Running), index: None }
    }

    /// The empty, fully permissive filter.
    pub fn all() -> (r: Self)
        ensures
            r.id is None,
            r.status is None,
            r.index is None,
    {
        Self { id: None, status: None, index: None }
    }
}

impl TestExecutable {
    /// Records a captured execution result: the exit code, and the captured
    /// stream as the output (stdout on success, stderr on failure). Returns
    /// whether the execution succeeded, which is exactly an exit code of zero.
    pub fn record_result(&mut self, exit_code: Option<i32>, stdout: String, stderr: String) -> (ok:
        bool)
        ensures
            ok == (exit_code == Some(0i32)),
            final(self)@.exit_code == exit_code,
            final(self)@.output == if ok {
                Some(stdout@)
            } else {
                Some(stderr@)
            },
            final(self)@.id == old(self)@.id,
            final(self)@.service == old(self)@.service,
            final(self)@.name == old(self)@.name,
            final(self)@.command == old(self)@.command,
            final(self)@.description == old(self)@.description,
            final(self)@.kind == old(self)@.kind,
    {
        self.exit_code = exit_code;
        let ok = match exit_code {
            Some(c) => c == 0,
            None => false,
        };
        self.output = if ok {
            Some(stdout)
        } else {
            Some(stderr)
        };
        ok
    }
}

} // verus!
