use vstd::prelude::*;
use vstd::string::StringExecFns;

use crate::enums::{Error, ManifestKind, TestStatus};
use crate::graph::{clone_string_vec, ExecutableView, NodeView, TestNode, TestExecutable};
use crate::strings::{
    leading_segment, leading_segment_of, names_contain, str_eq, vec_contains_str,
};

verus! {

/// A scripts manifest file: services, each with shell-command tests.
pub struct MScriptFile {
    pub services: Vec<Service>,
}

/// One service of a scripts manifest.
pub struct Service {
    pub name: String,
    pub tests: Vec<TestUnit>,
}

/// One test of a scripts manifest service.
pub struct TestUnit {
    pub name: String,
    pub id: String,
    pub depends_on: Vec<String>,
    pub command: String,
    pub description: String,
}

/// The mathematical value of a scripts `TestUnit`.
pub ghost struct TestUnitView {
    pub name: Seq<char>,
    pub id: Seq<char>,
    pub depends_on: Seq<Seq<char>>,
    pub command: Seq<char>,
    pub description: Seq<char>,
}

/// The mathematical value of a scripts `Service`.
pub ghost struct ServiceView {
    pub name: Seq<char>,
    pub tests: Seq<TestUnitView>,
}

impl View for TestUnit {
    type V = TestUnitView;

    open spec fn view(&self) -> TestUnitView {
        TestUnitView {
            name: self.name@,
            id: self.id@,
            depends_on: self.depends_on.deep_view(),
            command: self.command@,
            description: self.description@,
        }
    }
}

impl DeepView for TestUnit {
    type V = TestUnitView;

    open spec fn deep_view(&self) -> TestUnitView {
        self.view()
    }
}

impl View for Service {
    type V = ServiceView;

    open spec fn view(&self) -> ServiceView {
        ServiceView { name: self.name@, tests: self.tests.deep_view() }
    }
}

impl DeepView for Service {
    type V = ServiceView;

    open spec fn deep_view(&self) -> ServiceView {
        self.view()
    }
}

impl View for MScriptFile {
    type V = Seq<ServiceView>;

    open spec fn view(&self) -> Seq<ServiceView> {
        self.services.deep_view()
    }
}

impl DeepView for MScriptFile {
    type V = Seq<ServiceView>;

    open spec fn deep_view(&self) -> Seq<ServiceView> {
        self.view()
    }
}

/// The names of the declared services, in order.
pub open spec fn service_names(services: Seq<ServiceView>) -> Seq<Seq<char>> {
    Seq::new(services.len(), |i: int| services[i].name)
}

/// A test id qualified with its service: `<service>.<id>`.
pub open spec fn norm_id(svc: Seq<char>, id: Seq<char>) -> Seq<char> {
    svc + "."@ + id
}

/// A dependency entry after normalization: left alone when its leading
/// dot-separated segment names a known service, otherwise qualified with
/// the test's own service.
pub open spec fn norm_dep(names: Seq<Seq<char>>, svc: Seq<char>, dep: Seq<char>) -> Seq<char> {
    if names_contain(names, leading_segment(dep)) {
        dep
    } else {
        svc + "."@ + dep
    }
}

/// One scripts test after normalization.
pub open spec fn normalized_unit(
    names: Seq<Seq<char>>,
    svc: Seq<char>,
    t: TestUnitView,
) -> TestUnitView {
    TestUnitView {
        name: t.name,
        id: norm_id(svc, t.id),
        depends_on: Seq::new(t.depends_on.len(), |k: int| norm_dep(names, svc, t.depends_on[k])),
        command: t.command,
        description: t.description,
    }
}

/// A whole scripts manifest after normalization.
pub open spec fn normalized_scripts(services: Seq<ServiceView>) -> Seq<ServiceView> {
    Seq::new(
        services.len(),
        |i: int|
            ServiceView {
                name: services[i].name,
                tests: Seq::new(
                    services[i].tests.len(),
                    |j: int|
                        normalized_unit(
                            service_names(services),
                            services[i].name,
                            services[i].tests[j],
                        ),
                ),
            },
    )
}

/// The node a scripts test turns into, standing at position `idx`.
pub open spec fn script_node(svc: Seq<char>, t: TestUnitView, idx: int) -> NodeView {
    NodeView {
        id: t.id,
        index: idx as u32,
        depends_on: t.depends_on,
        status: seq![TestStatus::NotStarted],
        executable: ExecutableView {
            id: t.id,
            service: svc,
            name: t.name,
            command: t.command,
            description: t.description,
            output: None,
            exit_code: None,
            kind: ManifestKind::Scripts,
        },
    }
}

/// The nodes of one service, starting at position `base`.
pub open spec fn svc_nodes(sv: ServiceView, base: int) -> Seq<NodeView> {
    Seq::new(sv.tests.len(), |j: int| script_node(sv.name, sv.tests[j], base + j))
}

/// The nodes of the first `i` services, concatenated, positions running
/// from zero.
pub open spec fn scripts_prefix(services: Seq<ServiceView>, i: int) -> Seq<NodeView>
    decreases i,
{
    if i <= 0 {
        Seq::empty()
    } else {
        scripts_prefix(services, i - 1) + svc_nodes(
            services[i - 1],
            scripts_prefix(services, i - 1).len() as int,
        )
    }
}

/// All nodes a scripts manifest declares, in declaration order.
pub open spec fn scripts_nodes_spec(services: Seq<ServiceView>) -> Seq<NodeView> {
    scripts_prefix(services, services.len() as int)
}

/// Prefixes of the node list only grow.
pub proof fn lemma_scripts_prefix_mono(services: Seq<ServiceView>, a: int, b: int)
    requires
        0 <= a <= b,
    ensures
        scripts_prefix(services, a).len() <= scripts_prefix(services, b).len(),
    decreases b,
{
    if a < b {
        lemma_scripts_prefix_mono(services, a, b - 1);
    }
}

/// Every node a scripts manifest declares starts with the single-entry
/// history `[NotStarted]`.
pub proof fn lemma_scripts_prefix_statuses(services: Seq<ServiceView>, i: int)
    ensures
        forall|x: int|
            0 <= x < scripts_prefix(services, i).len() ==> (#[trigger] scripts_prefix(
                services,
                i,
            )[x]).status == seq![TestStatus::NotStarted],
    decreases i,
{
    if i > 0 {
        lemma_scripts_prefix_statuses(services, i - 1);
    }
}

/// Qualifies an id with a service name: `<service>.<id>`.
pub fn qualify(svc: &str, id: &str) -> (r: String)
    ensures
        r@ == svc@ + "."@ + id@,
{
    let mut r = String::from_str(svc);
    r.append(".");
    r.append(id);
    r
}

impl MScriptFile {
    /// Rewrites every test id as `<service>.<id>`, and every dependency
    /// entry likewise unless its leading dot-separated segment already
    /// names a known service.
    pub fn format_test_ids(&mut self)
        ensures
            final(self)@ =~= normalized_scripts(old(self)@),
    {
        let ghost sv = self@;
        let mut names: Vec<String> = Vec::new();
        let mut x: usize = 0;
        while x < self.services.len()
            invariant
                sv == self@,
                sv.len() == self.services@.len(),
                0 <= x <= sv.len(),
                names.deep_view() =~= service_names(sv).subrange(0, x as int),
            decreases sv.len() - x,
        {
            proof {
                assert(sv[x as int] == self.services@[x as int]@);
            }
            crate::strings::push_deep(&mut names, self.services[x].name.clone());
            proof {
                assert(names.deep_view() =~= service_names(sv).subrange(0, x + 1));
            }
            x += 1;
        }
        proof {
            assert(service_names(sv).subrange(0, sv.len() as int) =~= service_names(sv));
        }
        let mut out: Vec<Service> = Vec::new();
        let mut i: usize = 0;
        while i < self.services.len()
            invariant
                sv == self@,
                sv.len() == self.services@.len(),
                0 <= i <= sv.len(),
                names.deep_view() =~= service_names(sv),
                out.deep_view() =~= normalized_scripts(sv).subrange(0, i as int),
            decreases sv.len() - i,
        {
            proof {
                assert(sv[i as int] == self.services@[i as int]@);
            }
            let service = &self.services[i];
            let mut nt: Vec<TestUnit> = Vec::new();
            let mut j: usize = 0;
            while j < service.tests.len()
                invariant
                    sv == self@,
                    names.deep_view() =~= service_names(sv),
                    0 <= i < sv.len(),
                    service@ == sv[i as int],
                    service.tests@.len() == sv[i as int].tests.len(),
                    0 <= j <= sv[i as int].tests.len(),
                    nt.deep_view().len() == j,
                    forall|j2: int|
                        0 <= j2 < j ==> nt.deep_view()[j2] == normalized_unit(
                            service_names(sv),
                            sv[i as int].name,
                            (#[trigger] sv[i as int].tests[j2]),
                        ),
                decreases sv[i as int].tests.len() - j,
            {
                proof {
                    assert(service@.tests[j as int] == service.tests@[j as int]@);
                }
                let t = &service.tests[j];
                let mut nd: Vec<String> = Vec::new();
                let mut k: usize = 0;
                while k < t.depends_on.len()
                    invariant
                        sv == self@,
                        names.deep_view() =~= service_names(sv),
                        0 <= i < sv.len(),
                        service@ == sv[i as int],
                        t@ == sv[i as int].tests[j as int],
                        0 <= j < sv[i as int].tests.len(),
                        t.depends_on@.len() == t@.depends_on.len(),
                        0 <= k <= t@.depends_on.len(),
                        nd.deep_view().len() == k,
                        forall|k2: int|
                            0 <= k2 < k ==> nd.deep_view()[k2] == norm_dep(
                                service_names(sv),
                                sv[i as int].name,
                                (#[trigger] t@.depends_on[k2]),
                            ),
                    decreases t@.depends_on.len() - k,
                {
                    proof {
                        assert(t@.depends_on[k as int] == t.depends_on@[k as int]@);
                    }
                    let dep = &t.depends_on[k];
                    let seg = leading_segment_of(dep.as_str());
                    if vec_contains_str(&names, seg.as_str()) {
                        crate::strings::push_deep(&mut nd, dep.clone());
                    } else {
                        crate::strings::push_deep(&mut nd, qualify(service.name.as_str(), dep.as_str()));
                    }
                    k += 1;
                }
                let unit = TestUnit {
                    name: t.name.clone(),
                    id: qualify(service.name.as_str(), t.id.as_str()),
                    depends_on: nd,
                    command: t.command.clone(),
                    description: t.description.clone(),
                };
                proof {
                    assert(unit@.depends_on =~= Seq::new(
                        t@.depends_on.len(),
                        |k2: int| norm_dep(service_names(sv), sv[i as int].name, t@.depends_on[k2]),
                    ));
                    assert(unit@ == normalized_unit(
                        service_names(sv),
                        sv[i as int].name,
                        sv[i as int].tests[j as int],
                    ));
                }
                crate::strings::push_deep(&mut nt, unit);
                j += 1;
            }
            let ns = Service { name: service.name.clone(), tests: nt };
            proof {
                assert(ns@.tests =~= normalized_scripts(sv)[i as int].tests);
                assert(ns@ == normalized_scripts(sv)[i as int]);
            }
            crate::strings::push_deep(&mut out, ns);
            proof {
                assert(out.deep_view() =~= normalized_scripts(sv).subrange(0, i + 1));
            }
            i += 1;
        }
        self.services = out;
        proof {
            assert(normalized_scripts(sv).subrange(0, sv.len() as int) =~= normalized_scripts(sv));
        }
    }

    /// The nodes this manifest declares: one per test, in declaration
    /// order, each `NotStarted`, its position as its index. Fails only
    /// when an index cannot count the tests.
    pub fn as_test_nodes(&self) -> (r: Result<Vec<TestNode>, Error>)
        ensures
            r matches Ok(v) ==> v.deep_view() == scripts_nodes_spec(self@)
                && scripts_nodes_spec(self@).len() <= u32::MAX,
            r is Err ==> scripts_nodes_spec(self@).len() > u32::MAX,
            r matches Err(e) ==> e == Error::TooManyTests,
    {
        let ghost sv = self@;
        let mut v: Vec<TestNode> = Vec::new();
        let mut i: usize = 0;
        while i < self.services.len()
            invariant
                sv == self@,
                sv.len() == self.services@.len(),
                0 <= i <= sv.len(),
                v.deep_view() =~= scripts_prefix(sv, i as int),
                v@.len() <= u32::MAX,
            decreases sv.len() - i,
        {
            proof {
                assert(sv[i as int] == self.services@[i as int]@);
            }
            let service = &self.services[i];
            let ghost base = v.deep_view().len() as int;
            let mut j: usize = 0;
            while j < service.tests.len()
                invariant
                    sv == self@,
                    0 <= i < sv.len(),
                    service@ == sv[i as int],
                    service.tests@.len() == sv[i as int].tests.len(),
                    0 <= j <= sv[i as int].tests.len(),
                    base == scripts_prefix(sv, i as int).len(),
                    v@.len() == base + j,
                    v@.len() <= u32::MAX,
                    v.deep_view() =~= scripts_prefix(sv, i as int) + svc_nodes(
                        sv[i as int],
                        base,
                    ).subrange(0, j as int),
                decreases sv[i as int].tests.len() - j,
            {
                proof {
                    assert(service@.tests[j as int] == service.tests@[j as int]@);
                }
                let t = &service.tests[j];
                if v.len() >= u32::MAX as usize {
                    proof {
                        lemma_scripts_prefix_mono(sv, i + 1, sv.len() as int);
                        assert(scripts_prefix(sv, i + 1).len() == base + sv[i as int].tests.len());
                        assert(scripts_nodes_spec(sv).len() >= base + j + 1);
                    }
                    return Err(Error::TooManyTests);
                }
                let mut st: Vec<TestStatus> = Vec::new();
                st.push(TestStatus::NotStarted);
                let node = TestNode {
                    id: t.id.clone(),
                    index: v.len() as u32,
                    depends_on: clone_string_vec(&t.depends_on),
                    status: st,
                    executable: TestExecutable {
                        id: t.id.clone(),
                        service: service.name.clone(),
                        name: t.name.clone(),
                        command: t.command.clone(),
                        description: t.description.clone(),
                        output: None,
                        exit_code: None,
                        kind: ManifestKind::Scripts,
                    },
                };
                proof {
                    assert(node@.status =~= seq![TestStatus::NotStarted]);
                    assert(node@ == script_node(
                        sv[i as int].name,
                        sv[i as int].tests[j as int],
                        base + j,
                    ));
                }
                crate::strings::push_deep(&mut v, node);
                proof {
                    assert(v.deep_view() =~= scripts_prefix(sv, i as int) + svc_nodes(
                        sv[i as int],
                        base,
                    ).subrange(0, j + 1));
                }
                j += 1;
            }
            proof {
                assert(svc_nodes(sv[i as int], base).subrange(
                    0,
                    sv[i as int].tests.len() as int,
                ) =~= svc_nodes(sv[i as int], base));
                assert(v.deep_view() =~= scripts_prefix(sv, i + 1));
            }
            i += 1;
        }
        proof {
            assert(v.deep_view() =~= scripts_nodes_spec(sv));
        }
        Ok(v)
    }

    /// The first test whose id equals `test_id`, if any.
    pub fn get_test(&self, test_id: &str) -> (r: Option<&TestUnit>)
        ensures
            match r {
                Some(t) => exists|i: int, j: int|
                    0 <= i < self@.len() && 0 <= j < self@[i].tests.len()
                        && (#[trigger] self@[i].tests[j]) == t@ && t@.id == test_id@,
                None => forall|i: int, j: int|
                    0 <= i < self@.len() && 0 <= j < (#[trigger] self@[i]).tests.len() ==> (
                    #[trigger] self@[i].tests[j]).id != test_id@,
            },
    {
        let mut i: usize = 0;
        while i < self.services.len()
            invariant
                0 <= i <= self@.len(),
                self@.len() == self.services@.len(),
                forall|x: int, j: int|
                    0 <= x < i && 0 <= j < (#[trigger] self@[x]).tests.len() ==> (
                    #[trigger] self@[x].tests[j]).id != test_id@,
            decreases self@.len() - i,
        {
            let service = &self.services[i];
            let mut j: usize = 0;
            while j < service.tests.len()
                invariant
                    0 <= j <= service@.tests.len(),
                    service@.tests.len() == service.tests@.len(),
                    service@ == self@[i as int],
                    0 <= i < self@.len(),
                    forall|y: int|
                        0 <= y < j ==> (#[trigger] service@.tests[y]).id != test_id@,
                decreases service@.tests.len() - j,
            {
                let t = &service.tests[j];
                if crate::strings::str_eq(t.id.as_str(), test_id) {
                    proof {
                        assert(self@[i as int].tests[j as int] == t@);
                    }
                    return Some(t);
                }
                proof {
                    assert(service@.tests[j as int] == t@);
                }
                j += 1;
            }
            i += 1;
        }
        None
    }
}

} // verus!
