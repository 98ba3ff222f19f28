use vstd::prelude::*;
use vstd::string::StringExecFns;

use crate::conversions::{grpcurl_spec, try_to_grpcurl_command, unescape_of};
use crate::enums::{Error, ManifestKind, TestStatus};
use crate::graph::{clone_string_vec, ExecutableView, NodeView, TestExecutable, TestNode};
use crate::strings::{leading_segment_of, push_deep, vec_contains_str};

verus! {

/// A grpc manifest file: services, each with request tests.
pub struct MGrpcFile {
    pub services: Vec<Service>,
}

/// One service of a grpc manifest, with the address its requests go to.
pub struct Service {
    pub name: String,
    pub address: String,
    pub tests: Vec<TestUnit>,
}

/// One test of a grpc manifest service.
pub struct TestUnit {
    pub name: String,
    pub id: String,
    pub depends_on: Vec<String>,
    pub description: String,
    pub method: String,
    pub proto: String,
    pub body: String,
    pub headers: Option<Vec<String>>,
    pub expected: Option<ReqSpec>,
}

/// The expected response of a grpc test.
pub struct ReqSpec {
    pub status: Option<String>,
    pub body: Option<String>,
}

/// The inner error payload a grpc call may answer with.
pub struct CurlErrorInner {
    pub code: Option<String>,
    pub message: Option<String>,
}

/// The error envelope a grpc call may answer with.
pub struct CurlError {
    pub error: CurlErrorInner,
}

/// The mathematical value of a grpc `TestUnit`.
pub ghost struct TestUnitView {
    pub name: Seq<char>,
    pub id: Seq<char>,
    pub depends_on: Seq<Seq<char>>,
    pub description: Seq<char>,
    pub method: Seq<char>,
    pub proto: Seq<char>,
    pub body: Seq<char>,
    pub headers: Option<Seq<Seq<char>>>,
    pub expected: Option<ReqSpecView>,
}

/// The mathematical value of a `ReqSpec`.
pub ghost struct ReqSpecView {
    pub status: Option<Seq<char>>,
    pub body: Option<Seq<char>>,
}

/// The mathematical value of a grpc `Service`.
pub ghost struct ServiceView {
    pub name: Seq<char>,
    pub address: Seq<char>,
    pub tests: Seq<TestUnitView>,
}

impl View for ReqSpec {
    type V = ReqSpecView;

    open spec fn view(&self) -> ReqSpecView {
        ReqSpecView { status: self.status.deep_view(), body: self.body.deep_view() }
    }
}

impl DeepView for ReqSpec {
    type V = ReqSpecView;

    open spec fn deep_view(&self) -> ReqSpecView {
        self.view()
    }
}

impl View for TestUnit {
    type V = TestUnitView;

    open spec fn view(&self) -> TestUnitView {
        TestUnitView {
            name: self.name@,
            id: self.id@,
            depends_on: self.depends_on.deep_view(),
            description: self.description@,
            method: self.method@,
            proto: self.proto@,
            body: self.body@,
            headers: self.headers.deep_view(),
            expected: self.expected.deep_view(),
        }
    }
}

impl DeepView for TestUnit {
    type V = TestUnitView;

    open spec fn deep_view(&self) -> TestUnitView {
        self.view()
    }
}

impl View for Service {
    type V = ServiceView;

    open spec fn view(&self) -> ServiceView {
        ServiceView { name: self.name@, address: self.address@, tests: self.tests.deep_view() }
    }
}

impl DeepView for Service {
    type V = ServiceView;

    open spec fn deep_view(&self) -> ServiceView {
        self.view()
    }
}

impl View for MGrpcFile {
    type V = Seq<ServiceView>;

    open spec fn view(&self) -> Seq<ServiceView> {
        self.services.deep_view()
    }
}

impl DeepView for MGrpcFile {
    type V = Seq<ServiceView>;

    open spec fn deep_view(&self) -> Seq<ServiceView> {
        self.view()
    }
}

/// The names of the declared grpc services, in order.
pub open spec fn grpc_service_names(services: Seq<ServiceView>) -> Seq<Seq<char>> {
    Seq::new(services.len(), |i: int| services[i].name)
}

/// One grpc test after normalization.
pub open spec fn normalized_grpc_unit(
    names: Seq<Seq<char>>,
    svc: Seq<char>,
    t: TestUnitView,
) -> TestUnitView {
    TestUnitView {
        name: t.name,
        id: crate::manifests::scripts::norm_id(svc, t.id),
        depends_on: Seq::new(
            t.depends_on.len(),
            |k: int| crate::manifests::scripts::norm_dep(names, svc, t.depends_on[k]),
        ),
        description: t.description,
        method: t.method,
        proto: t.proto,
        body: t.body,
        headers: t.headers,
        expected: t.expected,
    }
}

/// A whole grpc manifest after normalization.
pub open spec fn normalized_grpc(services: Seq<ServiceView>) -> Seq<ServiceView> {
    Seq::new(
        services.len(),
        |i: int|
            ServiceView {
                name: services[i].name,
                address: services[i].address,
                tests: Seq::new(
                    services[i].tests.len(),
                    |j: int|
                        normalized_grpc_unit(
                            grpc_service_names(services),
                            services[i].name,
                            services[i].tests[j],
                        ),
                ),
            },
    )
}

/// Every test body of the manifest unescapes cleanly.
pub open spec fn all_bodies_ok(services: Seq<ServiceView>) -> bool {
    forall|i: int, j: int|
        0 <= i < services.len() && 0 <= j < services[i].tests.len() ==> unescape_of(
            (#[trigger] services[i].tests[j]).body,
        ) is Some
}

/// The node a grpc test turns into, standing at position `idx`: its
/// command is the grpcurl invocation materialized from the test and its
/// service's address.
pub open spec fn grpc_node(sv: ServiceView, t: TestUnitView, idx: int) -> NodeView {
    NodeView {
        id: t.id,
        index: idx as u32,
        depends_on: t.depends_on,
        status: seq![TestStatus::NotStarted],
        executable: ExecutableView {
            id: t.id,
            service: sv.name,
            name: t.name,
            command: grpcurl_spec(
                t.headers,
                unescape_of(t.body)->Some_0,
                t.proto,
                sv.address,
                t.method,
            ),
            description: t.description,
            output: None,
            exit_code: None,
            kind: ManifestKind::Grpc,
        },
    }
}

/// The nodes of one grpc service, starting at position `base`.
pub open spec fn grpc_svc_nodes(sv: ServiceView, base: int) -> Seq<NodeView> {
    Seq::new(sv.tests.len(), |j: int| grpc_node(sv, sv.tests[j], base + j))
}

/// The nodes of the first `i` grpc services, concatenated.
pub open spec fn grpc_prefix(services: Seq<ServiceView>, i: int) -> Seq<NodeView>
    decreases i,
{
    if i <= 0 {
        Seq::empty()
    } else {
        grpc_prefix(services, i - 1) + grpc_svc_nodes(
            services[i - 1],
            grpc_prefix(services, i - 1).len() as int,
        )
    }
}

/// All nodes a grpc manifest declares, in declaration order.
pub open spec fn grpc_nodes_spec(services: Seq<ServiceView>) -> Seq<NodeView> {
    grpc_prefix(services, services.len() as int)
}

/// Prefixes of the grpc node list only grow.
pub proof fn lemma_grpc_prefix_mono(services: Seq<ServiceView>, a: int, b: int)
    requires
        0 <= a <= b,
    ensures
        grpc_prefix(services, a).len() <= grpc_prefix(services, b).len(),
    decreases b,
{
    if a < b {
        lemma_grpc_prefix_mono(services, a, b - 1);
    }
}

/// Every node a grpc manifest declares starts with the single-entry
/// history `[NotStarted]`.
pub proof fn lemma_grpc_prefix_statuses(services: Seq<ServiceView>, i: int)
    ensures
        forall|x: int|
            0 <= x < grpc_prefix(services, i).len() ==> (#[trigger] grpc_prefix(
                services,
                i,
            )[x]).status == seq![TestStatus::NotStarted],
    decreases i,
{
    if i > 0 {
        lemma_grpc_prefix_statuses(services, i - 1);
    }
}

impl MGrpcFile {
    /// Rewrites every test id as `<service>.<id>`, and every dependency
    /// entry likewise unless its leading dot-separated segment already
    /// names a known service.
    pub fn format_test_ids(&mut self)
        ensures
            final(self)@ =~= normalized_grpc(old(self)@),
    {
        let ghost sv = self@;
        let mut names: Vec<String> = Vec::new();
        let mut x: usize = 0;
        while x < self.services.len()
            invariant
                sv == self@,
                sv.len() == self.services@.len(),
                0 <= x <= sv.len(),
                names.deep_view() =~= grpc_service_names(sv).subrange(0, x as int),
            decreases sv.len() - x,
        {
            proof {
                assert(sv[x as int] == self.services@[x as int]@);
            }
            push_deep(&mut names, self.services[x].name.clone());
            proof {
                assert(names.deep_view() =~= grpc_service_names(sv).subrange(0, x + 1));
            }
            x += 1;
        }
        proof {
            assert(grpc_service_names(sv).subrange(0, sv.len() as int) =~= grpc_service_names(sv));
        }
        let mut out: Vec<Service> = Vec::new();
        let mut i: usize = 0;
        while i < self.services.len()
            invariant
                sv == self@,
                sv.len() == self.services@.len(),
                0 <= i <= sv.len(),
                names.deep_view() =~= grpc_service_names(sv),
                out.deep_view() =~= normalized_grpc(sv).subrange(0, i as int),
            decreases sv.len() - i,
        {
            proof {
                assert(sv[i as int] == self.services@[i as int]@);
            }
            let service = &self.services[i];
            let mut nt: Vec<TestUnit> = Vec::new();
            let mut j: usize = 0;
            while j < service.tests.len()
                invariant
                    sv == self@,
                    names.deep_view() =~= grpc_service_names(sv),
                    0 <= i < sv.len(),
                    service@ == sv[i as int],
                    service.tests@.len() == sv[i as int].tests.len(),
                    0 <= j <= sv[i as int].tests.len(),
                    nt.deep_view().len() == j,
                    forall|j2: int|
                        0 <= j2 < j ==> nt.deep_view()[j2] == normalized_grpc_unit(
                            grpc_service_names(sv),
                            sv[i as int].name,
                            (#[trigger] sv[i as int].tests[j2]),
                        ),
                decreases sv[i as int].tests.len() - j,
            {
                proof {
                    assert(service@.tests[j as int] == service.tests@[j as int]@);
                }
                let t = &service.tests[j];
                let mut nd: Vec<String> = Vec::new();
                let mut k: usize = 0;
                while k < t.depends_on.len()
                    invariant
                        sv == self@,
                        names.deep_view() =~= grpc_service_names(sv),
                        0 <= i < sv.len(),
                        service@ == sv[i as int],
                        t@ == sv[i as int].tests[j as int],
                        0 <= j < sv[i as int].tests.len(),
                        t.depends_on@.len() == t@.depends_on.len(),
                        0 <= k <= t@.depends_on.len(),
                        nd.deep_view().len() == k,
                        forall|k2: int|
                            0 <= k2 < k ==> nd.deep_view()[k2]
                                == crate::manifests::scripts::norm_dep(
                                grpc_service_names(sv),
                                sv[i as int].name,
                                (#[trigger] t@.depends_on[k2]),
                            ),
                    decreases t@.depends_on.len() - k,
                {
                    proof {
                        assert(t@.depends_on[k as int] == t.depends_on@[k as int]@);
                    }
                    let dep = &t.depends_on[k];
                    let seg = leading_segment_of(dep.as_str());
                    if vec_contains_str(&names, seg.as_str()) {
                        push_deep(&mut nd, dep.clone());
                    } else {
                        push_deep(
                            &mut nd,
                            crate::manifests::scripts::qualify(
                                service.name.as_str(),
                                dep.as_str(),
                            ),
                        );
                    }
                    k += 1;
                }
                let unit = TestUnit {
                    name: t.name.clone(),
                    id: crate::manifests::scripts::qualify(service.name.as_str(), t.id.as_str()),
                    depends_on: nd,
                    description: t.description.clone(),
                    method: t.method.clone(),
                    proto: t.proto.clone(),
                    body: t.body.clone(),
                    headers: match &t.headers {
                        Some(hs) => Some(clone_string_vec(hs)),
                        None => None,
                    },
                    expected: match &t.expected {
                        Some(e) => Some(
                            ReqSpec {
                                status: match &e.status {
                                    Some(st) => Some(st.clone()),
                                    None => None,
                                },
                                body: match &e.body {
                                    Some(b) => Some(b.clone()),
                                    None => None,
                                },
                            },
                        ),
                        None => None,
                    },
                };
                proof {
                    assert(unit@.depends_on =~= Seq::new(
                        t@.depends_on.len(),
                        |k2: int|
                            crate::manifests::scripts::norm_dep(
                                grpc_service_names(sv),
                                sv[i as int].name,
                                t@.depends_on[k2],
                            ),
                    ));
                    assert(unit@ == normalized_grpc_unit(
                        grpc_service_names(sv),
                        sv[i as int].name,
                        sv[i as int].tests[j as int],
                    ));
                }
                push_deep(&mut nt, unit);
                j += 1;
            }
            let ns = Service {
                name: service.name.clone(),
                address: service.address.clone(),
                tests: nt,
            };
            proof {
                assert(ns@.tests =~= normalized_grpc(sv)[i as int].tests);
                assert(ns@ == normalized_grpc(sv)[i as int]);
            }
            push_deep(&mut out, ns);
            proof {
                assert(out.deep_view() =~= normalized_grpc(sv).subrange(0, i + 1));
            }
            i += 1;
        }
        self.services = out;
        proof {
            assert(normalized_grpc(sv).subrange(0, sv.len() as int) =~= normalized_grpc(sv));
        }
    }

    /// The nodes this manifest declares: one per test, in declaration
    /// order, each `NotStarted`, its command the materialized grpcurl
    /// invocation. Fails when a body's escapes are malformed or an index
    /// cannot count the tests.
    pub fn as_test_nodes(&self) -> (r: Result<Vec<TestNode>, Error>)
        ensures
            r is Ok <==> all_bodies_ok(self@) && grpc_nodes_spec(self@).len() <= u32::MAX,
            r matches Ok(v) ==> v.deep_view() == grpc_nodes_spec(self@),
            r matches Err(e) ==> e == Error::TooManyTests || (e matches Error::InvalidEscape {
                id,
            } && exists|i: int, j: int|
                0 <= i < self@.len() && 0 <= j < self@[i].tests.len() && unescape_of(
                    (#[trigger] self@[i].tests[j]).body,
                ) is None && id@ == self@[i].tests[j].id),
    {
        let ghost sv = self@;
        let mut v: Vec<TestNode> = Vec::new();
        let mut i: usize = 0;
        while i < self.services.len()
            invariant
                sv == self@,
                sv.len() == self.services@.len(),
                0 <= i <= sv.len(),
                v.deep_view() =~= grpc_prefix(sv, i as int),
                v@.len() <= u32::MAX,
                forall|i2: int, j2: int|
                    0 <= i2 < i && 0 <= j2 < sv[i2].tests.len() ==> unescape_of(
                        (#[trigger] sv[i2].tests[j2]).body,
                    ) is Some,
            decreases sv.len() - i,
        {
            proof {
                assert(sv[i as int] == self.services@[i as int]@);
            }
            let service = &self.services[i];
            let ghost base = v.deep_view().len() as int;
            let mut j: usize = 0;
            while j < service.tests.len()
                invariant
                    sv == self@,
                    0 <= i < sv.len(),
                    service@ == sv[i as int],
                    service.tests@.len() == sv[i as int].tests.len(),
                    0 <= j <= sv[i as int].tests.len(),
                    base == grpc_prefix(sv, i as int).len(),
                    v@.len() == base + j,
                    v@.len() <= u32::MAX,
                    v.deep_view() =~= grpc_prefix(sv, i as int) + grpc_svc_nodes(
                        sv[i as int],
                        base,
                    ).subrange(0, j as int),
                    forall|i2: int, j2: int|
                        0 <= i2 < i && 0 <= j2 < sv[i2].tests.len() ==> unescape_of(
                            (#[trigger] sv[i2].tests[j2]).body,
                        ) is Some,
                    forall|j2: int|
                        0 <= j2 < j ==> unescape_of(
                            (#[trigger] sv[i as int].tests[j2]).body,
                        ) is Some,
                decreases sv[i as int].tests.len() - j,
            {
                proof {
                    assert(service@.tests[j as int] == service.tests@[j as int]@);
                }
                let t = &service.tests[j];
                if v.len() >= u32::MAX as usize {
                    proof {
                        lemma_grpc_prefix_mono(sv, i + 1, sv.len() as int);
                        assert(grpc_prefix(sv, i + 1).len() == base + sv[i as int].tests.len());
                        assert(grpc_nodes_spec(sv).len() >= base + j + 1);
                    }
                    return Err(Error::TooManyTests);
                }
                let command = match try_to_grpcurl_command(
                    &t.headers,
                    t.body.as_str(),
                    t.proto.as_str(),
                    service.address.as_str(),
                    t.method.as_str(),
                ) {
                    Some(c) => c,
                    None => {
                        return Err(Error::InvalidEscape { id: t.id.clone() });
                    },
                };
                let mut st: Vec<TestStatus> = Vec::new();
                st.push(TestStatus::NotStarted);
                let node = TestNode {
                    id: t.id.clone(),
                    index: v.len() as u32,
                    depends_on: clone_string_vec(&t.depends_on),
                    status: st,
                    executable: TestExecutable {
                        id: t.id.clone(),
                        service: service.name.clone(),
                        name: t.name.clone(),
                        command,
                        description: t.description.clone(),
                        output: None,
                        exit_code: None,
                        kind: ManifestKind::Grpc,
                    },
                };
                proof {
                    assert(node@.status =~= seq![TestStatus::NotStarted]);
                    assert(node@ == grpc_node(
                        sv[i as int],
                        sv[i as int].tests[j as int],
                        base + j,
                    ));
                }
                push_deep(&mut v, node);
                proof {
                    assert(v.deep_view() =~= grpc_prefix(sv, i as int) + grpc_svc_nodes(
                        sv[i as int],
                        base,
                    ).subrange(0, j + 1));
                }
                j += 1;
            }
            proof {
                assert(grpc_svc_nodes(sv[i as int], base).subrange(
                    0,
                    sv[i as int].tests.len() as int,
                ) =~= grpc_svc_nodes(sv[i as int], base));
                assert(v.deep_view() =~= grpc_prefix(sv, i + 1));
            }
            i += 1;
        }
        proof {
            assert(v.deep_view() =~= grpc_nodes_spec(sv));
        }
        Ok(v)
    }
}

} // verus!
