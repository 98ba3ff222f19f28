use vstd::prelude::*;
use vstd::pervasive::VecAdditionalExecFns;

pub mod grpc;
pub mod scripts;

use crate::conversions::checks_depends_on;
use crate::enums::{Error, TestStatus};
use crate::graph::{NodeView, TestNode};

verus! {

/// A parsed manifest: at most one scripts file and one grpc file, merged.
pub struct BaseManifest {
    pub scripts: Option<scripts::MScriptFile>,
    pub grpc: Option<grpc::MGrpcFile>,
}

/// The mathematical value of a `BaseManifest`.
pub ghost struct BaseManifestView {
    pub scripts: Option<Seq<scripts::ServiceView>>,
    pub grpc: Option<Seq<grpc::ServiceView>>,
}

impl View for BaseManifest {
    type V = BaseManifestView;

    open spec fn view(&self) -> BaseManifestView {
        BaseManifestView { scripts: self.scripts.deep_view(), grpc: self.grpc.deep_view() }
    }
}

impl DeepView for BaseManifest {
    type V = BaseManifestView;

    open spec fn deep_view(&self) -> BaseManifestView {
        self.view()
    }
}

impl BaseManifest {
    /// Bundles the two optional manifest files.
    pub fn new(scripts: Option<scripts::MScriptFile>, grpc: Option<grpc::MGrpcFile>) -> (r: Self)
        ensures
            r@.scripts == scripts.deep_view(),
            r@.grpc == grpc.deep_view(),
    {
        Self { scripts, grpc }
    }
}


/// The nodes the scripts half declares, or none.
pub open spec fn scripts_part(m: BaseManifestView) -> Seq<NodeView> {
    match m.scripts {
        Some(s) => scripts::scripts_nodes_spec(s),
        None => Seq::empty(),
    }
}

/// The nodes the grpc half declares, or none.
pub open spec fn grpc_part(m: BaseManifestView) -> Seq<NodeView> {
    match m.grpc {
        Some(g) => grpc::grpc_nodes_spec(g),
        None => Seq::empty(),
    }
}

/// A node re-stamped with the position it holds in the combined list.
pub open spec fn with_index(n: NodeView, i: int) -> NodeView {
    NodeView {
        id: n.id,
        index: i as u32,
        depends_on: n.depends_on,
        status: n.status,
        executable: n.executable,
    }
}

/// The nodes with dense indices: each node's index is its position.
pub open spec fn reindexed(nodes: Seq<NodeView>) -> Seq<NodeView> {
    Seq::new(nodes.len(), |i: int| with_index(nodes[i], i))
}

/// All nodes a manifest declares: the scripts nodes, then the grpc nodes,
/// with dense indices over the whole list.
pub open spec fn manifest_nodes(m: BaseManifestView) -> Seq<NodeView> {
    reindexed(scripts_part(m) + grpc_part(m))
}

/// A manifest is accepted exactly when every grpc body unescapes, an index
/// can count the nodes, and every dependency resolves.
pub open spec fn manifest_ok(m: BaseManifestView) -> bool {
    &&& (m.grpc matches Some(g) ==> grpc::all_bodies_ok(g))
    &&& manifest_nodes(m).len() <= u32::MAX
    &&& crate::conversions::all_deps_resolve(manifest_nodes(m))
}

impl BaseManifest {
    /// Rewrites every test id and dependency entry to its qualified form,
    /// then validates the declared nodes.
    pub fn normalize(&mut self) -> (r: Result<(), Error>)
        ensures
            old(self)@.scripts is None ==> final(self)@.scripts is None,
            old(self)@.scripts matches Some(s) ==> final(self)@.scripts == Some(
                scripts::normalized_scripts(s),
            ),
            old(self)@.grpc is None ==> final(self)@.grpc is None,
            old(self)@.grpc matches Some(g) ==> final(self)@.grpc == Some(
                grpc::normalized_grpc(g),
            ),
            r is Ok <==> manifest_ok(final(self)@),
    {
        match &mut self.scripts {
            Some(s) => {
                s.format_test_ids();
            },
            None => {},
        }
        match &mut self.grpc {
            Some(g) => {
                g.format_test_ids();
            },
            None => {},
        }
        match self.as_test_nodes() {
            Ok(_) => Ok(()),
            Err(e) => Err(e),
        }
    }

    /// The nodes this manifest declares: the scripts nodes then the grpc
    /// nodes, indices dense over the whole list, every dependency checked.
    pub fn as_test_nodes(&self) -> (r: Result<Vec<TestNode>, Error>)
        ensures
            r is Ok <==> manifest_ok(self@),
            r matches Ok(v) ==> v.deep_view() == manifest_nodes(self@),
    {
        let ghost m = self@;
        let mut nodes: Vec<TestNode> = match &self.scripts {
            Some(s) => match s.as_test_nodes() {
                Ok(v) => v,
                Err(e) => {
                    proof {
                        assert(manifest_nodes(m).len() >= scripts_part(m).len());
                    }
                    return Err(e);
                },
            },
            None => Vec::new(),
        };
        let mut gn: Vec<TestNode> = match &self.grpc {
            Some(g) => match g.as_test_nodes() {
                Ok(v) => v,
                Err(e) => {
                    proof {
                        assert(manifest_nodes(m).len() >= grpc_part(m).len());
                    }
                    return Err(e);
                },
            },
            None => Vec::new(),
        };
        let ghost sn = nodes.deep_view();
        let ghost gv = gn.deep_view();
        nodes.append(&mut gn);
        proof {
            assert(nodes.deep_view() =~= sn + gv);
            assert(sn + gv =~= scripts_part(m) + grpc_part(m));
        }
        if nodes.len() > u32::MAX as usize {
            return Err(Error::TooManyTests);
        }
        let ghost comb = scripts_part(m) + grpc_part(m);
        let n = nodes.len();
        let mut i: usize = 0;
        while i < n
            invariant
                n == nodes@.len(),
                n <= u32::MAX,
                0 <= i <= n,
                nodes.deep_view().len() == comb.len(),
                comb.len() == n,
                forall|x: int| 0 <= x < i ==> nodes.deep_view()[x] == with_index(comb[x], x),
                forall|x: int| i <= x < n ==> nodes.deep_view()[x] == comb[x],
            decreases n - i,
        {
            proof {
                assert(nodes.deep_view()[i as int] == nodes@[i as int]@);
            }
            let mut node = nodes[i].clone();
            node.index = i as u32;
            let ghost nv2 = node@;
            let ghost dv0 = nodes.deep_view();
            let ghost pre = nodes@;
            nodes.set(i, node);
            proof {
                assert(nv2 == with_index(comb[i as int], i as int));
                assert forall|x: int| 0 <= x < n implies nodes.deep_view()[x] == (if x == i as int {
                    nv2
                } else {
                    dv0[x]
                }) by {
                    assert(nodes.deep_view()[x] == nodes@[x]@);
                    if x != i as int {
                        assert(nodes@[x] == pre[x]);
                        assert(dv0[x] == pre[x]@);
                    }
                }
            }
            i += 1;
        }
        proof {
            assert(nodes.deep_view() =~= reindexed(comb));
        }
        match checks_depends_on(&nodes) {
            Ok(()) => Ok(nodes),
            Err(e) => Err(e),
        }
    }

    /// Joins two manifests: services of the same kind are concatenated,
    /// the right-hand manifest's first.
    pub fn merge(self, rhs: Self) -> (r: Self)
        ensures
            r@.scripts == (if self@.scripts is None && rhs@.scripts is None {
                None::<Seq<scripts::ServiceView>>
            } else {
                Some(
                    (match rhs@.scripts {
                        Some(o) => o,
                        None => Seq::empty(),
                    }) + (match self@.scripts {
                        Some(o) => o,
                        None => Seq::empty(),
                    }),
                )
            }),
            r@.grpc == (if self@.grpc is None && rhs@.grpc is None {
                None::<Seq<grpc::ServiceView>>
            } else {
                Some(
                    (match rhs@.grpc {
                        Some(o) => o,
                        None => Seq::empty(),
                    }) + (match self@.grpc {
                        Some(o) => o,
                        None => Seq::empty(),
                    }),
                )
            }),
    {
        let scripts_half: Option<scripts::MScriptFile> = match (rhs.scripts, self.scripts) {
            (None, None) => None,
            (Some(o), None) => {
                proof {
                    assert(o.deep_view() =~= o.deep_view() + Seq::<scripts::ServiceView>::empty());
                }
                Some(o)
            },
            (None, Some(mine)) => {
                proof {
                    assert(mine.deep_view() =~= Seq::<scripts::ServiceView>::empty()
                        + mine.deep_view());
                }
                Some(mine)
            },
            (Some(o), Some(mine)) => {
                let mut services = o.services;
                let mut mine_services = mine.services;
                let ghost ov = services.deep_view();
                let ghost mv = mine_services.deep_view();
                services.append(&mut mine_services);
                proof {
                    assert(services.deep_view() =~= ov + mv);
                }
                Some(scripts::MScriptFile { services })
            },
        };
        let grpc_half: Option<grpc::MGrpcFile> = match (rhs.grpc, self.grpc) {
            (None, None) => None,
            (Some(o), None) => {
                proof {
                    assert(o.deep_view() =~= o.deep_view() + Seq::<grpc::ServiceView>::empty());
                }
                Some(o)
            },
            (None, Some(mine)) => {
                proof {
                    assert(mine.deep_view() =~= Seq::<grpc::ServiceView>::empty()
                        + mine.deep_view());
                }
                Some(mine)
            },
            (Some(o), Some(mine)) => {
                let mut services = o.services;
                let mut mine_services = mine.services;
                let ghost ov = services.deep_view();
                let ghost mv = mine_services.deep_view();
                services.append(&mut mine_services);
                proof {
                    assert(services.deep_view() =~= ov + mv);
                }
                Some(grpc::MGrpcFile { services })
            },
        };
        BaseManifest { scripts: scripts_half, grpc: grpc_half }
    }
}


/// The empty manifest.
pub open spec fn empty_manifest_view() -> BaseManifestView {
    BaseManifestView { scripts: None, grpc: None }
}

/// The value `merge` computes: services of the same kind concatenated,
/// the right-hand side's first.
pub open spec fn merge_view(a: BaseManifestView, b: BaseManifestView) -> BaseManifestView {
    BaseManifestView {
        scripts: if a.scripts is None && b.scripts is None {
            None
        } else {
            Some(
                (match b.scripts {
                    Some(o) => o,
                    None => Seq::empty(),
                }) + (match a.scripts {
                    Some(o) => o,
                    None => Seq::empty(),
                }),
            )
        },
        grpc: if a.grpc is None && b.grpc is None {
            None
        } else {
            Some(
                (match b.grpc {
                    Some(o) => o,
                    None => Seq::empty(),
                }) + (match a.grpc {
                    Some(o) => o,
                    None => Seq::empty(),
                }),
            )
        },
    }
}

/// All manifests merged left to right, starting from the empty manifest.
pub open spec fn merged_all(ms: Seq<BaseManifestView>) -> BaseManifestView
    decreases ms.len(),
{
    if ms.len() == 0 {
        empty_manifest_view()
    } else {
        merge_view(merged_all(ms.drop_last()), ms.last())
    }
}

/// Merges a list of parsed manifest files into one, in order.
pub fn merge_all(list: Vec<BaseManifest>) -> (r: BaseManifest)
    ensures
        r@ == merged_all(list.deep_view()),
{
    let ghost full = list.deep_view();
    let mut list = list;
    let mut acc = BaseManifest { scripts: None, grpc: None };
    let mut j: usize = 0;
    let n = list.len();
    proof {
        assert(full.take(0) =~= Seq::empty());
    }
    while j < n
        invariant
            full.len() == n,
            0 <= j <= n,
            list@.len() == n - j,
            forall|x: int| 0 <= x < n - j ==> (#[trigger] list@[x])@ == full[j + x],
            acc@ == merged_all(full.take(j as int)),
        decreases n - j,
    {
        let m = list.remove(0);
        proof {
            assert(m@ == full[j as int]);
        }
        acc = acc.merge(m);
        proof {
            let t = full.take(j + 1);
            assert(t.drop_last() =~= full.take(j as int));
            assert(t.last() == full[j as int]);
            assert(acc@ == merge_view(merged_all(full.take(j as int)), full[j as int]));
        }
        j += 1;
    }
    proof {
        assert(full.take(n as int) =~= full);
    }
    acc
}

} // verus!
