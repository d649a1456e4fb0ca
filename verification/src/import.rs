//! Absorbing an externally produced graph into the shared session graph.
//!
//! Two import shapes: a whole world gets a fresh world-root wrapper
//! (`import_tree_root`), a loose collection of objects lands directly under
//! the shared graph's root (`import_tree_children`). The asymmetry is
//! intentional.

use vstd::prelude::*;

use crate::graph::{lemma_childless_root_alone, subtree_set, Graph, IdSource, Instance};
use crate::Error;

verus! {

/// The two import entry points of the scripting surface.
pub struct Remodel;

/// The graphs share no id — always the case for graphs drawing from one
/// [`IdSource`].
pub open spec fn graphs_disjoint(a: Map<u64, Instance>, b: Map<u64, Instance>) -> bool {
    forall|x: u64| #[trigger] a.contains_key(x) ==> !b.contains_key(x)
}

/// How an import leaves one node that moved out of the source: present in the
/// master with its class, name, properties and children intact, and pointing
/// at `new_parent` when it hung off the source root, at its old parent
/// otherwise.
pub open spec fn imported_node(
    m0s: Map<u64, Instance>,
    m1m: Map<u64, Instance>,
    sroot: u64,
    new_parent: u64,
    x: u64,
) -> bool {
    &&& m1m.contains_key(x)
    &&& m1m[x].class == m0s[x].class
    &&& m1m[x].name == m0s[x].name
    &&& m1m[x].properties == m0s[x].properties
    &&& m1m[x].children == m0s[x].children
    &&& m1m[x].parent == (if m0s[x].parent == Some(sroot) {
        Some(new_parent)
    } else {
        m0s[x].parent
    })
}

impl Remodel {
    /// Imports a whole world: creates a fresh world-root instance (class
    /// `DataModel`) under the master graph's root, then moves every node of
    /// the source graph except its root sentinel underneath it, ids
    /// preserved and the root's children in order. Afterward the source
    /// graph holds only its root sentinel, and the master graph is unchanged
    /// apart from the wrapper under its root and the arrivals.
    #[verifier::loop_isolation(false)]
    #[verifier::rlimit(100)]
    #[verifier::spinoff_prover]
    pub fn import_tree_root(master: &mut Graph, ids: &mut IdSource, source: &mut Graph) -> (r:
        Result<u64, Error>)
        requires
            old(master).wf(),
            old(source).wf(),
            old(master).bounded_by(old(ids).spec_next()),
            old(source).bounded_by(old(ids).spec_next()),
            old(ids).spec_next() < u64::MAX,
            graphs_disjoint(old(source).model(), old(master).model()),
        ensures
            final(master).wf(),
            final(source).wf(),
            final(master).spec_root() == old(master).spec_root(),
            final(source).spec_root() == old(source).spec_root(),
            final(master).bounded_by(final(ids).spec_next()),
            final(source).bounded_by(final(ids).spec_next()),
            match r {
                Ok(nid) => {
                    let sroot = old(source).spec_root();
                    let mroot = old(master).spec_root();
                    let kids = old(source).model()[sroot].children@;
                    &&& nid == old(ids).spec_next()
                    &&& !old(master).model().contains_key(nid)
                    &&& final(master).model().contains_key(nid)
                    &&& final(master).model()[nid].class@ == "DataModel"@
                    &&& final(master).model()[nid].parent == Some(mroot)
                    &&& final(master).model()[nid].children@ == kids
                    &&& final(master).model()[nid].properties@.len() == 0
                    // The master is unchanged apart from the wrapper under
                    // its root and the arrivals.
                    &&& final(master).model()[mroot].children@ == old(master).model()[mroot].children@.push(nid)
                    &&& final(master).model()[mroot].class == old(master).model()[mroot].class
                    &&& final(master).model()[mroot].name == old(master).model()[mroot].name
                    &&& final(master).model()[mroot].properties == old(master).model()[mroot].properties
                    &&& final(master).model()[mroot].parent == old(master).model()[mroot].parent
                    &&& forall|x: u64|
                        x != mroot && #[trigger] old(master).model().contains_key(x)
                            ==> final(master).model()[x] == old(master).model()[x]
                    // Every node of the source except its root moves over
                    // whole, subtrees intact.
                    &&& forall|x: u64|
                        #[trigger] old(source).model().contains_key(x) && x != sroot
                            ==> imported_node(
                            old(source).model(),
                            final(master).model(),
                            sroot,
                            nid,
                            x,
                        )
                    // The source graph keeps only its root sentinel.
                    &&& final(source).model().dom() =~= set![sroot]
                    &&& final(source).model()[sroot].children@ == Seq::<u64>::empty()
                },
                Err(_) => false,
            },
    {
        let ghost m0s = source.model();
        let ghost m0m = master.model();
        let sroot = source.root_ref();
        let kids: Vec<u64> = match source.children(sroot) {
            Ok(v) => v,
            Err(_) => {
                // Unreachable: a graph always holds its root.
                return Err(Error::NotFound);
            },
        };
        let mroot = master.root_ref();
        let class_string = "DataModel".to_owned();
        let name_string = "DataModel".to_owned();
        let nid = match master.insert(ids, mroot, class_string, name_string, Vec::new()) {
            Ok(nid) => nid,
            Err(e) => {
                // Unreachable: a graph always holds its root.
                return Err(e);
            },
        };
        proof {
            assert(!m0s.contains_key(nid));
            assert forall|jj: int| 0 <= jj < kids@.len() implies m0s.contains_key(
                #[trigger] kids@[jj],
            ) && m0s[kids@[jj]].parent == Some(sroot) by {
                assert(crate::graph::child_entry_ok(m0s, sroot, sroot, kids@[jj]));
            }
        }
        let n = kids.len();
        let mut j: usize = 0;
        while j < n
            invariant
                0 <= j <= n,
                n == kids@.len(),
                master.wf(),
                source.wf(),
                master.spec_root() == old(master).spec_root(),
                source.spec_root() == old(source).spec_root(),
                forall|b: u64|
                    old(master).bounded_by(b) && old(source).bounded_by(b) && nid < b
                        ==> master.bounded_by(b) && source.bounded_by(b),
                graphs_disjoint(source.model(), master.model()),
                !m0s.contains_key(nid),
                !m0m.contains_key(nid),
                nid != mroot,
                // The wrapper node.
                master.model().contains_key(nid),
                master.model()[nid].class@ == "DataModel"@,
                master.model()[nid].parent == Some(mroot),
                master.model()[nid].children@ == kids@.subrange(0, j as int),
                master.model()[nid].properties@.len() == 0,
                // Master frame.
                master.model().contains_key(mroot),
                master.model()[mroot].children@ == m0m[mroot].children@.push(nid),
                master.model()[mroot].class == m0m[mroot].class,
                master.model()[mroot].name == m0m[mroot].name,
                master.model()[mroot].properties == m0m[mroot].properties,
                master.model()[mroot].parent == m0m[mroot].parent,
                forall|x: u64|
                    x != mroot && #[trigger] m0m.contains_key(x) ==> master.model().contains_key(x)
                        && master.model()[x] == m0m[x],
                // Source frame.
                source.model().contains_key(sroot),
                source.model()[sroot].children@ == kids@.skip(j as int),
                forall|x: u64|
                    #[trigger] source.model().contains_key(x) ==> m0s.contains_key(x) && (x == sroot
                        || source.model()[x] == m0s[x]),
                forall|jj: int|
                    j <= jj < n ==> source.model().contains_key(#[trigger] kids@[jj]),
                forall|jj: int| 0 <= jj < n ==> m0s[#[trigger] kids@[jj]].parent == Some(sroot),
                // Everything that has left the source sits whole in the
                // master.
                forall|x: u64|
                    #[trigger] m0s.contains_key(x) && x != sroot
                        && !source.model().contains_key(x) ==> imported_node(
                        m0s,
                        master.model(),
                        sroot,
                        nid,
                        x,
                    ),
            decreases n - j,
        {
            let c = kids[j];
            let ghost pre_s = source.model();
            let ghost pre_m = master.model();
            match source.transfer(c, master, nid) {
                Ok(_) => {
                    proof {
                        let s = choose|s: Set<u64>|
                            crate::graph::transferred_post(
                                pre_s,
                                source.model(),
                                pre_m,
                                master.model(),
                                c,
                                nid,
                                s,
                            );
                        assert(s.contains(c));
                        assert(crate::graph::destroyed_post(pre_s, source.model(), c, s));
                        assert(!s.contains(sroot)) by {
                            if s.contains(sroot) {
                                assert(sroot == c || (pre_s[sroot].parent is Some && s.contains(
                                    crate::graph::parent_id(pre_s[sroot]),
                                )));
                            }
                        }
                        // The child sat at the head of the remaining list.
                        let oldc = pre_s[sroot].children@;
                        assert(oldc == kids@.skip(j as int));
                        assert(oldc[0] == c);
                        let kd = choose|k: int|
                            0 <= k < oldc.len() && oldc[k] == c && source.model()[sroot].children@
                                == oldc.remove(k);
                        assert(kd == 0) by {
                            if kd != 0 {
                                assert(oldc[kd] == oldc[0]);
                                assert(crate::graph::children_ok(pre_s, sroot, sroot));
                            }
                        }
                        assert(source.model()[sroot].children@ =~= kids@.skip(j + 1));
                        assert(master.model()[nid].children@ =~= kids@.subrange(0, j + 1));
                        // Later siblings stay put: a moved node other than `c`
                        // has its parent inside the moved set, and `sroot` is
                        // not a member.
                        assert forall|jj: int| j + 1 <= jj < n implies source.model().contains_key(
                            #[trigger] kids@[jj],
                        ) by {
                            let c2 = kids@[jj];
                            assert(pre_s.contains_key(c2));
                            if s.contains(c2) {
                                assert(crate::graph::children_ok(pre_s, sroot, sroot));
                                assert(oldc[jj - j] == c2);
                                assert(c2 != c);
                                assert(pre_s[c2] == m0s[c2]);
                                assert(pre_s[c2].parent == Some(sroot));
                                assert(false);
                            }
                            assert(source.model().dom() == pre_s.dom().difference(s));
                        }
                        // Each moved node lands whole.
                        assert forall|x: u64|
                            #[trigger] m0s.contains_key(x) && x != sroot
                                && !source.model().contains_key(x) implies imported_node(
                            m0s,
                            master.model(),
                            sroot,
                            nid,
                            x,
                        ) by {
                            if pre_s.contains_key(x) {
                                assert(s.contains(x));
                                assert(pre_s[x] == m0s[x]);
                                if x == c {
                                    assert(master.model()[x].parent == Some(nid));
                                    assert(m0s[c].parent == Some(sroot));
                                } else {
                                    assert(master.model()[x] == pre_s[x]);
                                    assert(pre_s[x].parent is Some && s.contains(
                                        crate::graph::parent_id(pre_s[x]),
                                    ));
                                    assert(m0s[x].parent != Some(sroot));
                                }
                            } else {
                                assert(imported_node(m0s, pre_m, sroot, nid, x));
                                assert(x != nid);
                                assert(master.model()[x] == pre_m[x]);
                            }
                        }
                        // Master frame survives: the transfer touched only
                        // `nid`'s children and added fresh keys.
                        assert forall|x: u64|
                            x != mroot && #[trigger] m0m.contains_key(x) implies master.model().contains_key(
                            x,
                        ) && master.model()[x] == m0m[x] by {
                            assert(x != nid);
                            assert(pre_m.contains_key(x));
                            assert(master.model()[x] == pre_m[x]);
                        }
                    }
                },
                Err(e) => {
                    proof {
                        // Unreachable: the child is present and not the source
                        // root, the wrapper is present, and the graphs share
                        // no id.
                        if e == Error::IdCollision {
                            let s = choose|s: Set<u64>|
                                subtree_set(pre_s, c, s) && !s.disjoint(master.model().dom());
                            let x = choose|x: u64|
                                s.contains(x) && master.model().dom().contains(x);
                            assert(pre_s.contains_key(x));
                        }
                        assert(pre_s[sroot].children@[0] == c);
                        assert(crate::graph::children_ok(pre_s, sroot, sroot));
                        assert(pre_s.contains_key(c));
                        assert(c != sroot);
                    }
                    return Err(e);
                },
            }
            j += 1;
        }
        proof {
            assert(kids@.subrange(0, n as int) =~= kids@);
            assert(kids@.skip(n as int) =~= Seq::<u64>::empty());
            // With its root childless, the source holds nothing else.
            assert forall|x: u64| #[trigger] source.model().contains_key(x) implies x == sroot by {
                lemma_childless_root_alone(
                    source.model(),
                    sroot,
                    source.depth_map(),
                    x,
                );
            }
            assert(source.model().dom() =~= set![sroot]);
        }
        Ok(nid)
    }

    /// Imports a loose collection: moves every child of the source graph's
    /// root — and with them every node of the source except its root sentinel
    /// — directly under the master graph's root, ids preserved and in order,
    /// with no synthetic wrapper. Returns the moved children's ids.
    #[verifier::loop_isolation(false)]
    #[verifier::rlimit(100)]
    #[verifier::spinoff_prover]
    pub fn import_tree_children(master: &mut Graph, source: &mut Graph) -> (r: Result<
        Vec<u64>,
        Error,
    >)
        requires
            old(master).wf(),
            old(source).wf(),
            graphs_disjoint(old(source).model(), old(master).model()),
        ensures
            final(master).wf(),
            final(source).wf(),
            final(master).spec_root() == old(master).spec_root(),
            final(source).spec_root() == old(source).spec_root(),
            forall|b: u64|
                old(master).bounded_by(b) && old(source).bounded_by(b)
                    ==> final(master).bounded_by(b) && final(source).bounded_by(b),
            match r {
                Ok(moved) => {
                    let sroot = old(source).spec_root();
                    let mroot = old(master).spec_root();
                    let kids = old(source).model()[sroot].children@;
                    &&& moved@ == kids
                    // The master is unchanged apart from its root's grown
                    // children list and the arrivals.
                    &&& final(master).model()[mroot].children@ == old(master).model()[mroot].children@
                        + kids
                    &&& final(master).model()[mroot].class == old(master).model()[mroot].class
                    &&& final(master).model()[mroot].name == old(master).model()[mroot].name
                    &&& final(master).model()[mroot].properties == old(master).model()[mroot].properties
                    &&& final(master).model()[mroot].parent == old(master).model()[mroot].parent
                    &&& forall|x: u64|
                        x != mroot && #[trigger] old(master).model().contains_key(x)
                            ==> final(master).model()[x] == old(master).model()[x]
                    // Every node of the source except its root moves over
                    // whole, subtrees intact.
                    &&& forall|x: u64|
                        #[trigger] old(source).model().contains_key(x) && x != sroot
                            ==> imported_node(
                            old(source).model(),
                            final(master).model(),
                            sroot,
                            mroot,
                            x,
                        )
                    // The source graph keeps only its root sentinel.
                    &&& final(source).model().dom() =~= set![sroot]
                    &&& final(source).model()[sroot].children@ == Seq::<u64>::empty()
                },
                Err(_) => false,
            },
    {
        let ghost m0s = source.model();
        let ghost m0m = master.model();
        let sroot = source.root_ref();
        let kids: Vec<u64> = match source.children(sroot) {
            Ok(v) => v,
            Err(_) => {
                // Unreachable: a graph always holds its root.
                return Err(Error::NotFound);
            },
        };
        let mroot = master.root_ref();
        proof {
            assert forall|jj: int| 0 <= jj < kids@.len() implies m0s.contains_key(
                #[trigger] kids@[jj],
            ) && m0s[kids@[jj]].parent == Some(sroot) by {
                assert(crate::graph::child_entry_ok(m0s, sroot, sroot, kids@[jj]));
            }
            assert(m0m[mroot].children@ + kids@.subrange(0, 0) =~= m0m[mroot].children@);
        }
        let n = kids.len();
        let mut j: usize = 0;
        while j < n
            invariant
                0 <= j <= n,
                n == kids@.len(),
                master.wf(),
                source.wf(),
                master.spec_root() == old(master).spec_root(),
                source.spec_root() == old(source).spec_root(),
                forall|b: u64|
                    old(master).bounded_by(b) && old(source).bounded_by(b) ==> master.bounded_by(b)
                        && source.bounded_by(b),
                graphs_disjoint(source.model(), master.model()),
                !m0s.contains_key(mroot),
                // Master frame.
                master.model().contains_key(mroot),
                master.model()[mroot].children@ == m0m[mroot].children@ + kids@.subrange(
                    0,
                    j as int,
                ),
                master.model()[mroot].class == m0m[mroot].class,
                master.model()[mroot].name == m0m[mroot].name,
                master.model()[mroot].properties == m0m[mroot].properties,
                master.model()[mroot].parent == m0m[mroot].parent,
                forall|x: u64|
                    x != mroot && #[trigger] m0m.contains_key(x) ==> master.model().contains_key(x)
                        && master.model()[x] == m0m[x],
                // Source frame.
                source.model().contains_key(sroot),
                source.model()[sroot].children@ == kids@.skip(j as int),
                forall|x: u64|
                    #[trigger] source.model().contains_key(x) ==> m0s.contains_key(x) && (x == sroot
                        || source.model()[x] == m0s[x]),
                forall|jj: int|
                    j <= jj < n ==> source.model().contains_key(#[trigger] kids@[jj]),
                forall|jj: int| 0 <= jj < n ==> m0s[#[trigger] kids@[jj]].parent == Some(sroot),
                // Everything that has left the source sits whole in the
                // master.
                forall|x: u64|
                    #[trigger] m0s.contains_key(x) && x != sroot
                        && !source.model().contains_key(x) ==> imported_node(
                        m0s,
                        master.model(),
                        sroot,
                        mroot,
                        x,
                    ),
            decreases n - j,
        {
            let c = kids[j];
            let ghost pre_s = source.model();
            let ghost pre_m = master.model();
            match source.transfer(c, master, mroot) {
                Ok(_) => {
                    proof {
                        let s = choose|s: Set<u64>|
                            crate::graph::transferred_post(
                                pre_s,
                                source.model(),
                                pre_m,
                                master.model(),
                                c,
                                mroot,
                                s,
                            );
                        assert(s.contains(c));
                        assert(crate::graph::destroyed_post(pre_s, source.model(), c, s));
                        assert(!s.contains(sroot)) by {
                            if s.contains(sroot) {
                                assert(sroot == c || (pre_s[sroot].parent is Some && s.contains(
                                    crate::graph::parent_id(pre_s[sroot]),
                                )));
                            }
                        }
                        let oldc = pre_s[sroot].children@;
                        assert(oldc == kids@.skip(j as int));
                        assert(oldc[0] == c);
                        let kd = choose|k: int|
                            0 <= k < oldc.len() && oldc[k] == c && source.model()[sroot].children@
                                == oldc.remove(k);
                        assert(kd == 0) by {
                            if kd != 0 {
                                assert(oldc[kd] == oldc[0]);
                                assert(crate::graph::children_ok(pre_s, sroot, sroot));
                            }
                        }
                        assert(source.model()[sroot].children@ =~= kids@.skip(j + 1));
                        assert(master.model()[mroot].children@ =~= m0m[mroot].children@
                            + kids@.subrange(0, j + 1));
                        assert forall|jj: int| j + 1 <= jj < n implies source.model().contains_key(
                            #[trigger] kids@[jj],
                        ) by {
                            let c2 = kids@[jj];
                            assert(pre_s.contains_key(c2));
                            if s.contains(c2) {
                                assert(crate::graph::children_ok(pre_s, sroot, sroot));
                                assert(oldc[jj - j] == c2);
                                assert(c2 != c);
                                assert(pre_s[c2] == m0s[c2]);
                                assert(pre_s[c2].parent == Some(sroot));
                                assert(false);
                            }
                            assert(source.model().dom() == pre_s.dom().difference(s));
                        }
                        assert forall|x: u64|
                            #[trigger] m0s.contains_key(x) && x != sroot
                                && !source.model().contains_key(x) implies imported_node(
                            m0s,
                            master.model(),
                            sroot,
                            mroot,
                            x,
                        ) by {
                            if pre_s.contains_key(x) {
                                assert(s.contains(x));
                                assert(pre_s[x] == m0s[x]);
                                if x == c {
                                    assert(master.model()[x].parent == Some(mroot));
                                    assert(m0s[c].parent == Some(sroot));
                                } else {
                                    assert(master.model()[x] == pre_s[x]);
                                    assert(pre_s[x].parent is Some && s.contains(
                                        crate::graph::parent_id(pre_s[x]),
                                    ));
                                    assert(m0s[x].parent != Some(sroot));
                                }
                            } else {
                                assert(imported_node(m0s, pre_m, sroot, mroot, x));
                                assert(x != mroot);
                                assert(master.model()[x] == pre_m[x]);
                            }
                        }
                        assert forall|x: u64|
                            x != mroot && #[trigger] m0m.contains_key(x) implies master.model().contains_key(
                            x,
                        ) && master.model()[x] == m0m[x] by {
                            assert(pre_m.contains_key(x));
                            assert(master.model()[x] == pre_m[x]);
                        }
                    }
                },
                Err(e) => {
                    proof {
                        // Unreachable: the child is present and not the source
                        // root, the master root is present, and the graphs
                        // share no id.
                        if e == Error::IdCollision {
                            let s = choose|s: Set<u64>|
                                subtree_set(pre_s, c, s) && !s.disjoint(master.model().dom());
                            let x = choose|x: u64|
                                s.contains(x) && master.model().dom().contains(x);
                            assert(pre_s.contains_key(x));
                        }
                        assert(pre_s[sroot].children@[0] == c);
                        assert(crate::graph::children_ok(pre_s, sroot, sroot));
                        assert(pre_s.contains_key(c));
                        assert(c != sroot);
                    }
                    return Err(e);
                },
            }
            j += 1;
        }
        proof {
            assert(kids@.subrange(0, n as int) =~= kids@);
            assert(kids@.skip(n as int) =~= Seq::<u64>::empty());
            // With its root childless, the source holds nothing else.
            assert forall|x: u64| #[trigger] source.model().contains_key(x) implies x == sroot by {
                lemma_childless_root_alone(
                    source.model(),
                    sroot,
                    source.depth_map(),
                    x,
                );
            }
            assert(source.model().dom() =~= set![sroot]);
        }
        Ok(kids)
    }
}

} // verus!
