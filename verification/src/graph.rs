//! The instance arena: one owning table of instances addressed by stable ids.
//!
//! All relationships (parent, ordered children) are id-indexed through the
//! table; there are no raw back-pointers. Ids come from an [`IdSource`] shared
//! by every graph of one session, are handed out in increasing order, and are
//! never reused, so a stale id reliably reports "not found" instead of
//! aliasing an unrelated live instance.
//!
//! Well-formedness ties the parent pointers and the children lists together
//! in both directions, and carries a ghost depth map as a witness that the
//! parent relation is acyclic.

use vstd::prelude::*;

use crate::variant::Variant;
use crate::Error;

use std::collections::HashMap;

verus! {

broadcast use vstd::std_specs::hash::group_hash_axioms;

/// The session-wide source of fresh instance ids.
///
/// Every graph of a session draws from one source, so ids are unique across
/// those graphs and a subtree can move between them with its ids preserved.
pub struct IdSource {
    next: u64,
}

impl IdSource {
    /// The next id this source will hand out.
    pub closed spec fn spec_next(&self) -> u64 {
        self.next
    }

    /// Creates a source whose first id is 1.
    pub fn new() -> (s: Self)
        ensures
            s.spec_next() == 1,
    {
        IdSource { next: 1 }
    }

    /// Hands out the next id.
    fn fresh(&mut self) -> (id: u64)
        requires
            old(self).spec_next() < u64::MAX,
        ensures
            id == old(self).spec_next(),
            final(self).spec_next() == old(self).spec_next() + 1,
    {
        let id = self.next;
        self.next = self.next + 1;
        id
    }
}

/// One node of the graph: class tag, display name, properties, ordered
/// children, and the id of its parent (`None` only for a graph's root).
pub struct Instance {
    pub class: String,
    pub name: String,
    pub properties: Vec<(String, Variant)>,
    pub children: Vec<u64>,
    pub parent: Option<u64>,
}

/// The parent id recorded in a node; meaningful only when `parent is Some`.
pub open spec fn parent_id(inst: Instance) -> u64 {
    match inst.parent {
        Some(p) => p,
        None => 0,
    }
}

/// One child entry of node `i`: not the root, present in the table, and
/// pointing back at `i`.
pub open spec fn child_entry_ok(m: Map<u64, Instance>, r: u64, i: u64, c: u64) -> bool {
    &&& c != r
    &&& m.contains_key(c)
    &&& m[c].parent == Some(i)
}

/// The children list of node `i`: every entry points back at `i`, and no id
/// appears twice.
pub open spec fn children_ok(m: Map<u64, Instance>, r: u64, i: u64) -> bool {
    &&& forall|k: int|
        0 <= k < m[i].children@.len() ==> child_entry_ok(m, r, i, #[trigger] m[i].children@[k])
    &&& forall|k1: int, k2: int|
        0 <= k1 < k2 < m[i].children@.len() ==> m[i].children@[k1] != m[i].children@[k2]
}

/// The table invariant: the root is present and parentless; every other node
/// has a parent in the table and stands in that parent's children list; and
/// every children list points back correctly without duplicates.
pub open spec fn table_ok(m: Map<u64, Instance>, r: u64) -> bool {
    &&& m.contains_key(r)
    &&& m[r].parent is None
    &&& forall|i: u64|
        #[trigger] m.contains_key(i) ==> i == r || {
            &&& m[i].parent is Some
            &&& m.contains_key(parent_id(m[i]))
            &&& m[parent_id(m[i])].children@.contains(i)
        }
    &&& forall|i: u64| #[trigger] m.contains_key(i) ==> children_ok(m, r, i)
}

/// The acyclicity witness: every node has a depth, and a non-root node sits
/// one level below its parent. Depths strictly decrease along parent links,
/// so no parent chain can loop.
pub open spec fn depth_ok(m: Map<u64, Instance>, r: u64, d: Map<u64, nat>) -> bool {
    forall|i: u64|
        #[trigger] m.contains_key(i) ==> d.contains_key(i) && (i == r || (d.contains_key(
            parent_id(m[i]),
        ) && d[i] == d[parent_id(m[i])] + 1))
}

/// Replacing one node by another with the same children and parent keeps the
/// structural invariant and the depth witness.
proof fn lemma_wf_same_shape(m0: Map<u64, Instance>, m1: Map<u64, Instance>, r: u64, d: Map<u64, nat>, id: u64)
    requires
        table_ok(m0, r),
        depth_ok(m0, r, d),
        m0.contains_key(id),
        m1.dom() == m0.dom(),
        m1[id].children == m0[id].children,
        m1[id].parent == m0[id].parent,
        forall|x: u64| x != id && #[trigger] m0.contains_key(x) ==> m1[x] == m0[x],
    ensures
        table_ok(m1, r),
        depth_ok(m1, r, d),
{
    assert forall|i: u64| #[trigger] m1.contains_key(i) implies i == r || {
        &&& m1[i].parent is Some
        &&& m1.contains_key(parent_id(m1[i]))
        &&& m1[parent_id(m1[i])].children@.contains(i)
    } by {
        assert(m0.contains_key(i));
        if i != r {
            assert(m1[i].parent == m0[i].parent);
            let p = parent_id(m0[i]);
            assert(m0[p].children@.contains(i));
            assert(m1[p].children@ == m0[p].children@);
        }
    }
    assert forall|i: u64| #[trigger] m1.contains_key(i) implies children_ok(m1, r, i) by {
        assert(m0.contains_key(i));
        assert(children_ok(m0, r, i));
        assert(m1[i].children@ == m0[i].children@);
        assert forall|k: int| 0 <= k < m1[i].children@.len() implies child_entry_ok(
            m1,
            r,
            i,
            #[trigger] m1[i].children@[k],
        ) by {
            let c = m0[i].children@[k];
            assert(child_entry_ok(m0, r, i, c));
            assert(m1[c].parent == m0[c].parent);
        }
    }
    assert forall|i: u64| #[trigger] m1.contains_key(i) implies d.contains_key(i) && (i == r || (
    d.contains_key(parent_id(m1[i])) && d[i] == d[parent_id(m1[i])] + 1)) by {
        assert(m0.contains_key(i));
        if i != r {
            assert(m1[i].parent == m0[i].parent);
        }
    }
}

/// The arena owning all instances of one graph, plus its root sentinel.
pub struct Graph {
    nodes: HashMap<u64, Instance>,
    root: u64,
    depth: Ghost<Map<u64, nat>>,
}

impl Graph {
    /// The id-to-instance table.
    pub closed spec fn model(&self) -> Map<u64, Instance> {
        self.nodes@
    }

    /// The id of the root sentinel.
    pub closed spec fn spec_root(&self) -> u64 {
        self.root
    }

    /// The acyclicity witness.
    pub closed spec fn depth_map(&self) -> Map<u64, nat> {
        self.depth@
    }

    /// The graph's structural invariant.
    pub open spec fn wf(&self) -> bool {
        &&& table_ok(self.model(), self.spec_root())
        &&& depth_ok(self.model(), self.spec_root(), self.depth_map())
    }

    /// Every id of the table lies below `b`.
    pub open spec fn bounded_by(&self, b: u64) -> bool {
        forall|i: u64| #[trigger] self.model().contains_key(i) ==> i < b
    }

    /// Creates a graph holding only a root sentinel of the given class, named
    /// after it.
    pub fn new(ids: &mut IdSource, class: String) -> (g: Graph)
        requires
            old(ids).spec_next() < u64::MAX,
        ensures
            g.wf(),
            final(ids).spec_next() == old(ids).spec_next() + 1,
            g.spec_root() == old(ids).spec_next(),
            g.bounded_by(final(ids).spec_next()),
            g.model().dom() =~= set![g.spec_root()],
            g.model()[g.spec_root()].class == class,
            g.model()[g.spec_root()].name@ == class@,
            g.model()[g.spec_root()].properties@.len() == 0,
            g.model()[g.spec_root()].children@.len() == 0,
            g.model()[g.spec_root()].parent is None,
    {
        let id = ids.fresh();
        let name = class.clone();
        let mut nodes: HashMap<u64, Instance> = HashMap::new();
        let inst = Instance {
            class,
            name,
            properties: Vec::new(),
            children: Vec::new(),
            parent: None,
        };
        nodes.insert(id, inst);
        let ghost dm: Map<u64, nat> = map![id => 0nat];
        let g = Graph { nodes, root: id, depth: Ghost(dm) };
        proof {
            assert(g.model().dom() =~= set![id]);
        }
        g
    }

    /// Looks an instance up by id. Returns `None` for an id that never
    /// existed in this graph or was destroyed or transferred away.
    pub fn get(&self, id: u64) -> (r: Option<&Instance>)
        ensures
            match r {
                Some(inst) => self.model().contains_key(id) && *inst == self.model()[id],
                None => !self.model().contains_key(id),
            },
    {
        self.nodes.get(&id)
    }

    /// The id of the root sentinel.
    pub fn root_ref(&self) -> (r: u64)
        ensures
            r == self.spec_root(),
    {
        self.root
    }

    /// The ids attached to `id`, in attachment order.
    pub fn children(&self, id: u64) -> (r: Result<Vec<u64>, Error>)
        ensures
            match r {
                Ok(v) => self.model().contains_key(id) && v@ == self.model()[id].children@,
                Err(e) => e == Error::NotFound && !self.model().contains_key(id),
            },
    {
        match self.nodes.get(&id) {
            Some(inst) => {
                let n = inst.children.len();
                let mut out: Vec<u64> = Vec::new();
                let mut k: usize = 0;
                while k < n
                    invariant
                        0 <= k <= n,
                        n == inst.children@.len(),
                        out@ == inst.children@.subrange(0, k as int),
                    decreases n - k,
                {
                    out.push(inst.children[k]);
                    proof {
                        assert(out@ =~= inst.children@.subrange(0, k + 1));
                    }
                    k += 1;
                }
                proof {
                    assert(out@ =~= inst.children@);
                }
                Ok(out)
            },
            None => Err(Error::NotFound),
        }
    }

    /// Creates an instance under `parent` and returns its fresh id.
    ///
    /// Fails with `NotFound` when `parent` is not in this graph; a failed
    /// call changes nothing.
    pub fn insert(
        &mut self,
        ids: &mut IdSource,
        parent: u64,
        class: String,
        name: String,
        properties: Vec<(String, Variant)>,
    ) -> (r: Result<u64, Error>)
        requires
            old(self).wf(),
            old(self).bounded_by(old(ids).spec_next()),
            old(ids).spec_next() < u64::MAX,
        ensures
            final(self).wf(),
            final(self).spec_root() == old(self).spec_root(),
            final(self).bounded_by(final(ids).spec_next()),
            match r {
                Ok(id) => {
                    &&& old(self).model().contains_key(parent)
                    &&& id == old(ids).spec_next()
                    &&& final(ids).spec_next() == old(ids).spec_next() + 1
                    &&& !old(self).model().contains_key(id)
                    &&& final(self).model().dom() =~= old(self).model().dom().insert(id)
                    &&& final(self).model()[id].class == class
                    &&& final(self).model()[id].name == name
                    &&& final(self).model()[id].properties == properties
                    &&& final(self).model()[id].children@ == Seq::<u64>::empty()
                    &&& final(self).model()[id].parent == Some(parent)
                    &&& final(self).model()[parent].children@ == old(self).model()[parent].children@.push(id)
                    &&& final(self).model()[parent].class == old(self).model()[parent].class
                    &&& final(self).model()[parent].name == old(self).model()[parent].name
                    &&& final(self).model()[parent].properties == old(self).model()[parent].properties
                    &&& final(self).model()[parent].parent == old(self).model()[parent].parent
                    &&& forall|x: u64|
                        x != id && x != parent && #[trigger] old(self).model().contains_key(x)
                            ==> final(self).model()[x] == old(self).model()[x]
                },
                Err(e) => {
                    &&& e == Error::NotFound
                    &&& !old(self).model().contains_key(parent)
                    &&& *final(self) == *old(self)
                    &&& *final(ids) == *old(ids)
                },
            },
    {
        if !self.nodes.contains_key(&parent) {
            return Err(Error::NotFound);
        }
        let id = ids.fresh();
        let pnode_opt = self.nodes.remove(&parent);
        let mut pnode = match pnode_opt {
            Some(p) => p,
            None => {
                // Unreachable: the parent was just found in the table.
                return Err(Error::NotFound);
            },
        };
        pnode.children.push(id);
        self.nodes.insert(parent, pnode);
        let inst = Instance {
            class,
            name,
            properties,
            children: Vec::new(),
            parent: Some(parent),
        };
        self.nodes.insert(id, inst);
        proof {
            self.depth@ = self.depth@.insert(id, (self.depth@[parent] + 1) as nat);
        }
        proof {
            let m0 = old(self).model();
            let m1 = self.model();
            let r = self.root;
            assert(m1.dom() =~= m0.dom().insert(id));
            assert forall|i: u64| #[trigger] m1.contains_key(i) implies i == r || {
                &&& m1[i].parent is Some
                &&& m1.contains_key(parent_id(m1[i]))
                &&& m1[parent_id(m1[i])].children@.contains(i)
            } by {
                if i == id {
                    assert(m1[parent].children@.last() == id);
                    assert(m1[parent].children@.contains(id));
                } else {
                    assert(m0.contains_key(i));
                    if i != r {
                        assert(m0[parent_id(m0[i])].children@.contains(i));
                        if parent_id(m0[i]) == parent {
                            let oldc = m0[parent].children@;
                            let k = choose|k: int| 0 <= k < oldc.len() && oldc[k] == i;
                            assert(m1[parent].children@[k] == i);
                            assert(m1[parent].children@.contains(i));
                        }
                    }
                }
            }
            assert forall|i: u64| #[trigger] m1.contains_key(i) implies children_ok(m1, r, i) by {
                if i == id {
                    assert(m1[id].children@.len() == 0);
                } else if i == parent {
                    assert(children_ok(m0, r, parent));
                    let oldc = m0[parent].children@;
                    let newc = m1[parent].children@;
                    assert(newc == oldc.push(id));
                    assert forall|k: int| 0 <= k < newc.len() implies child_entry_ok(
                        m1,
                        r,
                        parent,
                        #[trigger] newc[k],
                    ) by {
                        if k < oldc.len() {
                            assert(child_entry_ok(m0, r, parent, oldc[k]));
                            assert(oldc[k] != id);
                        } else {
                            assert(newc[k] == id);
                        }
                    }
                    assert forall|k1: int, k2: int| 0 <= k1 < k2 < newc.len() implies newc[k1]
                        != newc[k2] by {
                        if k2 < oldc.len() {
                        } else {
                            assert(newc[k2] == id);
                            assert(child_entry_ok(m0, r, parent, oldc[k1]));
                        }
                    }
                } else {
                    assert(m0.contains_key(i));
                    assert(children_ok(m0, r, i));
                    let c = m0[i].children@;
                    assert(m1[i].children@ == c);
                    assert forall|k: int| 0 <= k < c.len() implies child_entry_ok(
                        m1,
                        r,
                        i,
                        #[trigger] c[k],
                    ) by {
                        assert(child_entry_ok(m0, r, i, c[k]));
                        assert(c[k] != id);
                    }
                }
            }
            assert(depth_ok(m1, r, self.depth@));
        }
        Ok(id)
    }

    /// The first child of `id` whose instance is present and named `name`,
    /// scanning in attachment order. Fails with `NotFound` for an absent id.
    #[verifier::loop_isolation(false)]
    pub fn find_first_child(&self, id: u64, name: &str) -> (r: Result<Option<u64>, Error>)
        ensures
            match r {
                Ok(opt) => self.model().contains_key(id) && opt == first_child_named(
                    self.model(),
                    self.model()[id].children@,
                    name@,
                ),
                Err(e) => e == Error::NotFound && !self.model().contains_key(id),
            },
    {
        let inst = match self.nodes.get(&id) {
            Some(inst) => inst,
            None => {
                return Err(Error::NotFound);
            },
        };
        let n = inst.children.len();
        let mut k: usize = 0;
        while k < n
            invariant
                0 <= k <= n,
                n == inst.children@.len(),
                forall|j: int|
                    0 <= j < k ==> !child_named(self.model(), #[trigger] inst.children@[j], name@),
            decreases n - k,
        {
            let c = inst.children[k];
            if let Some(cinst) = self.nodes.get(&c) {
                if crate::strutil::str_eq(cinst.name.as_str(), name) {
                    proof {
                        lemma_first_child_named_at(
                            self.model(),
                            inst.children@,
                            name@,
                            k as int,
                        );
                    }
                    return Ok(Some(c));
                }
            }
            k += 1;
        }
        proof {
            lemma_first_child_named_none(self.model(), inst.children@, name@);
        }
        Ok(None)
    }

    /// The first child of `id` whose instance is present and carries the
    /// class `class`, scanning in attachment order. Fails with `NotFound` for
    /// an absent id.
    #[verifier::loop_isolation(false)]
    pub fn find_first_child_of_class(&self, id: u64, class: &str) -> (r: Result<Option<u64>, Error>)
        ensures
            match r {
                Ok(opt) => self.model().contains_key(id) && opt == first_child_classed(
                    self.model(),
                    self.model()[id].children@,
                    class@,
                ),
                Err(e) => e == Error::NotFound && !self.model().contains_key(id),
            },
    {
        let inst = match self.nodes.get(&id) {
            Some(inst) => inst,
            None => {
                return Err(Error::NotFound);
            },
        };
        let n = inst.children.len();
        let mut k: usize = 0;
        while k < n
            invariant
                0 <= k <= n,
                n == inst.children@.len(),
                forall|j: int|
                    0 <= j < k ==> !child_classed(
                        self.model(),
                        #[trigger] inst.children@[j],
                        class@,
                    ),
            decreases n - k,
        {
            let c = inst.children[k];
            if let Some(cinst) = self.nodes.get(&c) {
                if crate::strutil::str_eq(cinst.class.as_str(), class) {
                    proof {
                        lemma_first_child_classed_at(
                            self.model(),
                            inst.children@,
                            class@,
                            k as int,
                        );
                    }
                    return Ok(Some(c));
                }
            }
            k += 1;
        }
        proof {
            lemma_first_child_classed_none(self.model(), inst.children@, class@);
        }
        Ok(None)
    }

    /// Renames an instance. Fails with `NotFound` for an absent id.
    pub fn set_name(&mut self, id: u64, name: String) -> (r: Result<(), Error>)
        requires
            old(self).wf(),
        ensures
            final(self).wf(),
            final(self).spec_root() == old(self).spec_root(),
            final(self).model().dom() == old(self).model().dom(),
            final(self).depth_map() == old(self).depth_map(),
            match r {
                Ok(_) => {
                    &&& old(self).model().contains_key(id)
                    &&& final(self).model()[id].name == name
                    &&& final(self).model()[id].class == old(self).model()[id].class
                    &&& final(self).model()[id].properties == old(self).model()[id].properties
                    &&& final(self).model()[id].children == old(self).model()[id].children
                    &&& final(self).model()[id].parent == old(self).model()[id].parent
                    &&& forall|x: u64|
                        x != id && #[trigger] old(self).model().contains_key(x)
                            ==> final(self).model()[x] == old(self).model()[x]
                },
                Err(e) => {
                    &&& e == Error::NotFound
                    &&& !old(self).model().contains_key(id)
                    &&& *final(self) == *old(self)
                },
            },
    {
        if !self.nodes.contains_key(&id) {
            return Err(Error::NotFound);
        }
        let node_opt = self.nodes.remove(&id);
        match node_opt {
            Some(mut inst) => {
                inst.name = name;
                self.nodes.insert(id, inst);
                proof {
                    assert(self.model().dom() =~= old(self).model().dom());
                    lemma_wf_same_shape(
                        old(self).model(),
                        self.model(),
                        self.root,
                        self.depth@,
                        id,
                    );
                }
                Ok(())
            },
            None => {
                // Unreachable: the id was just found in the table.
                Err(Error::NotFound)
            },
        }
    }

    /// Reads a raw property. Returns the value stored under the first entry
    /// whose key equals `name`, or `None` when the instance has no such
    /// property. Fails with `NotFound` for an absent id.
    pub fn get_raw_property(&self, id: u64, name: &str) -> (r: Result<Option<&Variant>, Error>)
        ensures
            match r {
                Ok(opt) => {
                    &&& self.model().contains_key(id)
                    &&& match opt {
                        Some(v) => exists|k: int|
                            {
                                &&& 0 <= k < self.model()[id].properties@.len()
                                &&& (#[trigger] self.model()[id].properties@[k]).0@ == name@
                                &&& *v == self.model()[id].properties@[k].1
                                &&& forall|j: int|
                                    0 <= j < k ==> (
                                    #[trigger] self.model()[id].properties@[j]).0@ != name@
                            },
                        None => forall|j: int|
                            0 <= j < self.model()[id].properties@.len() ==> (
                            #[trigger] self.model()[id].properties@[j]).0@ != name@,
                    }
                },
                Err(e) => e == Error::NotFound && !self.model().contains_key(id),
            },
    {
        let inst = match self.nodes.get(&id) {
            Some(inst) => inst,
            None => {
                return Err(Error::NotFound);
            },
        };
        match find_prop(&inst.properties, name) {
            Some(k) => {
                proof {
                    assert((self.model()[id].properties@[k as int]).0@ == name@);
                }
                Ok(Some(&inst.properties[k].1))
            },
            None => Ok(None),
        }
    }

    /// Writes a raw property: replaces the value of the first entry whose key
    /// equals `key`, or appends a new entry when there is none. Fails with
    /// `NotFound` for an absent id.
    pub fn set_raw_property(&mut self, id: u64, key: String, value: Variant) -> (r: Result<
        (),
        Error,
    >)
        requires
            old(self).wf(),
        ensures
            final(self).wf(),
            final(self).spec_root() == old(self).spec_root(),
            final(self).model().dom() == old(self).model().dom(),
            final(self).depth_map() == old(self).depth_map(),
            match r {
                Ok(_) => {
                    &&& old(self).model().contains_key(id)
                    &&& final(self).model()[id].name == old(self).model()[id].name
                    &&& final(self).model()[id].class == old(self).model()[id].class
                    &&& final(self).model()[id].children == old(self).model()[id].children
                    &&& final(self).model()[id].parent == old(self).model()[id].parent
                    &&& prop_written(
                        old(self).model()[id].properties@,
                        final(self).model()[id].properties@,
                        key,
                        value,
                    )
                    &&& forall|x: u64|
                        x != id && #[trigger] old(self).model().contains_key(x)
                            ==> final(self).model()[x] == old(self).model()[x]
                },
                Err(e) => {
                    &&& e == Error::NotFound
                    &&& !old(self).model().contains_key(id)
                    &&& *final(self) == *old(self)
                },
            },
    {
        if !self.nodes.contains_key(&id) {
            return Err(Error::NotFound);
        }
        let node_opt = self.nodes.remove(&id);
        let mut inst = match node_opt {
            Some(inst) => inst,
            None => {
                // Unreachable: the id was just found in the table.
                return Err(Error::NotFound);
            },
        };
        match find_prop(&inst.properties, key.as_str()) {
            Some(k) => {
                let slot = &mut inst.properties[k];
                slot.1 = value;
                proof {
                    assert((old(self).model()[id].properties@[k as int]).0@ == key@);
                    assert(inst.properties@ =~= old(self).model()[id].properties@.update(
                        k as int,
                        (old(self).model()[id].properties@[k as int].0, value),
                    ));
                }
            },
            None => {
                inst.properties.push((key, value));
            },
        }
        self.nodes.insert(id, inst);
        proof {
            assert(self.model().dom() =~= old(self).model().dom());
            lemma_wf_same_shape(old(self).model(), self.model(), self.root, self.depth@, id);
        }
        Ok(())
    }

    /// Removes `id` and its entire subtree, detaching `id` from its former
    /// parent's children list.
    ///
    /// Destroying an absent id — including one destroyed before — fails with
    /// `NotFound`: destruction is intentionally not idempotent, so that
    /// use-after-destroy in calling code is caught rather than masked. The
    /// root sentinel cannot be destroyed.
    #[verifier::loop_isolation(false)]
    #[verifier::rlimit(100)]
    #[verifier::spinoff_prover]
    pub fn destroy(&mut self, id: u64) -> (r: Result<(), Error>)
        requires
            old(self).wf(),
        ensures
            final(self).wf(),
            final(self).spec_root() == old(self).spec_root(),
            forall|b: u64| old(self).bounded_by(b) ==> final(self).bounded_by(b),
            match r {
                Ok(_) => {
                    &&& old(self).model().contains_key(id)
                    &&& id != old(self).spec_root()
                    &&& exists|s: Set<u64>|
                        #[trigger] destroyed_post(old(self).model(), final(self).model(), id, s)
                },
                Err(e) => {
                    &&& e == Error::NotFound
                    &&& (!old(self).model().contains_key(id) || id == old(self).spec_root())
                    &&& *final(self) == *old(self)
                },
            },
    {
        // Validate before mutating.
        if id == self.root {
            return Err(Error::NotFound);
        }
        let pid: u64 = match self.nodes.get(&id) {
            Some(inst) => {
                match inst.parent {
                    Some(p) => p,
                    None => {
                        // Unreachable: only the root is parentless.
                        return Err(Error::NotFound);
                    },
                }
            },
            None => {
                return Err(Error::NotFound);
            },
        };
        let ghost m0 = self.model();
        let ghost d = self.depth@;
        let ghost r = self.spec_root();

        // Detach `id` from its parent's children list.
        let mut pnode = match self.nodes.remove(&pid) {
            Some(p) => p,
            None => {
                // Unreachable: the table holds the parent of every node.
                return Err(Error::NotFound);
            },
        };
        let kidx = match find_id(&pnode.children, id) {
            Some(k) => k,
            None => {
                // Unreachable: every node stands in its parent's list.
                proof {
                    assert(m0[pid].children@.contains(id));
                }
                self.nodes.insert(pid, pnode);
                return Err(Error::NotFound);
            },
        };
        let ghost kd = kidx as int;
        pnode.children.remove(kidx);
        self.nodes.insert(pid, pnode);
        let ghost mid = self.model();
        proof {
            assert(mid.dom() =~= m0.dom());
        }

        // Collect and remove the subtree, children after parents.
        let mut stack: Vec<u64> = Vec::new();
        stack.push(id);
        proof {
            assert(stack@[0] == id);
            assert(stack@.contains(id));
        }
        let ghost mut removed: Set<u64> = Set::empty();
        while stack.len() != 0
            invariant
                self.spec_root() == r,
                self.depth@ == d,
                self.nodes@.dom() == mid.dom().difference(removed),
                forall|x: u64| #[trigger] self.nodes@.contains_key(x) ==> self.nodes@[x] == mid[x],
                forall|x: u64|
                    #[trigger] removed.contains(x) ==> m0.contains_key(x) && (x == id || (
                    m0[x].parent is Some && removed.contains(parent_id(m0[x])))) && d[x] >= d[id],
                forall|k: int|
                    0 <= k < stack@.len() ==> m0.contains_key(#[trigger] stack@[k]) && (stack@[k]
                        == id || (m0[stack@[k]].parent is Some && removed.contains(
                        parent_id(m0[stack@[k]]),
                    ))) && d[stack@[k]] >= d[id],
                forall|x: u64|
                    #[trigger] m0.contains_key(x) && m0[x].parent is Some && removed.contains(
                        parent_id(m0[x]),
                    ) ==> removed.contains(x) || stack@.contains(x),
                removed.contains(id) || stack@.contains(id),
            decreases self.nodes@.dom().len(), stack@.len(),
        {
            let ghost stack_pre = stack@;
            let x = stack.pop().unwrap();
            proof {
                assert(stack_pre[stack_pre.len() - 1] == x);
            }
            let removed_node = self.nodes.remove(&x);
            match removed_node {
                Some(inst) => {
                    proof {
                        assert(self.nodes@.dom() =~= mid.dom().difference(removed.insert(x)));
                        removed = removed.insert(x);
                    }
                    let n = inst.children.len();
                    let ghost stack_mid = stack@;
                    let mut k: usize = 0;
                    while k < n
                        invariant
                            0 <= k <= n,
                            n == inst.children@.len(),
                            stack@ == stack_mid + inst.children@.subrange(0, k as int),
                        decreases n - k,
                    {
                        stack.push(inst.children[k]);
                        proof {
                            assert(stack@ =~= stack_mid + inst.children@.subrange(0, k + 1));
                        }
                        k += 1;
                    }
                    proof {
                        assert(inst.children@.subrange(0, n as int) =~= inst.children@);
                        assert(inst == mid[x]);
                        // Facts about the children of `x` in the original
                        // table: `mid` agrees with `m0` on every children
                        // list except the parent's, which lost `id`.
                        assert forall|k: int| 0 <= k < stack@.len() implies m0.contains_key(
                            #[trigger] stack@[k],
                        ) && (stack@[k] == id || (m0[stack@[k]].parent is Some
                            && removed.contains(parent_id(m0[stack@[k]])))) && d[stack@[k]]
                            >= d[id] by {
                            if k < stack_mid.len() {
                                assert(stack_pre[k] == stack@[k]);
                            } else {
                                let c = stack@[k];
                                let kc = k - stack_mid.len();
                                assert(c == inst.children@[kc]);
                                if x == pid {
                                    assert(mid[pid].children@ == m0[pid].children@.remove(kd));
                                    assert(child_entry_ok(m0, r, x, c));
                                } else {
                                    assert(mid[x].children@ == m0[x].children@);
                                    assert(child_entry_ok(m0, r, x, c));
                                }
                                assert(m0[c].parent == Some(x));
                                assert(removed.contains(x));
                                assert(d[c] == d[x] + 1);
                            }
                        }
                        // Completeness: everything whose parent is removed is
                        // itself removed or still on the stack.
                        assert forall|y: u64|
                            #[trigger] m0.contains_key(y) && m0[y].parent is Some
                                && removed.contains(parent_id(m0[y])) implies removed.contains(y)
                            || stack@.contains(y) by {
                            let py = parent_id(m0[y]);
                            if py == x {
                                if y == id {
                                    if !removed.contains(id) {
                                        assert(stack_pre.contains(id));
                                        let ki = choose|ki: int|
                                            0 <= ki < stack_pre.len() && stack_pre[ki] == id;
                                        if ki < stack_pre.len() - 1 {
                                            assert(stack@[ki] == id);
                                        } else {
                                            assert(x == id);
                                            assert(removed.contains(id));
                                        }
                                    }
                                } else {
                                    // `y` is a child of `x` in `m0`; unless it
                                    // is `id` it stayed in `mid`'s list and was
                                    // pushed just now.
                                    assert(m0[x].children@.contains(y));
                                    let ky = choose|ky: int|
                                        0 <= ky < m0[x].children@.len() && m0[x].children@[ky]
                                            == y;
                                    if x == pid {
                                        assert(m0[pid].children@[kd] == id);
                                        assert(mid[pid].children@ == m0[pid].children@.remove(kd));
                                        if ky < kd {
                                            assert(mid[x].children@[ky] == y);
                                            assert(inst.children@.contains(y));
                                        } else {
                                            assert(ky != kd);
                                            assert(mid[x].children@[ky - 1] == y);
                                            assert(inst.children@.contains(y));
                                        }
                                    } else {
                                        assert(mid[x].children@[ky] == y);
                                        assert(inst.children@.contains(y));
                                    }
                                    let kc = choose|kc: int|
                                        0 <= kc < inst.children@.len() && inst.children@[kc] == y;
                                    assert(stack@[stack_mid.len() + kc] == y);
                                }
                            } else {
                                if removed.contains(y) {
                                } else {
                                    assert(stack_pre.contains(y));
                                    let ky = choose|ky: int|
                                        0 <= ky < stack_pre.len() && stack_pre[ky] == y;
                                    if ky < stack_pre.len() - 1 {
                                        assert(stack@[ky] == y);
                                    } else {
                                        assert(y == x);
                                        assert(removed.contains(x));
                                    }
                                }
                            }
                        }
                        // `id` stays accounted for.
                        if !removed.contains(id) {
                            assert(stack_pre.contains(id));
                            let ki = choose|ki: int|
                                0 <= ki < stack_pre.len() && stack_pre[ki] == id;
                            if ki < stack_pre.len() - 1 {
                                assert(stack@[ki] == id);
                            } else {
                                assert(x == id);
                            }
                        }
                    }
                },
                None => {
                    proof {
                        // `x` was already removed: the table is unchanged.
                        assert(removed.contains(x));
                        assert(self.nodes@.dom() =~= mid.dom().difference(removed));
                        assert forall|y: u64|
                            #[trigger] m0.contains_key(y) && m0[y].parent is Some
                                && removed.contains(parent_id(m0[y])) implies removed.contains(y)
                            || stack@.contains(y) by {
                            if !removed.contains(y) {
                                assert(stack_pre.contains(y));
                                let ky = choose|ky: int|
                                    0 <= ky < stack_pre.len() && stack_pre[ky] == y;
                                if ky < stack_pre.len() - 1 {
                                    assert(stack@[ky] == y);
                                } else {
                                    assert(y == x);
                                }
                            }
                        }
                        if !removed.contains(id) {
                            assert(stack_pre.contains(id));
                            let ki = choose|ki: int|
                                0 <= ki < stack_pre.len() && stack_pre[ki] == id;
                            if ki < stack_pre.len() - 1 {
                                assert(stack@[ki] == id);
                            } else {
                                assert(x == id);
                                assert(removed.contains(id));
                            }
                        }
                    }
                },
            }
        }
        proof {
            let m1 = self.model();
            let s = removed;
            // The collected set is the subtree set of `id`.
            assert forall|x: u64| #[trigger] m0.contains_key(x) implies (s.contains(x) <==> (x
                == id || (m0[x].parent is Some && s.contains(parent_id(m0[x]))))) by {
                if s.contains(x) {
                } else {
                    if x != id && m0[x].parent is Some && s.contains(parent_id(m0[x])) {
                        assert(s.contains(x) || Seq::<u64>::empty().contains(x));
                    }
                }
            }
            assert(subtree_set(m0, id, s));
            // The parent of `id` sits strictly above the subtree.
            assert(d[pid] + 1 == d[id]);
            assert(!s.contains(pid));
            assert(m1.dom() =~= m0.dom().difference(s));
            assert(m0[pid].children@[kd] == id);
            assert(m1.contains_key(pid));
            assert(m1[pid] == mid[pid]);
            assert(mid[pid].children@ == m0[pid].children@.remove(kd));
            assert(destroyed_post(m0, m1, id, s));
            lemma_destroyed_wf(m0, m1, r, d, id, s);
        }
        Ok(())
    }

    /// Walks the parent chain upward from `start` and reports whether it
    /// passes through `id`.
    #[verifier::loop_isolation(false)]
    fn reaches_up(&self, id: u64, start: u64) -> (r: bool)
        requires
            self.wf(),
            self.model().contains_key(start),
        ensures
            r == reaches(self.model(), self.spec_root(), self.depth_map(), id, start),
    {
        let mut cur = start;
        loop
            invariant
                self.model().contains_key(cur),
                reaches(self.model(), self.spec_root(), self.depth_map(), id, start) == reaches(
                    self.model(),
                    self.spec_root(),
                    self.depth_map(),
                    id,
                    cur,
                ),
            decreases self.depth_map()[cur],
        {
            if cur == id {
                return true;
            }
            let cnode = self.nodes.get(&cur).unwrap();
            match cnode.parent {
                Some(p) => {
                    cur = p;
                },
                None => {
                    return false;
                },
            }
        }
    }

    /// Reparents `id` under `new_parent` within this graph, appending it to
    /// the new parent's children list.
    ///
    /// Fails with `NotFound` when `id` is absent or is the root, or when
    /// `new_parent` is absent; fails with `WouldCycle` when `new_parent` lies
    /// in the subtree of `id` (including `new_parent == id`), so that a node
    /// can never become its own descendant. A failed call changes nothing.
    #[verifier::rlimit(100)]
    #[verifier::spinoff_prover]
    pub fn transfer_within(&mut self, id: u64, new_parent: u64) -> (r: Result<(), Error>)
        requires
            old(self).wf(),
        ensures
            final(self).wf(),
            final(self).spec_root() == old(self).spec_root(),
            forall|b: u64| old(self).bounded_by(b) ==> final(self).bounded_by(b),
            match r {
                Ok(_) => {
                    &&& old(self).model().contains_key(id)
                    &&& id != old(self).spec_root()
                    &&& old(self).model().contains_key(new_parent)
                    &&& exists|s: Set<u64>|
                        #[trigger] subtree_set(old(self).model(), id, s) && !s.contains(new_parent)
                    &&& relinked(old(self).model(), final(self).model(), id, new_parent)
                },
                Err(e) => {
                    &&& *final(self) == *old(self)
                    &&& (e == Error::NotFound || e == Error::WouldCycle)
                    &&& (e == Error::NotFound <==> (!old(self).model().contains_key(id) || id
                        == old(self).spec_root() || !old(self).model().contains_key(new_parent)))
                    &&& (e == Error::WouldCycle ==> exists|s: Set<u64>|
                        #[trigger] subtree_set(old(self).model(), id, s) && s.contains(new_parent))
                },
            },
    {
        if id == self.root {
            return Err(Error::NotFound);
        }
        let pid: u64 = match self.nodes.get(&id) {
            Some(inst) => {
                match inst.parent {
                    Some(p) => p,
                    None => {
                        // Unreachable: only the root is parentless.
                        return Err(Error::NotFound);
                    },
                }
            },
            None => {
                return Err(Error::NotFound);
            },
        };
        if !self.nodes.contains_key(&new_parent) {
            return Err(Error::NotFound);
        }
        let ghost m0 = self.model();
        let ghost d = self.depth@;
        let ghost r = self.spec_root();
        let ghost s: Set<u64> = lemma_subtree_set_exists(m0, r, d, id);

        if self.reaches_up(id, new_parent) {
            proof {
                lemma_reaches_member(m0, r, d, id, s, new_parent);
            }
            return Err(Error::WouldCycle);
        }
        proof {
            lemma_subtree_set_depth(m0, r, d, id, s);
            assert(!s.contains(new_parent));
            assert(s.contains(id));
            // The parent of `id` sits strictly above the subtree.
            assert(d[pid] + 1 == d[id]);
            assert(!s.contains(pid));
            if pid == id {
                assert(d[id] == d[id] + 1);
            }
            assert(pid != id);
            assert(new_parent != id);
        }

        // Detach `id` from its parent's children list.
        let mut pnode = match self.nodes.remove(&pid) {
            Some(p) => p,
            None => {
                // Unreachable: the table holds the parent of every node.
                return Err(Error::NotFound);
            },
        };
        let kidx = match find_id(&pnode.children, id) {
            Some(k) => k,
            None => {
                // Unreachable: every node stands in its parent's list.
                proof {
                    assert(m0[pid].children@.contains(id));
                }
                self.nodes.insert(pid, pnode);
                return Err(Error::NotFound);
            },
        };
        let ghost kd = kidx as int;
        pnode.children.remove(kidx);
        self.nodes.insert(pid, pnode);

        // Append `id` to the new parent's children list.
        let mut npnode = match self.nodes.remove(&new_parent) {
            Some(n) => n,
            None => {
                // Unreachable: `new_parent` was just found in the table.
                return Err(Error::NotFound);
            },
        };
        npnode.children.push(id);
        self.nodes.insert(new_parent, npnode);

        // Point `id` at its new parent.
        let mut inode = match self.nodes.remove(&id) {
            Some(i) => i,
            None => {
                // Unreachable: `id` is neither `pid` nor `new_parent`.
                return Err(Error::NotFound);
            },
        };
        inode.parent = Some(new_parent);
        self.nodes.insert(id, inode);

        proof {
            // Shift the depths of the subtree under its new ancestor.
            let dnew = Map::<u64, nat>::new(
                |x: u64| d.contains_key(x),
                |x: u64|
                    if s.contains(x) {
                        (d[x] - d[id] + d[new_parent] + 1) as nat
                    } else {
                        d[x]
                    },
            );
            self.depth@ = dnew;
            let m1 = self.model();
            assert(m1.dom() =~= m0.dom());
            // Unchanged nodes.
            assert forall|x: u64|
                #[trigger] m0.contains_key(x) && x != id && x != pid && x != new_parent implies m1[x]
                == m0[x] by {}
            assert(relinked(m0, m1, id, new_parent));

            // Table invariant.
            assert forall|i: u64| #[trigger] m1.contains_key(i) implies i == r || {
                &&& m1[i].parent is Some
                &&& m1.contains_key(parent_id(m1[i]))
                &&& m1[parent_id(m1[i])].children@.contains(i)
            } by {
                if i != r {
                    assert(m0.contains_key(i));
                    if i == id {
                        assert(m1[id].parent == Some(new_parent));
                        assert(m1[new_parent].children@.last() == id);
                        assert(m1[new_parent].children@.contains(id));
                    } else {
                        let p = parent_id(m0[i]);
                        assert(m1[i].parent == m0[i].parent);
                        assert(m0[p].children@.contains(i));
                        let ki = choose|ki: int|
                            0 <= ki < m0[p].children@.len() && m0[p].children@[ki] == i;
                        if p == pid {
                            assert(ki != kd);
                            if p == new_parent {
                                if ki < kd {
                                    assert(m1[p].children@[ki] == i);
                                } else {
                                    assert(m1[p].children@[ki - 1] == i);
                                }
                            } else {
                                if ki < kd {
                                    assert(m1[p].children@[ki] == i);
                                } else {
                                    assert(m1[p].children@[ki - 1] == i);
                                }
                            }
                            assert(m1[p].children@.contains(i));
                        } else if p == new_parent {
                            assert(m1[p].children@[ki] == i);
                            assert(m1[p].children@.contains(i));
                        } else {
                            assert(m1[p].children@ == m0[p].children@);
                        }
                    }
                }
            }
            assert forall|i: u64| #[trigger] m1.contains_key(i) implies children_ok(m1, r, i) by {
                assert(m0.contains_key(i));
                assert(children_ok(m0, r, i));
                let oldc = m0[i].children@;
                let newc = m1[i].children@;
                if i == pid && i == new_parent {
                    assert(newc == oldc.remove(kd).push(id));
                    assert forall|k: int| 0 <= k < newc.len() implies child_entry_ok(
                        m1,
                        r,
                        i,
                        #[trigger] newc[k],
                    ) by {
                        if k == newc.len() - 1 {
                            assert(newc[k] == id);
                            assert(m1[id].parent == Some(i));
                            assert(id != r);
                        } else {
                            let c = if k < kd {
                                oldc[k]
                            } else {
                                oldc[k + 1]
                            };
                            assert(newc[k] == c);
                            assert(child_entry_ok(m0, r, i, c));
                            assert(c != id);
                            assert(m1[c].parent == m0[c].parent);
                        }
                    }
                    assert forall|k1: int, k2: int| 0 <= k1 < k2 < newc.len() implies newc[k1]
                        != newc[k2] by {
                        if k2 == newc.len() - 1 {
                            let c1 = if k1 < kd {
                                oldc[k1]
                            } else {
                                oldc[k1 + 1]
                            };
                            assert(newc[k1] == c1);
                            assert(child_entry_ok(m0, r, i, c1));
                            assert(c1 != id);
                        } else {
                            let c1 = if k1 < kd {
                                k1
                            } else {
                                k1 + 1
                            };
                            let c2 = if k2 < kd {
                                k2
                            } else {
                                k2 + 1
                            };
                            assert(newc[k1] == oldc[c1]);
                            assert(newc[k2] == oldc[c2]);
                        }
                    }
                } else if i == pid {
                    assert(newc == oldc.remove(kd));
                    assert forall|k: int| 0 <= k < newc.len() implies child_entry_ok(
                        m1,
                        r,
                        i,
                        #[trigger] newc[k],
                    ) by {
                        let c = if k < kd {
                            oldc[k]
                        } else {
                            oldc[k + 1]
                        };
                        assert(newc[k] == c);
                        assert(child_entry_ok(m0, r, i, c));
                        assert(c != id);
                        assert(m1[c].parent == m0[c].parent);
                    }
                    assert forall|k1: int, k2: int| 0 <= k1 < k2 < newc.len() implies newc[k1]
                        != newc[k2] by {
                        let c1 = if k1 < kd {
                            k1
                        } else {
                            k1 + 1
                        };
                        let c2 = if k2 < kd {
                            k2
                        } else {
                            k2 + 1
                        };
                        assert(newc[k1] == oldc[c1]);
                        assert(newc[k2] == oldc[c2]);
                    }
                } else if i == new_parent {
                    assert(newc == oldc.push(id));
                    assert forall|k: int| 0 <= k < newc.len() implies child_entry_ok(
                        m1,
                        r,
                        i,
                        #[trigger] newc[k],
                    ) by {
                        if k == newc.len() - 1 {
                            assert(newc[k] == id);
                            assert(m1[id].parent == Some(i));
                        } else {
                            let c = oldc[k];
                            assert(newc[k] == c);
                            assert(child_entry_ok(m0, r, i, c));
                            // `id` was attached under `pid`, not here.
                            assert(c != id);
                            assert(m1[c].parent == m0[c].parent);
                        }
                    }
                    assert forall|k1: int, k2: int| 0 <= k1 < k2 < newc.len() implies newc[k1]
                        != newc[k2] by {
                        if k2 == newc.len() - 1 {
                            assert(newc[k2] == id);
                            assert(child_entry_ok(m0, r, i, oldc[k1]));
                            assert(oldc[k1] != id);
                        }
                    }
                } else {
                    assert(newc == oldc);
                    assert forall|k: int| 0 <= k < newc.len() implies child_entry_ok(
                        m1,
                        r,
                        i,
                        #[trigger] newc[k],
                    ) by {
                        let c = oldc[k];
                        assert(child_entry_ok(m0, r, i, c));
                        assert(c != id);
                        assert(m1[c].parent == m0[c].parent);
                    }
                }
            }
            assert(table_ok(m1, r));

            // Depth witness.
            lemma_subtree_set_depth(m0, r, d, id, s);
            assert forall|i: u64| #[trigger] m1.contains_key(i) implies dnew.contains_key(i) && (i
                == r || (dnew.contains_key(parent_id(m1[i])) && dnew[i] == dnew[parent_id(m1[i])]
                + 1)) by {
                assert(m0.contains_key(i));
                if i == id {
                    assert(dnew[id] == d[new_parent] + 1);
                    assert(dnew[new_parent] == d[new_parent]);
                } else if i != r {
                    let p = parent_id(m0[i]);
                    assert(m1[i].parent == m0[i].parent);
                    assert(d[i] == d[p] + 1);
                    if s.contains(i) {
                        assert(s.contains(p));
                        assert(d[p] >= d[id]);
                    } else {
                        assert(!s.contains(p));
                    }
                }
            }
            assert(depth_ok(m1, r, dnew));
        }
        Ok(())
    }

    /// Collects the ids of the subtree rooted at `id`: `id` first, every
    /// parent before its children, siblings in attachment order, no id twice.
    #[verifier::loop_isolation(false)]
    #[verifier::rlimit(100)]
    #[verifier::spinoff_prover]
    fn collect_subtree(&self, id: u64) -> (order: Vec<u64>)
        requires
            self.wf(),
            self.model().contains_key(id),
            id != self.spec_root(),
        ensures
            order@.len() >= 1,
            order@[0] == id,
            forall|j1: int, j2: int| 0 <= j1 < j2 < order@.len() ==> order@[j1] != order@[j2],
            subtree_set(self.model(), id, order@.to_set()),
            // Parents come before their children, and each parent's children
            // appear in attachment order as a subsequence scattered only by
            // other parents' children.
            forall|j: int|
                0 < j < order@.len() ==> exists|jp: int|
                    {
                        &&& 0 <= jp < j
                        &&& #[trigger] order@[j] != id
                        &&& self.model()[order@[j]].parent == Some(order@[jp])
                    },
    {
        let ghost m = self.model();
        let ghost d = self.depth@;
        let ghost r = self.spec_root();
        let mut order: Vec<u64> = Vec::new();
        order.push(id);
        proof {
            assert(order@[0] == id);
        }
        let mut i: usize = 0;
        while i < order.len()
            invariant
                0 <= i <= order@.len(),
                order@.len() >= 1,
                order@[0] == id,
                forall|j: int| 0 <= j < order@.len() ==> m.contains_key(#[trigger] order@[j]),
                forall|j1: int, j2: int| 0 <= j1 < j2 < order@.len() ==> order@[j1] != order@[j2],
                forall|j: int|
                    0 < j < order@.len() ==> exists|jp: int|
                        {
                            &&& 0 <= jp < j
                            &&& #[trigger] order@[j] != id
                            &&& m[order@[j]].parent == Some(order@[jp])
                        },
                forall|x: u64|
                    #[trigger] m.contains_key(x) && m[x].parent is Some
                        && order@.subrange(0, i as int).contains(parent_id(m[x])) ==> order@.contains(
                        x,
                    ),
            decreases m.dom().len() - i,
        {
            proof {
                order@.unique_seq_to_set();
                vstd::set_lib::lemma_len_subset(order@.to_set(), m.dom());
            }
            let x = order[i];
            let inst = self.nodes.get(&x).unwrap();
            let ghost snap = order@;
            let n = inst.children.len();
            let mut k: usize = 0;
            while k < n
                invariant
                    0 <= k <= n,
                    0 <= i < snap.len(),
                    snap[i as int] == x,
                    m.contains_key(x),
                    inst == m[x],
                    n == inst.children@.len(),
                    order@.len() >= snap.len(),
                    forall|j: int| 0 <= j < snap.len() ==> order@[j] == snap[j],
                    forall|j: int| 0 <= j < order@.len() ==> m.contains_key(#[trigger] order@[j]),
                    forall|j1: int, j2: int| 0 <= j1 < j2 < order@.len() ==> order@[j1] != order@[j2],
                    forall|j: int|
                        snap.len() <= j < order@.len() ==> (#[trigger] order@[j]) != id
                            && m[order@[j]].parent == Some(x),
                    forall|kk: int|
                        0 <= kk < k ==> order@.contains(#[trigger] inst.children@[kk]),
                decreases n - k,
            {
                let c = inst.children[k];
                let ghost pre = order@;
                proof {
                    assert(child_entry_ok(m, r, x, c));
                }
                match find_id(&order, c) {
                    Some(kc) => {
                        proof {
                            assert(order@[kc as int] == c);
                            assert(order@.contains(c));
                        }
                    },
                    None => {
                        proof {
                            // `c` cannot be the walk's root: `id`'s parent
                            // sits strictly above everything collected, by
                            // the depth witness.
                            if c == id {
                                assert(m[id].parent == Some(x));
                                assert(d[id] == d[x] + 1);
                                assert(d[x] >= d[id]) by {
                                    lemma_collect_partial_depth(m, r, d, id, order@, x);
                                }
                                assert(false);
                            }
                        }
                        order.push(c);
                        proof {
                            assert(order@.last() == c);
                            assert(order@.contains(c));
                            assert forall|j: int| 0 <= j < pre.len() implies order@[j] == pre[j]
                                by {}
                        }
                    },
                }
                proof {
                    assert forall|kk: int| 0 <= kk < k + 1 implies order@.contains(
                        #[trigger] inst.children@[kk],
                    ) by {
                        if kk < k {
                            let j = choose|j: int|
                                0 <= j < pre.len() && pre[j] == inst.children@[kk];
                            assert(order@[j] == inst.children@[kk]);
                        } else {
                            assert(order@.contains(c));
                        }
                    }
                }
                k += 1;
            }
            proof {
                assert(inst.children@.subrange(0, n as int) =~= inst.children@);
                // Completeness for the freshly processed prefix.
                assert forall|y: u64|
                    #[trigger] m.contains_key(y) && m[y].parent is Some && order@.subrange(
                        0,
                        i + 1,
                    ).contains(parent_id(m[y])) implies order@.contains(y) by {
                    let py = parent_id(m[y]);
                    let kp = choose|kp: int|
                        0 <= kp < i + 1 && #[trigger] order@.subrange(0, i + 1)[kp] == py;
                    if kp < i {
                        assert(order@[kp] == py);
                        assert(snap.subrange(0, i as int)[kp] == py);
                        assert(snap.subrange(0, i as int).contains(py));
                        assert(snap.contains(y));
                        let ky = choose|ky: int| 0 <= ky < snap.len() && snap[ky] == y;
                        assert(order@[ky] == y);
                    } else {
                        assert(py == x);
                        assert(m[x].children@.contains(y));
                        let ky = choose|ky: int|
                            0 <= ky < m[x].children@.len() && m[x].children@[ky] == y;
                        assert(order@.contains(inst.children@[ky]));
                    }
                }
                // Parents stay before their children in the grown list.
                assert forall|j: int| 0 < j < order@.len() implies exists|jp: int|
                    {
                        &&& 0 <= jp < j
                        &&& #[trigger] order@[j] != id
                        &&& m[order@[j]].parent == Some(order@[jp])
                    } by {
                    if j < snap.len() {
                        let jp = choose|jp: int|
                            0 <= jp < j && #[trigger] snap[j] != id && m[snap[j]].parent == Some(
                                snap[jp],
                            );
                        assert(order@[j] == snap[j]);
                        assert(order@[jp] == snap[jp]);
                        assert({
                            &&& 0 <= jp < j
                            &&& order@[j] != id
                            &&& m[order@[j]].parent == Some(order@[jp])
                        });
                    } else {
                        assert(order@[i as int] == x);
                        assert({
                            &&& 0 <= i < j
                            &&& order@[j] != id
                            &&& m[order@[j]].parent == Some(order@[i as int])
                        });
                    }
                }
            }
            i += 1;
        }
        proof {
            let os = order@.to_set();
            assert(order@.subrange(0, order@.len() as int) =~= order@);
            assert forall|x: u64| #[trigger] m.contains_key(x) implies (os.contains(x) <==> (x
                == id || (m[x].parent is Some && os.contains(parent_id(m[x]))))) by {
                if os.contains(x) {
                    if x != id {
                        let j = choose|j: int| 0 <= j < order@.len() && order@[j] == x;
                        assert(j != 0);
                        let jp = choose|jp: int|
                            0 <= jp < j && order@[j] != id && m[order@[j]].parent == Some(
                                order@[jp],
                            );
                        assert(os.contains(order@[jp]));
                    }
                } else {
                    if x == id {
                        assert(os.contains(order@[0]));
                    }
                    if m[x].parent is Some && os.contains(parent_id(m[x])) {
                        assert(order@.contains(x));
                    }
                }
            }
        }
        order
    }

    /// Moves the subtree rooted at `id` out of this graph and re-inserts it,
    /// ids preserved, under `new_parent` in `target`. Afterward those ids are
    /// addressable only in `target`.
    ///
    /// Fails with `NotFound` when `id` is absent here or is this graph's
    /// root, or when `new_parent` is absent from `target`; fails with
    /// `IdCollision` when an id of the subtree is already present in
    /// `target`, which cannot happen while both graphs draw from one
    /// [`IdSource`]. A failed call changes neither graph.
    #[verifier::loop_isolation(false)]
    #[verifier::rlimit(100)]
    #[verifier::spinoff_prover]
    pub fn transfer(&mut self, id: u64, target: &mut Graph, new_parent: u64) -> (r: Result<
        (),
        Error,
    >)
        requires
            old(self).wf(),
            old(target).wf(),
        ensures
            final(self).wf(),
            final(target).wf(),
            final(self).spec_root() == old(self).spec_root(),
            final(target).spec_root() == old(target).spec_root(),
            forall|b: u64| old(self).bounded_by(b) ==> final(self).bounded_by(b),
            forall|b: u64|
                old(self).bounded_by(b) && old(target).bounded_by(b) ==> final(target).bounded_by(
                    b,
                ),
            match r {
                Ok(_) => exists|s: Set<u64>|
                    #[trigger] transferred_post(
                        old(self).model(),
                        final(self).model(),
                        old(target).model(),
                        final(target).model(),
                        id,
                        new_parent,
                        s,
                    ),
                Err(e) => {
                    &&& *final(self) == *old(self)
                    &&& *final(target) == *old(target)
                    &&& (e == Error::NotFound || e == Error::IdCollision)
                    &&& (e == Error::NotFound <==> (!old(self).model().contains_key(id) || id
                        == old(self).spec_root() || !old(target).model().contains_key(new_parent)))
                    &&& (e == Error::IdCollision ==> exists|s: Set<u64>|
                        #[trigger] subtree_set(old(self).model(), id, s) && !s.disjoint(
                            old(target).model().dom(),
                        ))
                },
            },
    {
        if id == self.root {
            return Err(Error::NotFound);
        }
        let pid: u64 = match self.nodes.get(&id) {
            Some(inst) => {
                match inst.parent {
                    Some(p) => p,
                    None => {
                        // Unreachable: only the root is parentless.
                        return Err(Error::NotFound);
                    },
                }
            },
            None => {
                return Err(Error::NotFound);
            },
        };
        if !target.nodes.contains_key(&new_parent) {
            return Err(Error::NotFound);
        }
        let ghost m0s = self.model();
        let ghost m0t = target.model();
        let ghost ds = self.depth@;
        let ghost dt = target.depth@;
        let ghost rs = self.spec_root();
        let ghost rt = target.spec_root();

        let order = self.collect_subtree(id);
        let ghost sset = order@.to_set();
        let nmoved = order.len();

        // Validate before mutating: no moved id may already live in `target`.
        let mut j: usize = 0;
        while j < nmoved
            invariant
                0 <= j <= nmoved,
                nmoved == order@.len(),
                forall|jj: int| 0 <= jj < j ==> !m0t.contains_key(#[trigger] order@[jj]),
            decreases nmoved - j,
        {
            if target.nodes.contains_key(&order[j]) {
                proof {
                    assert(sset.contains(order@[j as int]));
                }
                return Err(Error::IdCollision);
            }
            j += 1;
        }
        proof {
            assert forall|x: u64| #[trigger] sset.contains(x) implies !m0t.dom().contains(x) by {
                let jj = choose|jj: int| 0 <= jj < order@.len() && order@[jj] == x;
                assert(!m0t.contains_key(order@[jj]));
            }
            assert(sset.disjoint(m0t.dom()));
            lemma_subtree_set_depth(m0s, rs, ds, id, sset);
            assert(ds[pid] + 1 == ds[id]);
            assert(!sset.contains(pid));
        }

        // Detach `id` from its parent's children list here.
        let mut pnode = match self.nodes.remove(&pid) {
            Some(p) => p,
            None => {
                // Unreachable: the table holds the parent of every node.
                return Err(Error::NotFound);
            },
        };
        let kidx = match find_id(&pnode.children, id) {
            Some(k) => k,
            None => {
                // Unreachable: every node stands in its parent's list.
                proof {
                    assert(m0s[pid].children@.contains(id));
                }
                self.nodes.insert(pid, pnode);
                return Err(Error::NotFound);
            },
        };
        let ghost kd = kidx as int;
        pnode.children.remove(kidx);
        self.nodes.insert(pid, pnode);
        let ghost mids = self.model();
        proof {
            assert(mids.dom() =~= m0s.dom());
        }

        // Append `id` to the new parent's children list in the target.
        let mut npnode = match target.nodes.remove(&new_parent) {
            Some(n) => n,
            None => {
                // Unreachable: `new_parent` was just found in the table.
                return Err(Error::NotFound);
            },
        };
        npnode.children.push(id);
        target.nodes.insert(new_parent, npnode);
        let ghost midt = target.model();
        proof {
            assert(midt.dom() =~= m0t.dom());
        }

        // Move the nodes, ids preserved, `id` now pointing at `new_parent`.
        let mut j: usize = 0;
        while j < nmoved
            invariant
                0 <= j <= nmoved,
                nmoved == order@.len(),
                self.spec_root() == rs,
                self.depth@ == ds,
                target.spec_root() == rt,
                target.depth@ == dt,
                self.nodes@.dom() == mids.dom().difference(
                    order@.subrange(0, j as int).to_set(),
                ),
                forall|x: u64| #[trigger] self.nodes@.contains_key(x) ==> self.nodes@[x] == mids[x],
                target.nodes@.dom() == midt.dom().union(order@.subrange(0, j as int).to_set()),
                forall|x: u64|
                    #[trigger] midt.contains_key(x) ==> target.nodes@.contains_key(x)
                        && target.nodes@[x] == midt[x],
                forall|jj: int|
                    0 < jj < j ==> target.nodes@.contains_key(#[trigger] order@[jj])
                        && target.nodes@[order@[jj]] == m0s[order@[jj]],
                j > 0 ==> {
                    &&& target.nodes@.contains_key(id)
                    &&& target.nodes@[id].class == m0s[id].class
                    &&& target.nodes@[id].name == m0s[id].name
                    &&& target.nodes@[id].properties == m0s[id].properties
                    &&& target.nodes@[id].children == m0s[id].children
                    &&& target.nodes@[id].parent == Some(new_parent)
                },
            decreases nmoved - j,
        {
            let x = order[j];
            proof {
                assert(sset.contains(x));
                assert(mids.contains_key(x));
                if order@.subrange(0, j as int).to_set().contains(x) {
                    let jj = choose|jj: int|
                        0 <= jj < j && #[trigger] order@.subrange(0, j as int)[jj] == x;
                    assert(order@[jj] == order@[j as int]);
                }
                assert(self.nodes@.contains_key(x));
            }
            let inst_opt = self.nodes.remove(&x);
            let mut inst = match inst_opt {
                Some(i) => i,
                None => {
                    // Unreachable: the id is still in this graph's table.
                    return Err(Error::NotFound);
                },
            };
            if j == 0 {
                inst.parent = Some(new_parent);
            }
            proof {
                if x != pid {
                    assert(mids[x] == m0s[x]);
                }
                assert(x != pid);
            }
            target.nodes.insert(x, inst);
            proof {
                assert(order@.subrange(0, j + 1) =~= order@.subrange(0, j as int).push(x));
                lemma_to_set_push(order@.subrange(0, j as int), x);
                assert(self.nodes@.dom() =~= mids.dom().difference(
                    order@.subrange(0, j + 1).to_set(),
                ));
                assert(target.nodes@.dom() =~= midt.dom().union(
                    order@.subrange(0, j + 1).to_set(),
                ));
            }
            j += 1;
        }
        proof {
            assert(order@.subrange(0, nmoved as int) =~= order@);
            let m1s = self.model();
            let m1t = target.model();

            // The source is left exactly as destroy would leave it.
            assert(m1s.dom() =~= m0s.dom().difference(sset));
            assert(m1s.contains_key(pid));
            assert(m1s[pid] == mids[pid]);
            assert(mids[pid].children@ == m0s[pid].children@.remove(kd));
            assert(m0s[pid].children@[kd] == id);
            assert(destroyed_post(m0s, m1s, id, sset));

            // The target gained exactly the subtree.
            assert(m1t.dom() =~= m0t.dom().union(sset));
            assert(m1t.contains_key(new_parent));
            assert(!sset.contains(new_parent));
            assert(m1t[new_parent] == midt[new_parent]);
            assert(midt[new_parent].children@ == m0t[new_parent].children@.push(id));
            assert forall|x: u64| #[trigger] sset.contains(x) && x != id implies m1t[x]
                == m0s[x] by {
                let jj = choose|jj: int| 0 <= jj < order@.len() && order@[jj] == x;
                assert(jj != 0);
            }
            assert(transferred_post(m0s, m1s, m0t, m1t, id, new_parent, sset));

            lemma_destroyed_wf(m0s, m1s, rs, ds, id, sset);
            let dtnew = lemma_transferred_target_wf(
                m0s,
                m1s,
                m0t,
                m1t,
                id,
                new_parent,
                sset,
                rs,
                rt,
                ds,
                dt,
            );
            target.depth@ = dtnew;
            assert(transferred_post(
                old(self).model(),
                self.model(),
                old(target).model(),
                target.model(),
                id,
                new_parent,
                sset,
            ));
        }
        Ok(())
    }

    /// Deep-copies the subtree rooted at `id` — class, name, properties and
    /// child order of every node — under fresh ids, and attaches the copy at
    /// the end of `parent`'s children.
    ///
    /// Fails with `NotFound` when `id` is absent or is the root, or when
    /// `parent` is absent. A failed call changes nothing.
    #[verifier::loop_isolation(false)]
    #[verifier::rlimit(100)]
    #[verifier::spinoff_prover]
    pub fn clone_under(&mut self, ids: &mut IdSource, id: u64, parent: u64) -> (r: Result<
        u64,
        Error,
    >)
        requires
            old(self).wf(),
            old(self).bounded_by(old(ids).spec_next()),
            old(ids).spec_next() as int + old(self).model().dom().len() <= u64::MAX as int,
        ensures
            final(self).wf(),
            final(self).spec_root() == old(self).spec_root(),
            final(self).bounded_by(final(ids).spec_next()),
            match r {
                Ok(new_id) => {
                    &&& old(self).model().contains_key(id)
                    &&& id != old(self).spec_root()
                    &&& old(self).model().contains_key(parent)
                    &&& new_id == old(ids).spec_next()
                    &&& !old(self).model().contains_key(new_id)
                    &&& exists|f: Map<u64, u64>, s: Set<u64>|
                        #[trigger] cloned_post(
                            old(self).model(),
                            final(self).model(),
                            id,
                            parent,
                            new_id,
                            f,
                            s,
                        )
                },
                Err(e) => {
                    &&& e == Error::NotFound
                    &&& (!old(self).model().contains_key(id) || id == old(self).spec_root()
                        || !old(self).model().contains_key(parent))
                    &&& *final(self) == *old(self)
                    &&& *final(ids) == *old(ids)
                },
            },
    {
        if id == self.root {
            return Err(Error::NotFound);
        }
        if !self.nodes.contains_key(&id) {
            return Err(Error::NotFound);
        }
        if !self.nodes.contains_key(&parent) {
            return Err(Error::NotFound);
        }
        let ghost m0 = self.model();
        let ghost d = self.depth@;
        let ghost r = self.spec_root();

        let order = self.collect_subtree(id);
        let ghost sset = order@.to_set();
        let n = order.len();
        proof {
            order@.unique_seq_to_set();
            vstd::set_lib::lemma_len_subset(sset, m0.dom());
            lemma_subtree_set_depth(m0, r, d, id, sset);
            assert(d[parent_id(m0[id])] + 1 == d[id]);
            assert(!sset.contains(parent_id(m0[id])));
        }

        // Assign a fresh id to each node of the subtree; the copy of `id`
        // itself gets the first one.
        let ghost ids0 = ids.spec_next();
        let mut newids: Vec<u64> = Vec::new();
        let mut j: usize = 0;
        while j < n
            invariant
                0 <= j <= n,
                n == order@.len(),
                newids@.len() == j,
                ids.spec_next() as int == ids0 as int + j,
                forall|jj: int| 0 <= jj < j ==> (#[trigger] newids@[jj]) as int == ids0 as int + jj,
            decreases n - j,
        {
            let nid = ids.fresh();
            newids.push(nid);
            j += 1;
        }
        proof {
            assert forall|jj1: int, jj2: int| 0 <= jj1 < jj2 < n implies newids@[jj1]
                != newids@[jj2] by {}
            assert forall|jj: int| 0 <= jj < n implies !m0.contains_key(
                #[trigger] newids@[jj],
            ) by {}
        }
        let ghost f = Map::<u64, u64>::new(
            |x: u64| sset.contains(x),
            |x: u64|
                newids@[choose|jx: int| 0 <= jx < order@.len() && order@[jx] == x],
        );
        proof {
            assert(f.dom() =~= sset);
            assert forall|jj: int| 0 <= jj < n implies f[#[trigger] order@[jj]]
                == newids@[jj] by {
                assert(sset.contains(order@[jj]));
                let jx = choose|jx: int| 0 <= jx < order@.len() && order@[jx] == order@[jj];
                assert(jx == jj);
            }
        }

        // Build the copies, parents before children, wiring each copy to the
        // copy of its parent.
        let mut j: usize = 0;
        while j < n
            invariant
                0 <= j <= n,
                n == order@.len(),
                newids@.len() == n,
                self.spec_root() == r,
                self.depth@ == d,
                self.nodes@.dom() == m0.dom().union(newids@.subrange(0, j as int).to_set()),
                forall|y: u64| #[trigger] m0.contains_key(y) ==> self.nodes@.contains_key(y)
                    && self.nodes@[y] == m0[y],
                forall|jj: int|
                    0 <= jj < j ==> {
                        let x = #[trigger] order@[jj];
                        let c = self.nodes@[newids@[jj]];
                        &&& self.nodes@.contains_key(newids@[jj])
                        &&& c.class == m0[x].class
                        &&& c.name == m0[x].name
                        &&& crate::variant::props_like(c.properties@, m0[x].properties@)
                        &&& c.children@ == m0[x].children@.map_values(|cc: u64| f[cc])
                        &&& c.parent == (if x == id {
                            Some(parent)
                        } else {
                            Some(f[parent_id(m0[x])])
                        })
                    },
            decreases n - j,
        {
            let x = order[j];
            proof {
                assert(sset.contains(x));
                assert(m0.contains_key(x));
                assert forall|k: int|
                    0 <= k < m0[x].children@.len() implies order@.contains(
                    #[trigger] m0[x].children@[k],
                ) by {
                    let c = m0[x].children@[k];
                    assert(child_entry_ok(m0, r, x, c));
                    assert(sset.contains(c));
                }
            }
            let (cls, nm, props, kids, prnt) = {
                let inst = self.nodes.get(&x).unwrap();
                proof {
                    assert(*inst == m0[x]);
                }
                (
                    inst.class.clone(),
                    inst.name.clone(),
                    crate::variant::dup_props(&inst.properties),
                    map_ids(&inst.children, &order, &newids, Ghost(f)),
                    inst.parent,
                )
            };
            let pnew: u64 = if j == 0 {
                parent
            } else {
                let px = match prnt {
                    Some(p) => p,
                    None => {
                        // Unreachable: subtree members below `id` have parents.
                        return Err(Error::NotFound);
                    },
                };
                proof {
                    if x == id {
                        assert(order@[0] == id);
                        assert(false);
                    }
                    assert(sset.contains(px));
                    assert(order@.contains(px));
                }
                match find_id(&order, px) {
                    Some(pi) => newids[pi],
                    None => {
                        // Unreachable: the parent of a subtree member below
                        // `id` is itself in the subtree.
                        return Err(Error::NotFound);
                    },
                }
            };
            let nid = newids[j];
            let copy = Instance {
                class: cls,
                name: nm,
                properties: props,
                children: kids,
                parent: Some(pnew),
            };
            self.nodes.insert(nid, copy);
            proof {
                assert(order@[0] == id);
                assert(kids@ =~= m0[x].children@.map_values(|cc: u64| f[cc]));
                assert(newids@.subrange(0, j + 1) =~= newids@.subrange(0, j as int).push(nid));
                lemma_to_set_push(newids@.subrange(0, j as int), nid);
                assert(self.nodes@.dom() =~= m0.dom().union(
                    newids@.subrange(0, j + 1).to_set(),
                ));
            }
            j += 1;
        }

        // Attach the copy of `id` under `parent`.
        let new_id = newids[0];
        let mut pn = match self.nodes.remove(&parent) {
            Some(p) => p,
            None => {
                // Unreachable: `parent` was found and originals are untouched.
                return Err(Error::NotFound);
            },
        };
        pn.children.push(new_id);
        self.nodes.insert(parent, pn);

        proof {
            assert(newids@.subrange(0, n as int) =~= newids@);
            let m1 = self.model();
            let imgs = newids@.to_set();
            assert forall|y: u64| #[trigger] m1.contains_key(y) implies (m0.contains_key(y)
                || exists|x: u64| #[trigger] sset.contains(x) && f[x] == y) by {
                if !m0.contains_key(y) {
                    assert(imgs.contains(y));
                    let jj = choose|jj: int| 0 <= jj < newids@.len() && newids@[jj] == y;
                    assert(sset.contains(order@[jj]));
                    assert(f[order@[jj]] == y);
                }
            }
            assert forall|y: u64|
                (m0.contains_key(y) || exists|x: u64|
                    #[trigger] sset.contains(x) && f[x] == y) implies #[trigger] m1.contains_key(
                y,
            ) by {
                if !m0.contains_key(y) {
                    let x = choose|x: u64| #[trigger] sset.contains(x) && f[x] == y;
                    let jj = choose|jj: int| 0 <= jj < order@.len() && order@[jj] == x;
                    assert(newids@[jj] == y);
                    assert(newids@.to_set().contains(y));
                }
            }
            assert forall|x: u64, y: u64|
                sset.contains(x) && sset.contains(y) && #[trigger] f[x] == #[trigger] f[y] implies x
                == y by {
                let jx = choose|jx: int| 0 <= jx < order@.len() && order@[jx] == x;
                let jy = choose|jy: int| 0 <= jy < order@.len() && order@[jy] == y;
                assert(f[x] == newids@[jx]);
                assert(f[y] == newids@[jy]);
            }
            assert forall|x: u64| #[trigger] sset.contains(x) implies !m0.contains_key(f[x])
                && m1.contains_key(f[x]) && f[x] != parent by {
                let jx = choose|jx: int| 0 <= jx < order@.len() && order@[jx] == x;
                assert(f[x] == newids@[jx]);
            }
            assert forall|x: u64| #[trigger] sset.contains(x) implies {
                &&& m1[f[x]].class == m0[x].class
                &&& m1[f[x]].name == m0[x].name
                &&& crate::variant::props_like(m1[f[x]].properties@, m0[x].properties@)
                &&& m1[f[x]].children@ == m0[x].children@.map_values(|c: u64| f[c])
                &&& m1[f[x]].parent == (if x == id {
                    Some(parent)
                } else {
                    Some(f[parent_id(m0[x])])
                })
            } by {
                let jx = choose|jx: int| 0 <= jx < order@.len() && order@[jx] == x;
                assert(f[x] == newids@[jx]);
                assert(m1[newids@[jx]] == self.nodes@[newids@[jx]]);
            }
            assert(f[id] == newids@[0]);
            assert(cloned_post(m0, m1, id, parent, new_id, f, sset));
            let dnew = lemma_cloned_wf(m0, m1, r, d, id, parent, new_id, f, sset);
            self.depth@ = dnew;
            assert(cloned_post(
                old(self).model(),
                self.model(),
                id,
                parent,
                new_id,
                f,
                sset,
            ));
        }
        Ok(new_id)
    }

    /// Deep-copies the subtree rooted at `id` under the same parent as the
    /// original, per [`Graph::clone_under`].
    pub fn clone_instance(&mut self, ids: &mut IdSource, id: u64) -> (r: Result<u64, Error>)
        requires
            old(self).wf(),
            old(self).bounded_by(old(ids).spec_next()),
            old(ids).spec_next() as int + old(self).model().dom().len() <= u64::MAX as int,
        ensures
            final(self).wf(),
            final(self).spec_root() == old(self).spec_root(),
            final(self).bounded_by(final(ids).spec_next()),
            match r {
                Ok(new_id) => {
                    &&& old(self).model().contains_key(id)
                    &&& id != old(self).spec_root()
                    &&& new_id == old(ids).spec_next()
                    &&& !old(self).model().contains_key(new_id)
                    &&& exists|f: Map<u64, u64>, s: Set<u64>|
                        #[trigger] cloned_post(
                            old(self).model(),
                            final(self).model(),
                            id,
                            parent_id(old(self).model()[id]),
                            new_id,
                            f,
                            s,
                        )
                },
                Err(e) => {
                    &&& e == Error::NotFound
                    &&& (!old(self).model().contains_key(id) || id == old(self).spec_root())
                    &&& *final(self) == *old(self)
                    &&& *final(ids) == *old(ids)
                },
            },
    {
        if id == self.root {
            return Err(Error::NotFound);
        }
        let pid: u64 = match self.nodes.get(&id) {
            Some(inst) => {
                match inst.parent {
                    Some(p) => p,
                    None => {
                        // Unreachable: only the root is parentless.
                        return Err(Error::NotFound);
                    },
                }
            },
            None => {
                return Err(Error::NotFound);
            },
        };
        self.clone_under(ids, id, pid)
    }
}

/// After `destroyed_post`, the remaining table is well-formed under the old
/// depth witness.
#[verifier::rlimit(100)]
#[verifier::spinoff_prover]
proof fn lemma_destroyed_wf(
    m0: Map<u64, Instance>,
    m1: Map<u64, Instance>,
    r: u64,
    d: Map<u64, nat>,
    id: u64,
    s: Set<u64>,
)
    requires
        table_ok(m0, r),
        depth_ok(m0, r, d),
        m0.contains_key(id),
        id != r,
        destroyed_post(m0, m1, id, s),
    ensures
        table_ok(m1, r),
        depth_ok(m1, r, d),
{
    let pid = parent_id(m0[id]);
    let kd = choose|k: int|
        0 <= k < m0[pid].children@.len() && m0[pid].children@[k] == id && m1[pid].children@
            == m0[pid].children@.remove(k);
    assert(!s.contains(r));
    assert forall|i: u64| #[trigger] m1.contains_key(i) implies i == r || {
        &&& m1[i].parent is Some
        &&& m1.contains_key(parent_id(m1[i]))
        &&& m1[parent_id(m1[i])].children@.contains(i)
    } by {
        if i != r {
            assert(m0.contains_key(i));
            if i != pid {
                assert(m1[i] == m0[i]);
            }
            assert(m1[i].parent == m0[i].parent);
            let p = parent_id(m0[i]);
            assert(m0[p].children@.contains(i));
            assert(!s.contains(i));
            assert(!s.contains(p));
            assert(m1.contains_key(p));
            if p == pid {
                if i != id {
                    let ki = choose|ki: int|
                        0 <= ki < m0[p].children@.len() && m0[p].children@[ki] == i;
                    assert(ki != kd);
                    if ki < kd {
                        assert(m1[p].children@[ki] == i);
                    } else {
                        assert(m1[p].children@[ki - 1] == i);
                    }
                }
            } else {
                assert(m1[p].children@ == m0[p].children@);
            }
        }
    }
    assert forall|i: u64| #[trigger] m1.contains_key(i) implies children_ok(m1, r, i) by {
        assert(m0.contains_key(i));
        assert(children_ok(m0, r, i));
        if i == pid {
            let oldc = m0[pid].children@;
            let newc = m1[pid].children@;
            assert(newc == oldc.remove(kd));
            assert forall|k: int| 0 <= k < newc.len() implies child_entry_ok(
                m1,
                r,
                pid,
                #[trigger] newc[k],
            ) by {
                let c = if k < kd {
                    oldc[k]
                } else {
                    oldc[k + 1]
                };
                assert(newc[k] == c);
                assert(child_entry_ok(m0, r, pid, c));
                assert(c != id);
                assert(!s.contains(c));
                assert(m1.contains_key(c));
                if c != pid {
                    assert(m1[c] == m0[c]);
                }
                assert(m1[c].parent == m0[c].parent);
            }
            assert forall|k1: int, k2: int| 0 <= k1 < k2 < newc.len() implies newc[k1]
                != newc[k2] by {
                let c1 = if k1 < kd {
                    k1
                } else {
                    k1 + 1
                };
                let c2 = if k2 < kd {
                    k2
                } else {
                    k2 + 1
                };
                assert(newc[k1] == oldc[c1]);
                assert(newc[k2] == oldc[c2]);
            }
        } else {
            assert(m1[i].children@ == m0[i].children@);
            assert forall|k: int| 0 <= k < m1[i].children@.len() implies child_entry_ok(
                m1,
                r,
                i,
                #[trigger] m1[i].children@[k],
            ) by {
                let c = m0[i].children@[k];
                assert(child_entry_ok(m0, r, i, c));
                assert(m0[c].parent == Some(i));
                assert(!s.contains(i));
                assert(!s.contains(c));
                assert(m1.contains_key(c));
                if c != pid {
                    assert(m1[c] == m0[c]);
                }
                assert(m1[c].parent == m0[c].parent);
            }
        }
    }
    assert(m1.contains_key(r));
    assert(m1[r].parent is None) by {
        if r != pid {
            assert(m1[r] == m0[r]);
        }
    }
    assert(table_ok(m1, r));
    assert forall|i: u64| #[trigger] m1.contains_key(i) implies d.contains_key(i) && (i == r || (
    d.contains_key(parent_id(m1[i])) && d[i] == d[parent_id(m1[i])] + 1)) by {
        assert(m0.contains_key(i));
        if i != pid {
            assert(m1[i] == m0[i]);
        }
        if i != r {
            assert(m1[i].parent == m0[i].parent);
        }
    }
}

/// After `transferred_post`, the receiving table is well-formed under a depth
/// witness that shifts the moved subtree below its new ancestor.
#[verifier::rlimit(100)]
#[verifier::spinoff_prover]
proof fn lemma_transferred_target_wf(
    m0s: Map<u64, Instance>,
    m1s: Map<u64, Instance>,
    m0t: Map<u64, Instance>,
    m1t: Map<u64, Instance>,
    id: u64,
    np: u64,
    s: Set<u64>,
    rs: u64,
    rt: u64,
    ds: Map<u64, nat>,
    dt: Map<u64, nat>,
) -> (dtnew: Map<u64, nat>)
    requires
        table_ok(m0s, rs),
        depth_ok(m0s, rs, ds),
        table_ok(m0t, rt),
        depth_ok(m0t, rt, dt),
        m0s.contains_key(id),
        id != rs,
        transferred_post(m0s, m1s, m0t, m1t, id, np, s),
    ensures
        table_ok(m1t, rt),
        depth_ok(m1t, rt, dtnew),
{
    let pid = parent_id(m0s[id]);
    lemma_subtree_set_depth(m0s, rs, ds, id, s);
    assert(!s.contains(rt));
    assert(!s.contains(np));
    assert(m1t.contains_key(rt));
    assert(m1t[rt].parent is None) by {
        if rt == np {
        } else {
            assert(m1t[rt] == m0t[rt]);
        }
    }
    assert forall|i: u64| #[trigger] m1t.contains_key(i) implies i == rt || {
        &&& m1t[i].parent is Some
        &&& m1t.contains_key(parent_id(m1t[i]))
        &&& m1t[parent_id(m1t[i])].children@.contains(i)
    } by {
        if i != rt {
            if s.contains(i) {
                if i == id {
                    assert(m1t[id].parent == Some(np));
                    assert(m1t[np].children@.last() == id);
                    assert(m1t[np].children@.contains(id));
                } else {
                    assert(m1t[i] == m0s[i]);
                    let p = parent_id(m0s[i]);
                    assert(s.contains(p));
                    assert(m0s[p].children@.contains(i));
                    if p == id {
                        assert(m1t[id].children == m0s[id].children);
                        assert(m1t[p].children@.contains(i));
                    } else {
                        assert(m1t[p] == m0s[p]);
                    }
                }
            } else {
                assert(m0t.contains_key(i));
                if i != np {
                    assert(m1t[i] == m0t[i]);
                }
                let p = parent_id(m0t[i]);
                assert(m1t[i].parent == m0t[i].parent);
                assert(m0t[p].children@.contains(i));
                if p == np {
                    let ki = choose|ki: int|
                        0 <= ki < m0t[p].children@.len() && m0t[p].children@[ki] == i;
                    assert(m1t[p].children@[ki] == i);
                    assert(m1t[p].children@.contains(i));
                } else {
                    assert(m1t[p] == m0t[p]);
                }
            }
        }
    }
    assert forall|i: u64| #[trigger] m1t.contains_key(i) implies children_ok(m1t, rt, i) by {
        if s.contains(i) {
            assert(children_ok(m0s, rs, i));
            let c_list = m0s[i].children@;
            assert(m1t[i].children@ == c_list);
            assert forall|k: int| 0 <= k < c_list.len() implies child_entry_ok(
                m1t,
                rt,
                i,
                #[trigger] c_list[k],
            ) by {
                let c = c_list[k];
                assert(child_entry_ok(m0s, rs, i, c));
                assert(m0s[c].parent == Some(i));
                if c == id {
                    assert(ds[pid] >= ds[id]);
                }
                assert(c != id);
                assert(s.contains(c));
                assert(m1t.contains_key(c));
                assert(m1t[c] == m0s[c]);
                assert(c != rt);
            }
        } else {
            assert(m0t.contains_key(i));
            assert(children_ok(m0t, rt, i));
            if i == np {
                let oldc = m0t[np].children@;
                let newc = m1t[np].children@;
                assert(newc == oldc.push(id));
                assert forall|k: int| 0 <= k < newc.len() implies child_entry_ok(
                    m1t,
                    rt,
                    i,
                    #[trigger] newc[k],
                ) by {
                    if k == newc.len() - 1 {
                        assert(newc[k] == id);
                        assert(m1t[id].parent == Some(np));
                        assert(id != rt);
                    } else {
                        let c = oldc[k];
                        assert(newc[k] == c);
                        assert(child_entry_ok(m0t, rt, i, c));
                        assert(!s.contains(c));
                        if c != np {
                            assert(m1t[c] == m0t[c]);
                        }
                        assert(m1t[c].parent == m0t[c].parent);
                    }
                }
                assert forall|k1: int, k2: int| 0 <= k1 < k2 < newc.len() implies newc[k1]
                    != newc[k2] by {
                    if k2 == newc.len() - 1 {
                        assert(newc[k2] == id);
                        assert(child_entry_ok(m0t, rt, i, oldc[k1]));
                        assert(!s.contains(oldc[k1]));
                        assert(oldc[k1] != id);
                    }
                }
            } else {
                assert(m1t[i] == m0t[i]);
                assert forall|k: int| 0 <= k < m1t[i].children@.len() implies child_entry_ok(
                    m1t,
                    rt,
                    i,
                    #[trigger] m1t[i].children@[k],
                ) by {
                    let c = m0t[i].children@[k];
                    assert(child_entry_ok(m0t, rt, i, c));
                    assert(!s.contains(c));
                    if c != np {
                        assert(m1t[c] == m0t[c]);
                    }
                    assert(m1t[c].parent == m0t[c].parent);
                }
            }
        }
    }
    assert(table_ok(m1t, rt));

    let dtnew = Map::<u64, nat>::new(
        |x: u64| dt.contains_key(x) || s.contains(x),
        |x: u64|
            if s.contains(x) {
                (ds[x] - ds[id] + dt[np] + 1) as nat
            } else {
                dt[x]
            },
    );
    assert forall|i: u64| #[trigger] m1t.contains_key(i) implies dtnew.contains_key(i) && (i == rt
        || (dtnew.contains_key(parent_id(m1t[i])) && dtnew[i] == dtnew[parent_id(m1t[i])]
        + 1)) by {
        if s.contains(i) {
            assert(ds[i] >= ds[id]);
            if i == id {
                assert(m1t[id].parent == Some(np));
                assert(!s.contains(np));
                assert(dtnew[id] == dt[np] + 1);
                assert(dtnew[np] == dt[np]);
            } else {
                assert(m1t[i] == m0s[i]);
                let p = parent_id(m0s[i]);
                assert(s.contains(p));
                assert(ds[p] >= ds[id]);
                assert(ds[i] == ds[p] + 1);
            }
        } else {
            assert(m0t.contains_key(i));
            if i != np {
                assert(m1t[i] == m0t[i]);
            }
            if i != rt {
                let p = parent_id(m0t[i]);
                assert(m1t[i].parent == m0t[i].parent);
                assert(!s.contains(p));
                assert(dt[i] == dt[p] + 1);
            }
        }
    }
    dtnew
}

/// How `clone_under(id, parent)` relates the old table to the new one: a
/// fresh copy of the subtree `s` rooted at `id` appears under `parent`.
///
/// `f` maps each original id of the subtree to the id of its copy: the copies
/// are fresh, pairwise distinct, mirror the originals in class, name,
/// properties and child order, and are wired up among themselves, with the
/// copy of `id` attached at the end of `parent`'s children.
pub open spec fn cloned_post(
    m0: Map<u64, Instance>,
    m1: Map<u64, Instance>,
    id: u64,
    parent: u64,
    new_id: u64,
    f: Map<u64, u64>,
    s: Set<u64>,
) -> bool {
    &&& subtree_set(m0, id, s)
    &&& m0.contains_key(parent)
    &&& f.dom() == s
    &&& f[id] == new_id
    &&& forall|x: u64, y: u64|
        s.contains(x) && s.contains(y) && #[trigger] f[x] == #[trigger] f[y] ==> x == y
    &&& forall|x: u64| #[trigger] s.contains(x) ==> !m0.contains_key(f[x])
    &&& forall|y: u64|
        #[trigger] m1.contains_key(y) <==> (m0.contains_key(y) || exists|x: u64|
            #[trigger] s.contains(x) && f[x] == y)
    &&& forall|x: u64|
        #[trigger] s.contains(x) ==> {
            &&& m1.contains_key(f[x])
            &&& m1[f[x]].class == m0[x].class
            &&& m1[f[x]].name == m0[x].name
            &&& crate::variant::props_like(m1[f[x]].properties@, m0[x].properties@)
            &&& m1[f[x]].children@ == m0[x].children@.map_values(|c: u64| f[c])
            &&& m1[f[x]].parent == (if x == id {
                Some(parent)
            } else {
                Some(f[parent_id(m0[x])])
            })
        }
    &&& m1[parent].children@ == m0[parent].children@.push(new_id)
    &&& m1[parent].class == m0[parent].class
    &&& m1[parent].name == m0[parent].name
    &&& m1[parent].properties == m0[parent].properties
    &&& m1[parent].parent == m0[parent].parent
    &&& forall|y: u64| #[trigger] m0.contains_key(y) && y != parent ==> m1[y] == m0[y]
}

/// Translates a list of subtree ids through the fresh-id assignment: entry
/// `j` of `order` maps to entry `j` of `newids`.
fn map_ids(
    children: &Vec<u64>,
    order: &Vec<u64>,
    newids: &Vec<u64>,
    Ghost(f): Ghost<Map<u64, u64>>,
) -> (r: Vec<u64>)
    requires
        order@.len() == newids@.len(),
        forall|j1: int, j2: int| 0 <= j1 < j2 < order@.len() ==> order@[j1] != order@[j2],
        forall|j: int| 0 <= j < order@.len() ==> f[#[trigger] order@[j]] == newids@[j],
        forall|k: int| 0 <= k < children@.len() ==> order@.contains(#[trigger] children@[k]),
    ensures
        r@.len() == children@.len(),
        forall|k: int| 0 <= k < children@.len() ==> r@[k] == f[#[trigger] children@[k]],
{
    let n = children.len();
    let mut r: Vec<u64> = Vec::new();
    let mut k: usize = 0;
    while k < n
        invariant
            0 <= k <= n,
            n == children@.len(),
            r@.len() == k,
            order@.len() == newids@.len(),
            forall|j1: int, j2: int| 0 <= j1 < j2 < order@.len() ==> order@[j1] != order@[j2],
            forall|j: int| 0 <= j < order@.len() ==> f[#[trigger] order@[j]] == newids@[j],
            forall|kk: int| 0 <= kk < children@.len() ==> order@.contains(#[trigger] children@[kk]),
            forall|kk: int| 0 <= kk < k ==> r@[kk] == f[#[trigger] children@[kk]],
        decreases n - k,
    {
        let c = children[k];
        match find_id(order, c) {
            Some(j) => {
                r.push(newids[j]);
            },
            None => {
                // Unreachable: every child of a subtree node is in the list.
                proof {
                    assert(order@.contains(children@[k as int]));
                }
                r.push(0);
            },
        }
        k += 1;
    }
    r
}

/// After `cloned_post`, the table is well-formed under a depth witness that
/// places each copy at the depth its original had, shifted under the new
/// ancestor.
#[verifier::rlimit(100)]
#[verifier::spinoff_prover]
proof fn lemma_cloned_wf(
    m0: Map<u64, Instance>,
    m1: Map<u64, Instance>,
    r: u64,
    d: Map<u64, nat>,
    id: u64,
    parent: u64,
    new_id: u64,
    f: Map<u64, u64>,
    s: Set<u64>,
) -> (dnew: Map<u64, nat>)
    requires
        table_ok(m0, r),
        depth_ok(m0, r, d),
        m0.contains_key(id),
        id != r,
        cloned_post(m0, m1, id, parent, new_id, f, s),
    ensures
        table_ok(m1, r),
        depth_ok(m1, r, dnew),
{
    lemma_subtree_set_depth(m0, r, d, id, s);
    let pid = parent_id(m0[id]);
    assert(d[pid] + 1 == d[id]);
    assert(!s.contains(pid));
    assert(s.contains(id));

    // Images are fresh, so they never collide with originals; `is_img` names
    // the copies.
    let is_img = |y: u64| exists|x: u64| #[trigger] s.contains(x) && f[x] == y;
    assert(m1.contains_key(r));
    assert(m1[r].parent is None) by {
        if r != parent {
            assert(m1[r] == m0[r]);
        }
    }
    assert forall|i: u64| #[trigger] m1.contains_key(i) implies i == r || {
        &&& m1[i].parent is Some
        &&& m1.contains_key(parent_id(m1[i]))
        &&& m1[parent_id(m1[i])].children@.contains(i)
    } by {
        if i != r {
            if m0.contains_key(i) {
                if i != parent {
                    assert(m1[i] == m0[i]);
                }
                assert(m1[i].parent == m0[i].parent);
                let p = parent_id(m0[i]);
                assert(m0[p].children@.contains(i));
                assert(m1.contains_key(p));
                if p == parent {
                    let ki = choose|ki: int|
                        0 <= ki < m0[p].children@.len() && m0[p].children@[ki] == i;
                    assert(m1[p].children@[ki] == i);
                    assert(m1[p].children@.contains(i));
                } else {
                    assert(m1[p] == m0[p]);
                }
            } else {
                let x = choose|x: u64| #[trigger] s.contains(x) && f[x] == i;
                if x == id {
                    assert(m1[i].parent == Some(parent));
                    assert(m1[parent].children@.last() == new_id);
                    assert(m1[parent].children@.contains(i));
                } else {
                    let px = parent_id(m0[x]);
                    assert(s.contains(px));
                    assert(m1[i].parent == Some(f[px]));
                    assert(m1.contains_key(f[px]));
                    assert(m0[px].children@.contains(x));
                    let ki = choose|ki: int|
                        0 <= ki < m0[px].children@.len() && m0[px].children@[ki] == x;
                    assert(m1[f[px]].children@ == m0[px].children@.map_values(|c: u64| f[c]));
                    assert(m1[f[px]].children@[ki] == f[x]);
                    assert(m1[f[px]].children@.contains(i));
                }
            }
        }
    }
    assert forall|i: u64| #[trigger] m1.contains_key(i) implies children_ok(m1, r, i) by {
        if m0.contains_key(i) {
            assert(children_ok(m0, r, i));
            if i == parent {
                let oldc = m0[parent].children@;
                let newc = m1[parent].children@;
                assert(newc == oldc.push(new_id));
                assert forall|k: int| 0 <= k < newc.len() implies child_entry_ok(
                    m1,
                    r,
                    parent,
                    #[trigger] newc[k],
                ) by {
                    if k == newc.len() - 1 {
                        assert(newc[k] == new_id);
                        assert(m1[new_id].parent == Some(parent));
                        assert(!m0.contains_key(new_id));
                        assert(new_id != r);
                    } else {
                        let c = oldc[k];
                        assert(newc[k] == c);
                        assert(child_entry_ok(m0, r, parent, c));
                        if c != parent {
                            assert(m1[c] == m0[c]);
                        }
                        assert(m1[c].parent == m0[c].parent);
                    }
                }
                assert forall|k1: int, k2: int| 0 <= k1 < k2 < newc.len() implies newc[k1]
                    != newc[k2] by {
                    if k2 == newc.len() - 1 {
                        assert(newc[k2] == new_id);
                        assert(child_entry_ok(m0, r, parent, oldc[k1]));
                        assert(m0.contains_key(oldc[k1]));
                        assert(oldc[k1] != new_id);
                    }
                }
            } else {
                assert(m1[i] == m0[i]);
                assert forall|k: int| 0 <= k < m1[i].children@.len() implies child_entry_ok(
                    m1,
                    r,
                    i,
                    #[trigger] m1[i].children@[k],
                ) by {
                    let c = m0[i].children@[k];
                    assert(child_entry_ok(m0, r, i, c));
                    if c != parent {
                        assert(m1[c] == m0[c]);
                    }
                    assert(m1[c].parent == m0[c].parent);
                }
            }
        } else {
            let x = choose|x: u64| #[trigger] s.contains(x) && f[x] == i;
            let oldc = m0[x].children@;
            let newc = m1[i].children@;
            assert(newc == oldc.map_values(|c: u64| f[c]));
            assert(children_ok(m0, r, x));
            assert forall|k: int| 0 <= k < newc.len() implies child_entry_ok(
                m1,
                r,
                i,
                #[trigger] newc[k],
            ) by {
                let c = oldc[k];
                assert(newc[k] == f[c]);
                assert(child_entry_ok(m0, r, x, c));
                assert(m0[c].parent == Some(x));
                if c == id {
                    assert(s.contains(x));
                    assert(d[x] >= d[id]);
                    assert(x == pid);
                }
                assert(c != id);
                assert(s.contains(c));
                assert(m1.contains_key(f[c]));
                assert(m1[f[c]].parent == Some(f[parent_id(m0[c])]));
                assert(parent_id(m0[c]) == x);
                assert(!m0.contains_key(f[c]));
                assert(f[c] != r);
            }
            assert forall|k1: int, k2: int| 0 <= k1 < k2 < newc.len() implies newc[k1]
                != newc[k2] by {
                let c1 = oldc[k1];
                let c2 = oldc[k2];
                assert(newc[k1] == f[c1]);
                assert(newc[k2] == f[c2]);
                assert(child_entry_ok(m0, r, x, c1));
                assert(child_entry_ok(m0, r, x, c2));
                assert(c1 != c2);
                assert(s.contains(c1) || c1 == id);
                assert(s.contains(c2) || c2 == id);
            }
        }
    }
    assert(table_ok(m1, r));

    let dnew = Map::<u64, nat>::new(
        |y: u64| d.contains_key(y) || is_img(y),
        |y: u64|
            if is_img(y) {
                let x = choose|x: u64| #[trigger] s.contains(x) && f[x] == y;
                (d[x] - d[id] + d[parent] + 1) as nat
            } else {
                d[y]
            },
    );
    assert forall|i: u64| #[trigger] m1.contains_key(i) implies dnew.contains_key(i) && (i == r || (
    dnew.contains_key(parent_id(m1[i])) && dnew[i] == dnew[parent_id(m1[i])] + 1)) by {
        if m0.contains_key(i) {
            assert(!is_img(i));
            assert(dnew[i] == d[i]);
            if i != parent {
                assert(m1[i] == m0[i]);
            }
            if i != r {
                let p = parent_id(m0[i]);
                assert(m1[i].parent == m0[i].parent);
                assert(m0.contains_key(p));
                assert(!is_img(p));
                assert(dnew[p] == d[p]);
            }
        } else {
            let x = choose|x: u64| #[trigger] s.contains(x) && f[x] == i;
            assert(is_img(i));
            assert forall|x2: u64| #[trigger] s.contains(x2) && f[x2] == i implies x2 == x by {}
            assert(dnew[i] == (d[x] - d[id] + d[parent] + 1) as nat);
            assert(d[x] >= d[id]);
            if x == id {
                assert(m1[i].parent == Some(parent));
                assert(m0.contains_key(parent));
                assert(!is_img(parent));
                assert(dnew[parent] == d[parent]);
                assert(dnew[i] == d[parent] + 1);
            } else {
                let px = parent_id(m0[x]);
                assert(s.contains(px));
                assert(d[px] >= d[id]);
                assert(d[x] == d[px] + 1);
                assert(m1[i].parent == Some(f[px]));
                assert(is_img(f[px]));
                assert(!m0.contains_key(f[px]));
                let x3 = choose|x3: u64| #[trigger] s.contains(x3) && f[x3] == f[px];
                assert(x3 == px);
                assert(dnew[f[px]] == (d[px] - d[id] + d[parent] + 1) as nat);
            }
        }
    }
    assert(depth_ok(m1, r, dnew));
    dnew
}

/// Pushing onto a sequence adds exactly one member to its set of elements.
proof fn lemma_to_set_push(s: Seq<u64>, x: u64)
    ensures
        s.push(x).to_set() == s.to_set().insert(x),
{
    assert forall|y: u64| #[trigger] s.push(x).to_set().contains(y) implies s.to_set().insert(
        x,
    ).contains(y) by {
        let j = choose|j: int| 0 <= j < s.push(x).len() && s.push(x)[j] == y;
        if j < s.len() {
            assert(s[j] == y);
        }
    }
    assert forall|y: u64| #[trigger] s.to_set().insert(x).contains(y) implies s.push(
        x,
    ).to_set().contains(y) by {
        if y == x {
            assert(s.push(x).last() == x);
        } else {
            let j = choose|j: int| 0 <= j < s.len() && s[j] == y;
            assert(s.push(x)[j] == y);
        }
    }
    assert(s.push(x).to_set() =~= s.to_set().insert(x));
}

/// Inside a partially collected subtree, depths never fall below the depth of
/// the walk's root: every collected node is the root or a child of an earlier
/// collected node.
proof fn lemma_collect_partial_depth(
    m: Map<u64, Instance>,
    r: u64,
    d: Map<u64, nat>,
    id: u64,
    order: Seq<u64>,
    x: u64,
)
    requires
        table_ok(m, r),
        depth_ok(m, r, d),
        m.contains_key(id),
        order.len() >= 1,
        order[0] == id,
        forall|j: int| 0 <= j < order.len() ==> m.contains_key(#[trigger] order[j]),
        forall|j: int|
            0 < j < order.len() ==> exists|jp: int|
                {
                    &&& 0 <= jp < j
                    &&& #[trigger] order[j] != id
                    &&& m[order[j]].parent == Some(order[jp])
                },
        order.contains(x),
    ensures
        d[x] >= d[id],
{
    let j = choose|j: int| 0 <= j < order.len() && order[j] == x;
    lemma_collect_partial_depth_idx(m, r, d, id, order, j);
}

proof fn lemma_collect_partial_depth_idx(
    m: Map<u64, Instance>,
    r: u64,
    d: Map<u64, nat>,
    id: u64,
    order: Seq<u64>,
    j: int,
)
    requires
        table_ok(m, r),
        depth_ok(m, r, d),
        m.contains_key(id),
        order.len() >= 1,
        order[0] == id,
        forall|jj: int| 0 <= jj < order.len() ==> m.contains_key(#[trigger] order[jj]),
        forall|jj: int|
            0 < jj < order.len() ==> exists|jp: int|
                {
                    &&& 0 <= jp < jj
                    &&& #[trigger] order[jj] != id
                    &&& m[order[jj]].parent == Some(order[jp])
                },
        0 <= j < order.len(),
    ensures
        d[order[j]] >= d[id],
    decreases j,
{
    if j > 0 {
        let jp = choose|jp: int|
            0 <= jp < j && order[j] != id && m[order[j]].parent == Some(order[jp]);
        lemma_collect_partial_depth_idx(m, r, d, id, order, jp);
        assert(d[order[j]] == d[order[jp]] + 1);
    }
}

/// `s` is the set of ids of the subtree rooted at `id`: it holds exactly the
/// nodes whose parent chain passes through `id`.
///
/// Under `depth_ok` such a set is unique; the contracts of the subtree
/// operations quantify over it existentially so that callers need no depth
/// witness.
pub open spec fn subtree_set(m: Map<u64, Instance>, id: u64, s: Set<u64>) -> bool {
    &&& s.subset_of(m.dom())
    &&& forall|x: u64|
        #[trigger] m.contains_key(x) ==> (s.contains(x) <==> (x == id || (m[x].parent is Some
            && s.contains(parent_id(m[x])))))
}

/// Whether the parent chain of `x` passes through `id`. Well-defined for a
/// well-formed table: depths strictly decrease along the chain.
pub open spec fn reaches(
    m: Map<u64, Instance>,
    r: u64,
    d: Map<u64, nat>,
    id: u64,
    x: u64,
) -> bool
    decreases d[x],
    when table_ok(m, r) && depth_ok(m, r, d) && m.contains_key(x)
{
    if x == id {
        true
    } else {
        match m[x].parent {
            Some(p) => reaches(m, r, d, id, p),
            None => false,
        }
    }
}

/// A well-formed table has a subtree set for every id it contains.
pub proof fn lemma_subtree_set_exists(
    m: Map<u64, Instance>,
    r: u64,
    d: Map<u64, nat>,
    id: u64,
) -> (s: Set<u64>)
    requires
        table_ok(m, r),
        depth_ok(m, r, d),
        m.contains_key(id),
    ensures
        subtree_set(m, id, s),
        forall|x: u64| #[trigger] s.contains(x) ==> d[x] >= d[id],
{
    let s = Set::new(|x: u64| m.contains_key(x) && reaches(m, r, d, id, x));
    assert forall|x: u64| #[trigger] m.contains_key(x) implies (s.contains(x) <==> (x == id || (
    m[x].parent is Some && s.contains(parent_id(m[x]))))) by {
        if x != id && m[x].parent is Some {
            assert(m.contains_key(parent_id(m[x])));
        }
    }
    assert forall|x: u64| #[trigger] s.contains(x) implies d[x] >= d[id] by {
        lemma_reaches_depth(m, r, d, id, x);
    }
    s
}

/// Along a parent chain that passes through `id`, depths stay at or above the
/// depth of `id`.
proof fn lemma_reaches_depth(m: Map<u64, Instance>, r: u64, d: Map<u64, nat>, id: u64, x: u64)
    requires
        table_ok(m, r),
        depth_ok(m, r, d),
        m.contains_key(x),
        reaches(m, r, d, id, x),
    ensures
        d[x] >= d[id],
    decreases d[x],
{
    if x != id {
        lemma_reaches_depth(m, r, d, id, parent_id(m[x]));
    }
}

/// Every member of a subtree set lies on a parent chain through `id`, at a
/// depth no smaller than the depth of `id`; so in particular the parent of
/// `id` is never a member.
pub proof fn lemma_subtree_set_depth(
    m: Map<u64, Instance>,
    r: u64,
    d: Map<u64, nat>,
    id: u64,
    s: Set<u64>,
)
    requires
        table_ok(m, r),
        depth_ok(m, r, d),
        m.contains_key(id),
        subtree_set(m, id, s),
    ensures
        forall|x: u64| #[trigger] s.contains(x) ==> d[x] >= d[id] && reaches(m, r, d, id, x),
{
    assert forall|x: u64| #[trigger] s.contains(x) implies d[x] >= d[id] && reaches(
        m,
        r,
        d,
        id,
        x,
    ) by {
        lemma_subtree_member_reaches(m, r, d, id, s, x);
        lemma_reaches_depth(m, r, d, id, x);
    }
}

proof fn lemma_subtree_member_reaches(
    m: Map<u64, Instance>,
    r: u64,
    d: Map<u64, nat>,
    id: u64,
    s: Set<u64>,
    x: u64,
)
    requires
        table_ok(m, r),
        depth_ok(m, r, d),
        m.contains_key(id),
        subtree_set(m, id, s),
        s.contains(x),
    ensures
        reaches(m, r, d, id, x),
    decreases d[x],
{
    assert(m.contains_key(x));
    if x != id {
        lemma_subtree_member_reaches(m, r, d, id, s, parent_id(m[x]));
    }
}

/// A well-formed table has at most one subtree set for each id.
pub proof fn lemma_subtree_set_unique(
    m: Map<u64, Instance>,
    r: u64,
    d: Map<u64, nat>,
    id: u64,
    s1: Set<u64>,
    s2: Set<u64>,
)
    requires
        table_ok(m, r),
        depth_ok(m, r, d),
        m.contains_key(id),
        subtree_set(m, id, s1),
        subtree_set(m, id, s2),
    ensures
        s1 == s2,
{
    assert forall|x: u64| #[trigger] s1.contains(x) implies s2.contains(x) by {
        lemma_subtree_member_reaches(m, r, d, id, s1, x);
        lemma_reaches_member(m, r, d, id, s2, x);
    }
    assert forall|x: u64| #[trigger] s2.contains(x) implies s1.contains(x) by {
        lemma_subtree_member_reaches(m, r, d, id, s2, x);
        lemma_reaches_member(m, r, d, id, s1, x);
    }
    assert(s1 =~= s2);
}

proof fn lemma_reaches_member(
    m: Map<u64, Instance>,
    r: u64,
    d: Map<u64, nat>,
    id: u64,
    s: Set<u64>,
    x: u64,
)
    requires
        table_ok(m, r),
        depth_ok(m, r, d),
        m.contains_key(id),
        subtree_set(m, id, s),
        m.contains_key(x),
        reaches(m, r, d, id, x),
    ensures
        s.contains(x),
    decreases d[x],
{
    if x != id {
        lemma_reaches_member(m, r, d, id, s, parent_id(m[x]));
    }
}

/// A well-formed table whose root has no children holds only its root: every
/// other node's parent chain would have to enter the root's children list.
pub proof fn lemma_childless_root_alone(m: Map<u64, Instance>, r: u64, d: Map<u64, nat>, x: u64)
    requires
        table_ok(m, r),
        depth_ok(m, r, d),
        m[r].children@.len() == 0,
        m.contains_key(x),
    ensures
        x == r,
    decreases d[x],
{
    if x != r {
        let p = parent_id(m[x]);
        lemma_childless_root_alone(m, r, d, p);
        assert(m[r].children@.contains(x));
    }
}

/// How `destroy(id)` relates the old table to the new one: the subtree `s`
/// rooted at `id` is gone, `id` is no longer listed among its former parent's
/// children, and everything else is untouched.
pub open spec fn destroyed_post(
    m0: Map<u64, Instance>,
    m1: Map<u64, Instance>,
    id: u64,
    s: Set<u64>,
) -> bool {
    let p = parent_id(m0[id]);
    &&& subtree_set(m0, id, s)
    &&& s.contains(id)
    &&& m0.contains_key(id)
    &&& !s.contains(p)
    &&& m1.dom() == m0.dom().difference(s)
    &&& exists|k: int|
        {
            &&& 0 <= k < m0[p].children@.len()
            &&& m0[p].children@[k] == id
            &&& m1[p].children@ == m0[p].children@.remove(k)
        }
    &&& m1[p].class == m0[p].class
    &&& m1[p].name == m0[p].name
    &&& m1[p].properties == m0[p].properties
    &&& m1[p].parent == m0[p].parent
    &&& forall|x: u64| #[trigger] m1.contains_key(x) && x != p ==> m1[x] == m0[x]
}

/// How `transfer_within(id, np)` relates the old table to the new one: `id`
/// leaves its former parent's children list, joins the end of `np`'s, and now
/// points at `np`; nothing else changes.
pub open spec fn relinked(m0: Map<u64, Instance>, m1: Map<u64, Instance>, id: u64, np: u64) -> bool {
    let p = parent_id(m0[id]);
    &&& m1.dom() == m0.dom()
    &&& m1[id].class == m0[id].class
    &&& m1[id].name == m0[id].name
    &&& m1[id].properties == m0[id].properties
    &&& m1[id].children == m0[id].children
    &&& m1[id].parent == Some(np)
    &&& if p == np {
        exists|k: int|
            {
                &&& 0 <= k < m0[p].children@.len()
                &&& m0[p].children@[k] == id
                &&& m1[p].children@ == m0[p].children@.remove(k).push(id)
            }
    } else {
        &&& exists|k: int|
            {
                &&& 0 <= k < m0[p].children@.len()
                &&& m0[p].children@[k] == id
                &&& m1[p].children@ == m0[p].children@.remove(k)
            }
        &&& m1[np].children@ == m0[np].children@.push(id)
        &&& m1[np].class == m0[np].class
        &&& m1[np].name == m0[np].name
        &&& m1[np].properties == m0[np].properties
        &&& m1[np].parent == m0[np].parent
    }
    &&& m1[p].class == m0[p].class
    &&& m1[p].name == m0[p].name
    &&& m1[p].properties == m0[p].properties
    &&& m1[p].parent == m0[p].parent
    &&& forall|x: u64|
        #[trigger] m0.contains_key(x) && x != id && x != p && x != np ==> m1[x] == m0[x]
}

/// How `transfer(id, target, np)` relates the two graphs' old tables to the
/// new ones: the subtree `s` rooted at `id` leaves the source exactly as
/// `destroy` would remove it, and lands in the target unchanged — ids, order
/// and contents preserved — with `id` now attached at the end of `np`'s
/// children.
pub open spec fn transferred_post(
    m0s: Map<u64, Instance>,
    m1s: Map<u64, Instance>,
    m0t: Map<u64, Instance>,
    m1t: Map<u64, Instance>,
    id: u64,
    np: u64,
    s: Set<u64>,
) -> bool {
    &&& destroyed_post(m0s, m1s, id, s)
    &&& m0t.contains_key(np)
    &&& s.disjoint(m0t.dom())
    &&& m1t.dom() == m0t.dom().union(s)
    &&& m1t[id].class == m0s[id].class
    &&& m1t[id].name == m0s[id].name
    &&& m1t[id].properties == m0s[id].properties
    &&& m1t[id].children == m0s[id].children
    &&& m1t[id].parent == Some(np)
    &&& forall|x: u64| #[trigger] s.contains(x) && x != id ==> m1t[x] == m0s[x]
    &&& m1t[np].children@ == m0t[np].children@.push(id)
    &&& m1t[np].class == m0t[np].class
    &&& m1t[np].name == m0t[np].name
    &&& m1t[np].properties == m0t[np].properties
    &&& m1t[np].parent == m0t[np].parent
    &&& forall|x: u64| #[trigger] m0t.contains_key(x) && x != np ==> m1t[x] == m0t[x]
}

/// Whether `c` names a present instance called `name`. An id listed among a
/// node's children but missing from the table never matches — inherited
/// lookup behavior.
pub open spec fn child_named(m: Map<u64, Instance>, c: u64, name: Seq<char>) -> bool {
    m.contains_key(c) && m[c].name@ == name
}

/// Whether `c` names a present instance of class `class`.
pub open spec fn child_classed(m: Map<u64, Instance>, c: u64, class: Seq<char>) -> bool {
    m.contains_key(c) && m[c].class@ == class
}

/// The first entry of `cs` naming a present instance called `name`.
pub open spec fn first_child_named(m: Map<u64, Instance>, cs: Seq<u64>, name: Seq<char>) -> Option<
    u64,
>
    decreases cs.len(),
{
    if cs.len() == 0 {
        None
    } else if child_named(m, cs[0], name) {
        Some(cs[0])
    } else {
        first_child_named(m, cs.drop_first(), name)
    }
}

/// The first entry of `cs` naming a present instance of class `class`.
pub open spec fn first_child_classed(
    m: Map<u64, Instance>,
    cs: Seq<u64>,
    class: Seq<char>,
) -> Option<u64>
    decreases cs.len(),
{
    if cs.len() == 0 {
        None
    } else if child_classed(m, cs[0], class) {
        Some(cs[0])
    } else {
        first_child_classed(m, cs.drop_first(), class)
    }
}

proof fn lemma_first_child_named_at(m: Map<u64, Instance>, cs: Seq<u64>, name: Seq<char>, k: int)
    requires
        0 <= k < cs.len(),
        child_named(m, cs[k], name),
        forall|j: int| 0 <= j < k ==> !child_named(m, #[trigger] cs[j], name),
    ensures
        first_child_named(m, cs, name) == Some(cs[k]),
    decreases k,
{
    if k > 0 {
        assert(cs.drop_first()[k - 1] == cs[k]);
        lemma_first_child_named_at(m, cs.drop_first(), name, k - 1);
    }
}

proof fn lemma_first_child_named_none(m: Map<u64, Instance>, cs: Seq<u64>, name: Seq<char>)
    requires
        forall|j: int| 0 <= j < cs.len() ==> !child_named(m, #[trigger] cs[j], name),
    ensures
        first_child_named(m, cs, name) is None,
    decreases cs.len(),
{
    if cs.len() > 0 {
        lemma_first_child_named_none(m, cs.drop_first(), name);
    }
}

proof fn lemma_first_child_classed_at(m: Map<u64, Instance>, cs: Seq<u64>, class: Seq<char>, k: int)
    requires
        0 <= k < cs.len(),
        child_classed(m, cs[k], class),
        forall|j: int| 0 <= j < k ==> !child_classed(m, #[trigger] cs[j], class),
    ensures
        first_child_classed(m, cs, class) == Some(cs[k]),
    decreases k,
{
    if k > 0 {
        assert(cs.drop_first()[k - 1] == cs[k]);
        lemma_first_child_classed_at(m, cs.drop_first(), class, k - 1);
    }
}

proof fn lemma_first_child_classed_none(m: Map<u64, Instance>, cs: Seq<u64>, class: Seq<char>)
    requires
        forall|j: int| 0 <= j < cs.len() ==> !child_classed(m, #[trigger] cs[j], class),
    ensures
        first_child_classed(m, cs, class) is None,
    decreases cs.len(),
{
    if cs.len() > 0 {
        lemma_first_child_classed_none(m, cs.drop_first(), class);
    }
}

/// Finds the first position of `x` in a list of ids.
fn find_id(v: &Vec<u64>, x: u64) -> (r: Option<usize>)
    ensures
        match r {
            Some(k) => 0 <= k < v@.len() && v@[k as int] == x,
            None => !v@.contains(x),
        },
{
    let n = v.len();
    let mut k: usize = 0;
    while k < n
        invariant
            0 <= k <= n,
            n == v@.len(),
            forall|j: int| 0 <= j < k ==> v@[j] != x,
        decreases n - k,
    {
        if v[k] == x {
            return Some(k);
        }
        k += 1;
    }
    None
}

/// Finds the first property entry whose key equals `key`.
fn find_prop(props: &Vec<(String, Variant)>, key: &str) -> (r: Option<usize>)
    ensures
        match r {
            Some(k) => {
                &&& 0 <= k < props@.len()
                &&& (#[trigger] props@[k as int]).0@ == key@
                &&& forall|j: int| 0 <= j < k ==> (#[trigger] props@[j]).0@ != key@
            },
            None => forall|j: int| 0 <= j < props@.len() ==> (#[trigger] props@[j]).0@ != key@,
        },
{
    let n = props.len();
    let mut k: usize = 0;
    while k < n
        invariant
            0 <= k <= n,
            n == props@.len(),
            forall|j: int| 0 <= j < k ==> (#[trigger] props@[j]).0@ != key@,
        decreases n - k,
    {
        if crate::strutil::str_eq(props[k].0.as_str(), key) {
            return Some(k);
        }
        k += 1;
    }
    None
}

/// How a property write relates the old property list to the new one: the
/// first entry whose key matches is overwritten in place (keeping the stored
/// key), and a missing key is appended at the end.
pub open spec fn prop_written(
    before: Seq<(String, Variant)>,
    after: Seq<(String, Variant)>,
    key: String,
    value: Variant,
) -> bool {
    if exists|k: int| 0 <= k < before.len() && (#[trigger] before[k]).0@ == key@ {
        exists|k: int|
            {
                &&& 0 <= k < before.len()
                &&& (#[trigger] before[k]).0@ == key@
                &&& forall|j: int| 0 <= j < k ==> (#[trigger] before[j]).0@ != key@
                &&& after == before.update(k, (before[k].0, value))
            }
    } else {
        after == before.push((key, value))
    }
}

} // verus!
