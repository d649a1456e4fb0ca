//! The headline laws of the instance graph, stated once over the operations'
//! postcondition relations and proved for every well-formed graph.

use vstd::prelude::*;

use crate::graph::{
    child_entry_ok, children_ok, cloned_post, destroyed_post, parent_id, subtree_set, table_ok,
    transferred_post, Instance,
};
use crate::variant::props_like;

verus! {

/// Law: an id returned by `insert` is addressable until `destroy`; after
/// `destroy` it is gone, together with its whole subtree.
///
/// `insert`'s contract gives the first two premises, `destroy`'s the third.
/// Since `destroy` fails with `NotFound` exactly on ids that are absent (or
/// the root), a second `destroy` of the same id must fail.
pub proof fn lemma_insert_then_destroy(
    m0: Map<u64, Instance>,
    m1: Map<u64, Instance>,
    m2: Map<u64, Instance>,
    id: u64,
    s: Set<u64>,
)
    requires
        !m0.contains_key(id),
        m1.dom() == m0.dom().insert(id),
        destroyed_post(m1, m2, id, s),
    ensures
        m1.contains_key(id),
        !m2.contains_key(id),
        forall|x: u64| #[trigger] s.contains(x) ==> !m2.contains_key(x),
{
    assert(s.contains(id));
    assert(m2.dom() == m1.dom().difference(s));
}

/// Law: the children list of `p` holds exactly the ids currently attached to
/// `p` — the nodes whose parent is `p` — in attachment order and without
/// duplicates. `children(p)` returns exactly this list.
pub proof fn lemma_children_exact(m: Map<u64, Instance>, r: u64, p: u64)
    requires
        table_ok(m, r),
        m.contains_key(p),
    ensures
        forall|x: u64|
            m[p].children@.contains(x) <==> (#[trigger] m.contains_key(x) && m[x].parent == Some(
                p,
            )),
        forall|k1: int, k2: int|
            0 <= k1 < k2 < m[p].children@.len() ==> m[p].children@[k1] != m[p].children@[k2],
{
    assert(children_ok(m, r, p));
    assert forall|x: u64|
        m[p].children@.contains(x) <==> (#[trigger] m.contains_key(x) && m[x].parent == Some(
            p,
        )) by {
        if m[p].children@.contains(x) {
            let k = choose|k: int| 0 <= k < m[p].children@.len() && m[p].children@[k] == x;
            assert(child_entry_ok(m, r, p, x));
        }
        if m.contains_key(x) && m[x].parent == Some(p) {
            assert(x != r);
            assert(m[parent_id(m[x])].children@.contains(x));
        }
    }
}

/// Law: `clone` yields a subtree isomorphic to the original — same class,
/// name, properties and shape node for node — under all-fresh ids disjoint
/// from the source, and leaves the original subtree untouched.
pub proof fn lemma_clone_isomorphic(
    m0: Map<u64, Instance>,
    m1: Map<u64, Instance>,
    id: u64,
    parent: u64,
    new_id: u64,
    f: Map<u64, u64>,
    s: Set<u64>,
)
    requires
        cloned_post(m0, m1, id, parent, new_id, f, s),
    ensures
        // Fresh ids, disjoint from every id of the source table.
        forall|x: u64| #[trigger] s.contains(x) ==> !m0.contains_key(f[x]),
        forall|x: u64, y: u64|
            s.contains(x) && s.contains(y) && #[trigger] f[x] == #[trigger] f[y] ==> x == y,
        // The original subtree is untouched (its nodes are not the
        // attachment parent, whose children list grew by the copy's root).
        forall|x: u64| #[trigger] s.contains(x) && x != parent ==> m1[x] == m0[x],
        // Same class, name and properties, node for node.
        forall|x: u64|
            #[trigger] s.contains(x) ==> m1[f[x]].class == m0[x].class && m1[f[x]].name
                == m0[x].name && props_like(m1[f[x]].properties@, m0[x].properties@),
        // Same shape: each copy's children are the copies of the original's
        // children, in the same order.
        forall|x: u64|
            #[trigger] s.contains(x) ==> m1[f[x]].children@.len() == m0[x].children@.len()
                && (forall|k: int|
                0 <= k < m0[x].children@.len() ==> m1[f[x]].children@[k] == f[
                    #[trigger] m0[x].children@[k]
                ]),
{
    assert forall|x: u64| #[trigger] s.contains(x) implies m1[f[x]].children@.len()
        == m0[x].children@.len() && (forall|k: int|
        0 <= k < m0[x].children@.len() ==> m1[f[x]].children@[k] == f[
            #[trigger] m0[x].children@[k]
        ]) by {
        assert(m1[f[x]].children@ == m0[x].children@.map_values(|c: u64| f[c]));
    }
}

/// Law: after `transfer(id, target, np)`, every id of the moved subtree is
/// unaddressable in the source graph and addressable in the target graph; the
/// subtree itself arrives unchanged, with `id` reattached under `np`.
pub proof fn lemma_transfer_moves(
    m0s: Map<u64, Instance>,
    m1s: Map<u64, Instance>,
    m0t: Map<u64, Instance>,
    m1t: Map<u64, Instance>,
    id: u64,
    np: u64,
    s: Set<u64>,
)
    requires
        transferred_post(m0s, m1s, m0t, m1t, id, np, s),
    ensures
        subtree_set(m0s, id, s),
        s.contains(id),
        forall|x: u64| #[trigger] s.contains(x) ==> !m1s.contains_key(x),
        forall|x: u64| #[trigger] s.contains(x) ==> m1t.contains_key(x),
        forall|x: u64| #[trigger] s.contains(x) && x != id ==> m1t[x] == m0s[x],
        m1t[id].class == m0s[id].class,
        m1t[id].name == m0s[id].name,
        m1t[id].properties == m0s[id].properties,
        m1t[id].children == m0s[id].children,
        m1t[id].parent == Some(np),
        m1t[np].children@ == m0t[np].children@.push(id),
{
    assert(m1s.dom() == m0s.dom().difference(s));
    assert(m1t.dom() == m0t.dom().union(s));
}

} // verus!
