//! The get-or-create policy for singleton service children of a world root.

use vstd::prelude::*;

use crate::bridge::{class_exists, class_is_service, lookup_class_exists, lookup_class_is_service};
use crate::graph::{Graph, IdSource, Instance};
use crate::strutil::str_eq;
use crate::Error;

verus! {

/// The first entry of `cs` whose instance carries the class `sc`.
pub open spec fn first_with_class(m: Map<u64, Instance>, cs: Seq<u64>, sc: Seq<char>) -> Option<
    u64,
>
    decreases cs.len(),
{
    if cs.len() == 0 {
        None
    } else if m[cs[0]].class@ == sc {
        Some(cs[0])
    } else {
        first_with_class(m, cs.drop_first(), sc)
    }
}

/// A missing first match means no entry matches.
proof fn lemma_first_with_class_none(m: Map<u64, Instance>, cs: Seq<u64>, sc: Seq<char>)
    requires
        forall|j: int| 0 <= j < cs.len() ==> m[#[trigger] cs[j]].class@ != sc,
    ensures
        first_with_class(m, cs, sc) is None,
    decreases cs.len(),
{
    if cs.len() > 0 {
        lemma_first_with_class_none(m, cs.drop_first(), sc);
    }
}

/// The first match sits at the first matching index.
proof fn lemma_first_with_class_at(m: Map<u64, Instance>, cs: Seq<u64>, sc: Seq<char>, k: int)
    requires
        0 <= k < cs.len(),
        m[cs[k]].class@ == sc,
        forall|j: int| 0 <= j < k ==> m[#[trigger] cs[j]].class@ != sc,
    ensures
        first_with_class(m, cs, sc) == Some(cs[k]),
    decreases k,
{
    if k > 0 {
        assert(cs.drop_first()[k - 1] == cs[k]);
        lemma_first_with_class_at(m, cs.drop_first(), sc, k - 1);
    }
}

/// Returns the id of the singleton service child of class `service_class`
/// under `root`, creating it when absent.
///
/// Requires `root` to be a world-root instance (class `DataModel`); consults
/// the reflection database to confirm the class exists (`InvalidClass`
/// otherwise) and is tagged as a service (`NotAService` otherwise). When
/// `root` already has a child of that class, the first such child's id is
/// returned and nothing changes; otherwise one is created. Repeated calls for
/// the same class therefore always return the same id once created.
#[verifier::loop_isolation(false)]
pub fn get_or_create_service(g: &mut Graph, ids: &mut IdSource, root: u64, service_class: &str) -> (r:
    Result<u64, Error>)
    requires
        old(g).wf(),
        old(g).bounded_by(old(ids).spec_next()),
        old(ids).spec_next() < u64::MAX,
    ensures
        final(g).wf(),
        final(g).spec_root() == old(g).spec_root(),
        final(g).bounded_by(final(ids).spec_next()),
        final(ids).spec_next() >= old(ids).spec_next(),
        match r {
            Ok(id) => {
                &&& old(g).model().contains_key(root)
                &&& old(g).model()[root].class@ == "DataModel"@
                &&& class_exists(service_class@)
                &&& class_is_service(service_class@)
                &&& match first_with_class(
                    old(g).model(),
                    old(g).model()[root].children@,
                    service_class@,
                ) {
                    Some(c) => {
                        &&& id == c
                        &&& *final(g) == *old(g)
                        &&& *final(ids) == *old(ids)
                    },
                    None => {
                        &&& id == old(ids).spec_next()
                        &&& final(ids).spec_next() == old(ids).spec_next() + 1
                        &&& !old(g).model().contains_key(id)
                        &&& final(g).model().dom() =~= old(g).model().dom().insert(id)
                        &&& final(g).model()[id].class@ == service_class@
                        &&& final(g).model()[id].name@ == service_class@
                        &&& final(g).model()[id].properties@.len() == 0
                        &&& final(g).model()[id].children@.len() == 0
                        &&& final(g).model()[id].parent == Some(root)
                        &&& final(g).model()[root].children@ == old(g).model()[root].children@.push(
                            id,
                        )
                        &&& final(g).model()[root].class == old(g).model()[root].class
                        &&& final(g).model()[root].name == old(g).model()[root].name
                        &&& final(g).model()[root].properties == old(g).model()[root].properties
                        &&& final(g).model()[root].parent == old(g).model()[root].parent
                        &&& forall|x: u64|
                            x != id && x != root && #[trigger] old(g).model().contains_key(x)
                                ==> final(g).model()[x] == old(g).model()[x]
                    },
                }
            },
            Err(e) => {
                &&& *final(g) == *old(g)
                &&& *final(ids) == *old(ids)
                &&& (e == Error::NotFound <==> !old(g).model().contains_key(root))
                &&& (e == Error::InvalidClass <==> (old(g).model().contains_key(root) && (old(
                    g,
                ).model()[root].class@ != "DataModel"@ || !class_exists(service_class@))))
                &&& (e == Error::NotAService <==> (old(g).model().contains_key(root) && old(
                    g,
                ).model()[root].class@ == "DataModel"@ && class_exists(service_class@)
                    && !class_is_service(service_class@)))
                &&& (e == Error::NotFound || e == Error::InvalidClass || e == Error::NotAService)
            },
        },
{
    let children: Vec<u64> = match g.get(root) {
        Some(inst) => {
            if !str_eq(inst.class.as_str(), "DataModel") {
                return Err(Error::InvalidClass);
            }
            let n = inst.children.len();
            let mut cs: Vec<u64> = Vec::new();
            let mut k: usize = 0;
            while k < n
                invariant
                    0 <= k <= n,
                    n == inst.children@.len(),
                    cs@ == inst.children@.subrange(0, k as int),
                decreases n - k,
            {
                cs.push(inst.children[k]);
                proof {
                    assert(cs@ =~= inst.children@.subrange(0, k + 1));
                }
                k += 1;
            }
            proof {
                assert(cs@ =~= inst.children@);
            }
            cs
        },
        None => {
            return Err(Error::NotFound);
        },
    };
    if !lookup_class_exists(service_class) {
        return Err(Error::InvalidClass);
    }
    if !lookup_class_is_service(service_class) {
        return Err(Error::NotAService);
    }
    let ghost m = g.model();
    let n = children.len();
    let mut k: usize = 0;
    while k < n
        invariant
            0 <= k <= n,
            *g == *old(g),
            g.wf(),
            n == children@.len(),
            children@ == m[root].children@,
            m == g.model(),
            m.contains_key(root),
            forall|j: int| 0 <= j < n ==> m.contains_key(#[trigger] children@[j]),
            forall|j: int| 0 <= j < k ==> m[#[trigger] children@[j]].class@ != service_class@,
        decreases n - k,
    {
        let c = children[k];
        match g.get(c) {
            Some(cinst) => {
                if str_eq(cinst.class.as_str(), service_class) {
                    proof {
                        lemma_first_with_class_at(m, children@, service_class@, k as int);
                    }
                    return Ok(c);
                }
            },
            None => {
                // Unreachable: every listed child is in the table.
                return Err(Error::NotFound);
            },
        }
        k += 1;
    }
    proof {
        lemma_first_with_class_none(m, children@, service_class@);
    }
    let class_string = service_class.to_owned();
    let name_string = service_class.to_owned();
    match g.insert(ids, root, class_string, name_string, Vec::new()) {
        Ok(id) => Ok(id),
        Err(e) => {
            // Unreachable: the root was just found in the table.
            Err(e)
        },
    }
}

/// Law: once a service child exists, another call for the same class returns
/// the identical id and changes nothing — `get_or_create_service` is
/// idempotent by construction.
///
/// The premises are the contract of a first successful call; the conclusion
/// pins what the contract of a second call on the resulting graph must
/// return.
pub proof fn lemma_service_idempotent(
    m0: Map<u64, Instance>,
    m1: Map<u64, Instance>,
    root: u64,
    sc: Seq<char>,
    id: u64,
)
    requires
        m0.contains_key(root),
        match first_with_class(m0, m0[root].children@, sc) {
            Some(c) => id == c && m1 == m0,
            None => {
                &&& !m0.contains_key(id)
                &&& m1.dom() == m0.dom().insert(id)
                &&& m1[id].class@ == sc
                &&& m1[root].children@ == m0[root].children@.push(id)
                &&& forall|x: u64|
                    x != id && x != root && #[trigger] m0.contains_key(x) ==> m1[x] == m0[x]
                &&& forall|j: int|
                    0 <= j < m0[root].children@.len() ==> m0.contains_key(
                        #[trigger] m0[root].children@[j],
                    ) && m0[root].children@[j] != root
            },
        },
    ensures
        first_with_class(m1, m1[root].children@, sc) == Some(id),
        m1.contains_key(root),
{
    match first_with_class(m0, m0[root].children@, sc) {
        Some(c) => {
            lemma_first_with_class_found(m0, m0[root].children@, sc);
        },
        None => {
            let cs0 = m0[root].children@;
            let cs1 = m1[root].children@;
            assert(cs1 == cs0.push(id));
            lemma_first_with_class_none_all(m0, cs0, sc);
            assert forall|j: int| 0 <= j < cs0.len() implies m1[#[trigger] cs1[j]].class@ != sc by {
                assert(cs1[j] == cs0[j]);
                assert(m0.contains_key(cs0[j]));
                if cs0[j] != id && cs0[j] != root {
                    assert(m1[cs0[j]] == m0[cs0[j]]);
                } else {
                    assert(cs0[j] != id);
                    assert(cs0[j] != root);
                }
            }
            assert(cs1[cs0.len() as int] == id);
            assert(m1[id].class@ == sc);
            lemma_first_with_class_at(m1, cs1, sc, cs0.len() as int);
        },
    }
}

/// A `Some` first match is itself listed and matches.
proof fn lemma_first_with_class_found(m: Map<u64, Instance>, cs: Seq<u64>, sc: Seq<char>)
    requires
        first_with_class(m, cs, sc) is Some,
    ensures
        m[first_with_class(m, cs, sc).unwrap()].class@ == sc,
    decreases cs.len(),
{
    if cs.len() > 0 && m[cs[0]].class@ != sc {
        lemma_first_with_class_found(m, cs.drop_first(), sc);
    }
}

/// A missing first match means every entry differs in class.
proof fn lemma_first_with_class_none_all(m: Map<u64, Instance>, cs: Seq<u64>, sc: Seq<char>)
    requires
        first_with_class(m, cs, sc) is None,
    ensures
        forall|j: int| 0 <= j < cs.len() ==> m[#[trigger] cs[j]].class@ != sc,
    decreases cs.len(),
{
    if cs.len() > 0 {
        lemma_first_with_class_none_all(m, cs.drop_first(), sc);
        assert forall|j: int| 0 <= j < cs.len() implies m[#[trigger] cs[j]].class@ != sc by {
            if j > 0 {
                assert(cs.drop_first()[j - 1] == cs[j]);
            }
        }
    }
}

} // verus!
