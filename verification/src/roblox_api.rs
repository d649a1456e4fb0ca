//! The scripting-surface constructor for new instances, validated against the
//! reflection database.

use vstd::prelude::*;

use crate::bridge::{class_exists, lookup_class_exists};
use crate::graph::{Graph, IdSource};
use crate::Error;

verus! {

/// The constructor surface handed to scripts.
pub struct RobloxApi;

impl RobloxApi {
    /// Creates an instance of the named class under the graph's root.
    ///
    /// Fails with `InvalidClass` when the reflection database does not list
    /// the class; a failed call changes nothing.
    pub fn new_instance(g: &mut Graph, ids: &mut IdSource, class_name: &str) -> (r: Result<
        u64,
        Error,
    >)
        requires
            old(g).wf(),
            old(g).bounded_by(old(ids).spec_next()),
            old(ids).spec_next() < u64::MAX,
        ensures
            final(g).wf(),
            final(g).spec_root() == old(g).spec_root(),
            final(g).bounded_by(final(ids).spec_next()),
            match r {
                Ok(id) => {
                    &&& class_exists(class_name@)
                    &&& id == old(ids).spec_next()
                    &&& !old(g).model().contains_key(id)
                    &&& final(g).model().dom() =~= old(g).model().dom().insert(id)
                    &&& final(g).model()[id].class@ == class_name@
                    &&& final(g).model()[id].name@ == class_name@
                    &&& final(g).model()[id].parent == Some(old(g).spec_root())
                    &&& final(g).model()[id].children@.len() == 0
                },
                Err(e) => {
                    &&& e == Error::InvalidClass
                    &&& !class_exists(class_name@)
                    &&& *final(g) == *old(g)
                    &&& *final(ids) == *old(ids)
                },
            },
    {
        if !lookup_class_exists(class_name) {
            return Err(Error::InvalidClass);
        }
        let root = g.root_ref();
        let class_string = class_name.to_owned();
        let name_string = class_name.to_owned();
        match g.insert(ids, root, class_string, name_string, Vec::new()) {
            Ok(id) => Ok(id),
            Err(e) => {
                // Unreachable: a graph always holds its root.
                Err(e)
            },
        }
    }
}

} // verus!
