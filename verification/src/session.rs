//! The state global to one scripting session: the shared master graph, the
//! id source it draws from, and the credentials handed in at startup.

use vstd::prelude::*;

use crate::graph::{Graph, IdSource};

verus! {

/// One session's shared state, created at session start and passed to every
/// operation rather than kept as ambient global state.
pub struct RemodelContext {
    /// The shared instance graph of the session.
    pub master_tree: Graph,
    /// The id source every graph of the session draws from.
    pub ids: IdSource,
    /// The session cookie, if one was handed in.
    pub auth_cookie: Option<String>,
    /// The cloud API key, if one was handed in.
    pub api_key: Option<String>,
}

impl RemodelContext {
    /// The session cookie, if one was handed in.
    pub open spec fn spec_auth_cookie(&self) -> Option<String> {
        self.auth_cookie
    }

    /// The cloud API key, if one was handed in.
    pub open spec fn spec_api_key(&self) -> Option<String> {
        self.api_key
    }

    /// Creates a session: a fresh id source and a master graph holding only
    /// the session's root sentinel.
    pub fn new(auth_cookie: Option<String>, api_key: Option<String>) -> (s: Self)
        ensures
            s.master_tree.wf(),
            s.master_tree.bounded_by(s.ids.spec_next()),
            s.master_tree.model().dom() =~= set![s.master_tree.spec_root()],
            s.master_tree.model()[s.master_tree.spec_root()].class@ == "RemodelRoot"@,
            s.master_tree.model()[s.master_tree.spec_root()].children@.len() == 0,
            s.ids.spec_next() < u64::MAX,
            s.spec_auth_cookie() == auth_cookie,
            s.spec_api_key() == api_key,
    {
        let mut ids = IdSource::new();
        let master_tree = Graph::new(&mut ids, "RemodelRoot".to_owned());
        RemodelContext { master_tree, ids, auth_cookie, api_key }
    }

    /// The session cookie, if one was handed in.
    pub fn auth_cookie(&self) -> (r: Option<&String>)
        ensures
            match r {
                Some(c) => self.spec_auth_cookie() == Some(*c),
                None => self.spec_auth_cookie() is None,
            },
    {
        self.auth_cookie.as_ref()
    }

    /// The cloud API key, if one was handed in.
    pub fn api_key(&self) -> (r: Option<&String>)
        ensures
            match r {
                Some(c) => self.spec_api_key() == Some(*c),
                None => self.spec_api_key() is None,
            },
    {
        self.api_key.as_ref()
    }
}

} // verus!
