use remodel::graph::{Graph, IdSource};
use remodel::import::Remodel;
use remodel::roblox_api::RobloxApi;
use remodel::service::get_or_create_service;
use remodel::session::RemodelContext;
use remodel::Error;

fn folder(g: &mut Graph, ids: &mut IdSource, parent: u64, name: &str) -> u64 {
    g.insert(ids, parent, "Folder".to_string(), name.to_string(), Vec::new())
        .unwrap()
}

#[test]
fn get_service_twice_returns_the_same_id() {
    let mut ids = IdSource::new();
    let mut g = Graph::new(&mut ids, "RemodelRoot".to_string());
    let root = g.root_ref();
    let dm = g
        .insert(&mut ids, root, "DataModel".to_string(), "DataModel".to_string(), Vec::new())
        .unwrap();

    let first = get_or_create_service(&mut g, &mut ids, dm, "Workspace").unwrap();
    let second = get_or_create_service(&mut g, &mut ids, dm, "Workspace").unwrap();
    assert_eq!(first, second);
    assert_eq!(g.get(first).unwrap().class, "Workspace");
    assert_eq!(g.children(dm), Ok(vec![first]));
}

#[test]
fn service_resolution_errors_are_typed() {
    let mut ids = IdSource::new();
    let mut g = Graph::new(&mut ids, "RemodelRoot".to_string());
    let root = g.root_ref();
    let dm = g
        .insert(&mut ids, root, "DataModel".to_string(), "DataModel".to_string(), Vec::new())
        .unwrap();
    let plain = folder(&mut g, &mut ids, root, "NotAWorld");

    // Only a world root may resolve services.
    assert_eq!(
        get_or_create_service(&mut g, &mut ids, plain, "Workspace"),
        Err(Error::InvalidClass)
    );
    // A class the reflection database does not list.
    assert_eq!(
        get_or_create_service(&mut g, &mut ids, dm, "NoSuchClassAnywhere"),
        Err(Error::InvalidClass)
    );
    // A real class that is not tagged as a service.
    assert_eq!(
        get_or_create_service(&mut g, &mut ids, dm, "Part"),
        Err(Error::NotAService)
    );
    // A missing instance.
    assert_eq!(
        get_or_create_service(&mut g, &mut ids, 4242, "Workspace"),
        Err(Error::NotFound)
    );
}

#[test]
fn new_instance_validates_its_class() {
    let mut ctx = RemodelContext::new(None, None);
    let id = RobloxApi::new_instance(&mut ctx.master_tree, &mut ctx.ids, "Folder").unwrap();
    assert_eq!(ctx.master_tree.get(id).unwrap().class, "Folder");
    assert_eq!(
        RobloxApi::new_instance(&mut ctx.master_tree, &mut ctx.ids, "NoSuchClassAnywhere"),
        Err(Error::InvalidClass)
    );
}

#[test]
fn import_as_root_wraps_the_world() {
    let mut ids = IdSource::new();
    let mut master = Graph::new(&mut ids, "RemodelRoot".to_string());
    let mut source = Graph::new(&mut ids, "RemodelRoot".to_string());
    let sroot = source.root_ref();
    let x = folder(&mut source, &mut ids, sroot, "X");
    let y = folder(&mut source, &mut ids, sroot, "Y");
    let deep = folder(&mut source, &mut ids, x, "Deep");
    let mroot = master.root_ref();
    let kept = folder(&mut master, &mut ids, mroot, "Kept");

    let nid = Remodel::import_tree_root(&mut master, &mut ids, &mut source).unwrap();

    // The wrapper is a world root holding the two children, in order and
    // under their original ids, with their subtrees intact.
    assert_eq!(master.get(nid).unwrap().class, "DataModel");
    assert_eq!(master.children(nid), Ok(vec![x, y]));
    assert_eq!(master.get(x).unwrap().name, "X");
    assert_eq!(master.get(y).unwrap().name, "Y");
    assert_eq!(master.children(x), Ok(vec![deep]));
    assert_eq!(master.get(deep).unwrap().parent, Some(x));

    // The master's own instances are untouched, the wrapper appended after
    // them under its root.
    assert_eq!(master.get(kept).unwrap().name, "Kept");
    assert_eq!(master.children(mroot), Ok(vec![kept, nid]));

    // The source graph no longer addresses anything but its root.
    assert!(source.get(x).is_none());
    assert!(source.get(y).is_none());
    assert!(source.get(deep).is_none());
    assert_eq!(source.children(sroot), Ok(vec![]));
}

#[test]
fn import_as_children_attaches_directly_to_the_root() {
    let mut ids = IdSource::new();
    let mut master = Graph::new(&mut ids, "RemodelRoot".to_string());
    let mut source = Graph::new(&mut ids, "RemodelRoot".to_string());
    let sroot = source.root_ref();
    let x = folder(&mut source, &mut ids, sroot, "X");
    let y = folder(&mut source, &mut ids, sroot, "Y");
    let deep = folder(&mut source, &mut ids, y, "Deep");

    let moved = Remodel::import_tree_children(&mut master, &mut source).unwrap();
    assert_eq!(moved, vec![x, y]);
    let mroot = master.root_ref();
    assert_eq!(master.children(mroot), Ok(vec![x, y]));
    assert_eq!(master.get(x).unwrap().parent, Some(mroot));
    assert_eq!(master.children(y), Ok(vec![deep]));
    assert!(source.get(x).is_none());
    assert!(source.get(y).is_none());
    assert!(source.get(deep).is_none());
}

#[test]
fn session_keeps_its_credentials() {
    let ctx = RemodelContext::new(Some("SECRET-REDACTED".to_string()), None);
    assert_eq!(ctx.auth_cookie(), Some(&"SECRET-REDACTED".to_string()));
    assert_eq!(ctx.api_key(), None);
    let root = ctx.master_tree.root_ref();
    assert_eq!(ctx.master_tree.get(root).unwrap().class, "RemodelRoot");
}
