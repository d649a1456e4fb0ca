use remodel::graph::{Graph, IdSource};
use remodel::variant::Variant;
use remodel::Error;

fn folder(g: &mut Graph, ids: &mut IdSource, parent: u64, name: &str) -> u64 {
    g.insert(ids, parent, "Folder".to_string(), name.to_string(), Vec::new())
        .unwrap()
}

#[test]
fn insert_get_destroy_lifecycle() {
    let mut ids = IdSource::new();
    let mut g = Graph::new(&mut ids, "RemodelRoot".to_string());
    let root = g.root_ref();
    let a = folder(&mut g, &mut ids, root, "A");

    // Addressable after insert, with the fields it was built from.
    let inst = g.get(a).expect("inserted id must be addressable");
    assert_eq!(inst.class, "Folder");
    assert_eq!(inst.name, "A");
    assert_eq!(inst.parent, Some(root));

    // Gone after destroy, and a second destroy fails rather than masking the
    // stale handle.
    assert_eq!(g.destroy(a), Ok(()));
    assert!(g.get(a).is_none());
    assert_eq!(g.destroy(a), Err(Error::NotFound));

    // Ids are never reused: a new instance gets a fresh id.
    let b = folder(&mut g, &mut ids, root, "B");
    assert_ne!(a, b);
}

#[test]
fn destroy_removes_whole_subtree() {
    let mut ids = IdSource::new();
    let mut g = Graph::new(&mut ids, "RemodelRoot".to_string());
    let root = g.root_ref();
    let a = folder(&mut g, &mut ids, root, "A");
    let b = folder(&mut g, &mut ids, a, "B");
    let c = folder(&mut g, &mut ids, b, "C");

    assert_eq!(g.destroy(a), Ok(()));
    assert!(g.get(a).is_none());
    assert!(g.get(b).is_none());
    assert!(g.get(c).is_none());
    assert_eq!(g.children(root), Ok(vec![]));
}

#[test]
fn destroy_of_root_and_missing_parent_fail() {
    let mut ids = IdSource::new();
    let mut g = Graph::new(&mut ids, "RemodelRoot".to_string());
    let root = g.root_ref();
    assert_eq!(g.destroy(root), Err(Error::NotFound));
    let r = g.insert(&mut ids, 0, "Folder".to_string(), "X".to_string(), Vec::new());
    assert_eq!(r, Err(Error::NotFound));
}

#[test]
fn children_lists_attachment_order() {
    let mut ids = IdSource::new();
    let mut g = Graph::new(&mut ids, "RemodelRoot".to_string());
    let root = g.root_ref();
    let a = folder(&mut g, &mut ids, root, "A");
    let b = folder(&mut g, &mut ids, root, "B");
    let c = folder(&mut g, &mut ids, root, "C");
    assert_eq!(g.children(root), Ok(vec![a, b, c]));

    assert_eq!(g.destroy(b), Ok(()));
    assert_eq!(g.children(root), Ok(vec![a, c]));

    assert_eq!(g.children(9999), Err(Error::NotFound));
}

#[test]
fn clone_copies_shape_with_fresh_ids() {
    let mut ids = IdSource::new();
    let mut g = Graph::new(&mut ids, "RemodelRoot".to_string());
    let root = g.root_ref();
    let a = folder(&mut g, &mut ids, root, "A");
    let b = folder(&mut g, &mut ids, a, "B");
    let c = folder(&mut g, &mut ids, b, "C");

    let a2 = g.clone_instance(&mut ids, a).expect("clone must succeed");
    assert_ne!(a2, a);

    // The copy sits under the same parent, after the original.
    assert_eq!(g.children(root), Ok(vec![a, a2]));

    // Same shape and names, all-new ids.
    let a2_kids = g.children(a2).unwrap();
    assert_eq!(a2_kids.len(), 1);
    let b2 = a2_kids[0];
    let b2_kids = g.children(b2).unwrap();
    assert_eq!(b2_kids.len(), 1);
    let c2 = b2_kids[0];
    for fresh in [a2, b2, c2] {
        assert!(fresh != a && fresh != b && fresh != c);
    }
    assert_eq!(g.get(b2).unwrap().name, "B");
    assert_eq!(g.get(c2).unwrap().name, "C");

    // The original subtree is untouched.
    assert_eq!(g.children(a), Ok(vec![b]));
    assert_eq!(g.children(b), Ok(vec![c]));
}

#[test]
fn transfer_within_reparents_and_rejects_cycles() {
    let mut ids = IdSource::new();
    let mut g = Graph::new(&mut ids, "RemodelRoot".to_string());
    let root = g.root_ref();
    let a = folder(&mut g, &mut ids, root, "A");
    let b = folder(&mut g, &mut ids, root, "B");

    assert_eq!(g.transfer_within(b, a), Ok(()));
    assert_eq!(g.children(a), Ok(vec![b]));
    assert_eq!(g.children(root), Ok(vec![a]));
    assert_eq!(g.get(b).unwrap().parent, Some(a));

    // Attaching a node under its own descendant would make a cycle.
    assert_eq!(g.transfer_within(a, b), Err(Error::WouldCycle));
    assert_eq!(g.transfer_within(a, a), Err(Error::WouldCycle));
    assert_eq!(g.transfer_within(root, a), Err(Error::NotFound));
}

#[test]
fn transfer_moves_subtree_between_graphs() {
    let mut ids = IdSource::new();
    let mut g1 = Graph::new(&mut ids, "RemodelRoot".to_string());
    let mut g2 = Graph::new(&mut ids, "RemodelRoot".to_string());
    let r1 = g1.root_ref();
    let r2 = g2.root_ref();
    let a = folder(&mut g1, &mut ids, r1, "A");
    let b = folder(&mut g1, &mut ids, a, "B");

    assert_eq!(g1.transfer(a, &mut g2, r2), Ok(()));

    // Unaddressable in the source, addressable in the target, ids preserved.
    assert!(g1.get(a).is_none());
    assert!(g1.get(b).is_none());
    assert_eq!(g2.get(a).unwrap().name, "A");
    assert_eq!(g2.get(b).unwrap().name, "B");
    assert_eq!(g2.children(r2), Ok(vec![a]));
    assert_eq!(g2.children(a), Ok(vec![b]));
}

#[test]
fn transfer_rejects_id_collisions() {
    // Two sessions with their own id sources can mint the same ids; a
    // transfer between their graphs must refuse to alias them.
    let mut ids1 = IdSource::new();
    let mut ids2 = IdSource::new();
    let mut g1 = Graph::new(&mut ids1, "RemodelRoot".to_string());
    let mut g2 = Graph::new(&mut ids2, "RemodelRoot".to_string());
    let r1 = g1.root_ref();
    let r2 = g2.root_ref();
    let a1 = folder(&mut g1, &mut ids1, r1, "A");
    let _a2 = folder(&mut g2, &mut ids2, r2, "A");
    assert_eq!(g1.transfer(a1, &mut g2, r2), Err(Error::IdCollision));
    // The failed call changed neither graph.
    assert_eq!(g1.get(a1).unwrap().name, "A");
    assert_eq!(g2.children(r2).unwrap().len(), 1);
}

#[test]
fn set_name_renames_in_place() {
    let mut ids = IdSource::new();
    let mut g = Graph::new(&mut ids, "RemodelRoot".to_string());
    let root = g.root_ref();
    let a = folder(&mut g, &mut ids, root, "A");
    assert_eq!(g.set_name(a, "Renamed".to_string()), Ok(()));
    assert_eq!(g.get(a).unwrap().name, "Renamed");
    assert_eq!(g.set_name(777, "X".to_string()), Err(Error::NotFound));
}

#[test]
fn raw_properties_read_back() {
    let mut ids = IdSource::new();
    let mut g = Graph::new(&mut ids, "RemodelRoot".to_string());
    let root = g.root_ref();
    let a = folder(&mut g, &mut ids, root, "A");
    assert_eq!(
        g.set_raw_property(a, "Health".to_string(), Variant::Int32(99)),
        Ok(())
    );
    assert_eq!(g.get_raw_property(a, "Health"), Ok(Some(&Variant::Int32(99))));
    assert_eq!(g.get_raw_property(a, "Missing"), Ok(None));
    assert_eq!(
        g.set_raw_property(a, "Health".to_string(), Variant::Int32(50)),
        Ok(())
    );
    assert_eq!(g.get_raw_property(a, "Health"), Ok(Some(&Variant::Int32(50))));
    assert_eq!(g.get_raw_property(12345, "Health"), Err(Error::NotFound));
}

#[test]
fn find_first_child_scans_in_order() {
    let mut ids = IdSource::new();
    let mut g = Graph::new(&mut ids, "RemodelRoot".to_string());
    let root = g.root_ref();
    let a = folder(&mut g, &mut ids, root, "Twin");
    let _b = folder(&mut g, &mut ids, root, "Twin");
    let c = g
        .insert(&mut ids, root, "Part".to_string(), "Solo".to_string(), Vec::new())
        .unwrap();

    assert_eq!(g.find_first_child(root, "Twin"), Ok(Some(a)));
    assert_eq!(g.find_first_child(root, "Solo"), Ok(Some(c)));
    assert_eq!(g.find_first_child(root, "Missing"), Ok(None));
    assert_eq!(g.find_first_child(4040, "Twin"), Err(Error::NotFound));
    assert_eq!(g.find_first_child_of_class(root, "Part"), Ok(Some(c)));
    assert_eq!(g.find_first_child_of_class(root, "Folder"), Ok(Some(a)));
    assert_eq!(g.find_first_child_of_class(root, "Script"), Ok(None));
}
