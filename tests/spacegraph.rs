use maruc::spacegraph::{CycleError, SpaceGraph, SpaceReference};

fn space(g: &mut SpaceGraph, id: &str) -> SpaceReference {
    g.new_space(id.to_string())
}

#[test]
fn test_add_child() {
    let mut g = SpaceGraph::new();
    let parent = space(&mut g, "!parent:example.org");
    let child = space(&mut g, "!child:example.org");
    assert!(g.space(parent).children().is_empty());

    // adding a child works
    assert!(g.add_child(parent, child).is_ok());
    assert!(g.space(child).children().is_empty());
    assert_eq!(g.space(parent).children(), vec![child]);

    // creating a cycle doesn't
    assert!(g.add_child(child, parent).is_err());

    let grandchild = space(&mut g, "!grandchild:example.org");

    // adding a grandchild works
    assert!(g.add_child(child, grandchild).is_ok());

    // creating a cycle doesn't
    assert!(g.add_child(grandchild, parent).is_err());
}

#[test]
fn test_self_add_child_fails() {
    let mut g = SpaceGraph::new();
    let node = space(&mut g, "!parent:example.org");

    assert!(g.add_child(node, node).is_err());
}

#[test]
fn new_space_holds_its_room_id_and_nothing_else() {
    let mut g = SpaceGraph::new();
    assert_eq!(g.len(), 0);
    let a = space(&mut g, "!a:example.org");
    let b = space(&mut g, "!b:example.org");
    assert_eq!(g.len(), 2);
    assert_ne!(a, b);
    assert_eq!(g.space(a).room_id(), "!a:example.org");
    assert_eq!(g.space(b).room_id(), "!b:example.org");
    assert!(g.space(a).contained_rooms().is_empty());
    assert!(g.space(a).children().is_empty());
}

#[test]
fn added_child_appears_once_more_at_the_end() {
    let mut g = SpaceGraph::new();
    let p = space(&mut g, "!p:example.org");
    let c = space(&mut g, "!c:example.org");
    let d = space(&mut g, "!d:example.org");
    assert_eq!(g.add_child(p, c), Ok(()));
    assert_eq!(g.add_child(p, d), Ok(()));
    assert_eq!(g.space(p).children(), vec![c, d]);
    // the same child may be added along a second edge
    assert_eq!(g.add_child(p, c), Ok(()));
    assert_eq!(g.space(p).children(), vec![c, d, c]);
}

#[test]
fn self_edge_reports_both_ends_and_changes_nothing() {
    let mut g = SpaceGraph::new();
    let n = space(&mut g, "!n:example.org");
    let m = space(&mut g, "!m:example.org");
    assert_eq!(g.add_child(n, m), Ok(()));
    assert_eq!(g.add_child(n, n), Err(CycleError { parent: n, child: n }));
    assert_eq!(g.space(n).children(), vec![m]);
}

#[test]
fn transitive_cycle_is_refused() {
    let mut g = SpaceGraph::new();
    let a = space(&mut g, "!a:example.org");
    let b = space(&mut g, "!b:example.org");
    let c = space(&mut g, "!c:example.org");
    assert!(g.add_child(a, b).is_ok());
    assert!(g.add_child(b, c).is_ok());
    let a_before = g.space(a).children();
    assert_eq!(g.add_child(c, a), Err(CycleError { parent: c, child: a }));
    assert_eq!(g.space(a).children(), a_before);
    assert!(g.space(c).children().is_empty());
}

#[test]
fn shared_child_is_no_cycle() {
    let mut g = SpaceGraph::new();
    let a = space(&mut g, "!a:example.org");
    let b = space(&mut g, "!b:example.org");
    let c = space(&mut g, "!c:example.org");
    assert!(g.add_child(a, b).is_ok());
    assert!(g.add_child(a, c).is_ok());
    assert!(g.add_child(b, c).is_ok());
    assert!(g.add_child(c, a).is_err());
    assert!(g.add_child(c, b).is_err());
}

#[test]
fn insert_room_keeps_duplicates() {
    let mut g = SpaceGraph::new();
    let s = space(&mut g, "!s:example.org");
    g.insert_room(s, "!room:x");
    g.insert_room(s, "!room:y");
    g.insert_room(s, "!room:x");
    assert_eq!(
        g.space(s).contained_rooms(),
        &vec!["!room:x".to_string(), "!room:y".to_string(), "!room:x".to_string()]
    );
    assert!(g.space(s).children().is_empty());
}

#[test]
fn traverse_visits_once_per_path() {
    let mut g = SpaceGraph::new();
    let a = space(&mut g, "!a:example.org");
    let b = space(&mut g, "!b:example.org");
    let c = space(&mut g, "!c:example.org");
    let d = space(&mut g, "!d:example.org");
    let other = space(&mut g, "!other:example.org");
    assert!(g.add_child(a, b).is_ok());
    assert!(g.add_child(a, c).is_ok());
    assert!(g.add_child(b, d).is_ok());
    assert!(g.add_child(c, d).is_ok());
    assert!(g.add_child(other, a).is_ok());
    // d is reached through b and through c, so it is visited twice
    assert_eq!(g.traverse(a), vec![a, c, d, b, d]);
    assert!(!g.traverse(a).contains(&other));
    assert_eq!(g.traverse(d), vec![d]);
    assert_eq!(g.traverse(other), vec![other, a, c, d, b, d]);
}

#[test]
fn traverse_is_depth_first() {
    let mut g = SpaceGraph::new();
    let a = space(&mut g, "!a:example.org");
    let b = space(&mut g, "!b:example.org");
    let c = space(&mut g, "!c:example.org");
    let d = space(&mut g, "!d:example.org");
    assert!(g.add_child(a, b).is_ok());
    assert!(g.add_child(a, c).is_ok());
    assert!(g.add_child(c, d).is_ok());
    // the last child pushed is visited first, and its subtree before its siblings
    assert_eq!(g.traverse(a), vec![a, c, d, b]);
}
