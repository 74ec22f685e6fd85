use maruc::builder::{build_graph, Diagnostic, FetchError};
use maruc::spacegraph::{CycleError, SpaceReference};

fn ids(v: &[&str]) -> Vec<String> {
    v.iter().map(|s| s.to_string()).collect()
}

fn recs(v: &[&str]) -> Result<Vec<Option<String>>, FetchError> {
    Ok(v.iter().map(|s| Some(s.to_string())).collect())
}

fn r(i: usize) -> SpaceReference {
    SpaceReference { index: i }
}

#[test]
fn three_cycle_keeps_a_chain() {
    let known = ids(&["X", "Y", "Z"]);
    let fetched = vec![recs(&["Y"]), recs(&["Z"]), recs(&["X"])];
    let h = build_graph(&known, &fetched);
    assert_eq!(h.graph.space(r(0)).children(), vec![r(1)]);
    assert_eq!(h.graph.space(r(1)).children(), vec![r(2)]);
    assert!(h.graph.space(r(2)).children().is_empty());
    assert_eq!(h.diagnostics, vec![Diagnostic::Cycle(CycleError { parent: r(2), child: r(0) })]);
    assert_eq!(h.roots, vec![r(0)]);
}

#[test]
fn space_and_room_records() {
    let known = ids(&["A", "B"]);
    let fetched = vec![recs(&["B", "!room:x"]), recs(&[])];
    let h = build_graph(&known, &fetched);
    assert_eq!(h.graph.space(r(0)).children(), vec![r(1)]);
    assert_eq!(h.graph.space(r(0)).contained_rooms(), &vec!["!room:x".to_string()]);
    assert!(h.graph.space(r(1)).children().is_empty());
    assert!(h.graph.space(r(1)).contained_rooms().is_empty());
    assert_eq!(h.roots, vec![r(0)]);
    assert!(h.diagnostics.is_empty());
}

#[test]
fn failed_fetch_does_not_abort_the_build() {
    let known = ids(&["A", "B"]);
    let fetched = vec![recs(&["B"]), Err(FetchError)];
    let h = build_graph(&known, &fetched);
    assert_eq!(h.graph.len(), 2);
    assert!(h.graph.space(r(1)).children().is_empty());
    assert!(h.graph.space(r(1)).contained_rooms().is_empty());
    assert_eq!(h.diagnostics, vec![Diagnostic::FetchFailed(r(1))]);
    // the record of A itself was retrieved, so its edge to B stands
    assert_eq!(h.graph.space(r(0)).children(), vec![r(1)]);
    assert_eq!(h.roots, vec![r(0)]);
}

#[test]
fn failed_fetch_of_the_parent_leaves_it_empty() {
    let known = ids(&["A", "B"]);
    let fetched = vec![Err(FetchError), recs(&["!room:y"])];
    let h = build_graph(&known, &fetched);
    assert!(h.graph.space(r(0)).children().is_empty());
    assert_eq!(h.graph.space(r(1)).contained_rooms(), &vec!["!room:y".to_string()]);
    assert_eq!(h.roots, vec![r(0), r(1)]);
    assert_eq!(h.diagnostics, vec![Diagnostic::FetchFailed(r(0))]);
}

#[test]
fn malformed_record_is_skipped() {
    let known = ids(&["A", "B"]);
    let fetched = vec![Ok(vec![None, Some("B".to_string())]), recs(&[])];
    let h = build_graph(&known, &fetched);
    assert_eq!(h.graph.space(r(0)).children(), vec![r(1)]);
    assert_eq!(h.diagnostics, vec![Diagnostic::Malformed(r(0))]);
}

#[test]
fn self_record_is_refused() {
    let known = ids(&["A"]);
    let fetched = vec![recs(&["A", "!room:z"])];
    let h = build_graph(&known, &fetched);
    assert!(h.graph.space(r(0)).children().is_empty());
    assert_eq!(h.graph.space(r(0)).contained_rooms(), &vec!["!room:z".to_string()]);
    assert_eq!(h.diagnostics, vec![Diagnostic::Cycle(CycleError { parent: r(0), child: r(0) })]);
    assert_eq!(h.roots, vec![r(0)]);
}

#[test]
fn acyclic_reports_give_the_same_structure_in_any_order() {
    // the same relationships, with the spaces listed in two orders
    let known1 = ids(&["A", "B", "C", "D"]);
    let fetched1 = vec![recs(&["B", "C"]), recs(&["D"]), recs(&["D", "!r"]), recs(&[])];
    let known2 = ids(&["D", "C", "B", "A"]);
    let fetched2 = vec![recs(&[]), recs(&["D", "!r"]), recs(&["D"]), recs(&["B", "C"])];
    let h1 = build_graph(&known1, &fetched1);
    let h2 = build_graph(&known2, &fetched2);
    assert!(h1.diagnostics.is_empty());
    assert!(h2.diagnostics.is_empty());
    let edges = |h: &maruc::builder::SpaceHierarchy| {
        let mut e: Vec<(String, String)> = Vec::new();
        for i in 0..h.graph.len() {
            let p = h.graph.space(r(i));
            for c in p.children() {
                e.push((p.room_id().to_string(), h.graph.space(c).room_id().to_string()));
            }
        }
        e.sort();
        e
    };
    assert_eq!(edges(&h1), edges(&h2));
    let root_ids = |h: &maruc::builder::SpaceHierarchy| {
        h.roots.iter().map(|x| h.graph.space(*x).room_id().to_string()).collect::<Vec<_>>()
    };
    assert_eq!(root_ids(&h1), vec!["A".to_string()]);
    assert_eq!(root_ids(&h2), vec!["A".to_string()]);
}

#[test]
fn empty_build() {
    let h = build_graph(&Vec::new(), &Vec::new());
    assert_eq!(h.graph.len(), 0);
    assert!(h.roots.is_empty());
    assert!(h.diagnostics.is_empty());
}
