//! Building the space hierarchy from the child relationships reported for each space.
use vstd::prelude::*;
use crate::reach::{acyclic, has_edge, is_root, is_space, lemma_add_edge_wf, lemma_reach_mono, reachable};
use crate::spacegraph::{
    empty_space, with_child, with_room, CycleError, SpaceGraph, SpaceReference, SpaceView,
};

verus! {

/// The child relationships of one space could not be retrieved.
#[derive(Clone, Copy, Debug, PartialEq, Eq, Structural)]
pub struct FetchError;

/// Something the build skipped, reported instead of aborting the build.
#[derive(Clone, Copy, Debug, PartialEq, Eq, Structural)]
pub enum Diagnostic {
    /// The relationships of this space could not be retrieved; it got no children or rooms.
    FetchFailed(SpaceReference),
    /// A record of this space named no readable room id.
    Malformed(SpaceReference),
    /// The edge was refused because it would have closed a cycle.
    Cycle(CycleError),
}

/// The result of a build: every known space, the spaces without a parent, and what was skipped.
pub struct SpaceHierarchy {
    pub graph: SpaceGraph,
    pub roots: Vec<SpaceReference>,
    pub diagnostics: Vec<Diagnostic>,
}

/// `i` is the first place of `id` among the known spaces.
pub open spec fn is_first_index(known: Seq<String>, id: Seq<char>, i: int) -> bool {
    &&& 0 <= i < known.len()
    &&& known[i]@ == id
    &&& forall|j: int| 0 <= j < i ==> known[j]@ != id
}

/// The space that the room id `id` names, if it is a known space.
pub open spec fn space_index(known: Seq<String>, id: Seq<char>) -> Option<int> {
    if exists|i: int| is_first_index(known, id, i) {
        Some(choose|i: int| is_first_index(known, id, i))
    } else {
        None
    }
}

/// One space per known id, each with no rooms and no children.
pub open spec fn initial_graph(known: Seq<String>) -> Seq<SpaceView> {
    Seq::new(known.len(), |i: int| empty_space(known[i]@))
}

/// What one record of the space `p` does to the graph and the diagnostics.
pub open spec fn record_step(
    st: (Seq<SpaceView>, Seq<Diagnostic>),
    known: Seq<String>,
    p: SpaceReference,
    rec: Option<String>,
) -> (Seq<SpaceView>, Seq<Diagnostic>) {
    let g = st.0;
    let d = st.1;
    match rec {
        None => (g, d.push(Diagnostic::Malformed(p))),
        Some(id) => match space_index(known, id@) {
            Some(i) => {
                let c = SpaceReference { index: i as usize };
                if reachable(g, c, p) {
                    (g, d.push(Diagnostic::Cycle(CycleError { parent: p, child: c })))
                } else {
                    (g.update(p.index as int, with_child(g[p.index as int], c)), d)
                }
            },
            None => (g.update(p.index as int, with_room(g[p.index as int], id@)), d),
        },
    }
}

/// The records of the space `p`, applied in order.
pub open spec fn records_step(
    st: (Seq<SpaceView>, Seq<Diagnostic>),
    known: Seq<String>,
    p: SpaceReference,
    recs: Seq<Option<String>>,
) -> (Seq<SpaceView>, Seq<Diagnostic>)
    decreases recs.len(),
{
    if recs.len() == 0 {
        st
    } else {
        record_step(records_step(st, known, p, recs.drop_last()), known, p, recs.last())
    }
}

/// The graph and diagnostics after the first `n` known spaces have been processed.
pub open spec fn build_upto(
    known: Seq<String>,
    fetched: Seq<Result<Vec<Option<String>>, FetchError>>,
    n: nat,
) -> (Seq<SpaceView>, Seq<Diagnostic>)
    decreases n,
{
    if n == 0 {
        (initial_graph(known), Seq::<Diagnostic>::empty())
    } else {
        let st = build_upto(known, fetched, (n - 1) as nat);
        let p = SpaceReference { index: (n - 1) as usize };
        match fetched[n - 1] {
            Ok(recs) => records_step(st, known, p, recs@),
            Err(_) => (st.0, st.1.push(Diagnostic::FetchFailed(p))),
        }
    }
}

/// The graph and diagnostics of a whole build.
pub open spec fn built(
    known: Seq<String>,
    fetched: Seq<Result<Vec<Option<String>>, FetchError>>,
) -> (Seq<SpaceView>, Seq<Diagnostic>) {
    build_upto(known, fetched, known.len())
}

/// Some edge of `g` leads to the space at `v`.
spec fn has_parent_in(g: Seq<SpaceView>, v: SpaceReference) -> bool {
    exists|u: SpaceReference| has_edge(g, u, v)
}

/// The first place of `id` among the known spaces, if any.
fn find_space(known: &Vec<String>, id: &String) -> (r: Option<usize>)
    ensures
        r matches Some(i) ==> is_first_index(known@, id@, i as int),
        r is None ==> forall|j: int| 0 <= j < known@.len() ==> known@[j]@ != id@,
{
    let mut i: usize = 0;
    while i < known.len()
        invariant
            i <= known@.len(),
            forall|j: int| 0 <= j < i ==> known@[j]@ != id@,
        decreases known@.len() - i,
    {
        if known[i] == *id {
            return Some(i);
        }
        i = i + 1;
    }
    None
}

proof fn lemma_space_index(known: Seq<String>, id: Seq<char>, i: int)
    requires
        is_first_index(known, id, i),
    ensures
        space_index(known, id) == Some(i),
{
    let c = choose|c: int| is_first_index(known, id, c);
    assert(c == i) by {
        if c < i {
            assert(known[c]@ != id);
        }
        if c > i {
            assert(known[i]@ != id);
        }
    }
}

/// Builds the hierarchy of the known spaces.
///
/// `fetched[i]` holds the records reported for the space `known[i]`: each record is
/// the room id of a child, or `None` where the record held none that could be read.
/// A record naming a known space makes it a child, unless that would close a cycle;
/// any other room id becomes a contained room. Nothing aborts the build: refused
/// edges, failed retrievals and unreadable records are reported as diagnostics.
pub fn build_graph(known: &Vec<String>, fetched: &Vec<Result<Vec<Option<String>>, FetchError>>) -> (h: SpaceHierarchy)
    requires
        fetched@.len() == known@.len(),
        known@.len() < usize::MAX,
    ensures
        h.graph.wf(),
        h.graph@ == built(known@, fetched@).0,
        h.diagnostics@ == built(known@, fetched@).1,
        h.roots@.no_duplicates(),
        forall|a: int, b: int| 0 <= a < b < h.roots@.len() ==> h.roots@[a].index < h.roots@[b].index,
        forall|x: SpaceReference| h.roots@.contains(x) == is_root(h.graph@, x),
{
    let n = known.len();
    let mut graph = SpaceGraph::new();
    let mut i: usize = 0;
    while i < n
        invariant
            n == known@.len(),
            i <= n,
            graph.wf(),
            graph@ =~= initial_graph(known@).subrange(0, i as int),
        decreases n - i,
    {
        graph.new_space(known[i].clone());
        i = i + 1;
    }
    proof {
        assert(initial_graph(known@).subrange(0, n as int) =~= initial_graph(known@));
    }
    let mut has_parent: Vec<bool> = Vec::new();
    let mut i: usize = 0;
    while i < n
        invariant
            i <= n,
            has_parent@.len() == i,
            forall|j: int| 0 <= j < i ==> !has_parent@[j],
        decreases n - i,
    {
        has_parent.push(false);
        i = i + 1;
    }
    let mut diagnostics: Vec<Diagnostic> = Vec::new();
    let mut p: usize = 0;
    while p < n
        invariant
            n == known@.len(),
            n == fetched@.len(),
            p <= n,
            graph.wf(),
            graph@.len() == n,
            (graph@, diagnostics@) == build_upto(known@, fetched@, p as nat),
            has_parent@.len() == n,
            forall|v: int|
                0 <= v < n ==> #[trigger] has_parent@[v] == has_parent_in(graph@, SpaceReference { index: v as usize }),
        decreases n - p,
    {
        let pr = SpaceReference { index: p };
        match &fetched[p] {
            Err(_) => {
                diagnostics.push(Diagnostic::FetchFailed(pr));
            },
            Ok(recs) => {
                let ghost st0 = (graph@, diagnostics@);
                let mut j: usize = 0;
                while j < recs.len()
                    invariant
                        n == known@.len(),
                        p < n,
                        pr.index == p,
                        j <= recs@.len(),
                        graph.wf(),
                        graph@.len() == n,
                        (graph@, diagnostics@) == records_step(st0, known@, pr, recs@.subrange(0, j as int)),
                        has_parent@.len() == n,
                        forall|v: int|
                            0 <= v < n ==> #[trigger] has_parent@[v] == has_parent_in(graph@, SpaceReference { index: v as usize }),
                    decreases recs@.len() - j,
                {
                    proof {
                        assert(recs@.subrange(0, j + 1).drop_last() =~= recs@.subrange(0, j as int));
                    }
                    let ghost g0 = graph@;
                    match &recs[j] {
                        None => {
                            diagnostics.push(Diagnostic::Malformed(pr));
                        },
                        Some(id) => {
                            match find_space(known, id) {
                                Some(c) => {
                                    proof {
                                        lemma_space_index(known@, id@, c as int);
                                    }
                                    let cr = SpaceReference { index: c };
                                    match graph.add_child(pr, cr) {
                                        Ok(()) => {
                                            proof {
                                                lemma_add_edge_wf(g0, graph@, pr, cr);
                                            }
                                            has_parent.set(c, true);
                                            proof {
                                                assert forall|v: int|
                                                    0 <= v < n implies #[trigger] has_parent@[v] == has_parent_in(graph@, SpaceReference { index: v as usize }) by {
                                                    if v == c {
                                                        assert(has_edge(graph@, pr, SpaceReference { index: v as usize }));
                                                    } else {
                                                        let x = SpaceReference { index: v as usize };
                                                        if exists|u: SpaceReference| has_edge(graph@, u, x) {
                                                            let u = choose|u: SpaceReference| has_edge(graph@, u, x);
                                                            assert(has_edge(g0, u, x));
                                                        }
                                                        if exists|u: SpaceReference| has_edge(g0, u, x) {
                                                            let u = choose|u: SpaceReference| has_edge(g0, u, x);
                                                            assert(has_edge(graph@, u, x));
                                                        }
                                                    }
                                                }
                                            }
                                        },
                                        Err(e) => {
                                            diagnostics.push(Diagnostic::Cycle(e));
                                        },
                                    }
                                },
                                None => {
                                    graph.insert_room(pr, id.as_str());
                                    proof {
                                        assert forall|u: SpaceReference, v: SpaceReference|
                                            has_edge(graph@, u, v) == has_edge(g0, u, v) by {
                                            if is_space(g0, u) && is_space(graph@, u) {
                                                assert(graph@[u.index as int].children == g0[u.index as int].children);
                                            }
                                        }
                                        assert forall|v: int|
                                            0 <= v < n implies #[trigger] has_parent@[v] == has_parent_in(graph@, SpaceReference { index: v as usize }) by {
                                            let x = SpaceReference { index: v as usize };
                                            if has_parent_in(graph@, x) {
                                                let u = choose|u: SpaceReference| has_edge(graph@, u, x);
                                                assert(has_edge(g0, u, x));
                                            }
                                            if has_parent_in(g0, x) {
                                                let u = choose|u: SpaceReference| has_edge(g0, u, x);
                                                assert(has_edge(graph@, u, x));
                                            }
                                        }
                                    }
                                },
                            }
                        },
                    }
                    j = j + 1;
                }
                proof {
                    assert(recs@.subrange(0, recs@.len() as int) =~= recs@);
                }
            },
        }
        p = p + 1;
    }
    let mut roots: Vec<SpaceReference> = Vec::new();
    let mut i: usize = 0;
    while i < n
        invariant
            i <= n,
            n == graph@.len(),
            has_parent@.len() == n,
            forall|v: int|
                0 <= v < n ==> #[trigger] has_parent@[v] == has_parent_in(graph@, SpaceReference { index: v as usize }),
            forall|a: int, b: int| 0 <= a < b < roots@.len() ==> roots@[a].index < roots@[b].index,
            forall|a: int| 0 <= a < roots@.len() ==> roots@[a].index < i,
            forall|x: SpaceReference| roots@.contains(x) == (x.index < i && is_root(graph@, x)),
        decreases n - i,
    {
        let ghost r0 = roots@;
        if !has_parent[i] {
            roots.push(SpaceReference { index: i });
        }
        proof {
            let y = SpaceReference { index: i };
            assert(has_parent@[i as int] == has_parent_in(graph@, y));
            assert forall|x: SpaceReference| roots@.contains(x) == (x.index < i + 1 && is_root(graph@, x)) by {
                if x == y && !has_parent@[i as int] {
                    assert(roots@[roots@.len() - 1] == x);
                }
                if roots@.contains(x) && x != y {
                    let w = choose|w: int| 0 <= w < roots@.len() && roots@[w] == x;
                    assert(r0[w] == x);
                }
                if r0.contains(x) {
                    let w = choose|w: int| 0 <= w < r0.len() && r0[w] == x;
                    assert(roots@[w] == x);
                }
            }
        }
        i = i + 1;
    }
    SpaceHierarchy { graph, roots, diagnostics }
}

/// The known spaces that the records `recs` name, in order.
pub open spec fn record_children(known: Seq<String>, recs: Seq<Option<String>>) -> Seq<SpaceReference>
    decreases recs.len(),
{
    if recs.len() == 0 {
        Seq::empty()
    } else {
        let prev = record_children(known, recs.drop_last());
        match recs.last() {
            Some(id) => match space_index(known, id@) {
                Some(i) => prev.push(SpaceReference { index: i as usize }),
                None => prev,
            },
            None => prev,
        }
    }
}

/// The room ids in the records `recs` that name no known space, in order.
pub open spec fn record_rooms(known: Seq<String>, recs: Seq<Option<String>>) -> Seq<Seq<char>>
    decreases recs.len(),
{
    if recs.len() == 0 {
        Seq::empty()
    } else {
        let prev = record_rooms(known, recs.drop_last());
        match recs.last() {
            Some(id) => match space_index(known, id@) {
                Some(i) => prev,
                None => prev.push(id@),
            },
            None => prev,
        }
    }
}

/// The space `known[i]` with everything that was reported for it.
pub open spec fn reported_space(
    known: Seq<String>,
    fetched: Seq<Result<Vec<Option<String>>, FetchError>>,
    i: int,
) -> SpaceView {
    match fetched[i] {
        Ok(recs) => SpaceView {
            room_id: known[i]@,
            rooms: record_rooms(known, recs@),
            children: record_children(known, recs@),
        },
        Err(_) => empty_space(known[i]@),
    }
}

/// The graph of every reported relationship, taken as it stands.
pub open spec fn reported_graph(
    known: Seq<String>,
    fetched: Seq<Result<Vec<Option<String>>, FetchError>>,
) -> Seq<SpaceView> {
    Seq::new(known.len(), |i: int| reported_space(known, fetched, i))
}

/// The reported graph for the first `n` spaces; the others still empty.
spec fn reported_upto(
    known: Seq<String>,
    fetched: Seq<Result<Vec<Option<String>>, FetchError>>,
    n: int,
) -> Seq<SpaceView> {
    Seq::new(known.len(), |i: int| if i < n { reported_space(known, fetched, i) } else { empty_space(known[i]@) })
}

proof fn lemma_record_children_prefix(known: Seq<String>, s: Seq<Option<String>>, k: int, v: SpaceReference)
    requires
        0 <= k <= s.len(),
        record_children(known, s.subrange(0, k)).contains(v),
    ensures
        record_children(known, s).contains(v),
    decreases s.len(),
{
    if k < s.len() {
        assert(s.drop_last().subrange(0, k) =~= s.subrange(0, k));
        lemma_record_children_prefix(known, s.drop_last(), k, v);
        let prev = record_children(known, s.drop_last());
        let w = choose|w: int| 0 <= w < prev.len() && prev[w] == v;
        assert(record_children(known, s)[w] == v);
    } else {
        assert(s.subrange(0, k) =~= s);
    }
}

proof fn lemma_records_exact(
    known: Seq<String>,
    fetched: Seq<Result<Vec<Option<String>>, FetchError>>,
    n: int,
    recs: Seq<Option<String>>,
    k: int,
)
    requires
        fetched.len() == known.len(),
        known.len() <= usize::MAX,
        0 <= n < known.len(),
        fetched[n] matches Ok(r) && r@ == recs,
        0 <= k <= recs.len(),
        acyclic(reported_graph(known, fetched)),
        build_upto(known, fetched, n as nat).0 == reported_upto(known, fetched, n),
    ensures
        records_step(
            build_upto(known, fetched, n as nat),
            known,
            SpaceReference { index: n as usize },
            recs.subrange(0, k),
        ).0 == reported_upto(known, fetched, n).update(
            n,
            SpaceView {
                room_id: known[n]@,
                rooms: record_rooms(known, recs.subrange(0, k)),
                children: record_children(known, recs.subrange(0, k)),
            },
        ),
    decreases k,
{
    let st = build_upto(known, fetched, n as nat);
    let p = SpaceReference { index: n as usize };
    let base = reported_upto(known, fetched, n);
    let sub = recs.subrange(0, k);
    if k == 0 {
        assert(sub =~= Seq::<Option<String>>::empty());
        assert(base.update(n, SpaceView {
            room_id: known[n]@,
            rooms: record_rooms(known, sub),
            children: record_children(known, sub),
        }) =~= base);
    } else {
        assert(sub.drop_last() =~= recs.subrange(0, k - 1));
        lemma_records_exact(known, fetched, n, recs, k - 1);
        let prev = records_step(st, known, p, sub.drop_last());
        let g = prev.0;
        let full = reported_graph(known, fetched);
        match sub.last() {
            Some(id) => match space_index(known, id@) {
                Some(i) => {
                    let c = SpaceReference { index: i as usize };
                    assert(record_children(known, sub).last() == c);
                    assert(record_children(known, sub).contains(c));
                    lemma_record_children_prefix(known, recs, k, c);
                    assert(full[n] == reported_space(known, fetched, n));
                    assert(full[n].children == record_children(known, recs));
                    assert(has_edge(full, p, c));
                    assert forall|u: SpaceReference, v: SpaceReference| has_edge(g, u, v) implies has_edge(full, u, v) by {
                        if u.index == n {
                            lemma_record_children_prefix(known, recs, k - 1, v);
                        } else {
                            assert(u.index < n);
                            assert(g[u.index as int] == full[u.index as int]);
                        }
                    }
                    if reachable(g, c, p) {
                        lemma_reach_mono(g, full, c, p);
                        assert(!(reachable(full, c, p) && has_edge(full, p, c)));
                    }
                    assert(record_step(prev, known, p, sub.last()).0 =~= base.update(n, SpaceView {
                        room_id: known[n]@,
                        rooms: record_rooms(known, sub),
                        children: record_children(known, sub),
                    }));
                },
                None => {
                    assert(record_step(prev, known, p, sub.last()).0 =~= base.update(n, SpaceView {
                        room_id: known[n]@,
                        rooms: record_rooms(known, sub),
                        children: record_children(known, sub),
                    }));
                },
            },
            None => {
                assert(record_step(prev, known, p, sub.last()).0 =~= base.update(n, SpaceView {
                    room_id: known[n]@,
                    rooms: record_rooms(known, sub),
                    children: record_children(known, sub),
                }));
            },
        }
    }
}

proof fn lemma_build_exact(
    known: Seq<String>,
    fetched: Seq<Result<Vec<Option<String>>, FetchError>>,
    n: int,
)
    requires
        fetched.len() == known.len(),
        known.len() <= usize::MAX,
        0 <= n <= known.len(),
        acyclic(reported_graph(known, fetched)),
    ensures
        build_upto(known, fetched, n as nat).0 == reported_upto(known, fetched, n),
    decreases n,
{
    if n == 0 {
        assert(initial_graph(known) =~= reported_upto(known, fetched, 0));
    } else {
        lemma_build_exact(known, fetched, n - 1);
        let prev = reported_upto(known, fetched, n - 1);
        match fetched[n - 1] {
            Ok(recs) => {
                lemma_records_exact(known, fetched, n - 1, recs@, recs@.len() as int);
                assert(recs@.subrange(0, recs@.len() as int) =~= recs@);
                assert(prev.update(n - 1, reported_space(known, fetched, n - 1)) =~= reported_upto(known, fetched, n));
            },
            Err(_) => {
                assert(prev =~= reported_upto(known, fetched, n));
            },
        }
    }
}

/// When the reported relationships form no cycle, the build refuses none of them:
/// the hierarchy is exactly what was reported for each space, so it does not
/// depend on the order in which the spaces' reports are taken.
pub proof fn lemma_acyclic_reports_built_exactly(
    known: Seq<String>,
    fetched: Seq<Result<Vec<Option<String>>, FetchError>>,
)
    requires
        fetched.len() == known.len(),
        known.len() <= usize::MAX,
        acyclic(reported_graph(known, fetched)),
    ensures
        built(known, fetched).0 == reported_graph(known, fetched),
{
    lemma_build_exact(known, fetched, known.len() as int);
    assert(reported_upto(known, fetched, known.len() as int) =~= reported_graph(known, fetched));
}

} // verus!
