//! The space hierarchy: spaces that hold rooms and child spaces, kept free of cycles.
use vstd::prelude::*;
use crate::reach::{
    is_walk, graph_wf, has_edge, is_space, lemma_add_edge_wf, lemma_closed_holds_reachable, lemma_reach_refl,
    lemma_reach_step, lemma_same_edges, lemma_short_walk, reachable,
};
use vstd::seq_lib::to_multiset_build;

verus! {

/// A handle to a space held by a [`SpaceGraph`].
///
/// Handles are compared by identity: two handles denote the same space
/// exactly when they are equal.
#[derive(Clone, Copy, Debug, PartialEq, Eq, Hash, Structural)]
pub struct SpaceReference {
    pub index: usize,
}

/// The error of [`SpaceGraph::add_child`]: the edge `parent -> child` would close a cycle.
#[derive(Clone, Copy, Debug, PartialEq, Eq, Structural)]
pub struct CycleError {
    pub parent: SpaceReference,
    pub child: SpaceReference,
}

/// One space: its room id, the rooms it contains and its child spaces.
pub struct Space {
    room_id: String,
    contained_rooms: Vec<String>,
    children: Vec<SpaceReference>,
}

/// What a [`Space`] holds, as mathematical values.
pub struct SpaceView {
    pub room_id: Seq<char>,
    pub rooms: Seq<Seq<char>>,
    pub children: Seq<SpaceReference>,
}

impl View for Space {
    type V = SpaceView;

    closed spec fn view(&self) -> SpaceView {
        SpaceView {
            room_id: self.room_id@,
            rooms: self.contained_rooms@.map_values(|s: String| s@),
            children: self.children@,
        }
    }
}

impl Space {
    /// A space with the given room id, no rooms and no children.
    pub fn new(room_id: String) -> (s: Space)
        ensures
            s@.room_id == room_id@,
            s@.rooms == Seq::<Seq<char>>::empty(),
            s@.children == Seq::<SpaceReference>::empty(),
    {
        let s = Space { room_id, contained_rooms: Vec::new(), children: Vec::new() };
        proof {
            assert(s@.rooms =~= Seq::<Seq<char>>::empty());
        }
        s
    }

    /// The unique room id of this space.
    pub fn room_id(&self) -> (r: &str)
        ensures
            r@ == self@.room_id,
    {
        self.room_id.as_str()
    }

    /// A copy of the direct children of this space, in the order they were added.
    pub fn children(&self) -> (r: Vec<SpaceReference>)
        ensures
            r@ == self@.children,
    {
        let mut r: Vec<SpaceReference> = Vec::new();
        let mut i: usize = 0;
        while i < self.children.len()
            invariant
                i <= self.children@.len(),
                r@ == self.children@.subrange(0, i as int),
            decreases self.children@.len() - i,
        {
            r.push(self.children[i]);
            i = i + 1;
            proof {
                assert(r@ =~= self.children@.subrange(0, i as int));
            }
        }
        proof {
            assert(r@ =~= self.children@);
        }
        r
    }

    /// The rooms contained in this space, in the order they were inserted.
    pub fn contained_rooms(&self) -> (r: &Vec<String>)
        ensures
            r@.map_values(|s: String| s@) == self@.rooms,
    {
        &self.contained_rooms
    }

    /// Appends a room to the rooms of this space; the same room may be inserted twice.
    pub fn insert_room(&mut self, room: &str)
        ensures
            final(self)@.room_id == old(self)@.room_id,
            final(self)@.children == old(self)@.children,
            final(self)@.rooms == old(self)@.rooms.push(room@),
    {
        self.contained_rooms.push(room.to_owned());
        proof {
            assert(self@.rooms =~= old(self)@.rooms.push(room@));
        }
    }
}

/// `s` with one more child, `c`, at the end.
pub open spec fn with_child(s: SpaceView, c: SpaceReference) -> SpaceView {
    SpaceView { room_id: s.room_id, rooms: s.rooms, children: s.children.push(c) }
}

/// `s` with one more room, `room`, at the end.
pub open spec fn with_room(s: SpaceView, room: Seq<char>) -> SpaceView {
    SpaceView { room_id: s.room_id, rooms: s.rooms.push(room), children: s.children }
}

/// A fresh space with the given room id.
pub open spec fn empty_space(room_id: Seq<char>) -> SpaceView {
    SpaceView {
        room_id,
        rooms: Seq::<Seq<char>>::empty(),
        children: Seq::<SpaceReference>::empty(),
    }
}

/// All spaces of one hierarchy. A [`SpaceReference`] names a space by its place here.
pub struct SpaceGraph {
    spaces: Vec<Space>,
}

impl View for SpaceGraph {
    type V = Seq<SpaceView>;

    closed spec fn view(&self) -> Seq<SpaceView> {
        self.spaces@.map_values(|s: Space| s@)
    }
}

/// The number of unmarked entries of `s`.
spec fn unmarked(s: Seq<bool>) -> nat
    decreases s.len(),
{
    if s.len() == 0 {
        0
    } else {
        unmarked(s.drop_last()) + if s.last() {
            0nat
        } else {
            1nat
        }
    }
}

proof fn lemma_mark(s: Seq<bool>, i: int)
    requires
        0 <= i < s.len(),
        !s[i],
    ensures
        unmarked(s.update(i, true)) + 1 == unmarked(s),
    decreases s.len(),
{
    let t = s.update(i, true);
    if i == s.len() - 1 {
        assert(t.drop_last() =~= s.drop_last());
    } else {
        assert(t.drop_last() =~= s.drop_last().update(i, true));
        lemma_mark(s.drop_last(), i);
    }
}

/// The visits of a depth-first walk from `u` that follows paths of at most `d`
/// edges: `u`, then the walks from its children, the last child first. In a
/// well-formed graph of `n` spaces every path has fewer than `n` edges, so with
/// `d == n` every path is followed.
pub open spec fn visits(g: Seq<SpaceView>, u: SpaceReference, d: nat) -> Seq<SpaceReference>
    decreases d, 0nat,
{
    if d == 0 || !is_space(g, u) {
        seq![u]
    } else {
        seq![u] + visits_all(g, g[u.index as int].children, (d - 1) as nat)
    }
}

/// The visits of the walks from each of `cs`, the last one first.
pub open spec fn visits_all(g: Seq<SpaceView>, cs: Seq<SpaceReference>, d: nat) -> Seq<SpaceReference>
    decreases d, cs.len(),
{
    if cs.len() == 0 {
        Seq::empty()
    } else {
        visits(g, cs.last(), d) + visits_all(g, cs.drop_last(), d)
    }
}

/// The visits still owed to the entries of a traversal stack, top first.
spec fn pending(g: Seq<SpaceView>, stack: Seq<(SpaceReference, usize)>) -> Seq<SpaceReference>
    decreases stack.len(),
{
    if stack.len() == 0 {
        Seq::empty()
    } else {
        visits(g, stack.last().0, stack.last().1 as nat) + pending(g, stack.drop_last())
    }
}

/// The space `c`, with `d` edges left, has been visited or is on the stack.
spec fn entered(
    order: Seq<SpaceReference>,
    depths: Seq<nat>,
    stack: Seq<(SpaceReference, usize)>,
    c: SpaceReference,
    d: nat,
) -> bool {
    (exists|i: int| 0 <= i < order.len() && order[i] == c && depths[i] == d) || (exists|i: int|
        0 <= i < stack.len() && stack[i].0 == c && stack[i].1 == d)
}

/// Once the stack is empty, every place of a short walk from the start has been visited.
proof fn lemma_walk_visited(
    g: Seq<SpaceView>,
    order: Seq<SpaceReference>,
    depths: Seq<nat>,
    w: Seq<SpaceReference>,
    n: nat,
    m: int,
)
    requires
        depths.len() == order.len(),
        order.len() > 0,
        order[0] == w[0],
        depths[0] == n,
        is_walk(g, w),
        w.len() <= n,
        0 <= m < w.len(),
        forall|j: int, c: SpaceReference|
            0 <= j < order.len() && depths[j] > 0 && #[trigger] has_edge(g, order[j], c) ==> entered(
                order,
                depths,
                Seq::<(SpaceReference, usize)>::empty(),
                c,
                (depths[j] - 1) as nat,
            ),
    ensures
        exists|i: int| 0 <= i < order.len() && order[i] == w[m] && depths[i] == n - m,
    decreases m,
{
    if m > 0 {
        lemma_walk_visited(g, order, depths, w, n, m - 1);
        let i = choose|i: int| 0 <= i < order.len() && order[i] == w[m - 1] && depths[i] == n - (m - 1);
        assert(has_edge(g, w[m - 1], w[m - 1 + 1]));
        assert(has_edge(g, order[i], w[m]));
    }
}

impl SpaceGraph {
    /// Every child is a space of this graph, and no space is its own descendant.
    pub open spec fn wf(&self) -> bool {
        graph_wf(self@)
    }

    /// A graph without spaces.
    pub fn new() -> (g: SpaceGraph)
        ensures
            g.wf(),
            g@ == Seq::<SpaceView>::empty(),
    {
        let g = SpaceGraph { spaces: Vec::new() };
        proof {
            assert(g@ =~= Seq::<SpaceView>::empty());
        }
        g
    }

    /// The number of spaces.
    pub fn len(&self) -> (n: usize)
        ensures
            n == self@.len(),
    {
        self.spaces.len()
    }

    /// The space that `r` names.
    pub fn space(&self, r: SpaceReference) -> (s: &Space)
        requires
            is_space(self@, r),
        ensures
            s@ == self@[r.index as int],
    {
        &self.spaces[r.index]
    }

    /// Adds a space with the given room id, no rooms and no children, and returns its handle.
    pub fn new_space(&mut self, room_id: String) -> (r: SpaceReference)
        requires
            old(self).wf(),
            old(self)@.len() < usize::MAX,
        ensures
            final(self).wf(),
            r.index == old(self)@.len(),
            final(self)@ == old(self)@.push(empty_space(room_id@)),
    {
        let r = SpaceReference { index: self.spaces.len() };
        self.spaces.push(Space::new(room_id));
        proof {
            let g = old(self)@;
            let g2 = self@;
            assert(g2 =~= g.push(empty_space(room_id@)));
            assert forall|u: SpaceReference, v: SpaceReference| has_edge(g, u, v) == has_edge(g2, u, v) by {
                if u.index < g.len() {
                    assert(g2[u.index as int] == g[u.index as int]);
                }
            }
            lemma_same_edges(g, g2);
            assert forall|i: int, j: int|
                0 <= i < g2.len() && 0 <= j < g2[i].children.len() implies is_space(g2, #[trigger] g2[i].children[j]) by {
                assert(g2[i] == g[i]);
                assert(g[i].children[j] == g2[i].children[j]);
            }
            assert forall|a: SpaceReference, u: SpaceReference|
                #![trigger reachable(g2, a, u), has_edge(g2, u, a)]
                !(reachable(g2, a, u) && has_edge(g2, u, a)) by {
                assert(!(reachable(g, a, u) && has_edge(g, u, a)));
            }
        }
        r
    }

    /// Appends a room to the rooms of the space `r`; the same room may be inserted twice.
    pub fn insert_room(&mut self, r: SpaceReference, room: &str)
        requires
            old(self).wf(),
            is_space(old(self)@, r),
        ensures
            final(self).wf(),
            final(self)@ == old(self)@.update(r.index as int, with_room(old(self)@[r.index as int], room@)),
    {
        self.spaces[r.index].insert_room(room);
        proof {
            let g = old(self)@;
            let g2 = self@;
            assert(g2 =~= g.update(r.index as int, with_room(g[r.index as int], room@)));
            assert forall|u: SpaceReference, v: SpaceReference| has_edge(g, u, v) == has_edge(g2, u, v) by {
                if u.index < g.len() {
                    assert(g2[u.index as int].children == g[u.index as int].children);
                }
            }
            lemma_same_edges(g, g2);
            assert forall|i: int, j: int|
                0 <= i < g2.len() && 0 <= j < g2[i].children.len() implies is_space(g2, #[trigger] g2[i].children[j]) by {
                assert(g[i].children[j] == g2[i].children[j]);
            }
            assert forall|a: SpaceReference, u: SpaceReference|
                #![trigger reachable(g2, a, u), has_edge(g2, u, a)]
                !(reachable(g2, a, u) && has_edge(g2, u, a)) by {
                assert(!(reachable(g, a, u) && has_edge(g, u, a)));
            }
        }
    }

    /// Whether `target` is reachable from `start`: a depth-first walk that stops
    /// on reaching `target`. Unlike [`SpaceGraph::traverse`] it enters each space
    /// at most once, which gives the same answer at a cost linear in the graph.
    #[verifier::loop_isolation(false)]
    fn reaches(&self, start: SpaceReference, target: SpaceReference) -> (found: bool)
        requires
            self.wf(),
            is_space(self@, start),
        ensures
            found == reachable(self@, start, target),
    {
        let n = self.spaces.len();
        let mut marks: Vec<bool> = Vec::new();
        let mut i: usize = 0;
        while i < n
            invariant
                i <= n,
                marks@.len() == i,
                forall|j: int| 0 <= j < i ==> !marks@[j],
            decreases n - i,
        {
            marks.push(false);
            i = i + 1;
        }
        proof {
            lemma_mark(marks@, start.index as int);
            lemma_reach_refl(self@, start);
        }
        marks.set(start.index, true);
        let mut order: Vec<SpaceReference> = Vec::new();
        let mut stack: Vec<SpaceReference> = Vec::new();
        stack.push(start);
        proof {
            assert forall|i: int|
                0 <= i < n && #[trigger] marks@[i] implies order@.contains(SpaceReference { index: i as usize })
                    || stack@.contains(SpaceReference { index: i as usize }) by {
                assert(i == start.index);
                assert(stack@[0] == start);
            }
        }
        while stack.len() > 0
            invariant
                n == self@.len(),
                marks@.len() == n,
                marks@[start.index as int],
                forall|i: int|
                    0 <= i < n && #[trigger] marks@[i] ==> reachable(self@, start, SpaceReference { index: i as usize }),
                forall|i: int|
                    0 <= i < n && #[trigger] marks@[i] ==> order@.contains(SpaceReference { index: i as usize })
                        || stack@.contains(SpaceReference { index: i as usize }),
                forall|j: int|
                    0 <= j < stack@.len() ==> is_space(self@, #[trigger] stack@[j]) && marks@[stack@[j].index as int]
                        && !order@.contains(stack@[j]),
                forall|j: int|
                    0 <= j < order@.len() ==> is_space(self@, #[trigger] order@[j]) && marks@[order@[j].index as int],
                forall|j: int, v: SpaceReference|
                    0 <= j < order@.len() && #[trigger] has_edge(self@, order@[j], v) ==> marks@[v.index as int],
                order@.no_duplicates(),
                stack@.no_duplicates(),
                !order@.contains(target),
                order@.len() > 0 ==> order@[0] == start,
                order@.len() == 0 ==> stack@ == seq![start],
            decreases 2 * unmarked(marks@) + stack@.len(),
        {
            let ghost stack0 = stack@;
            let cur = stack.pop().unwrap();
            proof {
                assert(stack0 =~= stack@.push(cur));
            }
            let ghost order0 = order@;
            order.push(cur);
            proof {
                assert(order@.last() == cur);
                assert forall|i: int|
                    0 <= i < n && #[trigger] marks@[i] implies order@.contains(SpaceReference { index: i as usize })
                        || stack@.contains(SpaceReference { index: i as usize }) by {
                    let x = SpaceReference { index: i as usize };
                    if x == cur {
                        assert(order@[order@.len() - 1] == x);
                    } else if order0.contains(x) {
                        let w = choose|w: int| 0 <= w < order0.len() && order0[w] == x;
                        assert(order@[w] == x);
                    } else {
                        assert(stack0.contains(x));
                        let w = choose|w: int| 0 <= w < stack0.len() && stack0[w] == x;
                        assert(stack@[w] == x);
                    }
                }
            }
            if target == cur {
                return true;
            }
            let kids = &self.spaces[cur.index].children;
            let ghost at_pop = 2 * unmarked(marks@) + stack@.len();
            let mut j: usize = 0;
            while j < kids.len()
                invariant
                    j <= kids@.len(),
                    kids@ == self@[cur.index as int].children,
                    is_space(self@, cur),
                    marks@.len() == n,
                    marks@[start.index as int],
                    forall|i: int|
                        0 <= i < n && #[trigger] marks@[i] ==> reachable(self@, start, SpaceReference { index: i as usize }),
                    forall|i: int|
                        0 <= i < n && #[trigger] marks@[i] ==> order@.contains(SpaceReference { index: i as usize })
                            || stack@.contains(SpaceReference { index: i as usize }),
                    forall|jj: int|
                        0 <= jj < stack@.len() ==> is_space(self@, #[trigger] stack@[jj]) && marks@[stack@[jj].index as int]
                            && !order@.contains(stack@[jj]),
                    forall|jj: int|
                        0 <= jj < order@.len() ==> is_space(self@, #[trigger] order@[jj]) && marks@[order@[jj].index as int],
                    forall|jj: int, v: SpaceReference|
                        0 <= jj < order@.len() - 1 && #[trigger] has_edge(self@, order@[jj], v) ==> marks@[v.index as int],
                    forall|jj: int| 0 <= jj < j ==> marks@[#[trigger] kids@[jj].index as int],
                    stack@.no_duplicates(),
                    2 * unmarked(marks@) + stack@.len() <= at_pop,
                decreases kids@.len() - j,
            {
                let kid = kids[j];
                proof {
                    assert(self@[cur.index as int].children[j as int] == kid);
                    assert(has_edge(self@, cur, kid));
                }
                if !marks[kid.index] {
                    proof {
                        lemma_mark(marks@, kid.index as int);
                        lemma_reach_step(self@, start, cur, kid);
                        assert(!order@.contains(kid)) by {
                            if order@.contains(kid) {
                                let w = choose|w: int| 0 <= w < order@.len() && order@[w] == kid;
                            }
                        }
                        assert(!stack@.contains(kid)) by {
                            if stack@.contains(kid) {
                                let w = choose|w: int| 0 <= w < stack@.len() && stack@[w] == kid;
                            }
                        }
                    }
                    let ghost marks1 = marks@;
                    let ghost stack1 = stack@;
                    marks.set(kid.index, true);
                    stack.push(kid);
                    proof {
                        assert forall|i: int|
                            0 <= i < n && #[trigger] marks@[i] implies order@.contains(SpaceReference { index: i as usize })
                                || stack@.contains(SpaceReference { index: i as usize }) by {
                            let x = SpaceReference { index: i as usize };
                            if i == kid.index {
                                assert(x == kid);
                                assert(stack@[stack@.len() - 1] == kid);
                            } else {
                                assert(marks1[i]);
                                if stack1.contains(x) {
                                    let w = choose|w: int| 0 <= w < stack1.len() && stack1[w] == x;
                                    assert(stack@[w] == x);
                                }
                            }
                        }
                    }
                }
                j = j + 1;
            }
            proof {
                assert forall|jj: int, v: SpaceReference|
                    0 <= jj < order@.len() && #[trigger] has_edge(self@, order@[jj], v) implies marks@[v.index as int] by {
                    if jj == order@.len() - 1 {
                        let w = choose|w: int| 0 <= w < kids@.len() && kids@[w] == v;
                    }
                }
                assert forall|i: int|
                    0 <= i < n && #[trigger] marks@[i] implies order@.contains(SpaceReference { index: i as usize })
                        || stack@.contains(SpaceReference { index: i as usize }) by {
                }
            }
        }
        proof {
            let g = self@;
            assert forall|u: SpaceReference, v: SpaceReference|
                #![trigger has_edge(g, u, v)]
                has_edge(g, u, v) && marks@[u.index as int] implies is_space(g, v) && marks@[v.index as int] by {
                let x = SpaceReference { index: u.index };
                assert(order@.contains(x));
                let w = choose|w: int| 0 <= w < order@.len() && order@[w] == x;
                let k = choose|k: int| 0 <= k < g[u.index as int].children.len() && g[u.index as int].children[k] == v;
                assert(is_space(g, g[u.index as int].children[k]));
            }
            assert forall|x: SpaceReference| order@.contains(x) == reachable(g, start, x) by {
                if reachable(g, start, x) {
                    lemma_closed_holds_reachable(g, marks@, start, x);
                    assert(marks@[x.index as int]);
                }
                if order@.contains(x) {
                    let w = choose|w: int| 0 <= w < order@.len() && order@[w] == x;
                    assert(marks@[x.index as int]);
                }
            }
        }
        false
    }

    /// Depth-first walk over the subgraph reachable from `start`: `start` first;
    /// after a space, its children are stacked in their order, so the last child's
    /// subgraph comes first. A space reachable along several paths is visited once
    /// per path. Every reachable space is visited, and nothing else.
    #[verifier::loop_isolation(false)]
    pub fn traverse(&self, start: SpaceReference) -> (r: Vec<SpaceReference>)
        requires
            self.wf(),
            is_space(self@, start),
        ensures
            r@ == visits(self@, start, self@.len()),
            r@.len() > 0,
            r@[0] == start,
            forall|x: SpaceReference| r@.contains(x) == reachable(self@, start, x),
    {
        let n = self.spaces.len();
        let mut order: Vec<SpaceReference> = Vec::new();
        let ghost mut depths: Seq<nat> = Seq::empty();
        let mut stack: Vec<(SpaceReference, usize)> = Vec::new();
        stack.push((start, n));
        proof {
            lemma_reach_refl(self@, start);
            let e = Seq::<(SpaceReference, usize)>::empty();
            assert(stack@.drop_last() =~= e);
            assert(stack@.last() == (start, n));
            assert(pending(self@, e) == Seq::<SpaceReference>::empty());
            assert(pending(self@, stack@) == visits(self@, start, n as nat) + pending(self@, e));
            assert(order@ + pending(self@, stack@) =~= visits(self@, start, n as nat));
        }
        while stack.len() > 0
            invariant
                n == self@.len(),
                depths.len() == order@.len(),
                forall|j: int|
                    0 <= j < stack@.len() ==> is_space(self@, #[trigger] stack@[j].0) && reachable(
                        self@,
                        start,
                        stack@[j].0,
                    ),
                forall|j: int| 0 <= j < order@.len() ==> reachable(self@, start, #[trigger] order@[j]),
                forall|j: int, c: SpaceReference|
                    0 <= j < order@.len() && depths[j] > 0 && #[trigger] has_edge(self@, order@[j], c) ==> entered(
                        order@,
                        depths,
                        stack@,
                        c,
                        (depths[j] - 1) as nat,
                    ),
                order@.len() == 0 ==> stack@ == seq![(start, n)],
                order@.len() > 0 ==> order@[0] == start && depths[0] == n,
                order@ + pending(self@, stack@) == visits(self@, start, n as nat),
            decreases pending(self@, stack@).len(),
        {
            let ghost stack0 = stack@;
            let ghost order0 = order@;
            let ghost depths0 = depths;
            let (u, d) = stack.pop().unwrap();
            proof {
                assert(stack0 =~= stack@.push((u, d)));
                assert(stack0.drop_last() =~= stack@);
                assert(pending(self@, stack0) == visits(self@, u, d as nat) + pending(self@, stack@));
            }
            order.push(u);
            proof {
                depths = depths.push(d as nat);
                assert forall|j: int, c: SpaceReference|
                    0 <= j < order0.len() && depths[j] > 0 && #[trigger] has_edge(self@, order@[j], c) implies entered(
                        order@,
                        depths,
                        stack@,
                        c,
                        (depths[j] - 1) as nat,
                    ) by {
                    assert(order@[j] == order0[j] && depths[j] == depths0[j]);
                    let dd = (depths[j] - 1) as nat;
                    if exists|i: int| 0 <= i < order0.len() && order0[i] == c && depths0[i] == dd {
                        let i = choose|i: int| 0 <= i < order0.len() && order0[i] == c && depths0[i] == dd;
                        assert(order@[i] == c && depths[i] == dd);
                    } else {
                        let i = choose|i: int| 0 <= i < stack0.len() && stack0[i].0 == c && stack0[i].1 == dd;
                        if i == stack0.len() - 1 {
                            assert(order@[order0.len() as int] == c);
                        } else {
                            assert(stack@[i] == stack0[i]);
                        }
                    }
                }
            }
            if d == 0 {
                proof {
                    assert(order@ + pending(self@, stack@) =~= order0 + pending(self@, stack0));
                }
            } else {
                let kids = &self.spaces[u.index].children;
                let ghost base = stack@;
                let mut j: usize = 0;
                while j < kids.len()
                    invariant
                        kids@ == self@[u.index as int].children,
                        j <= kids@.len(),
                        stack@.len() == base.len() + j,
                        forall|k: int| 0 <= k < base.len() ==> stack@[k] == base[k],
                        forall|k: int| 0 <= k < j ==> stack@[base.len() + k] == (kids@[k], (d - 1) as usize),
                        pending(self@, stack@) == visits_all(self@, kids@.subrange(0, j as int), (d - 1) as nat)
                            + pending(self@, base),
                        forall|k: int|
                            0 <= k < stack@.len() ==> is_space(self@, #[trigger] stack@[k].0) && reachable(
                                self@,
                                start,
                                stack@[k].0,
                            ),
                    decreases kids@.len() - j,
                {
                    let kid = kids[j];
                    proof {
                        assert(self@[u.index as int].children[j as int] == kid);
                        assert(has_edge(self@, u, kid));
                        lemma_reach_step(self@, start, u, kid);
                        let st = stack@.push((kid, (d - 1) as usize));
                        assert(st.drop_last() =~= stack@);
                        assert(kids@.subrange(0, j + 1).drop_last() =~= kids@.subrange(0, j as int));
                        let dd = (d - 1) as nat;
                        assert(pending(self@, st) =~= visits_all(self@, kids@.subrange(0, j + 1), dd) + pending(self@, base));
                    }
                    stack.push((kid, d - 1));
                    j = j + 1;
                }
                proof {
                    assert(kids@.subrange(0, kids@.len() as int) =~= kids@);
                    assert(order@ + pending(self@, stack@) =~= order0 + pending(self@, stack0));
                    let oj = order@.len() - 1;
                    assert forall|jj: int, c: SpaceReference|
                        0 <= jj < order@.len() && depths[jj] > 0 && #[trigger] has_edge(self@, order@[jj], c) implies entered(
                            order@,
                            depths,
                            stack@,
                            c,
                            (depths[jj] - 1) as nat,
                        ) by {
                        let dd = (depths[jj] - 1) as nat;
                        if jj == oj {
                            let k = choose|k: int| 0 <= k < kids@.len() && kids@[k] == c;
                            assert(stack@[base.len() + k] == (c, (d - 1) as usize));
                        } else if exists|i: int| 0 <= i < order@.len() && order@[i] == c && depths[i] == dd {
                        } else {
                            let i = choose|i: int| 0 <= i < base.len() && base[i].0 == c && base[i].1 == dd;
                            assert(stack@[i] == base[i]);
                        }
                    }
                }
            }
        }
        proof {
            assert(order@ =~= visits(self@, start, n as nat));
            assert forall|x: SpaceReference| order@.contains(x) == reachable(self@, start, x) by {
                if reachable(self@, start, x) {
                    let w = lemma_short_walk(self@, start, x);
                    lemma_walk_visited(self@, order@, depths, w, n as nat, (w.len() - 1) as int);
                }
                if order@.contains(x) {
                    let i = choose|i: int| 0 <= i < order@.len() && order@[i] == x;
                }
            }
        }
        order
    }

    /// Makes `child` the last child of `parent`, unless `parent` is reachable from
    /// `child` (which includes `child == parent`): then nothing changes and the
    /// edge is reported as a [`CycleError`].
    pub fn add_child(&mut self, parent: SpaceReference, child: SpaceReference) -> (r: Result<(), CycleError>)
        requires
            old(self).wf(),
            is_space(old(self)@, parent),
            is_space(old(self)@, child),
        ensures
            final(self).wf(),
            r is Ok == !reachable(old(self)@, child, parent),
            r is Ok ==> final(self)@ == old(self)@.update(
                parent.index as int,
                with_child(old(self)@[parent.index as int], child),
            ),
            r is Err ==> final(self)@ == old(self)@ && r == Err::<(), CycleError>(CycleError { parent, child }),
    {
        if self.reaches(child, parent) {
            Err(CycleError { parent, child })
        } else {
            self.spaces[parent.index].children.push(child);
            proof {
                let g = old(self)@;
                let g2 = self@;
                assert(g2 =~= g.update(parent.index as int, with_child(g[parent.index as int], child)));
                assert forall|i: int| 0 <= i < g.len() && i != parent.index implies g2[i] == g[i] by {
                }
                lemma_add_edge_wf(g, g2, parent, child);
            }
            Ok(())
        }
    }
}

/// After a successful `add_child(p, c)`, `c` occurs once more among the children
/// of `p` than before, in the last place, after the children `p` had.
pub proof fn lemma_added_child_once_more(before: Seq<SpaceView>, p: SpaceReference, c: SpaceReference)
    requires
        is_space(before, p),
    ensures
        ({
            let after = before.update(p.index as int, with_child(before[p.index as int], c));
            &&& after[p.index as int].children.to_multiset().count(c)
                == before[p.index as int].children.to_multiset().count(c) + 1
            &&& after[p.index as int].children.last() == c
            &&& after[p.index as int].children.drop_last() == before[p.index as int].children
        }),
{
    let ch = before[p.index as int].children;
    to_multiset_build(ch, c);
    assert(ch.push(c).drop_last() =~= ch);
}

/// A space can never become its own child: it is reachable from itself, so
/// `add_child(n, n)` always fails and leaves the graph as it was.
pub proof fn lemma_self_edge_refused(g: Seq<SpaceView>, n: SpaceReference)
    ensures
        reachable(g, n, n),
{
    lemma_reach_refl(g, n);
}

/// Once `add_child(a, b)` and then `add_child(b, c)` have succeeded, `a` is
/// reachable from `c`, so `add_child(c, a)` fails and leaves the graph as it was.
pub proof fn lemma_transitive_cycle_refused(
    g0: Seq<SpaceView>,
    a: SpaceReference,
    b: SpaceReference,
    c: SpaceReference,
)
    requires
        is_space(g0, a),
        is_space(g0, b),
    ensures
        ({
            let g1 = g0.update(a.index as int, with_child(g0[a.index as int], b));
            let g2 = g1.update(b.index as int, with_child(g1[b.index as int], c));
            reachable(g2, a, c)
        }),
{
    let g1 = g0.update(a.index as int, with_child(g0[a.index as int], b));
    let g2 = g1.update(b.index as int, with_child(g1[b.index as int], c));
    let ca = g1[a.index as int].children;
    assert(ca[ca.len() - 1] == b);
    if a == b {
        assert(g2[a.index as int].children[ca.len() as int] == c);
        assert(has_edge(g2, a, c));
        lemma_reach_refl(g2, a);
        lemma_reach_step(g2, a, a, c);
    } else {
        assert(g2[a.index as int].children == ca);
        assert(has_edge(g2, a, b));
        let cb = g1[b.index as int].children;
        assert(g2[b.index as int].children[cb.len() as int] == c);
        assert(has_edge(g2, b, c));
        lemma_reach_refl(g2, a);
        lemma_reach_step(g2, a, a, b);
        lemma_reach_step(g2, a, b, c);
    }
}

/// `insert_room` never fails, and each call adds exactly one occurrence of the room,
/// duplicates included.
pub proof fn lemma_room_inserted_once_more(before: Seq<SpaceView>, r: SpaceReference, room: Seq<char>)
    requires
        is_space(before, r),
    ensures
        ({
            let after = before.update(r.index as int, with_room(before[r.index as int], room));
            &&& after[r.index as int].rooms.len() == before[r.index as int].rooms.len() + 1
            &&& after[r.index as int].rooms.to_multiset().count(room)
                == before[r.index as int].rooms.to_multiset().count(room) + 1
        }),
{
    to_multiset_build(before[r.index as int].rooms, room);
}

} // verus!
