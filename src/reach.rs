//! Reachability over a graph of spaces, and the facts about it that the
//! cycle guard relies on.
use vstd::prelude::*;
use vstd::set_lib::{lemma_int_range, lemma_len_subset, set_int_range};
use crate::spacegraph::{SpaceReference, SpaceView};

verus! {

/// `r` names one of the spaces of `g`.
pub open spec fn is_space(g: Seq<SpaceView>, r: SpaceReference) -> bool {
    r.index < g.len()
}

/// `v` is a direct child of `u` in `g`.
pub open spec fn has_edge(g: Seq<SpaceView>, u: SpaceReference, v: SpaceReference) -> bool {
    is_space(g, u) && g[u.index as int].children.contains(v)
}

/// `b` can be reached from `a` by following at most `k` child edges.
pub open spec fn reach_within(g: Seq<SpaceView>, a: SpaceReference, b: SpaceReference, k: nat) -> bool
    decreases k,
{
    a == b || (k > 0 && exists|w: SpaceReference|
        #![trigger has_edge(g, w, b)]
        reach_within(g, a, w, (k - 1) as nat) && has_edge(g, w, b))
}

/// `b` is `a` itself or one of its descendants.
pub open spec fn reachable(g: Seq<SpaceView>, a: SpaceReference, b: SpaceReference) -> bool {
    exists|k: nat| reach_within(g, a, b, k)
}

/// No space is its own descendant: no edge leads back into a space from which its source is reachable.
pub open spec fn acyclic(g: Seq<SpaceView>) -> bool {
    forall|a: SpaceReference, u: SpaceReference|
        #![trigger reachable(g, a, u), has_edge(g, u, a)]
        !(reachable(g, a, u) && has_edge(g, u, a))
}

/// Every child is a space of `g`, and the child edges form no cycle.
pub open spec fn graph_wf(g: Seq<SpaceView>) -> bool {
    &&& forall|i: int, j: int|
        #![trigger g[i].children[j]]
        0 <= i < g.len() && 0 <= j < g[i].children.len() ==> is_space(g, g[i].children[j])
    &&& acyclic(g)
}

/// The spaces that no edge of `g` leads to.
pub open spec fn is_root(g: Seq<SpaceView>, r: SpaceReference) -> bool {
    is_space(g, r) && forall|u: SpaceReference| !#[trigger] has_edge(g, u, r)
}

/// Every space is reachable from itself.
pub proof fn lemma_reach_refl(g: Seq<SpaceView>, a: SpaceReference)
    ensures
        reachable(g, a, a),
{
    assert(reach_within(g, a, a, 0));
}

/// What is reachable, extended by one child edge, is reachable.
pub proof fn lemma_reach_step(g: Seq<SpaceView>, a: SpaceReference, u: SpaceReference, v: SpaceReference)
    requires
        reachable(g, a, u),
        has_edge(g, u, v),
    ensures
        reachable(g, a, v),
{
    let k = choose|k: nat| reach_within(g, a, u, k);
    assert(reach_within(g, a, v, k + 1));
}

/// Reachability is transitive.
pub proof fn lemma_reach_trans(g: Seq<SpaceView>, a: SpaceReference, b: SpaceReference, c: SpaceReference)
    requires
        reachable(g, a, b),
        reachable(g, b, c),
    ensures
        reachable(g, a, c),
{
    let k = choose|k: nat| reach_within(g, b, c, k);
    lemma_reach_trans_within(g, a, b, c, k);
}

proof fn lemma_reach_trans_within(g: Seq<SpaceView>, a: SpaceReference, b: SpaceReference, c: SpaceReference, k: nat)
    requires
        reachable(g, a, b),
        reach_within(g, b, c, k),
    ensures
        reachable(g, a, c),
    decreases k,
{
    if b != c {
        let w = choose|w: SpaceReference| reach_within(g, b, w, (k - 1) as nat) && has_edge(g, w, c);
        lemma_reach_trans_within(g, a, b, w, (k - 1) as nat);
        lemma_reach_step(g, a, w, c);
    }
}

/// A set of marked spaces that holds `a` and is closed under child edges holds
/// everything reachable from `a`.
pub proof fn lemma_closed_holds_reachable(g: Seq<SpaceView>, marks: Seq<bool>, a: SpaceReference, b: SpaceReference)
    requires
        marks.len() == g.len(),
        is_space(g, a),
        marks[a.index as int],
        forall|u: SpaceReference, v: SpaceReference|
            #![trigger has_edge(g, u, v)]
            has_edge(g, u, v) && marks[u.index as int] ==> is_space(g, v) && marks[v.index as int],
        reachable(g, a, b),
    ensures
        is_space(g, b),
        marks[b.index as int],
{
    let k = choose|k: nat| reach_within(g, a, b, k);
    lemma_closed_holds_within(g, marks, a, b, k);
}

proof fn lemma_closed_holds_within(g: Seq<SpaceView>, marks: Seq<bool>, a: SpaceReference, b: SpaceReference, k: nat)
    requires
        marks.len() == g.len(),
        is_space(g, a),
        marks[a.index as int],
        forall|u: SpaceReference, v: SpaceReference|
            #![trigger has_edge(g, u, v)]
            has_edge(g, u, v) && marks[u.index as int] ==> is_space(g, v) && marks[v.index as int],
        reach_within(g, a, b, k),
    ensures
        is_space(g, b),
        marks[b.index as int],
    decreases k,
{
    if a != b {
        let w = choose|w: SpaceReference| reach_within(g, a, w, (k - 1) as nat) && has_edge(g, w, b);
        lemma_closed_holds_within(g, marks, a, w, (k - 1) as nat);
    }
}

/// Two graphs with the same edges have the same reachability.
pub proof fn lemma_same_edges(g1: Seq<SpaceView>, g2: Seq<SpaceView>)
    requires
        forall|u: SpaceReference, v: SpaceReference| has_edge(g1, u, v) == has_edge(g2, u, v),
    ensures
        forall|a: SpaceReference, b: SpaceReference| reachable(g1, a, b) == reachable(g2, a, b),
{
    assert forall|a: SpaceReference, b: SpaceReference| reachable(g1, a, b) == reachable(g2, a, b) by {
        if reachable(g1, a, b) {
            let k = choose|k: nat| reach_within(g1, a, b, k);
            lemma_same_edges_within(g1, g2, k);
            assert(reach_within(g2, a, b, k));
        }
        if reachable(g2, a, b) {
            let k = choose|k: nat| reach_within(g2, a, b, k);
            lemma_same_edges_within(g1, g2, k);
            assert(reach_within(g1, a, b, k));
        }
    }
}

proof fn lemma_same_edges_within(g1: Seq<SpaceView>, g2: Seq<SpaceView>, k: nat)
    requires
        forall|u: SpaceReference, v: SpaceReference| has_edge(g1, u, v) == has_edge(g2, u, v),
    ensures
        forall|a: SpaceReference, b: SpaceReference|
            #[trigger] reach_within(g1, a, b, k) == reach_within(g2, a, b, k),
    decreases k,
{
    if k > 0 {
        lemma_same_edges_within(g1, g2, (k - 1) as nat);
        assert forall|a: SpaceReference, b: SpaceReference|
            #[trigger] reach_within(g1, a, b, k) == reach_within(g2, a, b, k) by {
            if a != b && reach_within(g1, a, b, k) {
                let w = choose|w: SpaceReference| reach_within(g1, a, w, (k - 1) as nat) && has_edge(g1, w, b);
                assert(reach_within(g2, a, w, (k - 1) as nat) && has_edge(g2, w, b));
            }
            if a != b && reach_within(g2, a, b, k) {
                let w = choose|w: SpaceReference| reach_within(g2, a, w, (k - 1) as nat) && has_edge(g2, w, b);
                assert(reach_within(g1, a, w, (k - 1) as nat) && has_edge(g1, w, b));
            }
        }
    }
}

/// In `g2`, which is `g` with one more edge `p -> c`, whatever is reachable was
/// reachable in `g` or goes through the new edge.
proof fn lemma_reach_with_edge(
    g: Seq<SpaceView>,
    g2: Seq<SpaceView>,
    p: SpaceReference,
    c: SpaceReference,
    x: SpaceReference,
    y: SpaceReference,
    k: nat,
)
    requires
        forall|u: SpaceReference, v: SpaceReference|
            has_edge(g2, u, v) == (has_edge(g, u, v) || (u == p && v == c)),
        !reachable(g, c, p),
        reach_within(g2, x, y, k),
    ensures
        reachable(g, x, y) || (reachable(g, x, p) && reachable(g, c, y)),
    decreases k,
{
    if x == y {
        lemma_reach_refl(g, x);
    } else {
        let w = choose|w: SpaceReference| reach_within(g2, x, w, (k - 1) as nat) && has_edge(g2, w, y);
        lemma_reach_with_edge(g, g2, p, c, x, w, (k - 1) as nat);
        if has_edge(g, w, y) {
            if reachable(g, x, w) {
                lemma_reach_step(g, x, w, y);
            } else {
                lemma_reach_step(g, c, w, y);
            }
        } else {
            if reachable(g, x, w) {
                lemma_reach_refl(g, c);
            }
        }
    }
}

/// Adding the edge `p -> c` to a well-formed graph in which `p` is not reachable
/// from `c` keeps it well formed.
pub proof fn lemma_add_edge_wf(g: Seq<SpaceView>, g2: Seq<SpaceView>, p: SpaceReference, c: SpaceReference)
    requires
        graph_wf(g),
        is_space(g, p),
        is_space(g, c),
        !reachable(g, c, p),
        g2.len() == g.len(),
        forall|i: int| 0 <= i < g.len() && i != p.index ==> g2[i] == g[i],
        g2[p.index as int].children == g[p.index as int].children.push(c),
    ensures
        graph_wf(g2),
        forall|u: SpaceReference, v: SpaceReference|
            has_edge(g2, u, v) == (has_edge(g, u, v) || (u == p && v == c)),
{
    let pc = g[p.index as int].children;
    assert forall|u: SpaceReference, v: SpaceReference|
        has_edge(g2, u, v) == (has_edge(g, u, v) || (u == p && v == c)) by {
        if u == p {
            if pc.push(c).contains(v) && v != c {
                let j = choose|j: int| 0 <= j < pc.push(c).len() && pc.push(c)[j] == v;
                assert(pc[j] == v);
            }
            if pc.contains(v) {
                let j = choose|j: int| 0 <= j < pc.len() && pc[j] == v;
                assert(pc.push(c)[j] == v);
            }
            if v == c {
                assert(pc.push(c)[pc.len() as int] == v);
            }
        }
    }
    assert forall|i: int, j: int|
        0 <= i < g2.len() && 0 <= j < g2[i].children.len() implies is_space(g2, #[trigger] g2[i].children[j]) by {
        if i == p.index && j == pc.len() {
        } else if i == p.index {
            assert(g2[i].children[j] == g[i].children[j]);
        } else {
            assert(g2[i].children[j] == g[i].children[j]);
        }
    }
    assert forall|a: SpaceReference, u: SpaceReference|
        #![trigger reachable(g2, a, u), has_edge(g2, u, a)]
        !(reachable(g2, a, u) && has_edge(g2, u, a)) by {
        if reachable(g2, a, u) && has_edge(g2, u, a) {
            let k = choose|k: nat| reach_within(g2, a, u, k);
            lemma_reach_with_edge(g, g2, p, c, a, u, k);
            if reachable(g, a, u) {
                if has_edge(g, u, a) {
                    assert(!(reachable(g, a, u) && has_edge(g, u, a)));
                } else {
                    assert(reachable(g, c, p));
                }
            } else {
                if has_edge(g, u, a) {
                    lemma_reach_step(g, c, u, a);
                    lemma_reach_trans(g, c, a, p);
                } else {
                    assert(reachable(g, c, p));
                }
            }
        }
    }
}

/// Reachability can only grow when edges are added.
pub proof fn lemma_reach_mono(g1: Seq<SpaceView>, g2: Seq<SpaceView>, a: SpaceReference, b: SpaceReference)
    requires
        forall|u: SpaceReference, v: SpaceReference| has_edge(g1, u, v) ==> has_edge(g2, u, v),
        reachable(g1, a, b),
    ensures
        reachable(g2, a, b),
{
    let k = choose|k: nat| reach_within(g1, a, b, k);
    lemma_reach_mono_within(g1, g2, a, b, k);
}

proof fn lemma_reach_mono_within(g1: Seq<SpaceView>, g2: Seq<SpaceView>, a: SpaceReference, b: SpaceReference, k: nat)
    requires
        forall|u: SpaceReference, v: SpaceReference| has_edge(g1, u, v) ==> has_edge(g2, u, v),
        reach_within(g1, a, b, k),
    ensures
        reachable(g2, a, b),
    decreases k,
{
    if a == b {
        lemma_reach_refl(g2, a);
    } else {
        let w = choose|w: SpaceReference| reach_within(g1, a, w, (k - 1) as nat) && has_edge(g1, w, b);
        lemma_reach_mono_within(g1, g2, a, w, (k - 1) as nat);
        lemma_reach_step(g2, a, w, b);
    }
}

/// `s` is a walk along child edges of `g`.
pub open spec fn is_walk(g: Seq<SpaceView>, s: Seq<SpaceReference>) -> bool {
    &&& s.len() >= 1
    &&& forall|i: int| 0 <= i < s.len() - 1 ==> #[trigger] has_edge(g, s[i], s[i + 1])
}

proof fn lemma_walk_of(g: Seq<SpaceView>, a: SpaceReference, b: SpaceReference, k: nat) -> (s: Seq<SpaceReference>)
    requires
        reach_within(g, a, b, k),
    ensures
        is_walk(g, s),
        s[0] == a,
        s.last() == b,
    decreases k,
{
    if a == b {
        seq![a]
    } else {
        let w = choose|w: SpaceReference| reach_within(g, a, w, (k - 1) as nat) && has_edge(g, w, b);
        let s0 = lemma_walk_of(g, a, w, (k - 1) as nat);
        let s = s0.push(b);
        assert forall|i: int| 0 <= i < s.len() - 1 implies #[trigger] has_edge(g, s[i], s[i + 1]) by {
            if i < s0.len() - 1 {
                assert(s[i] == s0[i] && s[i + 1] == s0[i + 1]);
            } else {
                assert(s[i] == w && s[i + 1] == b);
            }
        }
        s
    }
}

proof fn lemma_walk_reach(g: Seq<SpaceView>, s: Seq<SpaceReference>, i: int, m: int)
    requires
        is_walk(g, s),
        0 <= i <= m < s.len(),
    ensures
        reachable(g, s[i], s[m]),
    decreases m - i,
{
    if m == i {
        lemma_reach_refl(g, s[i]);
    } else {
        lemma_walk_reach(g, s, i, m - 1);
        assert(has_edge(g, s[m - 1], s[m - 1 + 1]));
        lemma_reach_step(g, s[i], s[m - 1], s[m]);
    }
}

/// In a well-formed graph a walk from a space visits no space twice, so it has
/// at most as many places as the graph has spaces.
proof fn lemma_walk_short(g: Seq<SpaceView>, s: Seq<SpaceReference>)
    requires
        graph_wf(g),
        is_walk(g, s),
        is_space(g, s[0]),
    ensures
        s.len() <= g.len(),
{
    assert forall|i: int| 0 <= i < s.len() implies is_space(g, #[trigger] s[i]) by {
        if i > 0 {
            assert(has_edge(g, s[i - 1], s[i - 1 + 1]));
            let ch = g[s[i - 1].index as int].children;
            let j = choose|j: int| 0 <= j < ch.len() && ch[j] == s[i];
            assert(is_space(g, g[s[i - 1].index as int].children[j]));
        }
    }
    let t = s.map_values(|r: SpaceReference| r.index as int);
    assert forall|i: int, j: int| 0 <= i < t.len() && 0 <= j < t.len() && i != j implies t[i] != t[j] by {
        if t[i] == t[j] {
            let (lo, hi) = if i < j {
                (i, j)
            } else {
                (j, i)
            };
            assert(s[lo] == s[hi]);
            lemma_walk_reach(g, s, lo, hi - 1);
            assert(has_edge(g, s[hi - 1], s[hi - 1 + 1]));
            assert(!(reachable(g, s[lo], s[hi - 1]) && has_edge(g, s[hi - 1], s[lo])));
        }
    }
    t.unique_seq_to_set();
    lemma_int_range(0, g.len() as int);
    assert forall|x: int| t.to_set().contains(x) implies set_int_range(0, g.len() as int).contains(x) by {
        let i = choose|i: int| 0 <= i < t.len() && t[i] == x;
        assert(is_space(g, s[i]));
    }
    lemma_len_subset(t.to_set(), set_int_range(0, g.len() as int));
}

/// Whatever is reachable from a space of a well-formed graph is reachable along a
/// walk with at most as many places as the graph has spaces.
pub proof fn lemma_short_walk(g: Seq<SpaceView>, a: SpaceReference, b: SpaceReference) -> (s: Seq<SpaceReference>)
    requires
        graph_wf(g),
        is_space(g, a),
        reachable(g, a, b),
    ensures
        is_walk(g, s),
        s[0] == a,
        s.last() == b,
        s.len() <= g.len(),
{
    let k = choose|k: nat| reach_within(g, a, b, k);
    let s = lemma_walk_of(g, a, b, k);
    lemma_walk_short(g, s);
    s
}

} // verus!
