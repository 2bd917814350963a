//! The object graph as an explicit edge table.
//!
//! An `Edge` records that `child` currently has `parent`. The table is the
//! single source of truth for the hierarchy: the parent lookup, the child
//! list, and the descendant traversal are all defined from it, so a restore
//! that replaces the table replaces every derived view with it.
//!
//! A parent map (at most one parent per child) is a functional graph, so
//! "no cycles" is the same as "every chain of parent links terminates".
//! That is what [`acyclic`] states, through a bound on the length of every
//! chain.

use vstd::prelude::*;

verus! {

/// One directed relation of the object graph: `child` is parented under
/// `parent`.
#[derive(Clone, Copy, Debug, PartialEq, Eq, Structural)]
pub struct Edge {
    pub child: u64,
    pub parent: u64,
}

/// The edge with the given endpoints.
pub open spec fn edge(child: u64, parent: u64) -> Edge {
    Edge { child, parent }
}

/// At most one parent per child: no two edges share a child.
pub open spec fn child_unique(edges: Seq<Edge>) -> bool {
    forall|i: int, j: int|
        0 <= i < j < edges.len() ==> (#[trigger] edges[i].child) != (#[trigger] edges[j].child)
}

/// The child-to-parent map that the edge table denotes.
pub open spec fn parent_map(edges: Seq<Edge>) -> Map<u64, u64>
    decreases edges.len(),
{
    if edges.len() == 0 {
        Map::<u64, u64>::empty()
    } else {
        parent_map(edges.drop_last()).insert(edges.last().child, edges.last().parent)
    }
}

/// `b` is reached from `a` by following at most `fuel` parent links.
pub open spec fn reach(m: Map<u64, u64>, a: u64, b: u64, fuel: nat) -> bool
    decreases fuel,
{
    a == b || (fuel > 0 && m.contains_key(a) && reach(m, m[a], b, (fuel - 1) as nat))
}

/// `b` is `a` or some ancestor of `a`.
pub open spec fn reachable(m: Map<u64, u64>, a: u64, b: u64) -> bool {
    exists|fuel: nat| reach(m, a, b, fuel)
}

/// The chain of parent links starting at `a` terminates within `fuel` steps.
pub open spec fn ends(m: Map<u64, u64>, a: u64, fuel: nat) -> bool
    decreases fuel,
{
    if !m.contains_key(a) {
        true
    } else {
        fuel > 0 && ends(m, m[a], (fuel - 1) as nat)
    }
}

/// Every chain of parent links terminates within `fuel` steps.
pub open spec fn bounded(m: Map<u64, u64>, fuel: nat) -> bool {
    forall|a: u64| ends(m, a, fuel)
}

/// Every chain of parent links terminates: the functional graph has no cycle.
pub open spec fn acyclic(m: Map<u64, u64>) -> bool {
    exists|fuel: nat| bounded(m, fuel)
}

/// Every key of `m2` is a key of `m1` with the same value.
pub open spec fn edge_submap(m2: Map<u64, u64>, m1: Map<u64, u64>) -> bool {
    forall|k: u64| #[trigger] m2.contains_key(k) ==> m1.contains_key(k) && m1[k] == m2[k]
}

/// A chain that terminates within `f` steps terminates within any larger bound.
pub proof fn lemma_ends_mono(m: Map<u64, u64>, a: u64, f: nat, g: nat)
    requires
        ends(m, a, f),
        f <= g,
    ensures
        ends(m, a, g),
    decreases f,
{
    if m.contains_key(a) {
        lemma_ends_mono(m, m[a], (f - 1) as nat, (g - 1) as nat);
    }
}

/// Chains of a submap terminate wherever chains of the larger map do.
pub proof fn lemma_ends_submap(m1: Map<u64, u64>, m2: Map<u64, u64>, a: u64, f: nat)
    requires
        ends(m1, a, f),
        edge_submap(m2, m1),
    ensures
        ends(m2, a, f),
    decreases f,
{
    if m2.contains_key(a) {
        lemma_ends_submap(m1, m2, m1[a], (f - 1) as nat);
    }
}

/// A reach in a submap is a reach in the larger map.
pub proof fn lemma_reach_submap(m1: Map<u64, u64>, m2: Map<u64, u64>, a: u64, b: u64, f: nat)
    requires
        reach(m2, a, b, f),
        edge_submap(m2, m1),
    ensures
        reach(m1, a, b, f),
    decreases f,
{
    if a != b {
        lemma_reach_submap(m1, m2, m2[a], b, (f - 1) as nat);
    }
}

/// Dropping edges cannot create a cycle.
pub proof fn lemma_acyclic_submap(m1: Map<u64, u64>, m2: Map<u64, u64>)
    requires
        acyclic(m1),
        edge_submap(m2, m1),
    ensures
        acyclic(m2),
{
    let f = choose|f: nat| bounded(m1, f);
    assert(bounded(m1, f));
    assert forall|a: u64| ends(m2, a, f) by {
        assert(ends(m1, a, f));
        lemma_ends_submap(m1, m2, a, f);
    }
    assert(bounded(m2, f));
}

/// A chain that never passes through `c` is unchanged when `c`'s parent is set.
proof fn lemma_ends_insert_avoid(m: Map<u64, u64>, c: u64, p: u64, a: u64, f: nat)
    requires
        ends(m, a, f),
        !reach(m, a, c, f),
    ensures
        ends(m.insert(c, p), a, f),
    decreases f,
{
    if m.contains_key(a) {
        lemma_ends_insert_avoid(m, c, p, m[a], (f - 1) as nat);
    }
}

/// Setting `c`'s parent to `p` keeps every chain finite, provided the chain
/// above `p` never reaches `c`.
proof fn lemma_ends_insert(m: Map<u64, u64>, c: u64, p: u64, a: u64, g: nat, fp: nat)
    requires
        ends(m, a, g),
        ends(m, p, fp),
        !reach(m, p, c, fp),
    ensures
        ends(m.insert(c, p), a, g + 1 + fp),
    decreases g,
{
    if a == c {
        lemma_ends_insert_avoid(m, c, p, p, fp);
        assert(ends(m.insert(c, p), a, fp + 1));
        lemma_ends_mono(m.insert(c, p), a, fp + 1, g + 1 + fp);
    } else if m.contains_key(a) {
        lemma_ends_insert(m, c, p, m[a], (g - 1) as nat, fp);
    }
}

/// Re-parenting `c` under `p` preserves acyclicity whenever `p` is not `c`
/// nor a descendant of `c`, that is, whenever `c` is not reachable upward
/// from `p`.
pub proof fn lemma_acyclic_insert(m: Map<u64, u64>, c: u64, p: u64)
    requires
        acyclic(m),
        !reachable(m, p, c),
    ensures
        acyclic(m.insert(c, p)),
{
    let f = choose|f: nat| bounded(m, f);
    assert(bounded(m, f));
    assert forall|a: u64| #[trigger] ends(m.insert(c, p), a, f + 1 + f) by {
        assert(ends(m, a, f));
        assert(ends(m, p, f));
        assert(!reach(m, p, c, f));
        lemma_ends_insert(m, c, p, a, f, f);
    }
    assert(bounded(m.insert(c, p), f + 1 + f));
}

/// The parent map holds a key exactly when some edge has that child.
pub proof fn lemma_parent_map_contains(edges: Seq<Edge>, id: u64)
    ensures
        parent_map(edges).contains_key(id) <==> exists|i: int|
            0 <= i < edges.len() && (#[trigger] edges[i].child) == id,
    decreases edges.len(),
{
    if edges.len() > 0 {
        lemma_parent_map_contains(edges.drop_last(), id);
        if edges.last().child == id {
            assert(edges[edges.len() - 1].child == id);
        } else if exists|i: int| 0 <= i < edges.len() && (#[trigger] edges[i].child) == id {
            let i = choose|i: int| 0 <= i < edges.len() && (#[trigger] edges[i].child) == id;
            assert(edges.drop_last()[i].child == id);
        }
    }
}

/// The children of `parent`, in the order their edges stand in the table,
/// which is the order the parent assignments were made.
pub open spec fn children_seq(edges: Seq<Edge>, parent: u64) -> Seq<u64>
    decreases edges.len(),
{
    if edges.len() == 0 {
        Seq::<u64>::empty()
    } else {
        let rest = children_seq(edges.drop_last(), parent);
        if edges.last().parent == parent {
            rest.push(edges.last().child)
        } else {
            rest
        }
    }
}

/// The edge table with every edge touching `id` removed, order kept.
pub open spec fn edges_without(edges: Seq<Edge>, id: u64) -> Seq<Edge>
    decreases edges.len(),
{
    if edges.len() == 0 {
        Seq::<Edge>::empty()
    } else {
        let rest = edges_without(edges.drop_last(), id);
        if edges.last().child == id || edges.last().parent == id {
            rest
        } else {
            rest.push(edges.last())
        }
    }
}

/// The edge table with any edge of child `c` removed, order kept.
pub open spec fn edges_without_child(edges: Seq<Edge>, c: u64) -> Seq<Edge>
    decreases edges.len(),
{
    if edges.len() == 0 {
        Seq::<Edge>::empty()
    } else {
        let rest = edges_without_child(edges.drop_last(), c);
        if edges.last().child == c {
            rest
        } else {
            rest.push(edges.last())
        }
    }
}

/// Under uniqueness, each edge gives its child's value in the parent map.
pub proof fn lemma_parent_map_value(edges: Seq<Edge>, i: int)
    requires
        child_unique(edges),
        0 <= i < edges.len(),
    ensures
        parent_map(edges).contains_key(edges[i].child),
        parent_map(edges)[edges[i].child] == edges[i].parent,
    decreases edges.len(),
{
    if i < edges.len() - 1 {
        assert(edges.drop_last()[i] == edges[i]);
        lemma_parent_map_value(edges.drop_last(), i);
        assert(edges[i].child != edges.last().child);
    }
}

/// Dropping the edges that touch `id` keeps uniqueness, keeps only edges of
/// the original table, leaves no mention of `id`, and shrinks the parent map.
pub proof fn lemma_edges_without_props(edges: Seq<Edge>, id: u64)
    requires
        child_unique(edges),
    ensures
        child_unique(edges_without(edges, id)),
        forall|i: int|
            0 <= i < edges_without(edges, id).len() ==> (#[trigger] edges_without(edges, id)[i]).child != id
                && edges_without(edges, id)[i].parent != id
                && edges.contains(edges_without(edges, id)[i]),
        edge_submap(parent_map(edges_without(edges, id)), parent_map(edges)),
    decreases edges.len(),
{
    if edges.len() > 0 {
        let prior = edges.drop_last();
        let e = edges.last();
        lemma_edges_without_props(prior, id);
        let rest = edges_without(prior, id);
        assert forall|i: int| 0 <= i < rest.len() implies edges.contains(#[trigger] rest[i]) by {
            assert(prior.contains(rest[i]));
            let j = choose|j: int| 0 <= j < prior.len() && prior[j] == rest[i];
            assert(edges[j] == rest[i]);
        }
        lemma_parent_map_contains(prior, e.child);
        if e.child == id || e.parent == id {
            assert(edges_without(edges, id) == rest);
            assert(edge_submap(parent_map(rest), parent_map(prior)));
            assert forall|k: u64| #[trigger] parent_map(rest).contains_key(k)
                implies parent_map(edges).contains_key(k) && parent_map(edges)[k] == parent_map(rest)[k] by {
                lemma_parent_map_contains(rest, e.child);
                assert(k != e.child);
            }
        } else {
            let kept = rest.push(e);
            assert(edges_without(edges, id) == kept);
            // uniqueness: every child in `rest` comes from `prior`, none equals `e.child`
            assert forall|i: int, j: int| 0 <= i < j < kept.len() implies
                (#[trigger] kept[i].child) != (#[trigger] kept[j].child) by {
                if j == kept.len() - 1 {
                    assert(kept[i] == rest[i]);
                    assert(prior.contains(rest[i]));
                    let w = choose|w: int| 0 <= w < prior.len() && prior[w] == rest[i];
                    assert(edges[w].child == rest[i].child);
                    assert(edges[edges.len() - 1].child == e.child);
                } else {
                    assert(kept[i] == rest[i] && kept[j] == rest[j]);
                }
            }
            assert(kept.drop_last() =~= rest);
            assert(parent_map(kept) == parent_map(rest).insert(e.child, e.parent));
            assert forall|k: u64| #[trigger] parent_map(kept).contains_key(k)
                implies parent_map(edges).contains_key(k) && parent_map(edges)[k] == parent_map(kept)[k] by {
                if k == e.child {
                } else {
                    assert(parent_map(rest).contains_key(k));
                }
            }
        }
    }
}

/// Dropping the edge of child `c` keeps uniqueness, keeps only edges of the
/// original table, and removes exactly `c` from the parent map.
pub proof fn lemma_edges_without_child_props(edges: Seq<Edge>, c: u64)
    requires
        child_unique(edges),
    ensures
        child_unique(edges_without_child(edges, c)),
        forall|i: int|
            0 <= i < edges_without_child(edges, c).len() ==> (#[trigger] edges_without_child(edges, c)[i]).child != c
                && edges.contains(edges_without_child(edges, c)[i]),
        parent_map(edges_without_child(edges, c)) == parent_map(edges).remove(c),
    decreases edges.len(),
{
    if edges.len() == 0 {
        assert(parent_map(edges_without_child(edges, c)) =~= parent_map(edges).remove(c));
    } else {
        let prior = edges.drop_last();
        let e = edges.last();
        lemma_edges_without_child_props(prior, c);
        let rest = edges_without_child(prior, c);
        assert forall|i: int| 0 <= i < rest.len() implies edges.contains(#[trigger] rest[i]) by {
            assert(prior.contains(rest[i]));
            let j = choose|j: int| 0 <= j < prior.len() && prior[j] == rest[i];
            assert(edges[j] == rest[i]);
        }
        if e.child == c {
            assert(edges_without_child(edges, c) == rest);
            assert(parent_map(rest) =~= parent_map(edges).remove(c));
        } else {
            let kept = rest.push(e);
            assert(edges_without_child(edges, c) == kept);
            assert forall|i: int, j: int| 0 <= i < j < kept.len() implies
                (#[trigger] kept[i].child) != (#[trigger] kept[j].child) by {
                if j == kept.len() - 1 {
                    assert(kept[i] == rest[i]);
                    assert(prior.contains(rest[i]));
                    let w = choose|w: int| 0 <= w < prior.len() && prior[w] == rest[i];
                    assert(edges[w].child == rest[i].child);
                    assert(edges[edges.len() - 1].child == e.child);
                } else {
                    assert(kept[i] == rest[i] && kept[j] == rest[j]);
                }
            }
            assert(kept.drop_last() =~= rest);
            assert(parent_map(kept) == parent_map(rest).insert(e.child, e.parent));
            assert(parent_map(kept) =~= parent_map(edges).remove(c));
        }
    }
}

/// Every child listed for `parent` is the child of some edge of the table
/// whose parent is `parent`.
pub proof fn lemma_children_seq_members(edges: Seq<Edge>, parent: u64)
    ensures
        forall|x: u64| #[trigger] children_seq(edges, parent).contains(x) ==> exists|i: int|
            0 <= i < edges.len() && (#[trigger] edges[i]).child == x && edges[i].parent == parent,
    decreases edges.len(),
{
    if edges.len() > 0 {
        let prior = edges.drop_last();
        let e = edges.last();
        lemma_children_seq_members(prior, parent);
        let rest = children_seq(prior, parent);
        assert forall|x: u64| #[trigger] children_seq(edges, parent).contains(x) implies exists|i: int|
            0 <= i < edges.len() && (#[trigger] edges[i]).child == x && edges[i].parent == parent by {
            let j = choose|j: int|
                0 <= j < children_seq(edges, parent).len() && children_seq(edges, parent)[j] == x;
            if e.parent == parent && j == children_seq(edges, parent).len() - 1 {
                assert(edges[edges.len() - 1].child == x && edges[edges.len() - 1].parent == parent);
            } else {
                assert(rest[j] == x);
                assert(rest.contains(x));
                let i = choose|i: int|
                    0 <= i < prior.len() && (#[trigger] prior[i]).child == x && prior[i].parent == parent;
                assert(edges[i].child == x && edges[i].parent == parent);
            }
        }
    }
}

/// Depth-first traversal below `id`: each child in insertion order, followed
/// by that child's own descendants. `fuel` bounds the depth; the store passes
/// its live-object count, which covers every acyclic graph it can hold.
pub open spec fn descendants_seq(edges: Seq<Edge>, id: u64, fuel: nat) -> Seq<u64>
    decreases fuel, children_seq(edges, id).len() + 1,
{
    if fuel == 0 {
        Seq::<u64>::empty()
    } else {
        descend_list(edges, children_seq(edges, id), fuel)
    }
}

/// The depth-first listing of `kids` and their descendants, left to right.
pub open spec fn descend_list(edges: Seq<Edge>, kids: Seq<u64>, fuel: nat) -> Seq<u64>
    decreases fuel, kids.len(),
{
    if fuel == 0 || kids.len() == 0 {
        Seq::<u64>::empty()
    } else {
        seq![kids[0]] + descendants_seq(edges, kids[0], (fuel - 1) as nat) + descend_list(
            edges,
            kids.drop_first(),
            fuel,
        )
    }
}

/// A reach within `f` steps is a reach within any larger bound.
pub proof fn lemma_reach_mono(m: Map<u64, u64>, a: u64, b: u64, f: nat, g: nat)
    requires
        reach(m, a, b, f),
        f <= g,
    ensures
        reach(m, a, b, g),
    decreases f,
{
    if a != b {
        lemma_reach_mono(m, m[a], b, (f - 1) as nat, (g - 1) as nat);
    }
}

/// Reaches compose: a chain to `b` followed by a chain from `b` to `c`.
pub proof fn lemma_reach_trans(m: Map<u64, u64>, a: u64, b: u64, c: u64, f1: nat, f2: nat)
    requires
        reach(m, a, b, f1),
        reach(m, b, c, f2),
    ensures
        reach(m, a, c, f1 + f2),
    decreases f1,
{
    if a == b {
        lemma_reach_mono(m, b, c, f2, f1 + f2);
    } else {
        lemma_reach_trans(m, m[a], b, c, (f1 - 1) as nat, f2);
    }
}

/// Every identity the traversal lists below `id` truly stands below it: the
/// listed object has a recorded parent, and following parent links from
/// that parent reaches `id`. The traversal and the cycle check thus agree
/// on what the edge table means.
pub proof fn lemma_descendants_below(edges: Seq<Edge>, id: u64, fuel: nat, x: u64)
    requires
        child_unique(edges),
        descendants_seq(edges, id, fuel).contains(x),
    ensures
        parent_map(edges).contains_key(x),
        reachable(parent_map(edges), parent_map(edges)[x], id),
    decreases fuel, children_seq(edges, id).len() + 1,
{
    lemma_children_seq_members(edges, id);
    let kids = children_seq(edges, id);
    assert forall|j: int|
        0 <= j < kids.len() implies parent_map(edges).contains_key(#[trigger] kids[j])
        && parent_map(edges)[kids[j]] == id by {
        assert(kids.contains(kids[j]));
        let i = choose|i: int|
            0 <= i < edges.len() && (#[trigger] edges[i]).child == kids[j] && edges[i].parent == id;
        lemma_parent_map_value(edges, i);
    }
    lemma_descend_list_below(edges, id, kids, fuel, x);
}

/// The part of [`lemma_descendants_below`] that walks one child list.
proof fn lemma_descend_list_below(edges: Seq<Edge>, id: u64, kids: Seq<u64>, fuel: nat, x: u64)
    requires
        child_unique(edges),
        forall|j: int|
            0 <= j < kids.len() ==> parent_map(edges).contains_key(#[trigger] kids[j])
                && parent_map(edges)[kids[j]] == id,
        descend_list(edges, kids, fuel).contains(x),
    ensures
        parent_map(edges).contains_key(x),
        reachable(parent_map(edges), parent_map(edges)[x], id),
    decreases fuel, kids.len(),
{
    let m = parent_map(edges);
    let listed = descend_list(edges, kids, fuel);
    let j = choose|j: int| 0 <= j < listed.len() && listed[j] == x;
    let head = seq![kids[0]];
    let mid = descendants_seq(edges, kids[0], (fuel - 1) as nat);
    let tail = descend_list(edges, kids.drop_first(), fuel);
    assert(listed == head + mid + tail);
    if j == 0 {
        assert(listed[0] == kids[0]);
        assert(reach(m, id, id, 0));
    } else if j < 1 + mid.len() {
        assert(listed[j] == mid[j - 1]);
        assert(mid.contains(x));
        lemma_descendants_below(edges, kids[0], (fuel - 1) as nat, x);
        let f = choose|f: nat| reach(m, m[x], kids[0], f);
        assert(reach(m, id, id, 0));
        assert(reach(m, kids[0], id, 1));
        lemma_reach_trans(m, m[x], kids[0], id, f, 1);
    } else {
        assert(listed[j] == tail[j - 1 - mid.len()]);
        assert(tail.contains(x));
        assert forall|j2: int|
            0 <= j2 < kids.drop_first().len() implies m.contains_key(
            #[trigger] kids.drop_first()[j2],
        ) && m[kids.drop_first()[j2]] == id by {
            assert(kids.drop_first()[j2] == kids[j2 + 1]);
        }
        lemma_descend_list_below(edges, id, kids.drop_first(), fuel, x);
    }
}

/// Every edge's child is listed among its parent's children.
pub proof fn lemma_children_seq_complete(edges: Seq<Edge>, i: int)
    requires
        0 <= i < edges.len(),
    ensures
        children_seq(edges, edges[i].parent).contains(edges[i].child),
    decreases edges.len(),
{
    let p = edges[i].parent;
    let rest = children_seq(edges.drop_last(), p);
    if i == edges.len() - 1 {
        assert(children_seq(edges, p)[rest.len() as int] == edges[i].child);
    } else {
        assert(edges.drop_last()[i] == edges[i]);
        lemma_children_seq_complete(edges.drop_last(), i);
        let j = choose|j: int| 0 <= j < rest.len() && rest[j] == edges[i].child;
        assert(children_seq(edges, p)[j] == edges[i].child);
    }
}

/// A chain that reaches `b` from elsewhere passes through a last link: some
/// key whose parent is `b`, reached first within fewer steps.
proof fn lemma_reach_last_link(m: Map<u64, u64>, a: u64, b: u64, f: nat)
    requires
        reach(m, a, b, f),
        a != b,
    ensures
        exists|c: u64, g: nat|
            g < f && m.contains_key(c) && m[c] == b && #[trigger] reach(m, a, c, g),
    decreases f,
{
    if m[a] == b {
        assert(reach(m, a, a, 0));
    } else {
        lemma_reach_last_link(m, m[a], b, (f - 1) as nat);
        let (c, g) = choose|c: u64, g: nat|
            g < f - 1 && m.contains_key(c) && m[c] == b && #[trigger] reach(m, m[a], c, g);
        assert(reach(m, a, c, g + 1));
    }
}

/// The listing of a child list covers each child and that child's own
/// descendants.
proof fn lemma_descend_list_covers(edges: Seq<Edge>, kids: Seq<u64>, fuel: nat, j: int)
    requires
        fuel > 0,
        0 <= j < kids.len(),
    ensures
        descend_list(edges, kids, fuel).contains(kids[j]),
        forall|x: u64|
            #[trigger] descendants_seq(edges, kids[j], (fuel - 1) as nat).contains(x)
                ==> descend_list(edges, kids, fuel).contains(x),
    decreases j,
{
    let head = seq![kids[0]];
    let mid = descendants_seq(edges, kids[0], (fuel - 1) as nat);
    let tail = descend_list(edges, kids.drop_first(), fuel);
    assert(descend_list(edges, kids, fuel) == head + mid + tail);
    if j == 0 {
        assert((head + mid + tail)[0] == kids[0]);
        assert forall|x: u64|
            #[trigger] mid.contains(x) implies descend_list(edges, kids, fuel).contains(x) by {
            let w = choose|w: int| 0 <= w < mid.len() && mid[w] == x;
            assert((head + mid + tail)[1 + w] == x);
        }
    } else {
        assert(kids.drop_first()[j - 1] == kids[j]);
        lemma_descend_list_covers(edges, kids.drop_first(), fuel, j - 1);
        assert forall|x: u64| #[trigger] tail.contains(x) implies descend_list(
            edges,
            kids,
            fuel,
        ).contains(x) by {
            let w = choose|w: int| 0 <= w < tail.len() && tail[w] == x;
            assert((head + mid + tail)[1 + mid.len() + w] == x);
        }
        assert(tail.contains(kids[j]));
    }
}

/// The traversal below `root` lists every object whose chain of parent
/// links reaches `root` within the traversal depth: together with
/// [`lemma_descendants_below`], the listing is exactly the set of objects
/// standing below `root`, as far as the depth bound carries.
pub proof fn lemma_descendants_cover(edges: Seq<Edge>, root: u64, x: u64, f: nat, fuel: nat)
    requires
        child_unique(edges),
        x != root,
        reach(parent_map(edges), x, root, f),
        fuel >= f,
    ensures
        descendants_seq(edges, root, fuel).contains(x),
    decreases f,
{
    let m = parent_map(edges);
    lemma_reach_last_link(m, x, root, f);
    let (c, g) = choose|c: u64, g: nat|
        g < f && m.contains_key(c) && m[c] == root && #[trigger] reach(m, x, c, g);
    lemma_parent_map_contains(edges, c);
    let i = choose|i: int| 0 <= i < edges.len() && (#[trigger] edges[i]).child == c;
    lemma_parent_map_value(edges, i);
    assert(edges[i].parent == root);
    lemma_children_seq_complete(edges, i);
    let kids = children_seq(edges, root);
    let j = choose|j: int| 0 <= j < kids.len() && kids[j] == c;
    lemma_descend_list_covers(edges, kids, fuel, j);
    if x != c {
        lemma_descendants_cover(edges, c, x, g, (fuel - 1) as nat);
        assert(descendants_seq(edges, c, (fuel - 1) as nat).contains(x));
    }
}

/// The nodes along a chain of parent links, start to end.
pub proof fn make_chain(m: Map<u64, u64>, a: u64, b: u64, f: nat) -> (s: Seq<u64>)
    requires
        reach(m, a, b, f),
    ensures
        1 <= s.len() <= f + 1,
        s[0] == a,
        s.last() == b,
        forall|i: int|
            0 <= i < s.len() - 1 ==> m.contains_key(#[trigger] s[i]) && m[s[i]] == s[i + 1],
    decreases f,
{
    if a == b {
        seq![a]
    } else {
        let rest = make_chain(m, m[a], b, (f - 1) as nat);
        let s = seq![a] + rest;
        assert(s.last() == rest.last());
        assert forall|i: int|
            0 <= i < s.len() - 1 implies m.contains_key(#[trigger] s[i]) && m[s[i]] == s[i
            + 1] by {
            if i == 0 {
                assert(s[1] == rest[0]);
            } else {
                assert(s[i] == rest[i - 1]);
                assert(s[i + 1] == rest[i]);
            }
        }
        s
    }
}

/// Along a chain, each node reaches each later node in as many steps.
pub proof fn lemma_chain_reach(m: Map<u64, u64>, s: Seq<u64>, i: int, j: int)
    requires
        0 <= i <= j < s.len(),
        forall|k: int|
            0 <= k < s.len() - 1 ==> m.contains_key(#[trigger] s[k]) && m[s[k]] == s[k + 1],
    ensures
        reach(m, s[i], s[j], (j - i) as nat),
    decreases j - i,
{
    if i < j {
        lemma_chain_reach(m, s, i + 1, j);
    }
}

/// In an acyclic map a chain, once it leaves a key, never returns to it.
proof fn lemma_no_cycle(m: Map<u64, u64>, a: u64, f: nat)
    requires
        acyclic(m),
        m.contains_key(a),
    ensures
        !reach(m, m[a], a, f),
{
    let g = choose|g: nat| bounded(m, g);
    assert(bounded(m, g));
    assert(ends(m, a, g));
    lemma_terminating_chain_no_cycle(m, a, f, g);
}

/// A key whose chain terminates is on no cycle.
proof fn lemma_terminating_chain_no_cycle(m: Map<u64, u64>, a: u64, f: nat, g: nat)
    requires
        m.contains_key(a),
        ends(m, a, g),
    ensures
        !reach(m, m[a], a, f),
    decreases g,
{
    if reach(m, m[a], a, f) {
        let b = m[a];
        if b == a {
            lemma_terminating_chain_no_cycle(m, b, f, (g - 1) as nat);
        } else {
            assert(reach(m, b, b, 0));
            assert(reach(m, a, b, 1));
            lemma_reach_trans(m, m[b], a, b, (f - 1) as nat, 1);
            lemma_terminating_chain_no_cycle(m, b, f, (g - 1) as nat);
        }
    }
}

/// In an acyclic map, the nodes of a chain are pairwise distinct.
pub proof fn lemma_chain_no_duplicates(m: Map<u64, u64>, s: Seq<u64>)
    requires
        acyclic(m),
        forall|k: int|
            0 <= k < s.len() - 1 ==> m.contains_key(#[trigger] s[k]) && m[s[k]] == s[k + 1],
    ensures
        s.no_duplicates(),
{
    assert forall|i: int, j: int|
        0 <= i < s.len() && 0 <= j < s.len() && i != j implies s[i] != s[j] by {
        if s[i] == s[j] {
            let lo = if i < j {
                i
            } else {
                j
            };
            let hi = if i < j {
                j
            } else {
                i
            };
            lemma_chain_reach(m, s, lo + 1, hi);
            assert(reach(m, m[s[lo]], s[lo], (hi - lo - 1) as nat));
            lemma_no_cycle(m, s[lo], (hi - lo - 1) as nat);
        }
    }
}

/// The recorded parent of `c`, if any.
pub fn find_parent(edges: &Vec<Edge>, c: u64) -> (r: Option<u64>)
    requires
        child_unique(edges@),
    ensures
        parent_map(edges@).contains_key(c) ==> r == Some(parent_map(edges@)[c]),
        !parent_map(edges@).contains_key(c) ==> r.is_none(),
{
    let mut i: usize = 0;
    while i < edges.len()
        invariant
            i <= edges.len(),
            child_unique(edges@),
            forall|j: int| 0 <= j < i ==> (#[trigger] edges@[j]).child != c,
        decreases edges.len() - i,
    {
        let e = edges[i];
        if e.child == c {
            proof {
                lemma_parent_map_value(edges@, i as int);
            }
            return Some(e.parent);
        }
        i += 1;
    }
    proof {
        lemma_parent_map_contains(edges@, c);
    }
    None
}

/// Whether `target` is `start` itself or stands somewhere above it on the
/// chain of parent links. Used to reject a parent assignment that would
/// close a cycle.
pub fn is_linked_above(edges: &Vec<Edge>, start: u64, target: u64) -> (r: bool)
    requires
        child_unique(edges@),
        acyclic(parent_map(edges@)),
    ensures
        r == reachable(parent_map(edges@), start, target),
{
    let ghost m = parent_map(edges@);
    let ghost mut fuel: nat = choose|f: nat| bounded(m, f);
    proof {
        assert(bounded(m, fuel));
        assert(ends(m, start, fuel));
    }
    let mut cur: u64 = start;
    loop
        invariant
            child_unique(edges@),
            m == parent_map(edges@),
            ends(m, cur, fuel),
            reachable(m, start, target) <==> reachable(m, cur, target),
        decreases fuel,
    {
        if cur == target {
            proof {
                assert(reach(m, cur, target, 0));
            }
            return true;
        }
        match find_parent(edges, cur) {
            Some(p) => {
                proof {
                    assert(m.contains_key(cur) && m[cur] == p);
                    if reachable(m, p, target) {
                        let f = choose|f: nat| reach(m, p, target, f);
                        assert(reach(m, cur, target, f + 1));
                    }
                    if reachable(m, cur, target) {
                        let f = choose|f: nat| reach(m, cur, target, f);
                        assert(reach(m, p, target, (f - 1) as nat));
                    }
                    fuel = (fuel - 1) as nat;
                }
                cur = p;
            },
            None => {
                proof {
                    if reachable(m, cur, target) {
                        let f = choose|f: nat| reach(m, cur, target, f);
                        assert(cur == target);
                    }
                }
                return false;
            },
        }
    }
}

/// The edge table with every edge touching `id` removed.
pub fn remove_edges_touching(edges: &Vec<Edge>, id: u64) -> (r: Vec<Edge>)
    ensures
        r@ == edges_without(edges@, id),
{
    let mut r: Vec<Edge> = Vec::new();
    let mut i: usize = 0;
    while i < edges.len()
        invariant
            i <= edges.len(),
            r@ == edges_without(edges@.take(i as int), id),
        decreases edges.len() - i,
    {
        proof {
            assert(edges@.take(i as int + 1).drop_last() =~= edges@.take(i as int));
            assert(edges@.take(i as int + 1).last() == edges@[i as int]);
        }
        let e = edges[i];
        if e.child != id && e.parent != id {
            r.push(e);
        }
        i += 1;
    }
    proof {
        assert(edges@.take(edges@.len() as int) =~= edges@);
    }
    r
}

/// The edge table with any edge of child `c` removed.
pub fn remove_edges_of_child(edges: &Vec<Edge>, c: u64) -> (r: Vec<Edge>)
    ensures
        r@ == edges_without_child(edges@, c),
{
    let mut r: Vec<Edge> = Vec::new();
    let mut i: usize = 0;
    while i < edges.len()
        invariant
            i <= edges.len(),
            r@ == edges_without_child(edges@.take(i as int), c),
        decreases edges.len() - i,
    {
        proof {
            assert(edges@.take(i as int + 1).drop_last() =~= edges@.take(i as int));
            assert(edges@.take(i as int + 1).last() == edges@[i as int]);
        }
        let e = edges[i];
        if e.child != c {
            r.push(e);
        }
        i += 1;
    }
    proof {
        assert(edges@.take(edges@.len() as int) =~= edges@);
    }
    r
}

/// The children of `parent`, in insertion order.
pub fn collect_children(edges: &Vec<Edge>, parent: u64) -> (r: Vec<u64>)
    ensures
        r@ == children_seq(edges@, parent),
{
    let mut r: Vec<u64> = Vec::new();
    let mut i: usize = 0;
    while i < edges.len()
        invariant
            i <= edges.len(),
            r@ == children_seq(edges@.take(i as int), parent),
        decreases edges.len() - i,
    {
        proof {
            assert(edges@.take(i as int + 1).drop_last() =~= edges@.take(i as int));
            assert(edges@.take(i as int + 1).last() == edges@[i as int]);
        }
        let e = edges[i];
        if e.parent == parent {
            r.push(e.child);
        }
        i += 1;
    }
    proof {
        assert(edges@.take(edges@.len() as int) =~= edges@);
    }
    r
}

/// The depth-first descendant listing below `id`, bounded in depth by `fuel`.
pub fn collect_descendants(edges: &Vec<Edge>, id: u64, fuel: usize) -> (r: Vec<u64>)
    ensures
        r@ == descendants_seq(edges@, id, fuel as nat),
    decreases fuel,
{
    let mut r: Vec<u64> = Vec::new();
    if fuel == 0 {
        return r;
    }
    let kids = collect_children(edges, id);
    proof {
        assert(kids@.skip(0) =~= kids@);
        assert(Seq::<u64>::empty() + descend_list(edges@, kids@, fuel as nat) =~= descend_list(
            edges@,
            kids@,
            fuel as nat,
        ));
    }
    let mut i: usize = 0;
    while i < kids.len()
        invariant
            i <= kids.len(),
            fuel > 0,
            kids@ == children_seq(edges@, id),
            descend_list(edges@, kids@, fuel as nat) == r@ + descend_list(
                edges@,
                kids@.skip(i as int),
                fuel as nat,
            ),
        decreases kids.len() - i,
    {
        let ghost pre = r@;
        proof {
            assert(kids@.skip(i as int)[0] == kids@[i as int]);
            assert(kids@.skip(i as int).drop_first() =~= kids@.skip(i as int + 1));
        }
        r.push(kids[i]);
        let mut sub = collect_descendants(edges, kids[i], fuel - 1);
        let ghost subv = sub@;
        r.append(&mut sub);
        proof {
            assert(r@ =~= pre + (seq![kids@[i as int]] + subv));
            assert(descend_list(edges@, kids@.skip(i as int), fuel as nat) == seq![kids@[i as int]]
                + subv + descend_list(edges@, kids@.skip(i as int + 1), fuel as nat));
            assert(pre + (seq![kids@[i as int]] + subv) + descend_list(
                edges@,
                kids@.skip(i as int + 1),
                fuel as nat,
            ) =~= pre + descend_list(edges@, kids@.skip(i as int), fuel as nat));
        }
        i += 1;
    }
    proof {
        assert(kids@.skip(kids@.len() as int) =~= Seq::<u64>::empty());
        assert(r@ + descend_list(edges@, kids@.skip(kids@.len() as int), fuel as nat) =~= r@);
        assert(descendants_seq(edges@, id, fuel as nat) == descend_list(edges@, kids@, fuel as nat));
    }
    r
}

} // verus!
