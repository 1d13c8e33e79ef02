//! Laws of the logger tree, stated over the registry's model and
//! proved once and for all: resolving a path twice is the same as
//! resolving it once, a child created after a level broadcast snapshots
//! the broadcast value, and the level broadcast is idempotent.
use vstd::prelude::*;

verus! {

use crate::path::{dot_free, lemma_valid_path_segments, path_segments, valid_path};
use crate::registry::{
    NodeView, add_handler_map, attach_child, child_name, ensure_child_map, in_subtree,
    lemma_in_subtree_congruence, lemma_same_structure_wf, new_child, node_wf, resolve_map, root_node,
    same_structure, seg_lookup, set_level_map, wf,
};

/// Some edge of the arena points at node `j`.
pub open spec fn has_parent_edge(nodes: Seq<NodeView>, j: int) -> bool {
    exists|p: int, k: int|
        0 <= p < nodes.len() && 0 <= k < nodes[p].children.len() && (#[trigger] nodes[p].children[k]).1 == j
}

/// The edge `k` of node `p` carries a non-empty, delimiter-free
/// segment, avoids the root, and names its target as the parent's name
/// extended by the segment.
pub open spec fn edge_ok(nodes: Seq<NodeView>, p: int, k: int) -> bool {
    let e = nodes[p].children[k];
    &&& 0 < e.1 < nodes.len()
    &&& nodes[e.1].name == child_name(nodes[p].name, e.0)
    &&& e.0.len() > 0
    &&& dot_free(e.0)
}

/// Names mirror the tree: the root's name is empty, every other node
/// hangs off some edge, every edge names its target by extending its
/// source, and no two nodes share a fully-qualified name.
pub open spec fn names_wf(nodes: Seq<NodeView>) -> bool {
    &&& nodes.len() >= 1
    &&& nodes[0].name.len() == 0
    &&& forall|j: int| 1 <= j < nodes.len() ==> #[trigger] has_parent_edge(nodes, j)
    &&& forall|p: int, k: int| 0 <= p < nodes.len() && 0 <= k < nodes[p].children.len() ==> #[trigger] edge_ok(nodes, p, k)
    &&& forall|i: int, j: int|
        0 <= i < j < nodes.len() ==> (#[trigger] nodes[i]).name != (#[trigger] nodes[j]).name
}

/// Exactly one node exists per distinct fully-qualified name.
pub proof fn lemma_one_node_per_name(nodes: Seq<NodeView>, i: int, j: int)
    requires
        names_wf(nodes),
        0 <= i < nodes.len(),
        0 <= j < nodes.len(),
        nodes[i].name == nodes[j].name,
    ensures
        i == j,
{
}

/// A fresh registry names its nodes well.
pub proof fn lemma_fresh_registry_names_wf()
    ensures
        names_wf(seq![root_node()]),
{
    let nodes = seq![root_node()];
    assert(nodes[0].children.len() == 0);
}

/// Joining a parent name and a delimiter-free segment is injective:
/// the segment is whatever follows the last delimiter.
proof fn lemma_child_name_injective(a: Seq<char>, s: Seq<char>, b: Seq<char>, t: Seq<char>)
    requires
        s.len() > 0,
        t.len() > 0,
        dot_free(s),
        dot_free(t),
        child_name(a, s) == child_name(b, t),
    ensures
        a == b,
        s == t,
{
    let u = child_name(a, s);
    if a.len() == 0 && b.len() == 0 {
    } else if a.len() == 0 {
        // `u` is all of `s`, which holds no dot, yet the right-hand
        // reading puts a dot at index `b.len()`.
        assert(u == b + seq!['.'] + t);
        assert(u[b.len() as int] == '.');
        assert(false);
    } else if b.len() == 0 {
        assert(u == a + seq!['.'] + s);
        assert(u[a.len() as int] == '.');
        assert(u == t);
        assert(false);
    } else {
        assert(u == a + seq!['.'] + s);
        assert(u == b + seq!['.'] + t);
        assert(u.len() == a.len() + 1 + s.len());
        assert(u.len() == b.len() + 1 + t.len());
        if s.len() == t.len() {
            assert(a.len() == b.len());
            assert forall|i: int| 0 <= i < a.len() implies a[i] == b[i] by {
                assert(u[i] == a[i]);
                assert(u[i] == b[i]);
            }
            assert(a =~= b);
            assert forall|i: int| 0 <= i < s.len() implies s[i] == t[i] by {
                assert(u[a.len() + 1 + i] == s[i]);
                assert(u[b.len() + 1 + i] == t[i]);
            }
            assert(s =~= t);
        } else if s.len() < t.len() {
            // The dot the left reading puts at index `a.len()` lands
            // inside `t` in the right reading.
            let idx = a.len() as int;
            assert(u[idx] == '.');
            assert(idx - b.len() - 1 == t.len() - s.len() - 1);
            assert(u[idx] == t[idx - b.len() - 1]);
            assert(false);
        } else {
            let idx = b.len() as int;
            assert(u[idx] == '.');
            assert(idx - a.len() - 1 == s.len() - t.len() - 1);
            assert(u[idx] == s[idx - a.len() - 1]);
            assert(false);
        }
    }
}

/// Attaching a fresh child under a non-empty, delimiter-free segment
/// keeps the names well formed; in particular the new name collides
/// with no existing one.
pub proof fn lemma_attach_child_names(nodes: Seq<NodeView>, parent: int, seg: Seq<char>)
    requires
        wf(nodes),
        names_wf(nodes),
        0 <= parent < nodes.len(),
        seg_lookup(nodes[parent].children, seg) is None,
        seg.len() > 0,
        dot_free(seg),
    ensures
        names_wf(attach_child(nodes, parent, seg)),
{
    let v1 = attach_child(nodes, parent, seg);
    let id = nodes.len() as int;
    assert(v1.len() == id + 1);
    assert(v1[0].name == nodes[0].name);
    assert(v1[id].name == child_name(nodes[parent].name, seg));
    assert(v1[id].name.len() > 0);
    // Every old node keeps its name, and old edges persist unchanged.
    assert(forall|x: int| 0 <= x < id ==> (#[trigger] v1[x]).name == nodes[x].name);
    assert forall|j: int| 1 <= j < v1.len() implies #[trigger] has_parent_edge(v1, j) by {
        if j < id {
            assert(has_parent_edge(nodes, j));
            let (p, k) = choose|p: int, k: int|
                0 <= p < nodes.len() && 0 <= k < nodes[p].children.len() && (#[trigger] nodes[p].children[k]).1
                    == j;
            assert(v1[p].children[k] == nodes[p].children[k]);
        } else {
            assert(v1[parent].children[nodes[parent].children.len() as int].1 == j);
        }
    }
    assert forall|p: int, k: int|
        0 <= p < v1.len() && 0 <= k < v1[p].children.len() implies #[trigger] edge_ok(v1, p, k) by {
        if p == parent && k == nodes[parent].children.len() {
            assert(v1[p].children[k] == (seg, id));
        } else {
            assert(p < id);
            assert(v1[p].children[k] == nodes[p].children[k]);
            assert(edge_ok(nodes, p, k));
            assert(v1[nodes[p].children[k].1].name == nodes[nodes[p].children[k].1].name);
        }
    }
    assert forall|i: int, j: int|
        0 <= i < j < v1.len() implies (#[trigger] v1[i]).name != (#[trigger] v1[j]).name by {
        if j == id {
            if i == 0 {
                assert(v1[i].name.len() == 0);
            } else if v1[i].name == v1[id].name {
                assert(has_parent_edge(nodes, i));
                let (p2, k2) = choose|p2: int, k2: int|
                    0 <= p2 < nodes.len() && 0 <= k2 < nodes[p2].children.len() && (
                    #[trigger] nodes[p2].children[k2]).1 == i;
                assert(edge_ok(nodes, p2, k2));
                let s2 = nodes[p2].children[k2].0;
                lemma_child_name_injective(nodes[p2].name, s2, nodes[parent].name, seg);
                // The two parents carry the same name, so they are the
                // same node, and the segment is already taken there.
                if p2 != parent {
                    assert(nodes[p2].name != nodes[parent].name);
                }
                assert(p2 == parent);
                assert(seg_lookup(nodes[parent].children, seg) is Some);
                assert(false);
            }
        }
    }
}

/// Resolution keeps the names well formed, for any starting node and
/// any non-empty, delimiter-free segments.
pub proof fn lemma_resolve_names(nodes: Seq<NodeView>, at: int, segs: Seq<Seq<char>>)
    requires
        wf(nodes),
        names_wf(nodes),
        0 <= at < nodes.len(),
        forall|k: int| 0 <= k < segs.len() ==> (#[trigger] segs[k]).len() > 0 && dot_free(segs[k]),
    ensures
        names_wf(resolve_map(nodes, at, segs).0),
    decreases segs.len(),
{
    if segs.len() > 0 {
        lemma_ensure_child_props(nodes, at, segs[0]);
        let stepped = ensure_child_map(nodes, at, segs[0]);
        if seg_lookup(nodes[at].children, segs[0]) is None {
            lemma_attach_child_names(nodes, at, segs[0]);
        }
        assert(forall|k: int|
            0 <= k < segs.skip(1).len() ==> (#[trigger] segs.skip(1)[k]).len() > 0 && dot_free(
                segs.skip(1)[k],
            ));
        lemma_resolve_names(stepped.0, stepped.1, segs.skip(1));
    }
}

/// Resolving any well-formed path keeps the names well formed: no
/// resolution ever duplicates a fully-qualified name.
pub proof fn lemma_resolve_path_names(nodes: Seq<NodeView>, s: Seq<char>)
    requires
        wf(nodes),
        names_wf(nodes),
        valid_path(s),
    ensures
        names_wf(resolve_map(nodes, 0, path_segments(s)).0),
{
    lemma_valid_path_segments(s);
    lemma_resolve_names(nodes, 0, path_segments(s));
}

/// The two broadcasts touch no name and no edge, so they keep the
/// names well formed.
pub proof fn lemma_same_structure_names(a: Seq<NodeView>, b: Seq<NodeView>)
    requires
        names_wf(a),
        same_structure(a, b),
    ensures
        names_wf(b),
{
    assert(b.len() == a.len());
    assert(b[0].name == a[0].name);
    assert forall|i: int, j: int|
        0 <= i < j < b.len() implies (#[trigger] b[i]).name != (#[trigger] b[j]).name by {
        assert(b[i].name == a[i].name);
        assert(b[j].name == a[j].name);
    }
    assert forall|j: int| 1 <= j < b.len() implies #[trigger] has_parent_edge(b, j) by {
        assert(has_parent_edge(a, j));
        let (p, k) = choose|p: int, k: int|
            0 <= p < a.len() && 0 <= k < a[p].children.len() && (#[trigger] a[p].children[k]).1 == j;
        assert(b[p].children == a[p].children);
        assert(b[p].children[k].1 == j);
    }
    assert forall|p: int, k: int|
        0 <= p < b.len() && 0 <= k < b[p].children.len() implies #[trigger] edge_ok(b, p, k) by {
        assert(b[p].children == a[p].children);
        assert(edge_ok(a, p, k));
        assert(b[a[p].children[k].1].name == a[a[p].children[k].1].name);
        assert(b[p].name == a[p].name);
    }
}

/// What one resolution step guarantees: the arena stays well formed
/// and only grows, the step lands strictly below the parent, nodes
/// other than the parent are untouched, and afterwards the parent's
/// edge for the segment points at the result.
pub proof fn lemma_ensure_child_props(nodes: Seq<NodeView>, at: int, seg: Seq<char>)
    requires
        wf(nodes),
        0 <= at < nodes.len(),
    ensures
        ({
            let stepped = ensure_child_map(nodes, at, seg);
            &&& wf(stepped.0)
            &&& stepped.0.len() >= nodes.len()
            &&& at < stepped.1 < stepped.0.len()
            &&& forall|j: int| 0 <= j < nodes.len() && j != at ==> stepped.0[j] == nodes[j]
            &&& seg_lookup(stepped.0[at].children, seg) == Some(stepped.1)
        }),
{
    assert(node_wf(nodes, at));
    match seg_lookup(nodes[at].children, seg) {
        Some(c) => {
            let k = choose|k: int|
                0 <= k < nodes[at].children.len() && (#[trigger] nodes[at].children[k]).0 == seg;
            assert(at < nodes[at].children[k].1 < nodes.len());
        },
        None => {
            crate::registry::lemma_attach_child_wf(nodes, at, seg);
            let v1 = attach_child(nodes, at, seg);
            let id = nodes.len() as int;
            assert(v1[at].children == nodes[at].children.push((seg, id)));
            let pc = v1[at].children;
            assert(pc[pc.len() - 1].0 == seg);
            let k = choose|k: int| 0 <= k < pc.len() && (#[trigger] pc[k]).0 == seg;
            if k < pc.len() - 1 {
                assert(nodes[at].children[k].0 == seg);
                assert(seg_lookup(nodes[at].children, seg) is Some);
            }
            assert(seg_lookup(pc, seg) == Some(id));
        },
    }
}

/// What a whole resolution guarantees: the arena stays well formed and
/// only grows, the result is a node of it no higher than the start,
/// and every node strictly above the start is untouched.
pub proof fn lemma_resolve_props(nodes: Seq<NodeView>, at: int, segs: Seq<Seq<char>>)
    requires
        wf(nodes),
        0 <= at < nodes.len(),
    ensures
        ({
            let resolved = resolve_map(nodes, at, segs);
            &&& wf(resolved.0)
            &&& resolved.0.len() >= nodes.len()
            &&& at <= resolved.1 < resolved.0.len()
            &&& forall|j: int| 0 <= j < at ==> resolved.0[j] == nodes[j]
        }),
    decreases segs.len(),
{
    if segs.len() > 0 {
        lemma_ensure_child_props(nodes, at, segs[0]);
        let stepped = ensure_child_map(nodes, at, segs[0]);
        lemma_resolve_props(stepped.0, stepped.1, segs.skip(1));
    }
}

/// Resolving the same segments again, from the same starting node,
/// creates nothing and lands on the same node.
proof fn lemma_resolve_idem_from(nodes: Seq<NodeView>, at: int, segs: Seq<Seq<char>>)
    requires
        wf(nodes),
        0 <= at < nodes.len(),
    ensures
        ({
            let resolved = resolve_map(nodes, at, segs);
            resolve_map(resolved.0, at, segs) == resolved
        }),
    decreases segs.len(),
{
    if segs.len() > 0 {
        lemma_ensure_child_props(nodes, at, segs[0]);
        let stepped = ensure_child_map(nodes, at, segs[0]);
        let m1 = stepped.0;
        let c = stepped.1;
        let resolved = resolve_map(m1, c, segs.skip(1));
        lemma_resolve_props(m1, c, segs.skip(1));
        // Deeper steps only touch nodes at or below `c`, so the edge
        // just ensured at `at` is still there on the second pass.
        assert(resolved.0[at] == m1[at]);
        assert(seg_lookup(resolved.0[at].children, segs[0]) == Some(c));
        assert(ensure_child_map(resolved.0, at, segs[0]) == (resolved.0, c));
        lemma_resolve_idem_from(m1, c, segs.skip(1));
        assert(resolve_map(resolved.0, at, segs) == resolve_map(resolved.0, c, segs.skip(1)));
    }
}

/// Resolving any path twice yields the same node as resolving it once,
/// and the second resolution does not change the tree at all. With
/// every resolution serialized by the registry's exclusive lock,
/// concurrent resolutions of one path thus all receive the one node
/// the first of them created.
pub proof fn lemma_resolve_idempotent(nodes: Seq<NodeView>, segs: Seq<Seq<char>>)
    requires
        wf(nodes),
    ensures
        ({
            let resolved = resolve_map(nodes, 0, segs);
            resolve_map(resolved.0, 0, segs) == resolved
        }),
{
    lemma_resolve_idem_from(nodes, 0, segs);
}

/// A child created after a level broadcast on its parent starts with
/// the broadcast level, and with a copy of the parent's handlers: the
/// snapshot reflects the parent's state at creation time, not at the
/// parent's own creation.
pub proof fn lemma_inheritance_snapshot(nodes: Seq<NodeView>, i: int, l: int, seg: Seq<char>)
    requires
        wf(nodes),
        0 <= i < nodes.len(),
        seg_lookup(nodes[i].children, seg) is None,
    ensures
        ({
            let m = set_level_map(nodes, i, l);
            let stepped = ensure_child_map(m, i, seg);
            &&& stepped.0[stepped.1].level == l
            &&& stepped.0[stepped.1].handlers == nodes[i].handlers
        }),
{
    let m = set_level_map(nodes, i, l);
    assert(in_subtree(nodes, i, i));
    assert(m[i].level == l);
    assert(m[i].children == nodes[i].children);
    assert(m[i].handlers == nodes[i].handlers);
    assert(seg_lookup(m[i].children, seg) is None);
    let v1 = attach_child(m, i, seg);
    let id = m.len() as int;
    assert(v1[id] == new_child(m, i, seg));
}

/// A handler broadcast reaches exactly the nodes that exist in the
/// subtree at call time. A child created afterwards receives the
/// broadcast handler if and only if its parent was reached: the only
/// way in is the creation-time snapshot of the parent.
pub proof fn lemma_handler_snapshot(nodes: Seq<NodeView>, i: int, h: u64, p: int, seg: Seq<char>)
    requires
        wf(nodes),
        0 <= i < nodes.len(),
        0 <= p < nodes.len(),
        seg_lookup(nodes[p].children, seg) is None,
    ensures
        ({
            let m = add_handler_map(nodes, i, h);
            let stepped = ensure_child_map(m, p, seg);
            stepped.0[stepped.1].handlers == if in_subtree(nodes, i, p) {
                nodes[p].handlers.push(h)
            } else {
                nodes[p].handlers
            }
        }),
{
    let m = add_handler_map(nodes, i, h);
    assert(m[p].children == nodes[p].children);
    assert(seg_lookup(m[p].children, seg) is None);
    let v1 = attach_child(m, p, seg);
    let id = m.len() as int;
    assert(v1[id] == new_child(m, p, seg));
}

/// Broadcasting the same level twice in a row leaves every node where
/// the first broadcast put it: the level broadcast is idempotent.
pub proof fn lemma_set_level_idempotent(nodes: Seq<NodeView>, i: int, l: int)
    requires
        wf(nodes),
        0 <= i < nodes.len(),
    ensures
        set_level_map(set_level_map(nodes, i, l), i, l) == set_level_map(nodes, i, l),
{
    let m = set_level_map(nodes, i, l);
    assert(same_structure(nodes, m));
    lemma_same_structure_wf(nodes, m);
    assert forall|j: int| 0 <= j < m.len() implies #[trigger] set_level_map(m, i, l)[j] == m[j] by {
        lemma_in_subtree_congruence(nodes, m, i, j);
        if in_subtree(m, i, j) {
            assert(m[j].level == l);
            assert(set_level_map(m, i, l)[j] =~= m[j]);
        }
    }
    assert(set_level_map(m, i, l) =~= m);
}

} // verus!
