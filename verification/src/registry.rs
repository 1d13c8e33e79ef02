//! The logger tree. A [`Registry`] holds every node of the tree in an
//! arena, the root at index `0`; edges go from a node to children with
//! strictly larger indices, so the structure is acyclic by
//! construction. A [`Logger`] is a handle to one node: the index of the
//! node in the arena.
//!
//! The mathematical model of a registry is a sequence of [`NodeView`]s.
//! Resolution and the two propagating mutations are each mirrored by a
//! spec function over that model ([`resolve_map`], [`set_level_map`],
//! [`add_handler_map`]), and every operation's contract says that the
//! new registry is exactly the model's image of the old one.
use vstd::prelude::*;

verus! {

use crate::LogLevel;
use crate::path::{PathError, parse_path, path_segments, valid_path};
use vstd::string::StrSliceExecFns;
use vstd::string::StringExecFns;

/// The model of one logger node.
#[verifier::ext_equal]
pub ghost struct NodeView {
    /// Fully-qualified dotted path; the root's name is empty.
    pub name: Seq<char>,
    /// Minimum severity this node lets through.
    pub level: int,
    /// Ordered handler references; append-only.
    pub handlers: Seq<u64>,
    /// Edges to the children: segment name and arena index.
    pub children: Seq<(Seq<char>, int)>,
}

struct Node {
    name: String,
    level: LogLevel,
    handlers: Vec<u64>,
    children: Vec<(String, usize)>,
}

impl View for Node {
    type V = NodeView;

    closed spec fn view(&self) -> NodeView {
        NodeView {
            name: self.name@,
            level: self.level as int,
            handlers: self.handlers@,
            children: Seq::new(self.children@.len(), |k: int| (self.children@[k].0@, self.children@[k].1 as int)),
        }
    }
}

/// A tree of loggers: the arena of all nodes, the root at index `0`.
pub struct Registry {
    nodes: Vec<Node>,
}

impl View for Registry {
    type V = Seq<NodeView>;

    closed spec fn view(&self) -> Seq<NodeView> {
        self.nodes@.map_values(|n: Node| n@)
    }
}

/// A handle to one logger node of a [`Registry`]. Cloning a handle is
/// cheap; two handles to the same node alias the same state.
#[derive(Clone, Copy)]
pub struct Logger {
    id: usize,
}

impl View for Logger {
    type V = int;

    closed spec fn view(&self) -> int {
        self.id as int
    }
}

/// What `log` hands back when a message passes the threshold: the
/// ordered fan-out, ready to be performed by the caller.
pub struct LogEvent {
    /// The handler references to invoke, in insertion order.
    pub handlers: Vec<u64>,
    /// The severity the message was logged at.
    pub level: LogLevel,
    /// The message itself.
    pub message: String,
    /// The fully-qualified name of the logger that accepted it.
    pub logger: String,
}

/// Every edge of node `i` stays inside the arena, points strictly
/// downward (to a larger index), and no two edges carry the same
/// segment name.
pub open spec fn node_wf(nodes: Seq<NodeView>, i: int) -> bool {
    &&& forall|k: int| 0 <= k < nodes[i].children.len() ==> i < (#[trigger] nodes[i].children[k]).1 < nodes.len()
    &&& forall|k1: int, k2: int|
        0 <= k1 < k2 < nodes[i].children.len() ==> (#[trigger] nodes[i].children[k1]).0 != (
        #[trigger] nodes[i].children[k2]).0
}

/// The arena is a well-formed tree: it has a root, and every node's
/// edges are well formed.
pub open spec fn wf(nodes: Seq<NodeView>) -> bool {
    &&& nodes.len() >= 1
    &&& forall|i: int| 0 <= i < nodes.len() ==> #[trigger] node_wf(nodes, i)
    &&& forall|i1: int, k1: int, i2: int, k2: int|
        {
            &&& 0 <= i1 < nodes.len()
            &&& 0 <= k1 < nodes[i1].children.len()
            &&& 0 <= i2 < nodes.len()
            &&& 0 <= k2 < nodes[i2].children.len()
            &&& (#[trigger] nodes[i1].children[k1]).1 == (#[trigger] nodes[i2].children[k2]).1
        } ==> i1 == i2 && k1 == k2
}

/// Node `j` lies in the subtree rooted at node `i`.
pub open spec fn in_subtree(nodes: Seq<NodeView>, i: int, j: int) -> bool
    decreases nodes.len() - i,
    when wf(nodes) && 0 <= i < nodes.len()
    via in_subtree_decreases
{
    ||| j == i
    ||| exists|k: int|
        0 <= k < nodes[i].children.len() && in_subtree(nodes, (#[trigger] nodes[i].children[k]).1, j)
}

#[via_fn]
proof fn in_subtree_decreases(nodes: Seq<NodeView>, i: int, j: int) {
    assert(node_wf(nodes, i));
}

/// Two arenas with the same shape: equal length, names and edges. The
/// subtree relation depends on nothing else.
pub open spec fn same_structure(a: Seq<NodeView>, b: Seq<NodeView>) -> bool {
    &&& a.len() == b.len()
    &&& forall|j: int|
        0 <= j < a.len() ==> (#[trigger] a[j]).name == b[j].name && a[j].children == b[j].children
}

/// The arena after `set_level` on node `i`: every node of `i`'s subtree
/// carries the new level, everything else is untouched.
pub open spec fn set_level_map(nodes: Seq<NodeView>, i: int, l: int) -> Seq<NodeView> {
    Seq::new(
        nodes.len(),
        |j: int|
            if in_subtree(nodes, i, j) {
                NodeView { level: l, ..nodes[j] }
            } else {
                nodes[j]
            },
    )
}

/// The arena after `add_handler` on node `i`: every node of `i`'s
/// subtree has the handler appended, everything else is untouched.
pub open spec fn add_handler_map(nodes: Seq<NodeView>, i: int, h: u64) -> Seq<NodeView> {
    Seq::new(
        nodes.len(),
        |j: int|
            if in_subtree(nodes, i, j) {
                NodeView { handlers: nodes[j].handlers.push(h), ..nodes[j] }
            } else {
                nodes[j]
            },
    )
}

/// The fully-qualified name of a child: the parent's name and the
/// segment, joined by a dot; a child of the root is just the segment.
pub open spec fn child_name(parent: Seq<char>, seg: Seq<char>) -> Seq<char> {
    if parent.len() == 0 {
        seg
    } else {
        parent + seq!['.'] + seg
    }
}

/// The index the edge named `seg` points to, if node `i` has one.
pub open spec fn seg_lookup(children: Seq<(Seq<char>, int)>, seg: Seq<char>) -> Option<int> {
    if exists|k: int| 0 <= k < children.len() && (#[trigger] children[k]).0 == seg {
        let k = choose|k: int| 0 <= k < children.len() && (#[trigger] children[k]).0 == seg;
        Some(children[k].1)
    } else {
        None
    }
}

/// A freshly created child of node `parent`: it snapshots the parent's
/// current level and handlers and starts with no children.
pub open spec fn new_child(nodes: Seq<NodeView>, parent: int, seg: Seq<char>) -> NodeView {
    NodeView {
        name: child_name(nodes[parent].name, seg),
        level: nodes[parent].level,
        handlers: nodes[parent].handlers,
        children: Seq::empty(),
    }
}

/// The arena after creating a child of `parent` under the segment
/// `seg`: the child is appended and an edge to it is added.
pub open spec fn attach_child(nodes: Seq<NodeView>, parent: int, seg: Seq<char>) -> Seq<NodeView> {
    nodes.update(
        parent,
        NodeView { children: nodes[parent].children.push((seg, nodes.len() as int)), ..nodes[parent] },
    ).push(new_child(nodes, parent, seg))
}

/// The arena and node index after descending one segment from
/// `parent`: the existing child if the edge is there, else a freshly
/// attached one.
pub open spec fn ensure_child_map(nodes: Seq<NodeView>, parent: int, seg: Seq<char>) -> (Seq<NodeView>, int) {
    match seg_lookup(nodes[parent].children, seg) {
        Some(c) => (nodes, c),
        None => (attach_child(nodes, parent, seg), nodes.len() as int),
    }
}

/// The arena and node index after resolving the segments `segs` from
/// node `at`: each segment in order either finds the child or creates
/// it with a snapshot of its parent's then-current state.
pub open spec fn resolve_map(nodes: Seq<NodeView>, at: int, segs: Seq<Seq<char>>) -> (Seq<NodeView>, int)
    decreases segs.len(),
{
    if segs.len() == 0 {
        (nodes, at)
    } else {
        let stepped = ensure_child_map(nodes, at, segs[0]);
        resolve_map(stepped.0, stepped.1, segs.skip(1))
    }
}

/// The root node of a fresh registry: empty name, nothing is logged
/// (the threshold is the top of the scale), no handlers, no children.
pub open spec fn root_node() -> NodeView {
    NodeView { name: Seq::empty(), level: i32::MAX as int, handlers: Seq::empty(), children: Seq::empty() }
}

/// What `log` returns, given the node it was called on: an event
/// exactly when the severity reaches the node's threshold, carrying the
/// node's handlers in order, the severity, the message and the node's
/// name.
pub open spec fn log_post(r: Option<LogEvent>, node: NodeView, msg: Seq<char>, level: int) -> bool {
    match r {
        Some(ev) => {
            &&& node.level <= level
            &&& ev.handlers@ == node.handlers
            &&& ev.level as int == level
            &&& ev.message@ == msg
            &&& ev.logger@ == node.name
        },
        None => level < node.level,
    }
}

impl Registry {
    /// A fresh registry: only the root, which logs nothing and has no
    /// handlers.
    pub fn new() -> (r: Registry)
        ensures
            r@ =~= seq![root_node()],
    {
        let root = Node { name: String::new(), level: i32::MAX, handlers: Vec::new(), children: Vec::new() };
        proof {
            assert(root@.children =~= Seq::<(Seq<char>, int)>::empty());
        }
        let mut nodes: Vec<Node> = Vec::new();
        nodes.push(root);
        Registry { nodes }
    }
}

/// Copy a handler list.
fn copy_handlers(v: &Vec<u64>) -> (r: Vec<u64>)
    ensures
        r@ == v@,
{
    let mut r: Vec<u64> = Vec::new();
    let n = v.len();
    let mut i: usize = 0;
    while i < n
        invariant
            n == v@.len(),
            i <= n,
            r@ == v@.subrange(0, i as int),
        decreases n - i,
    {
        r.push(v[i]);
        proof {
            assert(r@ =~= v@.subrange(0, i as int + 1));
        }
        i += 1;
    }
    proof {
        assert(v@.subrange(0, n as int) =~= v@);
    }
    r
}

/// Join a parent's name and a segment into the child's name.
fn join_name(parent: &String, seg: &String) -> (r: String)
    ensures
        r@ == child_name(parent@, seg@),
{
    if parent.as_str().unicode_len() == 0 {
        seg.clone()
    } else {
        let mut r = parent.clone();
        r.append(".");
        r.append(seg.as_str());
        proof {
            reveal_strlit(".");
            assert("."@ =~= seq!['.']);
        }
        r
    }
}

/// Descend one segment from `parent`, creating the child if the edge
/// is missing. The work behind each resolution step.
fn ensure_child(nodes: &mut Vec<Node>, parent: usize, seg: &String) -> (c: usize)
    requires
        wf(old(nodes)@.map_values(|n: Node| n@)),
        parent < old(nodes)@.len(),
    ensures
        ({
            let stepped = ensure_child_map(old(nodes)@.map_values(|n: Node| n@), parent as int, seg@);
            &&& final(nodes)@.map_values(|n: Node| n@) == stepped.0
            &&& c as int == stepped.1
            &&& wf(final(nodes)@.map_values(|n: Node| n@))
            &&& parent < c < final(nodes)@.len()
        }),
{
    let ghost v0 = old(nodes)@.map_values(|n: Node| n@);
    proof {
        assert(node_wf(v0, parent as int));
    }
    let n = nodes[parent].children.len();
    let mut k: usize = 0;
    while k < n
        invariant
            *nodes == *old(nodes),
            v0 == nodes@.map_values(|n: Node| n@),
            wf(v0),
            parent < nodes@.len(),
            n == nodes@[parent as int].children@.len(),
            k <= n,
            forall|m: int| 0 <= m < k ==> (#[trigger] v0[parent as int].children[m]).0 != seg@,
        decreases n - k,
    {
        proof {
            assert(v0[parent as int].children[k as int].0 == nodes@[parent as int].children@[k as int].0@);
        }
        if nodes[parent].children[k].0 == *seg {
            let c = nodes[parent].children[k].1;
            proof {
                assert(v0[parent as int].children[k as int].0 == seg@);
                let k2 = choose|k2: int|
                    0 <= k2 < v0[parent as int].children.len() && (#[trigger] v0[parent as int].children[k2]).0
                        == seg@;
                assert(node_wf(v0, parent as int));
                if k2 != k {
                    assert(v0[parent as int].children[k2].0 != v0[parent as int].children[k as int].0);
                }
                assert(seg_lookup(v0[parent as int].children, seg@) == Some(v0[parent as int].children[k as int].1));
            }
            return c;
        }
        k += 1;
    }
    proof {
        assert(seg_lookup(v0[parent as int].children, seg@) is None);
    }
    let level = nodes[parent].level;
    let handlers = copy_handlers(&nodes[parent].handlers);
    let name = join_name(&nodes[parent].name, seg);
    let id = nodes.len();
    let child = Node { name, level, handlers, children: Vec::new() };
    nodes.push(child);
    let seg_copy = seg.clone();
    nodes[parent].children.push((seg_copy, id));
    proof {
        let v1 = nodes@.map_values(|n: Node| n@);
        assert(v1[id as int].children =~= Seq::<(Seq<char>, int)>::empty());
        assert(v1[id as int] =~= new_child(v0, parent as int, seg@));
        assert(v1[parent as int].children =~= v0[parent as int].children.push((seg@, id as int)));
        assert(v1[parent as int] =~= NodeView {
            children: v0[parent as int].children.push((seg@, id as int)),
            ..v0[parent as int]
        });
        assert(v1 =~= attach_child(v0, parent as int, seg@));
        lemma_attach_child_wf(v0, parent as int, seg@);
    }
    id
}

/// Attaching a fresh child keeps the arena well formed.
pub proof fn lemma_attach_child_wf(nodes: Seq<NodeView>, parent: int, seg: Seq<char>)
    requires
        wf(nodes),
        0 <= parent < nodes.len(),
        seg_lookup(nodes[parent].children, seg) is None,
    ensures
        wf(attach_child(nodes, parent, seg)),
{
    let v1 = attach_child(nodes, parent, seg);
    assert forall|i: int| 0 <= i < v1.len() implies #[trigger] node_wf(v1, i) by {
        if i < nodes.len() {
            assert(node_wf(nodes, i));
            if i == parent {
                let pc = nodes[parent].children;
                assert forall|k1: int, k2: int|
                    0 <= k1 < k2 < v1[i].children.len() implies (#[trigger] v1[i].children[k1]).0 != (
                #[trigger] v1[i].children[k2]).0 by {
                    if k2 == pc.len() {
                        assert(v1[i].children[k1] == pc[k1]);
                        if pc[k1].0 == seg {
                            assert(seg_lookup(pc, seg) is Some);
                        }
                    }
                }
            }
        } else {
            assert(v1[i] == new_child(nodes, parent, seg));
        }
    }
    assert forall|i1: int, k1: int, i2: int, k2: int|
        {
            &&& 0 <= i1 < v1.len()
            &&& 0 <= k1 < v1[i1].children.len()
            &&& 0 <= i2 < v1.len()
            &&& 0 <= k2 < v1[i2].children.len()
            &&& (#[trigger] v1[i1].children[k1]).1 == (#[trigger] v1[i2].children[k2]).1
        } implies i1 == i2 && k1 == k2 by {
        // An edge of the new arena is either an old edge, unchanged,
        // or the one fresh edge, whose target lies outside the old
        // arena; old edges all stay inside it.
        let fresh1 = i1 == parent && k1 == nodes[parent].children.len();
        let fresh2 = i2 == parent && k2 == nodes[parent].children.len();
        if !fresh1 {
            assert(i1 < nodes.len());
            assert(v1[i1].children[k1] == nodes[i1].children[k1]);
            assert(node_wf(nodes, i1));
        }
        if !fresh2 {
            assert(i2 < nodes.len());
            assert(v1[i2].children[k2] == nodes[i2].children[k2]);
            assert(node_wf(nodes, i2));
        }
    }
}

/// Set every level in the subtree of node `i` to `level`.
fn set_level_rec(nodes: &mut Vec<Node>, i: usize, level: LogLevel)
    requires
        wf(old(nodes)@.map_values(|n: Node| n@)),
        i < old(nodes)@.len(),
    ensures
        final(nodes)@.map_values(|n: Node| n@) == set_level_map(
            old(nodes)@.map_values(|n: Node| n@),
            i as int,
            level as int,
        ),
        wf(final(nodes)@.map_values(|n: Node| n@)),
    decreases old(nodes)@.len() - i,
{
    let ghost v0 = old(nodes)@.map_values(|n: Node| n@);
    proof {
        assert(node_wf(v0, i as int));
    }
    nodes[i].level = level;
    proof {
        let cur = nodes@.map_values(|n: Node| n@);
        assert(same_structure(v0, cur));
        lemma_same_structure_wf(v0, cur);
        assert(in_subtree(v0, i as int, i as int));
    }
    let n = nodes[i].children.len();
    let mut k: usize = 0;
    while k < n
        invariant
            v0 == old(nodes)@.map_values(|n: Node| n@),
            wf(v0),
            i < v0.len(),
            node_wf(v0, i as int),
            nodes@.len() == v0.len(),
            n == v0[i as int].children.len(),
            k <= n,
            same_structure(v0, nodes@.map_values(|n: Node| n@)),
            wf(nodes@.map_values(|n: Node| n@)),
            forall|j: int| 0 <= j < v0.len() ==> (#[trigger] nodes@[j])@.handlers == v0[j].handlers,
            forall|j: int|
                0 <= j < v0.len() ==> (#[trigger] nodes@[j])@.level == if j == i as int
                    || exists|m: int| 0 <= m < k && in_subtree(v0, (#[trigger] v0[i as int].children[m]).1, j) {
                    level as int
                } else {
                    v0[j].level
                },
        decreases n - k,
    {
        let c = nodes[i].children[k].1;
        let ghost mid = nodes@.map_values(|n: Node| n@);
        proof {
            assert(mid[i as int].children == v0[i as int].children);
            assert(mid[i as int].children[k as int].1 == c as int);
            assert(i < c < v0.len());
        }
        set_level_rec(nodes, c, level);
        proof {
            let after = nodes@.map_values(|n: Node| n@);
            assert(after == set_level_map(mid, c as int, level as int));
            lemma_same_structure_trans_set(v0, mid, c as int, level as int);
            assert forall|j: int| 0 <= j < v0.len() implies (#[trigger] nodes@[j])@.level == if j == i as int
                || exists|m: int| 0 <= m < k + 1 && in_subtree(v0, (#[trigger] v0[i as int].children[m]).1, j) {
                level as int
            } else {
                v0[j].level
            } by {
                assert(after[j] == nodes@[j]@);
                lemma_in_subtree_congruence(v0, mid, c as int, j);
                if in_subtree(v0, c as int, j) {
                    assert(in_subtree(v0, v0[i as int].children[k as int].1, j));
                }
            }
        }
        k += 1;
    }
    proof {
        let after = nodes@.map_values(|n: Node| n@);
        assert forall|j: int| 0 <= j < v0.len() implies #[trigger] after[j] == set_level_map(
            v0,
            i as int,
            level as int,
        )[j] by {
            if j == i as int {
                assert(in_subtree(v0, i as int, j));
            } else if exists|m: int| 0 <= m < n && in_subtree(v0, (#[trigger] v0[i as int].children[m]).1, j) {
                assert(in_subtree(v0, i as int, j));
            } else {
                if in_subtree(v0, i as int, j) {
                    // The subtree relation unfolds to the root or one
                    // of its children's subtrees.
                    assert(j == i as int || exists|m: int|
                        0 <= m < v0[i as int].children.len() && in_subtree(
                            v0,
                            (#[trigger] v0[i as int].children[m]).1,
                            j,
                        ));
                }
            }
            assert(after[j].name == v0[j].name && after[j].children == v0[j].children && after[j].handlers
                == v0[j].handlers);
        }
        assert(after =~= set_level_map(v0, i as int, level as int));
    }
}

/// Append `h` to every handler list in the subtree of node `i`.
fn add_handler_rec(nodes: &mut Vec<Node>, i: usize, h: u64)
    requires
        wf(old(nodes)@.map_values(|n: Node| n@)),
        i < old(nodes)@.len(),
    ensures
        final(nodes)@.map_values(|n: Node| n@) == add_handler_map(
            old(nodes)@.map_values(|n: Node| n@),
            i as int,
            h,
        ),
        wf(final(nodes)@.map_values(|n: Node| n@)),
    decreases old(nodes)@.len() - i,
{
    let ghost v0 = old(nodes)@.map_values(|n: Node| n@);
    proof {
        assert(node_wf(v0, i as int));
    }
    nodes[i].handlers.push(h);
    proof {
        let cur = nodes@.map_values(|n: Node| n@);
        assert(same_structure(v0, cur));
        lemma_same_structure_wf(v0, cur);
        assert(in_subtree(v0, i as int, i as int));
    }
    let n = nodes[i].children.len();
    let mut k: usize = 0;
    while k < n
        invariant
            v0 == old(nodes)@.map_values(|n: Node| n@),
            wf(v0),
            i < v0.len(),
            node_wf(v0, i as int),
            nodes@.len() == v0.len(),
            n == v0[i as int].children.len(),
            k <= n,
            same_structure(v0, nodes@.map_values(|n: Node| n@)),
            wf(nodes@.map_values(|n: Node| n@)),
            forall|j: int| 0 <= j < v0.len() ==> (#[trigger] nodes@[j])@.level == v0[j].level,
            forall|j: int|
                0 <= j < v0.len() ==> (#[trigger] nodes@[j])@.handlers == if j == i as int
                    || exists|m: int| 0 <= m < k && in_subtree(v0, (#[trigger] v0[i as int].children[m]).1, j) {
                    v0[j].handlers.push(h)
                } else {
                    v0[j].handlers
                },
        decreases n - k,
    {
        let c = nodes[i].children[k].1;
        let ghost mid = nodes@.map_values(|n: Node| n@);
        proof {
            assert(mid[i as int].children == v0[i as int].children);
            assert(mid[i as int].children[k as int].1 == c as int);
            assert(i < c < v0.len());
        }
        add_handler_rec(nodes, c, h);
        proof {
            let after = nodes@.map_values(|n: Node| n@);
            assert(after == add_handler_map(mid, c as int, h));
            lemma_same_structure_trans_add(v0, mid, c as int, h);
            assert forall|j: int| 0 <= j < v0.len() implies (#[trigger] nodes@[j])@.handlers == if j == i as int
                || exists|m: int| 0 <= m < k + 1 && in_subtree(v0, (#[trigger] v0[i as int].children[m]).1, j) {
                v0[j].handlers.push(h)
            } else {
                v0[j].handlers
            } by {
                assert(after[j] == nodes@[j]@);
                lemma_in_subtree_congruence(v0, mid, c as int, j);
                if in_subtree(v0, c as int, j) {
                    assert(in_subtree(v0, v0[i as int].children[k as int].1, j));
                    // The node is appended to exactly once: it cannot
                    // be the root of this broadcast, nor lie in an
                    // earlier sibling's subtree.
                    if j == i as int {
                        lemma_in_subtree_le(v0, c as int, j);
                        assert(false);
                    }
                    if exists|m: int| 0 <= m < k && in_subtree(v0, (#[trigger] v0[i as int].children[m]).1, j) {
                        let m = choose|m: int|
                            0 <= m < k && in_subtree(v0, (#[trigger] v0[i as int].children[m]).1, j);
                        lemma_subtree_disjoint(v0, i as int, m, k as int, j);
                        assert(false);
                    }
                    assert(mid[j].handlers == v0[j].handlers);
                    assert(after[j].handlers == v0[j].handlers.push(h));
                }
            }
        }
        k += 1;
    }
    proof {
        let after = nodes@.map_values(|n: Node| n@);
        assert forall|j: int| 0 <= j < v0.len() implies #[trigger] after[j] == add_handler_map(v0, i as int, h)[j] by {
            if j == i as int {
                assert(in_subtree(v0, i as int, j));
            } else if exists|m: int| 0 <= m < n && in_subtree(v0, (#[trigger] v0[i as int].children[m]).1, j) {
                assert(in_subtree(v0, i as int, j));
            } else {
                if in_subtree(v0, i as int, j) {
                    assert(j == i as int || exists|m: int|
                        0 <= m < v0[i as int].children.len() && in_subtree(
                            v0,
                            (#[trigger] v0[i as int].children[m]).1,
                            j,
                        ));
                }
            }
            assert(after[j].name == v0[j].name && after[j].children == v0[j].children && after[j].level
                == v0[j].level);
        }
        assert(after =~= add_handler_map(v0, i as int, h));
    }
}

/// An arena of the same shape is well formed too.
pub proof fn lemma_same_structure_wf(a: Seq<NodeView>, b: Seq<NodeView>)
    requires
        wf(a),
        same_structure(a, b),
    ensures
        wf(b),
{
    assert forall|i: int| 0 <= i < b.len() implies #[trigger] node_wf(b, i) by {
        assert(node_wf(a, i));
        assert(b[i].children == a[i].children);
    }
    assert forall|i1: int, k1: int, i2: int, k2: int|
        {
            &&& 0 <= i1 < b.len()
            &&& 0 <= k1 < b[i1].children.len()
            &&& 0 <= i2 < b.len()
            &&& 0 <= k2 < b[i2].children.len()
            &&& (#[trigger] b[i1].children[k1]).1 == (#[trigger] b[i2].children[k2]).1
        } implies i1 == i2 && k1 == k2 by {
        assert(b[i1].children == a[i1].children);
        assert(b[i2].children == a[i2].children);
        assert((#[trigger] a[i1].children[k1]).1 == (#[trigger] a[i2].children[k2]).1);
    }
}

/// The subtree relation reads only the shape of the arena.
pub proof fn lemma_in_subtree_congruence(a: Seq<NodeView>, b: Seq<NodeView>, i: int, j: int)
    requires
        wf(a),
        same_structure(a, b),
        0 <= i < a.len(),
    ensures
        in_subtree(a, i, j) == in_subtree(b, i, j),
    decreases a.len() - i,
{
    lemma_same_structure_wf(a, b);
    assert(node_wf(a, i));
    assert(a[i].children == b[i].children);
    if in_subtree(a, i, j) && j != i {
        let k = choose|k: int|
            0 <= k < a[i].children.len() && in_subtree(a, (#[trigger] a[i].children[k]).1, j);
        lemma_in_subtree_congruence(a, b, a[i].children[k].1, j);
        assert(in_subtree(b, b[i].children[k].1, j));
        assert(in_subtree(b, i, j));
    }
    if in_subtree(b, i, j) && j != i {
        let k = choose|k: int|
            0 <= k < b[i].children.len() && in_subtree(b, (#[trigger] b[i].children[k]).1, j);
        lemma_in_subtree_congruence(a, b, a[i].children[k].1, j);
        assert(in_subtree(a, a[i].children[k].1, j));
        assert(in_subtree(a, i, j));
    }
}

/// Subtree membership only ever moves down the arena: a node of the
/// subtree of `c` has an index at least `c`.
pub proof fn lemma_in_subtree_le(nodes: Seq<NodeView>, c: int, j: int)
    requires
        wf(nodes),
        0 <= c < nodes.len(),
        in_subtree(nodes, c, j),
    ensures
        c <= j < nodes.len(),
    decreases nodes.len() - c,
{
    assert(node_wf(nodes, c));
    if j != c {
        let k = choose|k: int|
            0 <= k < nodes[c].children.len() && in_subtree(nodes, (#[trigger] nodes[c].children[k]).1, j);
        lemma_in_subtree_le(nodes, nodes[c].children[k].1, j);
    }
}

/// A node reached from `c`, other than `c` itself, is the target of
/// some edge whose source is itself reached from `c`.
proof fn lemma_reach_has_edge(nodes: Seq<NodeView>, c: int, j: int)
    requires
        wf(nodes),
        0 <= c < nodes.len(),
        in_subtree(nodes, c, j),
        j != c,
    ensures
        exists|p: int, k: int|
            {
                &&& 0 <= p < nodes.len()
                &&& 0 <= k < nodes[p].children.len()
                &&& (#[trigger] nodes[p].children[k]).1 == j
                &&& in_subtree(nodes, c, p)
            },
    decreases nodes.len() - c,
{
    assert(node_wf(nodes, c));
    let k0 = choose|k0: int|
        0 <= k0 < nodes[c].children.len() && in_subtree(nodes, (#[trigger] nodes[c].children[k0]).1, j);
    let c2 = nodes[c].children[k0].1;
    if j == c2 {
        assert(in_subtree(nodes, c, c));
        assert((#[trigger] nodes[c].children[k0]).1 == j && in_subtree(nodes, c, c));
    } else {
        lemma_reach_has_edge(nodes, c2, j);
        let (p, k) = choose|p: int, k: int|
            {
                &&& 0 <= p < nodes.len()
                &&& 0 <= k < nodes[p].children.len()
                &&& (#[trigger] nodes[p].children[k]).1 == j
                &&& in_subtree(nodes, c2, p)
            };
        assert(in_subtree(nodes, c, p));
        assert((#[trigger] nodes[p].children[k]).1 == j && in_subtree(nodes, c, p));
    }
}

/// The subtrees of two distinct children of the same node share no
/// node: every node has at most one incoming edge, so two downward
/// paths to it must have merged above.
pub proof fn lemma_subtree_disjoint(nodes: Seq<NodeView>, i: int, k1: int, k2: int, j: int)
    requires
        wf(nodes),
        0 <= i < nodes.len(),
        0 <= k1 < nodes[i].children.len(),
        0 <= k2 < nodes[i].children.len(),
        k1 != k2,
        in_subtree(nodes, nodes[i].children[k1].1, j),
    ensures
        !in_subtree(nodes, nodes[i].children[k2].1, j),
    decreases j,
{
    assert(node_wf(nodes, i));
    let c1 = nodes[i].children[k1].1;
    let c2 = nodes[i].children[k2].1;
    assert(nodes[i].children[k1].1 != nodes[i].children[k2].1);
    lemma_in_subtree_le(nodes, c1, j);
    if in_subtree(nodes, c2, j) {
        lemma_in_subtree_le(nodes, c2, j);
        if j == c1 {
            // The only edge into `c1` starts at `i`, so `c2`'s subtree
            // would have to contain `i`: it lies strictly below it.
            lemma_reach_has_edge(nodes, c2, j);
            let (p, k) = choose|p: int, k: int|
                {
                    &&& 0 <= p < nodes.len()
                    &&& 0 <= k < nodes[p].children.len()
                    &&& (#[trigger] nodes[p].children[k]).1 == j
                    &&& in_subtree(nodes, c2, p)
                };
            assert(p == i && k == k1);
            lemma_in_subtree_le(nodes, c2, p);
            assert(false);
        } else if j == c2 {
            lemma_reach_has_edge(nodes, c1, j);
            let (p, k) = choose|p: int, k: int|
                {
                    &&& 0 <= p < nodes.len()
                    &&& 0 <= k < nodes[p].children.len()
                    &&& (#[trigger] nodes[p].children[k]).1 == j
                    &&& in_subtree(nodes, c1, p)
                };
            assert(p == i && k == k2);
            lemma_in_subtree_le(nodes, c1, p);
            assert(false);
        } else {
            // Both paths enter `j` through its unique incoming edge:
            // they already met at its source, one node higher.
            lemma_reach_has_edge(nodes, c1, j);
            let (p1, e1) = choose|p: int, k: int|
                {
                    &&& 0 <= p < nodes.len()
                    &&& 0 <= k < nodes[p].children.len()
                    &&& (#[trigger] nodes[p].children[k]).1 == j
                    &&& in_subtree(nodes, c1, p)
                };
            lemma_reach_has_edge(nodes, c2, j);
            let (p2, e2) = choose|p: int, k: int|
                {
                    &&& 0 <= p < nodes.len()
                    &&& 0 <= k < nodes[p].children.len()
                    &&& (#[trigger] nodes[p].children[k]).1 == j
                    &&& in_subtree(nodes, c2, p)
                };
            assert(p1 == p2 && e1 == e2);
            assert(node_wf(nodes, p1));
            assert(p1 < j);
            lemma_in_subtree_le(nodes, c1, p1);
            lemma_subtree_disjoint(nodes, i, k1, k2, p1);
            assert(false);
        }
    }
}

/// `set_level` keeps the shape of the arena.
proof fn lemma_same_structure_trans_set(v0: Seq<NodeView>, mid: Seq<NodeView>, c: int, l: int)
    requires
        wf(v0),
        same_structure(v0, mid),
        0 <= c < mid.len(),
    ensures
        same_structure(v0, set_level_map(mid, c, l)),
{
    lemma_same_structure_wf(v0, mid);
}

/// `add_handler` keeps the shape of the arena.
proof fn lemma_same_structure_trans_add(v0: Seq<NodeView>, mid: Seq<NodeView>, c: int, h: u64)
    requires
        wf(v0),
        same_structure(v0, mid),
        0 <= c < mid.len(),
    ensures
        same_structure(v0, add_handler_map(mid, c, h)),
{
    lemma_same_structure_wf(v0, mid);
}

impl Logger {
    /// Resolve a dotted path to its logger, creating every missing node
    /// on the way; each new node snapshots its parent's then-current
    /// level and handlers. The empty path resolves to the root. A path
    /// with an empty segment is rejected and the tree is left
    /// untouched.
    pub fn new(reg: &mut Registry, name: &str) -> (r: Result<Logger, PathError>)
        requires
            wf(old(reg)@),
        ensures
            match r {
                Ok(l) => {
                    &&& valid_path(name@)
                    &&& final(reg)@ == resolve_map(old(reg)@, 0, path_segments(name@)).0
                    &&& l@ == resolve_map(old(reg)@, 0, path_segments(name@)).1
                    &&& wf(final(reg)@)
                    &&& 0 <= l@ < final(reg)@.len()
                },
                Err(e) => {
                    &&& !valid_path(name@)
                    &&& e == PathError::InvalidPathSegment
                    &&& final(reg)@ == old(reg)@
                },
            },
    {
        let segs = match parse_path(name) {
            Ok(segs) => segs,
            Err(e) => {
                return Err(e);
            },
        };
        let ghost orig = reg@;
        let ghost seg_views = segs@.map_values(|s: String| s@);
        proof {
            assert(seg_views.skip(0) =~= seg_views);
        }
        let n = segs.len();
        let mut at: usize = 0;
        let mut idx: usize = 0;
        while idx < n
            invariant
                wf(reg@),
                n == segs@.len(),
                seg_views == segs@.map_values(|s: String| s@),
                idx <= n,
                at < reg@.len(),
                resolve_map(orig, 0, seg_views) == resolve_map(reg@, at as int, seg_views.skip(idx as int)),
            decreases n - idx,
        {
            let ghost pre = reg@;
            let c = ensure_child(&mut reg.nodes, at, &segs[idx]);
            proof {
                let rest = seg_views.skip(idx as int);
                assert(rest[0] == seg_views[idx as int]);
                assert(rest.skip(1) =~= seg_views.skip(idx as int + 1));
                assert(resolve_map(pre, at as int, rest) == resolve_map(reg@, c as int, rest.skip(1)));
            }
            at = c;
            idx += 1;
        }
        proof {
            assert(seg_views.skip(n as int) =~= Seq::<Seq<char>>::empty());
        }
        Ok(Logger { id: at })
    }

    /// Do these two handles name the same node?
    pub fn same_node(&self, other: &Logger) -> (r: bool)
        ensures
            r == (self@ == other@),
    {
        self.id == other.id
    }

    /// Decide whether `msg` at severity `level` passes this node's
    /// threshold. If it does, return the fan-out: this node's handlers
    /// in insertion order, with the severity, the message and this
    /// node's name; if not, return nothing. The threshold is inclusive:
    /// `level == threshold` passes.
    pub fn log(&self, reg: &Registry, msg: String, level: LogLevel) -> (r: Option<LogEvent>)
        requires
            0 <= self@ < reg@.len(),
        ensures
            log_post(r, reg@[self@], msg@, level as int),
    {
        let node = &reg.nodes[self.id];
        if level < node.level {
            return None;
        }
        let handlers = copy_handlers(&node.handlers);
        let logger = node.name.clone();
        Some(LogEvent { handlers, level, message: msg, logger })
    }

    /// Log `msg` at [`crate::level::DEBUG`].
    pub fn debug(&self, reg: &Registry, msg: String) -> (r: Option<LogEvent>)
        requires
            0 <= self@ < reg@.len(),
        ensures
            log_post(r, reg@[self@], msg@, crate::level::DEBUG as int),
    {
        self.log(reg, msg, crate::level::DEBUG)
    }

    /// Log `msg` at [`crate::level::INFO`].
    pub fn info(&self, reg: &Registry, msg: String) -> (r: Option<LogEvent>)
        requires
            0 <= self@ < reg@.len(),
        ensures
            log_post(r, reg@[self@], msg@, crate::level::INFO as int),
    {
        self.log(reg, msg, crate::level::INFO)
    }

    /// Log `msg` at [`crate::level::SUCCESS`].
    pub fn success(&self, reg: &Registry, msg: String) -> (r: Option<LogEvent>)
        requires
            0 <= self@ < reg@.len(),
        ensures
            log_post(r, reg@[self@], msg@, crate::level::SUCCESS as int),
    {
        self.log(reg, msg, crate::level::SUCCESS)
    }

    /// Log `msg` at [`crate::level::WARN`].
    pub fn warn(&self, reg: &Registry, msg: String) -> (r: Option<LogEvent>)
        requires
            0 <= self@ < reg@.len(),
        ensures
            log_post(r, reg@[self@], msg@, crate::level::WARN as int),
    {
        self.log(reg, msg, crate::level::WARN)
    }

    /// Log `msg` at [`crate::level::ERROR`].
    pub fn error(&self, reg: &Registry, msg: String) -> (r: Option<LogEvent>)
        requires
            0 <= self@ < reg@.len(),
        ensures
            log_post(r, reg@[self@], msg@, crate::level::ERROR as int),
    {
        self.log(reg, msg, crate::level::ERROR)
    }

    /// Log `msg` at [`crate::level::CRITICAL`].
    pub fn critical(&self, reg: &Registry, msg: String) -> (r: Option<LogEvent>)
        requires
            0 <= self@ < reg@.len(),
        ensures
            log_post(r, reg@[self@], msg@, crate::level::CRITICAL as int),
    {
        self.log(reg, msg, crate::level::CRITICAL)
    }

    /// Log `msg` at [`crate::level::FATAL`].
    pub fn fatal(&self, reg: &Registry, msg: String) -> (r: Option<LogEvent>)
        requires
            0 <= self@ < reg@.len(),
        ensures
            log_post(r, reg@[self@], msg@, crate::level::FATAL as int),
    {
        self.log(reg, msg, crate::level::FATAL)
    }

    /// Set the minimum severity of this logger and of every node
    /// currently in its subtree. A point-in-time broadcast: nodes
    /// created afterwards are not affected by this call.
    pub fn set_level(&self, reg: &mut Registry, new_level: LogLevel)
        requires
            wf(old(reg)@),
            0 <= self@ < old(reg)@.len(),
        ensures
            final(reg)@ == set_level_map(old(reg)@, self@, new_level as int),
            wf(final(reg)@),
    {
        set_level_rec(&mut reg.nodes, self.id, new_level);
    }

    /// Append a handler reference to this logger and to every node
    /// currently in its subtree. A point-in-time broadcast, and
    /// append-only: nothing ever removes a handler, and a reference
    /// added twice fires twice.
    pub fn add_handler(&self, reg: &mut Registry, handler: u64)
        requires
            wf(old(reg)@),
            0 <= self@ < old(reg)@.len(),
        ensures
            final(reg)@ == add_handler_map(old(reg)@, self@, handler),
            wf(final(reg)@),
    {
        add_handler_rec(&mut reg.nodes, self.id, handler);
    }
}

/// Set the minimum severity of every logger currently in the registry:
/// the broadcast from the root.
pub fn set_level(reg: &mut Registry, level: LogLevel)
    requires
        wf(old(reg)@),
    ensures
        final(reg)@ == set_level_map(old(reg)@, 0, level as int),
        wf(final(reg)@),
{
    set_level_rec(&mut reg.nodes, 0, level);
}

/// Append a handler reference to every logger currently in the
/// registry: the broadcast from the root.
pub fn add_handler(reg: &mut Registry, handler: u64)
    requires
        wf(old(reg)@),
    ensures
        final(reg)@ == add_handler_map(old(reg)@, 0, handler),
        wf(final(reg)@),
{
    add_handler_rec(&mut reg.nodes, 0, handler);
}

} // verus!
