use vstd::prelude::*;
use crate::tree::{NodeId, NodeKind, Node, children_of, holds_window, tree_wf};

verus! {

/// The leaves of the subtree of node `id`, `id` itself where it is a leaf.
pub open spec fn leaves_below(nodes: Map<NodeId, Node>, height: Map<NodeId, nat>, id: NodeId) -> Set<
    NodeId,
>
    decreases height[id], 1nat, 0nat,
{
    if !nodes.contains_key(id) {
        Set::empty()
    } else {
        match nodes[id].kind {
            NodeKind::Window { .. } => set![id],
            NodeKind::Container { children, .. } => leaves_below_children(
                nodes,
                height,
                id,
                children@,
                0,
            ),
        }
    }
}

/// The leaves of the subtrees of children `i..` of `parent`.
pub open spec fn leaves_below_children(
    nodes: Map<NodeId, Node>,
    height: Map<NodeId, nat>,
    parent: NodeId,
    cs: Seq<NodeId>,
    i: int,
) -> Set<NodeId>
    decreases height[parent], 0nat, cs.len() - i,
{
    if i < 0 || i >= cs.len() {
        Set::empty()
    } else if !nodes.contains_key(cs[i]) {
        leaves_below_children(nodes, height, parent, cs, i + 1)
    } else {
        (if height[cs[i]] < height[parent] {
            leaves_below(nodes, height, cs[i])
        } else {
            Set::empty()
        }) + leaves_below_children(nodes, height, parent, cs, i + 1)
    }
}

/// The nodes of `s` that hold window `w`.
pub open spec fn holding(nodes: Map<NodeId, Node>, s: Set<NodeId>, w: u32) -> Set<NodeId> {
    s.filter(|k: NodeId| holds_window(nodes[k], w))
}

/// Whether `a` is `x` or one of its ancestors along the parent links.
pub open spec fn reaches_up(nodes: Map<NodeId, Node>, depth: Map<NodeId, nat>, x: NodeId, a: NodeId) -> bool
    decreases depth[x],
{
    if x == a {
        true
    } else if nodes.contains_key(x) && nodes[x].parent is Some && depth[nodes[x].parent->0]
        < depth[x] {
        reaches_up(nodes, depth, nodes[x].parent->0, a)
    } else {
        false
    }
}

proof fn lemma_reaches_up_depth(nodes: Map<NodeId, Node>, depth: Map<NodeId, nat>, x: NodeId, a: NodeId)
    requires
        reaches_up(nodes, depth, x, a),
    ensures
        depth[a] <= depth[x],
    decreases depth[x],
{
    if x != a {
        lemma_reaches_up_depth(nodes, depth, nodes[x].parent->0, a);
    }
}

proof fn lemma_reaches_up_parent(
    nodes: Map<NodeId, Node>,
    root: Option<NodeId>,
    next: u64,
    depth: Map<NodeId, nat>,
    height: Map<NodeId, nat>,
    x: NodeId,
    c: NodeId,
    p: NodeId,
)
    requires
        tree_wf(nodes, root, next, depth, height),
        reaches_up(nodes, depth, x, c),
        nodes.contains_key(c),
        nodes[c].parent == Some(p),
    ensures
        reaches_up(nodes, depth, x, p),
    decreases depth[x],
{
    if x == c {
        assert(nodes[c].parent is Some);
        assert(reaches_up(nodes, depth, p, p));
    } else {
        lemma_reaches_up_parent(nodes, root, next, depth, height, nodes[x].parent->0, c, p);
    }
}

proof fn lemma_reaches_up_comparable(
    nodes: Map<NodeId, Node>,
    depth: Map<NodeId, nat>,
    x: NodeId,
    a: NodeId,
    b: NodeId,
)
    requires
        reaches_up(nodes, depth, x, a),
        reaches_up(nodes, depth, x, b),
    ensures
        reaches_up(nodes, depth, a, b) || reaches_up(nodes, depth, b, a),
    decreases depth[x],
{
    if x != a && x != b {
        lemma_reaches_up_comparable(nodes, depth, nodes[x].parent->0, a, b);
    }
}

/// No node lies below both children of a container.
proof fn lemma_siblings_disjoint(
    nodes: Map<NodeId, Node>,
    root: Option<NodeId>,
    next: u64,
    depth: Map<NodeId, nat>,
    height: Map<NodeId, nat>,
    k: NodeId,
    x: NodeId,
)
    requires
        tree_wf(nodes, root, next, depth, height),
        nodes.contains_key(k),
        nodes[k].kind is Container,
    ensures
        !(reaches_up(nodes, depth, x, children_of(nodes[k])[0]) && reaches_up(
            nodes,
            depth,
            x,
            children_of(nodes[k])[1],
        )),
{
    let c = children_of(nodes[k]);
    assert(c.len() == 2 && c[0] != c[1]);
    assert(nodes[c[0]].parent == Some(k));
    assert(nodes[c[1]].parent == Some(k));
    if reaches_up(nodes, depth, x, c[0]) && reaches_up(nodes, depth, x, c[1]) {
        lemma_reaches_up_comparable(nodes, depth, x, c[0], c[1]);
        if reaches_up(nodes, depth, c[0], c[1]) {
            lemma_reaches_up_depth(nodes, depth, k, c[1]);
        } else {
            lemma_reaches_up_depth(nodes, depth, k, c[0]);
        }
    }
}

/// Every node below `id` is a leaf that reaches `id` along the parent links; the set
/// is finite.
pub proof fn lemma_leaves_below_reach(
    nodes: Map<NodeId, Node>,
    root: Option<NodeId>,
    next: u64,
    depth: Map<NodeId, nat>,
    height: Map<NodeId, nat>,
    id: NodeId,
)
    requires
        tree_wf(nodes, root, next, depth, height),
    ensures
        leaves_below(nodes, height, id).finite(),
        forall|x: NodeId|
            #[trigger] leaves_below(nodes, height, id).contains(x) ==> {
                &&& nodes.contains_key(x)
                &&& nodes[x].kind is Window
                &&& reaches_up(nodes, depth, x, id)
            },
    decreases height[id], 1nat, 0nat,
{
    if nodes.contains_key(id) {
        match nodes[id].kind {
            NodeKind::Window { .. } => {},
            NodeKind::Container { children, .. } => {
                lemma_children_reach(nodes, root, next, depth, height, id, children@, 0);
                assert forall|x: NodeId| #[trigger]
                    leaves_below(nodes, height, id).contains(x) implies reaches_up(
                    nodes,
                    depth,
                    x,
                    id,
                ) by {
                    let j = choose|j: int|
                        0 <= j < children@.len() && #[trigger] reaches_up(
                            nodes,
                            depth,
                            x,
                            children@[j],
                        );
                    assert(nodes[id].kind is Container);
                    assert(nodes[children@[j]].parent == Some(id));
                    lemma_reaches_up_parent(nodes, root, next, depth, height, x, children@[j], id);
                }
            },
        }
    }
}

/// Every node below children `i..` of `parent` is a leaf that reaches one of them;
/// the set is finite.
pub proof fn lemma_children_reach(
    nodes: Map<NodeId, Node>,
    root: Option<NodeId>,
    next: u64,
    depth: Map<NodeId, nat>,
    height: Map<NodeId, nat>,
    parent: NodeId,
    cs: Seq<NodeId>,
    i: int,
)
    requires
        tree_wf(nodes, root, next, depth, height),
    ensures
        leaves_below_children(nodes, height, parent, cs, i).finite(),
        forall|x: NodeId|
            #[trigger] leaves_below_children(nodes, height, parent, cs, i).contains(x) ==> {
                &&& nodes.contains_key(x)
                &&& nodes[x].kind is Window
                &&& exists|j: int| i <= j < cs.len() && #[trigger] reaches_up(nodes, depth, x, cs[j])
            },
    decreases height[parent], 0nat, cs.len() - i,
{
    if i < 0 || i >= cs.len() {
    } else if !nodes.contains_key(cs[i]) {
        lemma_children_reach(nodes, root, next, depth, height, parent, cs, i + 1);
        assert forall|x: NodeId| #[trigger]
            leaves_below_children(nodes, height, parent, cs, i).contains(x) implies exists|j: int|
            i <= j < cs.len() && #[trigger] reaches_up(nodes, depth, x, cs[j]) by {
            let j = choose|j: int| i + 1 <= j < cs.len() && #[trigger] reaches_up(nodes, depth, x, cs[j]);
            assert(i <= j < cs.len() && reaches_up(nodes, depth, x, cs[j]));
        }
    } else {
        lemma_children_reach(nodes, root, next, depth, height, parent, cs, i + 1);
        let here = if height[cs[i]] < height[parent] {
            leaves_below(nodes, height, cs[i])
        } else {
            Set::empty()
        };
        if height[cs[i]] < height[parent] {
            lemma_leaves_below_reach(nodes, root, next, depth, height, cs[i]);
        }
        assert forall|x: NodeId| #[trigger]
            leaves_below_children(nodes, height, parent, cs, i).contains(x) implies exists|j: int|
            i <= j < cs.len() && #[trigger] reaches_up(nodes, depth, x, cs[j]) by {
            if here.contains(x) {
                assert(reaches_up(nodes, depth, x, cs[i]));
            } else {
                let j = choose|j: int|
                    i + 1 <= j < cs.len() && #[trigger] reaches_up(nodes, depth, x, cs[j]);
                assert(i <= j < cs.len() && reaches_up(nodes, depth, x, cs[j]));
            }
        }
    }
}

/// The subtrees of a container's two children share no node.
pub proof fn lemma_children_disjoint(
    nodes: Map<NodeId, Node>,
    root: Option<NodeId>,
    next: u64,
    depth: Map<NodeId, nat>,
    height: Map<NodeId, nat>,
    k: NodeId,
)
    requires
        tree_wf(nodes, root, next, depth, height),
        nodes.contains_key(k),
        nodes[k].kind is Container,
    ensures
        leaves_below(nodes, height, children_of(nodes[k])[0]).disjoint(
            leaves_below_children(nodes, height, k, children_of(nodes[k]), 1),
        ),
{
    let c = children_of(nodes[k]);
    lemma_leaves_below_reach(nodes, root, next, depth, height, c[0]);
    lemma_children_reach(nodes, root, next, depth, height, k, c, 1);
    assert forall|x: NodeId|
        !(leaves_below(nodes, height, c[0]).contains(x) && leaves_below_children(
            nodes,
            height,
            k,
            c,
            1,
        ).contains(x)) by {
        if leaves_below(nodes, height, c[0]).contains(x) && leaves_below_children(
            nodes,
            height,
            k,
            c,
            1,
        ).contains(x) {
            assert(c.len() == 2);
            let j = choose|j: int| 1 <= j < c.len() && #[trigger] reaches_up(nodes, depth, x, c[j]);
            assert(j == 1);
            lemma_siblings_disjoint(nodes, root, next, depth, height, k, x);
        }
    }
}

/// Every leaf of a well-formed tree lies below its root.
pub proof fn lemma_leaf_below_root(
    nodes: Map<NodeId, Node>,
    root: Option<NodeId>,
    next: u64,
    depth: Map<NodeId, nat>,
    height: Map<NodeId, nat>,
    k: NodeId,
    x: NodeId,
)
    requires
        tree_wf(nodes, root, next, depth, height),
        nodes.contains_key(k),
        leaves_below(nodes, height, k).contains(x),
    ensures
        root is Some,
        leaves_below(nodes, height, root->0).contains(x),
    decreases depth[k],
{
    match nodes[k].parent {
        None => {},
        Some(p) => {
            assert(nodes.contains_key(p) && children_of(nodes[p]).contains(k));
            let c = children_of(nodes[p]);
            assert(nodes[p].kind is Container);
            assert(c.len() == 2);
            assert(height[c[0]] < height[p] && height[c[1]] < height[p]);
            assert(nodes.contains_key(c[0]) && nodes.contains_key(c[1]));
            assert(leaves_below(nodes, height, p) == leaves_below_children(nodes, height, p, c, 0));
            assert(leaves_below_children(nodes, height, p, c, 2) == Set::<NodeId>::empty());
            assert(leaves_below_children(nodes, height, p, c, 1) == leaves_below(nodes, height, c[1])
                + leaves_below_children(nodes, height, p, c, 2));
            assert(leaves_below_children(nodes, height, p, c, 0) == leaves_below(nodes, height, c[0])
                + leaves_below_children(nodes, height, p, c, 1));
            assert(k == c[0] || k == c[1]);
            assert(leaves_below(nodes, height, p).contains(x));
            lemma_leaf_below_root(nodes, root, next, depth, height, p, x);
        },
    }
}


/// The windows of the leaves below node `id`, from the first child to the last.
pub open spec fn leaf_seq(nodes: Map<NodeId, Node>, height: Map<NodeId, nat>, id: NodeId) -> Seq<u32>
    decreases height[id], 1nat, 0nat,
{
    if !nodes.contains_key(id) {
        Seq::empty()
    } else {
        match nodes[id].kind {
            NodeKind::Window { window_id } => seq![window_id],
            NodeKind::Container { children, .. } => leaf_seq_children(nodes, height, id, children@, 0),
        }
    }
}

/// The windows of the leaves below children `i..` of `parent`, in order.
pub open spec fn leaf_seq_children(
    nodes: Map<NodeId, Node>,
    height: Map<NodeId, nat>,
    parent: NodeId,
    cs: Seq<NodeId>,
    i: int,
) -> Seq<u32>
    decreases height[parent], 0nat, cs.len() - i,
{
    if i < 0 || i >= cs.len() {
        Seq::empty()
    } else if !nodes.contains_key(cs[i]) {
        leaf_seq_children(nodes, height, parent, cs, i + 1)
    } else {
        (if height[cs[i]] < height[parent] {
            leaf_seq(nodes, height, cs[i])
        } else {
            Seq::empty()
        }) + leaf_seq_children(nodes, height, parent, cs, i + 1)
    }
}

/// Below a container of a well-formed tree lie the leaves below its first child,
/// then those below its second.
pub proof fn lemma_leaf_seq_container(
    nodes: Map<NodeId, Node>,
    root: Option<NodeId>,
    next: u64,
    depth: Map<NodeId, nat>,
    height: Map<NodeId, nat>,
    k: NodeId,
)
    requires
        tree_wf(nodes, root, next, depth, height),
        nodes.contains_key(k),
        nodes[k].kind is Container,
    ensures
        leaf_seq(nodes, height, k) == leaf_seq(nodes, height, children_of(nodes[k])[0]) + leaf_seq(
            nodes,
            height,
            children_of(nodes[k])[1],
        ),
{
    let c = children_of(nodes[k]);
    assert(c.len() == 2 && nodes.contains_key(c[0]) && nodes.contains_key(c[1]));
    assert(height[c[0]] < height[k] && height[c[1]] < height[k]);
    assert(leaf_seq_children(nodes, height, k, c, 2) == Seq::<u32>::empty());
    assert(leaf_seq_children(nodes, height, k, c, 1) =~= leaf_seq(nodes, height, c[1]));
    assert(leaf_seq(nodes, height, k) == leaf_seq_children(nodes, height, k, c, 0));
}

/// The leaves below a node, in order, depend only on the kinds of the nodes below
/// it: a second well-formed tree that keeps every node of the first with its kind
/// gives the same sequence.
pub proof fn lemma_leaf_seq_frame(
    o: Map<NodeId, Node>,
    o_root: Option<NodeId>,
    o_next: u64,
    o_depth: Map<NodeId, nat>,
    o_height: Map<NodeId, nat>,
    f: Map<NodeId, Node>,
    f_root: Option<NodeId>,
    f_next: u64,
    f_depth: Map<NodeId, nat>,
    f_height: Map<NodeId, nat>,
    id: NodeId,
)
    requires
        tree_wf(o, o_root, o_next, o_depth, o_height),
        tree_wf(f, f_root, f_next, f_depth, f_height),
        forall|k: NodeId| #[trigger] o.contains_key(k) ==> f.contains_key(k) && f[k].kind == o[k].kind,
        o.contains_key(id),
    ensures
        leaf_seq(f, f_height, id) == leaf_seq(o, o_height, id),
    decreases o_height[id],
{
    if o[id].kind is Container {
        assert(f.contains_key(id) && f[id].kind == o[id].kind);
        let c = children_of(o[id]);
        assert(c == children_of(f[id]));
        assert(c.len() == 2 && o.contains_key(c[0]) && o.contains_key(c[1]));
        assert(o_height[c[0]] < o_height[id] && o_height[c[1]] < o_height[id]);
        lemma_leaf_seq_frame(o, o_root, o_next, o_depth, o_height, f, f_root, f_next, f_depth, f_height, c[0]);
        lemma_leaf_seq_frame(o, o_root, o_next, o_depth, o_height, f, f_root, f_next, f_depth, f_height, c[1]);
        lemma_leaf_seq_container(o, o_root, o_next, o_depth, o_height, id);
        lemma_leaf_seq_container(f, f_root, f_next, f_depth, f_height, id);
    } else {
        assert(f.contains_key(id) && f[id].kind == o[id].kind);
    }
}

} // verus!
