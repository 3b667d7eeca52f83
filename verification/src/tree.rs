use std::collections::HashMap;
use vstd::prelude::*;
use vstd::std_specs::iter::IteratorSpec;
use vstd::multiset::Multiset;

verus! {

/// Key of a node in a [`Tree`].
pub type NodeId = u64;

/// The axis along which a container lays out its children.
#[derive(Debug, Clone, Copy, PartialEq, Eq, Structural)]
pub enum SplitDirection {
    Horizontal,
    Vertical,
}

impl SplitDirection {
    pub open spec fn spec_opposite(self) -> SplitDirection {
        match self {
            SplitDirection::Horizontal => SplitDirection::Vertical,
            SplitDirection::Vertical => SplitDirection::Horizontal,
        }
    }

    /// The other axis.
    pub fn opposite(self) -> (r: Self)
        ensures
            r == self.spec_opposite(),
            r != self,
    {
        match self {
            Self::Horizontal => Self::Vertical,
            Self::Vertical => Self::Horizontal,
        }
    }
}

/// Law: taking the opposite axis twice gives the axis back.
pub proof fn lemma_opposite_involutive(d: SplitDirection)
    ensures
        d.spec_opposite().spec_opposite() == d,
{
}

/// A direction of focus or movement on the screen.
#[derive(Debug, Clone, Copy, PartialEq, Eq, Structural)]
pub enum Direction {
    Left,
    Right,
    Up,
    Down,
}

/// The exact fraction `num / den` of its parent's extent that a node takes.
#[derive(Debug, Clone, Copy, PartialEq, Eq, Structural)]
pub struct Ratio {
    pub num: u32,
    pub den: u32,
}

/// What a node holds: one window, or a split into child nodes.
#[derive(Debug, Clone)]
pub enum NodeKind {
    Window { window_id: u32 },
    Container { split: SplitDirection, children: Vec<NodeId> },
}

/// A node of the layout tree.
#[derive(Debug, Clone)]
pub struct Node {
    pub id: NodeId,
    pub parent: Option<NodeId>,
    pub kind: NodeKind,
    pub ratio: Ratio,
}

/// The children of a node, empty for a window.
pub open spec fn children_of(n: Node) -> Seq<NodeId> {
    match n.kind {
        NodeKind::Container { children, .. } => children@,
        NodeKind::Window { .. } => Seq::empty(),
    }
}

/// Whether a node is the leaf of window `w`.
pub open spec fn holds_window(n: Node, w: u32) -> bool {
    n.kind matches NodeKind::Window { window_id } && window_id == w
}

/// Whether a node is a leaf.
pub open spec fn is_leaf(n: Node) -> bool {
    n.kind is Window
}

/// Well-formedness of the node map of a tree.
///
/// `depth` grows strictly from parent to child and `height` shrinks strictly from
/// parent to child; they witness that the parent links and child lists are acyclic.
pub open spec fn tree_wf(
    nodes: Map<NodeId, Node>,
    root: Option<NodeId>,
    next_id: u64,
    depth: Map<NodeId, nat>,
    height: Map<NodeId, nat>,
) -> bool {
    &&& nodes.dom().finite()
    &&& forall|k: NodeId| #[trigger] nodes.contains_key(k) ==> nodes[k].id == k && k <= next_id
    &&& forall|k: NodeId| #[trigger] nodes.contains_key(k) ==> nodes[k].ratio.num == 1 && 1
        <= nodes[k].ratio.den <= 2
    &&& match root {
        None => true,
        Some(r) => nodes.contains_key(r) && nodes[r].parent is None && nodes[r].ratio == Ratio {
            num: 1,
            den: 1,
        },
    }
    &&& forall|k: NodeId|
        #![trigger nodes[k].parent]
        nodes.contains_key(k) && nodes[k].parent is None ==> root == Some(k)
    &&& forall|k: NodeId|
        #![trigger nodes[k].parent]
        nodes.contains_key(k) && nodes[k].parent is Some ==> {
            let p = nodes[k].parent->0;
            &&& nodes.contains_key(p)
            &&& children_of(nodes[p]).contains(k)
            &&& depth[p] < depth[k]
        }
    &&& forall|k: NodeId|
        #![trigger nodes[k].kind]
        nodes.contains_key(k) && nodes[k].kind is Container ==> {
            let c = children_of(nodes[k]);
            &&& c.len() == 2
            &&& c[0] != c[1]
            &&& nodes.contains_key(c[0])
            &&& nodes.contains_key(c[1])
            &&& nodes[c[0]].parent == Some(k)
            &&& nodes[c[1]].parent == Some(k)
            &&& height[c[0]] < height[k]
            &&& height[c[1]] < height[k]
        }
}

/// A binary split tree of windows, keyed by node id.
pub struct Tree {
    nodes: HashMap<NodeId, Node>,
    root: Option<NodeId>,
    next_id: NodeId,
    depth: Ghost<Map<NodeId, nat>>,
    height: Ghost<Map<NodeId, nat>>,
}

impl Tree {
    /// The nodes of the tree by id.
    pub closed spec fn nodes(&self) -> Map<NodeId, Node> {
        self.nodes@
    }

    /// The id of the root node.
    pub closed spec fn root_id(&self) -> Option<NodeId> {
        self.root
    }

    /// The largest id handed out so far.
    pub closed spec fn last_id(&self) -> u64 {
        self.next_id
    }

    pub closed spec fn depths(&self) -> Map<NodeId, nat> {
        self.depth@
    }

    pub closed spec fn heights(&self) -> Map<NodeId, nat> {
        self.height@
    }

    /// The tree's structural invariant.
    pub open spec fn wf(&self) -> bool {
        tree_wf(self.nodes(), self.root_id(), self.last_id(), self.depths(), self.heights())
    }

    /// An empty tree.
    pub fn new() -> (t: Self)
        ensures
            t.wf(),
            t.nodes() == Map::<NodeId, Node>::empty(),
            t.root_id() is None,
            t.last_id() == 0,
    {
        Tree {
            nodes: HashMap::new(),
            root: None,
            next_id: 0,
            depth: Ghost(Map::empty()),
            height: Ghost(Map::empty()),
        }
    }

    fn alloc_id(&mut self) -> (id: NodeId)
        requires
            old(self).next_id < u64::MAX,
        ensures
            id == old(self).next_id + 1,
            final(self).next_id == id,
            final(self).nodes == old(self).nodes,
            final(self).root == old(self).root,
            final(self).depth == old(self).depth,
            final(self).height == old(self).height,
    {
        self.next_id = self.next_id + 1;
        self.next_id
    }

    /// The largest id handed out so far.
    pub fn last_id_exec(&self) -> (r: u64)
        ensures
            r == self.last_id(),
    {
        self.next_id
    }

    /// The root node's id, if the tree holds any node.
    pub fn root(&self) -> (r: Option<NodeId>)
        ensures
            r == self.root_id(),
    {
        self.root
    }

    /// The node with id `id`.
    pub fn get(&self, id: NodeId) -> (r: Option<&Node>)
        ensures
            match r {
                Some(n) => self.nodes().contains_key(id) && *n == self.nodes()[id],
                None => !self.nodes().contains_key(id),
            },
    {
        self.nodes.get(&id)
    }
}


/// The leaves of window `w` in a node map.
pub open spec fn window_leaves(nodes: Map<NodeId, Node>, w: u32) -> Set<NodeId> {
    nodes.dom().filter(|k: NodeId| holds_window(nodes[k], w))
}

/// A node with new parent and ratio, all else kept.
pub open spec fn relinked(n: Node, parent: Option<NodeId>, ratio: Ratio) -> Node {
    Node { id: n.id, parent: parent, kind: n.kind, ratio: ratio }
}

/// Set the parent and ratio of node `id`.
fn relink(nodes: &mut HashMap<NodeId, Node>, id: NodeId, parent: Option<NodeId>, ratio: Ratio)
    requires
        old(nodes)@.contains_key(id),
    ensures
        final(nodes)@ == old(nodes)@.insert(id, relinked(old(nodes)@[id], parent, ratio)),
{
    let mut n = nodes.remove(&id).unwrap();
    n.parent = parent;
    n.ratio = ratio;
    nodes.insert(id, n);
    proof {
        assert(final(nodes)@ =~= old(nodes)@.insert(id, relinked(old(nodes)@[id], parent, ratio)));
    }
}

/// Whether `f` is the tree `o` after `insert_window(window_id)` added leaf `id`: an
/// empty tree gets the leaf as its root; otherwise a new horizontal root container
/// holds the old root and the new leaf, each taking half, and every other node is
/// kept.
pub open spec fn window_inserted(o: Tree, f: Tree, window_id: u32, id: NodeId) -> bool {
    &&& id == o.last_id() + 1
    &&& !o.nodes().contains_key(id)
    &&& f.nodes()[id].id == id
    &&& f.nodes()[id].kind == (NodeKind::Window { window_id })
    &&& match o.root_id() {
        None => {
            &&& f.root_id() == Some(id)
            &&& f.last_id() == id
            &&& f.nodes() == o.nodes().insert(
                id,
                Node {
                    id,
                    parent: None,
                    kind: NodeKind::Window { window_id },
                    ratio: Ratio { num: 1, den: 1 },
                },
            )
        },
        Some(r) => {
            let c = (id + 1) as u64;
            &&& f.root_id() == Some(c)
            &&& f.last_id() == c
            &&& !o.nodes().contains_key(c)
            &&& f.nodes().dom() == o.nodes().dom().insert(id).insert(c)
            &&& f.nodes()[id] == (Node {
                id,
                parent: Some(c),
                kind: NodeKind::Window { window_id },
                ratio: Ratio { num: 1, den: 2 },
            })
            &&& f.nodes()[r] == relinked(
                o.nodes()[r],
                Some(c),
                Ratio { num: 1, den: 2 },
            )
            &&& f.is_container_with(c, SplitDirection::Horizontal, seq![r, id])
            &&& f.nodes()[c].parent is None
            &&& f.nodes()[c].ratio == (Ratio { num: 1, den: 1 })
            &&& forall|k: NodeId|
                #![trigger f.nodes()[k]]
                o.nodes().contains_key(k) && k != r ==> f.nodes()[k]
                    == o.nodes()[k]
        },
    }
    &&& forall|w: u32|
        #![trigger f.leaves_of(w)]
        f.leaves_of(w) == if w == window_id {
            o.leaves_of(w).insert(id)
        } else {
            o.leaves_of(w)
        }
}

impl Tree {
    /// The ids of the leaves that hold window `w`.
    pub open spec fn leaves_of(&self, w: u32) -> Set<NodeId> {
        window_leaves(self.nodes(), w)
    }

    /// Whether `c` is a container node split along `split` with children `children`.
    pub open spec fn is_container_with(
        &self,
        c: NodeId,
        split: SplitDirection,
        children: Seq<NodeId>,
    ) -> bool {
        &&& self.nodes().contains_key(c)
        &&& self.nodes()[c].kind matches NodeKind::Container { split: s, children: ch } && s
            == split && ch@ == children
    }

    /// Add a window leaf to the tree and return its node id.
    ///
    /// An empty tree gets the leaf as its root. Otherwise a new horizontal container
    /// becomes the root, with the old root as first and the new leaf as second child,
    /// each taking half of it.
    pub fn insert_window(&mut self, window_id: u32) -> (id: NodeId)
        requires
            old(self).wf(),
            old(self).last_id() + 2 <= u64::MAX,
        ensures
            final(self).wf(),
            id == old(self).last_id() + 1,
            window_inserted(*old(self), *final(self), window_id, id),
    {
        let id = self.alloc_id();
        let node = Node {
            id,
            parent: None,
            kind: NodeKind::Window { window_id },
            ratio: Ratio { num: 1, den: 1 },
        };
        let ghost old_nodes = self.nodes@;
        self.nodes.insert(id, node);
        match self.root {
            None => {
                self.root = Some(id);
                proof {
                    assert forall|w: u32| #[trigger] self.leaves_of(w) == if w == window_id {
                        window_leaves(old_nodes, w).insert(id)
                    } else {
                        window_leaves(old_nodes, w)
                    } by {
                        assert(self.leaves_of(w) =~= if w == window_id {
                            window_leaves(old_nodes, w).insert(id)
                        } else {
                            window_leaves(old_nodes, w)
                        });
                    }
                }
            },
            Some(root_id) => {
                self.split_root(root_id, id, SplitDirection::Horizontal);
                proof {
                    assert forall|w: u32| #[trigger] self.leaves_of(w) == if w == window_id {
                        window_leaves(old_nodes, w).insert(id)
                    } else {
                        window_leaves(old_nodes, w)
                    } by {
                        assert(self.leaves_of(w) =~= if w == window_id {
                            window_leaves(old_nodes, w).insert(id)
                        } else {
                            window_leaves(old_nodes, w)
                        });
                    }
                }
            },
        }
        id
    }

    /// Put `existing` (the root) and `new` (a fresh parentless node) under a new
    /// container that becomes the root.
    fn split_root(&mut self, existing: NodeId, new: NodeId, split: SplitDirection)
        requires
            old(self).nodes@.contains_key(new),
            ({
                let o = *old(self);
                let pre = o.nodes@.remove(new);
                &&& tree_wf(pre, o.root, (o.next_id - 1) as u64, o.depth@, o.height@)
                &&& o.root == Some(existing)
                &&& o.nodes@[new].id == new
                &&& o.nodes@[new].parent is None
                &&& o.nodes@[new].kind is Window
                &&& o.nodes@[new].ratio == (Ratio { num: 1, den: 1 })
                &&& new == o.next_id
                &&& 1 <= new
                &&& !pre.contains_key(new)
                &&& o.next_id < u64::MAX
            }),
        ensures
            ({
                let o = *old(self);
                let f = *final(self);
                let c = (o.next_id + 1) as u64;
                &&& f.wf()
                &&& f.root == Some(c)
                &&& f.next_id == c
                &&& f.nodes@.dom() == o.nodes@.dom().insert(c)
                &&& f.nodes@[new] == relinked(o.nodes@[new], Some(c), Ratio { num: 1, den: 2 })
                &&& f.nodes@[existing] == relinked(
                    o.nodes@[existing],
                    Some(c),
                    Ratio { num: 1, den: 2 },
                )
                &&& f.is_container_with(c, split, seq![existing, new])
                &&& f.nodes@[c].parent is None
                &&& f.nodes@[c].ratio == (Ratio { num: 1, den: 1 })
                &&& forall|k: NodeId|
                    #![trigger f.nodes@[k]]
                    o.nodes@.contains_key(k) && k != existing && k != new ==> f.nodes@[k]
                        == o.nodes@[k]
                &&& forall|k: NodeId|
                    #![trigger f.nodes@[k]]
                    o.nodes@.contains_key(k) ==> f.nodes@[k].kind == o.nodes@[k].kind
            }),
    {
        let ghost o_nodes = self.nodes@;
        let ghost o_depth = self.depth@;
        let ghost o_height = self.height@;
        let container_id = self.alloc_id();
        let parent_id = match self.nodes.get(&existing) {
            Some(n) => n.parent,
            None => None,
        };
        assert(parent_id is None);
        let container = Node {
            id: container_id,
            parent: parent_id,
            kind: NodeKind::Container { split, children: vec![existing, new] },
            ratio: Ratio { num: 1, den: 1 },
        };
        self.nodes.insert(container_id, container);
        self.root = Some(container_id);

        let half = Ratio { num: 1, den: 2 };
        relink(&mut self.nodes, existing, Some(container_id), half);
        relink(&mut self.nodes, new, Some(container_id), half);

        proof {
            let c = container_id;
            self.depth@ = Map::new(
                |k: NodeId| true,
                |k: NodeId|
                    if k == c {
                        0nat
                    } else {
                        o_depth[k] + 1
                    },
            );
            self.height@ = o_height.insert(new, 0nat).insert(
                c,
                o_height[existing] + 1,
            );
            let nodes = self.nodes@;
            let pre = o_nodes.remove(new);
            assert(nodes.dom() =~= o_nodes.dom().insert(c));
            assert(!o_nodes.contains_key(c)) by {
                if o_nodes.contains_key(c) {
                    assert(pre.contains_key(c));
                    assert(c <= old(self).next_id - 1);
                }
            }
            assert(children_of(nodes[c]) =~= seq![existing, new]);
            assert forall|k: NodeId| o_nodes.contains_key(k) && k != existing && k != new implies
                #[trigger] nodes[k] == o_nodes[k] && pre.contains_key(k) && pre[k] == o_nodes[k] by {}
            assert(pre.contains_key(existing));
            assert forall|k: NodeId| nodes.contains_key(k) && #[trigger] nodes[k].parent is Some implies {
                let p = nodes[k].parent->0;
                &&& nodes.contains_key(p)
                &&& children_of(nodes[p]).contains(k)
                &&& self.depth@[p] < self.depth@[k]
            } by {
                if k == existing || k == new {
                    assert(children_of(nodes[c])[0] == existing);
                    assert(children_of(nodes[c])[1] == new);
                } else {
                    assert(pre.contains_key(k));
                    assert(nodes[k] == o_nodes[k]);
                    let p = nodes[k].parent->0;
                    assert(pre.contains_key(p));
                    assert(children_of(pre[p]).contains(k));
                    assert(p != c);
                    assert(children_of(nodes[p]) == children_of(pre[p]));
                }
            }
            assert forall|k: NodeId| nodes.contains_key(k) && #[trigger] nodes[k].kind is Container implies {
                let ch = children_of(nodes[k]);
                &&& ch.len() == 2
                &&& ch[0] != ch[1]
                &&& nodes.contains_key(ch[0])
                &&& nodes.contains_key(ch[1])
                &&& nodes[ch[0]].parent == Some(k)
                &&& nodes[ch[1]].parent == Some(k)
                &&& self.height@[ch[0]] < self.height@[k]
                &&& self.height@[ch[1]] < self.height@[k]
            } by {
                if k != c {
                    assert(o_nodes.remove(new).contains_key(k));
                    let ch = children_of(nodes[k]);
                    assert forall|i: int| 0 <= i < 2 implies {
                        &&& #[trigger] nodes.contains_key(ch[i])
                        &&& nodes[ch[i]].parent == Some(k)
                        &&& self.height@[ch[i]] < self.height@[k]
                    } by {
                        assert(o_nodes.remove(new).contains_key(ch[i]));
                    }
                }
            }
        }
    }
}


impl Tree {
    /// The id of a leaf that holds window `window_id`, if there is one.
    pub fn find_window(&self, window_id: u32) -> (r: Option<NodeId>)
        requires
            self.wf(),
        ensures
            match r {
                Some(k) => self.leaves_of(window_id).contains(k),
                None => self.leaves_of(window_id) == Set::<NodeId>::empty(),
            },
    {
        let ghost keys = vstd::std_specs::hash::spec_keys_iter(&self.nodes).remaining();
        for k in it: self.nodes.keys()
            invariant
                forall|k: NodeId| #[trigger] self.nodes@.contains_key(k) ==> self.nodes@[k].id == k,
                it.seq() == keys,
                forall|i: int|
                    0 <= i < it.index() ==> !holds_window(self.nodes@[*it.seq()[i]], window_id),
        {
            match self.nodes.get(k) {
                Some(n) => {
                    if let NodeKind::Window { window_id: wid } = n.kind {
                        if wid == window_id {
                            return Some(n.id);
                        }
                    }
                },
                None => {},
            }
        }
        proof {
            assert forall|k: NodeId| #[trigger] self.nodes@.contains_key(k) implies !holds_window(self.nodes@[k], window_id) by {
                assert(keys.unref().to_set().contains(k));
                let i = choose|i: int| 0 <= i < keys.len() && *keys[i] == k;
            }
            assert(self.leaves_of(window_id) =~= Set::<NodeId>::empty());
        }
        None
    }
}


/// The windows held by the leaves among `ks`, with multiplicity.
pub open spec fn leaf_windows(nodes: Map<NodeId, Node>, ks: Seq<NodeId>) -> Multiset<u32>
    decreases ks.len(),
{
    if ks.len() == 0 {
        Multiset::empty()
    } else {
        let rest = leaf_windows(nodes, ks.drop_last());
        match nodes[ks.last()].kind {
            NodeKind::Window { window_id } => rest.insert(window_id),
            NodeKind::Container { .. } => rest,
        }
    }
}

proof fn lemma_leaf_windows_count(nodes: Map<NodeId, Node>, ks: Seq<NodeId>, w: u32)
    requires
        ks.no_duplicates(),
    ensures
        leaf_windows(nodes, ks).count(w) == ks.to_set().filter(
            |k: NodeId| holds_window(nodes[k], w),
        ).len(),
    decreases ks.len(),
{
    let p = |k: NodeId| holds_window(nodes[k], w);
    if ks.len() == 0 {
        assert(ks.to_set().filter(p) =~= Set::empty());
    } else {
        let rest = ks.drop_last();
        let last = ks.last();
        assert(rest.no_duplicates());
        lemma_leaf_windows_count(nodes, rest, w);
        assert(ks.to_set() =~= rest.to_set().insert(last)) by {
            assert(ks =~= rest.push(last));
        }
        assert(!rest.to_set().contains(last)) by {
            if rest.to_set().contains(last) {
                let i = choose|i: int| 0 <= i < rest.len() && rest[i] == last;
                assert(ks[i] == ks[ks.len() - 1]);
            }
        }
        if p(last) {
            assert(ks.to_set().filter(p) =~= rest.to_set().filter(p).insert(last));
        } else {
            assert(ks.to_set().filter(p) =~= rest.to_set().filter(p));
        }
    }
}

impl Tree {
    /// The windows of all leaves, each once per leaf, in an unspecified order.
    pub fn window_ids(&self) -> (r: Vec<u32>)
        requires
            self.wf(),
        ensures
            forall|w: u32| #[trigger] r@.to_multiset().count(w) == self.leaves_of(w).len(),
    {
        let ghost keys = vstd::std_specs::hash::spec_keys_iter(&self.nodes).remaining();
        let mut out: Vec<u32> = Vec::new();
        proof {
            broadcast use vstd::seq_lib::group_to_multiset_ensures;
            assert(out@.to_multiset().len() == 0);
            assert(out@.to_multiset() =~= Multiset::empty());
            assert(keys.unref().take(0) =~= Seq::<NodeId>::empty());
        }
        for k in it: self.nodes.keys()
            invariant
                it.seq() == keys,
                out@.to_multiset() == leaf_windows(self.nodes@, keys.unref().take(it.index())),
        {
            let ghost i = it.index();
            proof {
                assert(keys.unref().take(i + 1).drop_last() =~= keys.unref().take(i));
            }
            match self.nodes.get(k) {
                Some(n) => {
                    if let NodeKind::Window { window_id } = n.kind {
                        out.push(window_id);
                        proof {
                            broadcast use vstd::seq_lib::group_to_multiset_ensures;
                        }
                    }
                },
                None => {},
            }
        }
        proof {
            let ks = keys.unref();
            assert(ks.take(ks.len() as int) =~= ks);
            assert(ks.no_duplicates()) by {
                assert forall|i: int, j: int| 0 <= i < ks.len() && 0 <= j < ks.len() && i != j implies ks[i] != ks[j] by {
                    assert(keys[i] != keys[j]);
                }
            }
            assert forall|w: u32| #[trigger] out@.to_multiset().count(w) == self.leaves_of(w).len() by {
                lemma_leaf_windows_count(self.nodes@, ks, w);
                assert(ks.to_set() == self.nodes@.dom());
                assert(ks.to_set().filter(|k: NodeId| holds_window(self.nodes@[k], w)) =~= self.leaves_of(w));
            }
        }
        out
    }
}


/// `s` with every occurrence of `x` taken out, order kept.
pub open spec fn seq_without(s: Seq<NodeId>, x: NodeId) -> Seq<NodeId>
    decreases s.len(),
{
    if s.len() == 0 {
        s
    } else {
        let r = seq_without(s.drop_last(), x);
        if s.last() == x {
            r
        } else {
            r.push(s.last())
        }
    }
}

proof fn lemma_without_pair(s: Seq<NodeId>, x: NodeId)
    requires
        s.len() == 2,
        s[0] != s[1],
    ensures
        x == s[0] ==> seq_without(s, x) == seq![s[1]],
        x == s[1] ==> seq_without(s, x) == seq![s[0]],
{
    reveal_with_fuel(seq_without, 3);
    assert(s.drop_last().drop_last() =~= Seq::<NodeId>::empty());
    assert(s.drop_last() =~= seq![s[0]]);
    assert(seq![s[0]].drop_last() =~= Seq::<NodeId>::empty());
    if x == s[0] {
        assert(seq_without(s, x) =~= seq![s[1]]);
    } else if x == s[1] {
        assert(seq_without(s, x) =~= seq![s[0]]);
    }
}

/// The vector `v` without the entries equal to `x`.
fn without(v: &Vec<NodeId>, x: NodeId) -> (r: Vec<NodeId>)
    ensures
        r@ == seq_without(v@, x),
{
    let mut r: Vec<NodeId> = Vec::new();
    let mut i: usize = 0;
    while i < v.len()
        invariant
            i <= v.len(),
            r@ == seq_without(v@.take(i as int), x),
        decreases v.len() - i,
    {
        proof {
            assert(v@.take(i + 1).drop_last() =~= v@.take(i as int));
        }
        if v[i] != x {
            r.push(v[i]);
        }
        i = i + 1;
    }
    proof {
        assert(v@.take(v.len() as int) =~= v@);
    }
    r
}

/// Index of the first entry of `v` equal to `x`.
fn position_of(v: &Vec<NodeId>, x: NodeId) -> (r: Option<usize>)
    ensures
        match r {
            Some(i) => i < v.len() && v@[i as int] == x && forall|j: int| 0 <= j < i ==> v@[j] != x,
            None => !v@.contains(x),
        },
{
    let mut i: usize = 0;
    while i < v.len()
        invariant
            i <= v.len(),
            forall|j: int| 0 <= j < i ==> v@[j] != x,
        decreases v.len() - i,
    {
        if v[i] == x {
            return Some(i);
        }
        i = i + 1;
    }
    None
}

/// Whether `new` is the container `old` with child `from` replaced by `to`.
pub open spec fn child_replaced(old: Node, new: Node, from: NodeId, to: NodeId) -> bool {
    &&& new.id == old.id
    &&& new.parent == old.parent
    &&& new.ratio == old.ratio
    &&& old.kind matches NodeKind::Container { split: s1, .. }
    &&& new.kind matches NodeKind::Container { split: s2, .. }
    &&& s1 == s2
    &&& children_of(new).len() == children_of(old).len()
    &&& forall|i: int|
        0 <= i < children_of(old).len() ==> #[trigger] children_of(new)[i] == if children_of(
            old,
        )[i] == from {
            to
        } else {
            children_of(old)[i]
        }
}

/// Replace child `from` of container `g` by `to`.
fn replace_child(nodes: &mut HashMap<NodeId, Node>, g: NodeId, from: NodeId, to: NodeId)
    requires
        old(nodes)@.contains_key(g),
        old(nodes)@[g].kind is Container,
        children_of(old(nodes)@[g]).contains(from),
        children_of(old(nodes)@[g]).no_duplicates(),
    ensures
        final(nodes)@.dom() == old(nodes)@.dom(),
        child_replaced(old(nodes)@[g], final(nodes)@[g], from, to),
        forall|k: NodeId| k != g ==> #[trigger] final(nodes)@[k] == old(nodes)@[k],
{
    let ghost o = old(nodes)@;
    let node = nodes.remove(&g).unwrap();
    let Node { id, parent, kind, ratio } = node;
    let new_kind = match kind {
        NodeKind::Container { split, children } => {
            let mut children = children;
            let pos = position_of(&children, from);
            match pos {
                Some(i) => {
                    children.set(i, to);
                },
                None => {},
            }
            NodeKind::Container { split, children }
        },
        NodeKind::Window { window_id } => NodeKind::Window { window_id },
    };
    nodes.insert(g, Node { id, parent, kind: new_kind, ratio });
    proof {
        assert(nodes@.dom() =~= o.dom());
        assert forall|k: NodeId| k != g implies #[trigger] nodes@[k] == o[k] by {}
    }
}

/// Whether `(f, f_root)` is the tree `(o, o_root)` after removing leaf `n` as
/// `remove_window` does: the leaf goes, and a container left with one child is
/// replaced by that child, which then takes all of its new parent's share (ratio 1).
pub open spec fn leaf_removed(
    o: Map<NodeId, Node>,
    o_root: Option<NodeId>,
    f: Map<NodeId, Node>,
    f_root: Option<NodeId>,
    n: NodeId,
) -> bool {
    match o[n].parent {
        None => f == o.remove(n) && f_root is None,
        Some(p) => {
            let ch = children_of(o[p]);
            let s = if ch[0] == n {
                ch[1]
            } else {
                ch[0]
            };
            let gp = o[p].parent;
            &&& f.dom() == o.dom().remove(n).remove(p)
            &&& f[s] == relinked(o[s], gp, Ratio { num: 1, den: 1 })
            &&& match gp {
                None => f_root == Some(s) && forall|k: NodeId|
                    #![trigger f[k]]
                    f.contains_key(k) && k != s ==> f[k] == o[k],
                Some(g) => {
                    &&& f_root == o_root
                    &&& child_replaced(o[g], f[g], p, s)
                    &&& forall|k: NodeId|
                        #![trigger f[k]]
                        f.contains_key(k) && k != s && k != g ==> f[k] == o[k]
                },
            }
        },
    }
}



/// Removing a root leaf keeps the tree well formed.
#[verifier::spinoff_prover]
proof fn lemma_root_leaf_removed_wf(
    o: Map<NodeId, Node>,
    o_root: Option<NodeId>,
    f: Map<NodeId, Node>,
    f_root: Option<NodeId>,
    n: NodeId,
    next: u64,
    depth: Map<NodeId, nat>,
    height: Map<NodeId, nat>,
)
    requires
        tree_wf(o, o_root, next, depth, height),
        o.contains_key(n),
        o[n].kind is Window,
        leaf_removed(o, o_root, f, f_root, n),
        o[n].parent is None,
    ensures
        tree_wf(f, f_root, next, depth, height),
{

            assert(f.dom() =~= o.dom().remove(n));
            assert forall|k: NodeId| f.contains_key(k) && #[trigger] f[k].parent is Some implies {
                let q = f[k].parent->0;
                &&& f.contains_key(q)
                &&& children_of(f[q]).contains(k)
                &&& depth[q] < depth[k]
            } by {
                let q = o[k].parent->0;
                assert(o.contains_key(k));
                assert(children_of(o[q]).contains(k));
                assert(q != n);
            }
            assert forall|k: NodeId| f.contains_key(k) && #[trigger] f[k].kind is Container implies {
                let c = children_of(f[k]);
                &&& c.len() == 2
                &&& c[0] != c[1]
                &&& f.contains_key(c[0])
                &&& f.contains_key(c[1])
                &&& f[c[0]].parent == Some(k)
                &&& f[c[1]].parent == Some(k)
                &&& height[c[0]] < height[k]
                &&& height[c[1]] < height[k]
            } by {
                assert(o.contains_key(k));
                let c = children_of(o[k]);
                assert forall|i: int| 0 <= i < 2 implies {
                    &&& #[trigger] f.contains_key(c[i])
                    &&& f[c[i]].parent == Some(k)
                    &&& height[c[i]] < height[k]
                } by {
                    assert(o.contains_key(c[i]));
                    assert(c[i] != n);
                }
            }
            assert forall|w: u32| #[trigger] window_leaves(f, w) == window_leaves(o, w).remove(n) by {
                assert(window_leaves(f, w) =~= window_leaves(o, w).remove(n));
            }
        }

/// Removing a leaf whose parent is the root keeps the tree well formed.
#[verifier::spinoff_prover]
#[verifier::rlimit(80)]
proof fn lemma_collapse_at_root_wf(
    o: Map<NodeId, Node>,
    o_root: Option<NodeId>,
    f: Map<NodeId, Node>,
    f_root: Option<NodeId>,
    n: NodeId,
    next: u64,
    depth: Map<NodeId, nat>,
    height: Map<NodeId, nat>,
)
    requires
        tree_wf(o, o_root, next, depth, height),
        o.contains_key(n),
        o[n].kind is Window,
        leaf_removed(o, o_root, f, f_root, n),
        o[n].parent is Some,
        o[o[n].parent->0].parent is None,
    ensures
        tree_wf(f, f_root, next, depth, height),
{
    let p = o[n].parent->0;

            assert(o.contains_key(p));
            assert(children_of(o[p]).contains(n));
            assert(o[p].kind is Container);
            let ch = children_of(o[p]);
            assert(ch.len() == 2);
            assert(o.contains_key(ch[0]) && o.contains_key(ch[1]));
            let s = if ch[0] == n {
                ch[1]
            } else {
                ch[0]
            };
            let gp = o[p].parent;
            assert(s != n);
            assert(o.contains_key(s));
            assert(o[s].parent == Some(p));
            assert(p != n);
            assert(p != s);
            // the children of p are exactly n and s
            assert forall|k: NodeId| o.contains_key(k) && o[k].parent == Some(p) implies k == n || k
                == s by {
                assert(children_of(o[p]).contains(k));
                let i = choose|i: int| 0 <= i < ch.len() && ch[i] == k;
            }
            // n has no children
            assert forall|k: NodeId| o.contains_key(k) && o[k].parent is Some implies o[k].parent->0
                != n by {
                let q = o[k].parent->0;
                assert(children_of(o[q]).contains(k));
            }
            assert(f.dom() =~= o.dom().remove(n).remove(p));
    let g = 0u64;

                    assert(o_root == Some(p));
                    assert forall|k: NodeId|
                        f.contains_key(k) && #[trigger] f[k].parent is None implies f_root == Some(k) by {
                        if k != s {
                            assert(f[k] == o[k]);
                        }
                    }
                    assert forall|k: NodeId|
                        f.contains_key(k) && #[trigger] f[k].parent is Some implies {
                        let q = f[k].parent->0;
                        &&& f.contains_key(q)
                        &&& children_of(f[q]).contains(k)
                        &&& depth[q] < depth[k]
                    } by {
                        assert(k != s);
                        assert(f[k] == o[k]);
                        let q = o[k].parent->0;
                        assert(o.contains_key(k));
                        assert(q != n);
                        assert(q != p);
                        assert(f.contains_key(q));
                        if q == s {
                            assert(children_of(f[q]) == children_of(o[q]));
                        } else {
                            assert(f[q] == o[q]);
                        }
                    }
                    assert forall|k: NodeId|
                        f.contains_key(k) && #[trigger] f[k].kind is Container implies {
                        let c = children_of(f[k]);
                        &&& c.len() == 2
                        &&& c[0] != c[1]
                        &&& f.contains_key(c[0])
                        &&& f.contains_key(c[1])
                        &&& f[c[0]].parent == Some(k)
                        &&& f[c[1]].parent == Some(k)
                        &&& height[c[0]] < height[k]
                        &&& height[c[1]] < height[k]
                    } by {
                        assert(o.contains_key(k));
                        assert(children_of(f[k]) == children_of(o[k]));
                        let c = children_of(o[k]);
                        assert forall|i: int| 0 <= i < 2 implies {
                            &&& #[trigger] f.contains_key(c[i])
                            &&& f[c[i]].parent == Some(k)
                            &&& height[c[i]] < height[k]
                        } by {
                            assert(o.contains_key(c[i]));
                            assert(o[c[i]].parent == Some(k));
                            assert(c[i] != n);
                            assert(c[i] != p);
                            assert(c[i] != s);
                            assert(f[c[i]] == o[c[i]]);
                        }
                    }
                }

/// Removing a leaf whose parent is not the root keeps the tree well formed.
#[verifier::spinoff_prover]
#[verifier::rlimit(80)]
proof fn lemma_collapse_inner_wf(
    o: Map<NodeId, Node>,
    o_root: Option<NodeId>,
    f: Map<NodeId, Node>,
    f_root: Option<NodeId>,
    n: NodeId,
    next: u64,
    depth: Map<NodeId, nat>,
    height: Map<NodeId, nat>,
)
    requires
        tree_wf(o, o_root, next, depth, height),
        o.contains_key(n),
        o[n].kind is Window,
        leaf_removed(o, o_root, f, f_root, n),
        o[n].parent is Some,
        o[o[n].parent->0].parent is Some,
    ensures
        tree_wf(f, f_root, next, depth, height),
{
    let p = o[n].parent->0;

            assert(o.contains_key(p));
            assert(children_of(o[p]).contains(n));
            assert(o[p].kind is Container);
            let ch = children_of(o[p]);
            assert(ch.len() == 2);
            assert(o.contains_key(ch[0]) && o.contains_key(ch[1]));
            let s = if ch[0] == n {
                ch[1]
            } else {
                ch[0]
            };
            let gp = o[p].parent;
            assert(s != n);
            assert(o.contains_key(s));
            assert(o[s].parent == Some(p));
            assert(p != n);
            assert(p != s);
            // the children of p are exactly n and s
            assert forall|k: NodeId| o.contains_key(k) && o[k].parent == Some(p) implies k == n || k
                == s by {
                assert(children_of(o[p]).contains(k));
                let i = choose|i: int| 0 <= i < ch.len() && ch[i] == k;
            }
            // n has no children
            assert forall|k: NodeId| o.contains_key(k) && o[k].parent is Some implies o[k].parent->0
                != n by {
                let q = o[k].parent->0;
                assert(children_of(o[q]).contains(k));
            }
            assert(f.dom() =~= o.dom().remove(n).remove(p));
    let g = gp->0;

                    assert(o.contains_key(g));
                    assert(children_of(o[g]).contains(p));
                    assert(depth[g] < depth[p]);
                    assert(g != n && g != p && g != s);
                    assert(o[g].kind is Container);
                    let gc = children_of(o[g]);
                    assert(o.contains_key(gc[0]) && o.contains_key(gc[1]));
                    assert(o[gc[0]].parent == Some(g) && o[gc[1]].parent == Some(g));
                    assert forall|k: NodeId|
                        f.contains_key(k) && #[trigger] f[k].parent is None implies f_root == Some(k) by {
                        if k != s && k != g {
                            assert(f[k] == o[k]);
                        }
                    }
                    assert forall|k: NodeId|
                        f.contains_key(k) && #[trigger] f[k].parent is Some implies {
                        let q = f[k].parent->0;
                        &&& f.contains_key(q)
                        &&& children_of(f[q]).contains(k)
                        &&& depth[q] < depth[k]
                    } by {
                        assert(o.contains_key(k));
                        if k == s {
                            assert(f[k].parent == Some(g));
                            let j = choose|j: int| 0 <= j < gc.len() && gc[j] == p;
                            assert(children_of(f[g])[j] == s);
                        } else {
                            assert(f[k].parent == o[k].parent);
                            let q = o[k].parent->0;
                            assert(q != n);
                            assert(q != p);
                            assert(f.contains_key(q));
                            if q == g {
                                let j = choose|j: int| 0 <= j < gc.len() && gc[j] == k;
                                assert(k != p);
                                assert(children_of(f[g])[j] == k);
                            } else if q == s {
                                assert(children_of(f[q]) == children_of(o[q]));
                            } else {
                                assert(f[q] == o[q]);
                            }
                        }
                    }
                    assert forall|k: NodeId|
                        f.contains_key(k) && #[trigger] f[k].kind is Container implies {
                        let c = children_of(f[k]);
                        &&& c.len() == 2
                        &&& c[0] != c[1]
                        &&& f.contains_key(c[0])
                        &&& f.contains_key(c[1])
                        &&& f[c[0]].parent == Some(k)
                        &&& f[c[1]].parent == Some(k)
                        &&& height[c[0]] < height[k]
                        &&& height[c[1]] < height[k]
                    } by {
                        assert(o.contains_key(k));
                        if k == g {
                            let c = children_of(f[g]);
                            assert forall|i: int| 0 <= i < 2 implies {
                                &&& #[trigger] f.contains_key(c[i])
                                &&& f[c[i]].parent == Some(k)
                                &&& height[c[i]] < height[k]
                            } by {
                                if gc[i] == p {
                                    assert(c[i] == s);
                                } else {
                                    assert(c[i] == gc[i]);
                                    assert(gc[i] != n);
                                    assert(gc[i] != s);
                                    assert(f[c[i]] == o[c[i]]);
                                }
                            }
                            if gc[0] == p {
                                assert(gc[1] != s);
                            } else if gc[1] == p {
                                assert(gc[0] != s);
                            }
                        } else {
                            assert(children_of(f[k]) == children_of(o[k]));
                            let c = children_of(o[k]);
                            assert forall|i: int| 0 <= i < 2 implies {
                                &&& #[trigger] f.contains_key(c[i])
                                &&& f[c[i]].parent == Some(k)
                                &&& height[c[i]] < height[k]
                            } by {
                                assert(o.contains_key(c[i]));
                                assert(o[c[i]].parent == Some(k));
                                assert(c[i] != n);
                                assert(c[i] != p);
                                assert(c[i] != s);
                                if c[i] == g {
                                    assert(f[c[i]].parent == o[c[i]].parent);
                                } else {
                                    assert(f[c[i]] == o[c[i]]);
                                }
                            }
                        }
                    }
}

/// Removing a leaf takes exactly that leaf out of the leaves of its window.
#[verifier::spinoff_prover]
#[verifier::rlimit(80)]
proof fn lemma_leaf_removed_leaves(
    o: Map<NodeId, Node>,
    o_root: Option<NodeId>,
    f: Map<NodeId, Node>,
    f_root: Option<NodeId>,
    n: NodeId,
    next: u64,
    depth: Map<NodeId, nat>,
    height: Map<NodeId, nat>,
)
    requires
        tree_wf(o, o_root, next, depth, height),
        o.contains_key(n),
        o[n].kind is Window,
        leaf_removed(o, o_root, f, f_root, n),
    ensures
        forall|w: u32| #[trigger] window_leaves(f, w) == window_leaves(o, w).remove(n),
{
    match o[n].parent {
        None => {
            assert forall|w: u32| #[trigger] window_leaves(f, w) == window_leaves(o, w).remove(n) by {
                assert(window_leaves(f, w) =~= window_leaves(o, w).remove(n));
            }
        },
        Some(p) => {

            assert(o.contains_key(p));
            assert(children_of(o[p]).contains(n));
            assert(o[p].kind is Container);
            let ch = children_of(o[p]);
            assert(ch.len() == 2);
            assert(o.contains_key(ch[0]) && o.contains_key(ch[1]));
            let s = if ch[0] == n {
                ch[1]
            } else {
                ch[0]
            };
            let gp = o[p].parent;
            assert(s != n);
            assert(o.contains_key(s));
            assert(o[s].parent == Some(p));
            assert(p != n);
            assert(p != s);
            // the children of p are exactly n and s
            assert forall|k: NodeId| o.contains_key(k) && o[k].parent == Some(p) implies k == n || k
                == s by {
                assert(children_of(o[p]).contains(k));
                let i = choose|i: int| 0 <= i < ch.len() && ch[i] == k;
            }
            // n has no children
            assert forall|k: NodeId| o.contains_key(k) && o[k].parent is Some implies o[k].parent->0
                != n by {
                let q = o[k].parent->0;
                assert(children_of(o[q]).contains(k));
            }
            assert(f.dom() =~= o.dom().remove(n).remove(p));
            assert forall|w: u32| #[trigger] window_leaves(f, w) == window_leaves(o, w).remove(n) by {
                assert forall|k: NodeId| f.contains_key(k) implies holds_window(f[k], w) == holds_window(o[k], w) by {
                    if k == s {
                    } else if gp is Some && k == gp->0 {
                    } else {
                        assert(f[k] == o[k]);
                    }
                }
                assert(window_leaves(f, w) =~= window_leaves(o, w).remove(n));
            }
        },
    }
}

/// Removing a leaf keeps the tree well formed, and takes exactly that leaf out of
/// the leaves of its window.
proof fn lemma_leaf_removed_wf(
    o: Map<NodeId, Node>,
    o_root: Option<NodeId>,
    f: Map<NodeId, Node>,
    f_root: Option<NodeId>,
    n: NodeId,
    next: u64,
    depth: Map<NodeId, nat>,
    height: Map<NodeId, nat>,
)
    requires
        tree_wf(o, o_root, next, depth, height),
        o.contains_key(n),
        o[n].kind is Window,
        leaf_removed(o, o_root, f, f_root, n),
    ensures
        tree_wf(f, f_root, next, depth, height),
        forall|w: u32| #[trigger] window_leaves(f, w) == window_leaves(o, w).remove(n),
{
    lemma_leaf_removed_leaves(o, o_root, f, f_root, n, next, depth, height);
    match o[n].parent {
        None => lemma_root_leaf_removed_wf(o, o_root, f, f_root, n, next, depth, height),
        Some(p) => {
            if o[p].parent is None {
                lemma_collapse_at_root_wf(o, o_root, f, f_root, n, next, depth, height);
            } else {
                lemma_collapse_inner_wf(o, o_root, f, f_root, n, next, depth, height);
            }
        },
    }
}


/// Take `x` out of the children of node `pid` and return the children left.
fn drop_child(nodes: &mut HashMap<NodeId, Node>, pid: NodeId, x: NodeId) -> (siblings: Vec<NodeId>)
    requires
        old(nodes)@.contains_key(pid),
    ensures
        final(nodes)@.dom() == old(nodes)@.dom(),
        forall|k: NodeId| k != pid ==> #[trigger] final(nodes)@[k] == old(nodes)@[k],
        final(nodes)@[pid].id == old(nodes)@[pid].id,
        final(nodes)@[pid].parent == old(nodes)@[pid].parent,
        final(nodes)@[pid].ratio == old(nodes)@[pid].ratio,
        siblings@ == seq_without(children_of(old(nodes)@[pid]), x),
        children_of(final(nodes)@[pid]) == siblings@,
{
    let ghost o = old(nodes)@;
    let node = nodes.remove(&pid).unwrap();
    let Node { id, parent, kind, ratio } = node;
    let (siblings, new_kind) = match kind {
        NodeKind::Container { split, children } => {
            let rest = without(&children, x);
            let siblings = rest.clone();
            (siblings, NodeKind::Container { split, children: rest })
        },
        NodeKind::Window { window_id } => {
            proof {
                assert(seq_without(Seq::<NodeId>::empty(), x) == Seq::<NodeId>::empty());
            }
            (Vec::new(), NodeKind::Window { window_id })
        },
    };
    nodes.insert(pid, Node { id, parent, kind: new_kind, ratio });
    proof {
        assert(nodes@.dom() =~= o.dom());
    }
    siblings
}

/// Whether `f` is the tree `o` after `remove_window(window_id)`: where `o` holds no
/// leaf of the window nothing changes; otherwise one leaf `n` of it is taken out
/// as `leaf_removed` describes, and every other leaf keeps its window.
pub open spec fn window_leaf_removed(o: Tree, f: Tree, window_id: u32) -> bool {
    &&& f.last_id() == o.last_id()
    &&& if o.leaves_of(window_id) == Set::<NodeId>::empty() {
        f == o
    } else {
        exists|n: NodeId|
            #![trigger o.leaves_of(window_id).contains(n)]
            {
                &&& o.leaves_of(window_id).contains(n)
                &&& leaf_removed(o.nodes(), o.root_id(), f.nodes(), f.root_id(), n)
                &&& forall|w: u32| #[trigger] f.leaves_of(w) == o.leaves_of(w).remove(n)
            }
    }
}

impl Tree {
    /// Remove leaf `id`; a container left with a single child is replaced by it.
    fn remove_node(&mut self, id: NodeId)
        requires
            old(self).wf(),
            old(self).nodes@.contains_key(id),
            old(self).nodes@[id].kind is Window,
        ensures
            final(self).wf(),
            leaf_removed(old(self).nodes@, old(self).root, final(self).nodes@, final(self).root, id),
            final(self).next_id == old(self).next_id,
            forall|w: u32| #[trigger] final(self).leaves_of(w) == old(self).leaves_of(w).remove(id),
    {
        let ghost o = self.nodes@;
        let ghost o_root = self.root;
        let parent_id = match self.nodes.get(&id) {
            Some(n) => n.parent,
            None => None,
        };
        self.nodes.remove(&id);
        match parent_id {
            Some(pid) => {
                proof {
                    assert(o.contains_key(pid));
                    assert(children_of(o[pid]).contains(id));
                    assert(o[pid].kind is Container);
                    lemma_without_pair(children_of(o[pid]), id);
                    assert(o[pid].parent is Some ==> o.contains_key(o[pid].parent->0));
                }
                let siblings = drop_child(&mut self.nodes, pid, id);
                proof {
                    assert(siblings@.len() == 1);
                }
                let only = siblings[0];
                let ghost ch = children_of(o[pid]);
                assert(only == if ch[0] == id { ch[1] } else { ch[0] });
                let grandparent = match self.nodes.get(&pid) {
                    Some(n) => n.parent,
                    None => None,
                };
                let only_ratio = match self.nodes.get(&only) {
                    Some(n) => n.ratio,
                    None => Ratio { num: 1, den: 1 },
                };
                relink(&mut self.nodes, only, grandparent, only_ratio);
                match grandparent {
                    None => {
                        self.root = Some(only);
                    },
                    Some(gp) => {
                        proof {
                            assert(o[gp].kind is Container);
                            assert(children_of(o[gp]).contains(pid));
                            let gc = children_of(o[gp]);
                            assert(gc.no_duplicates()) by {
                                assert(gc.len() == 2 && gc[0] != gc[1]);
                            }
                            assert(o[only].parent == Some(pid));
                            assert(gp != only);
                            assert(gp != id);
                            assert(self.nodes@[gp] == o[gp]);
                        }
                        replace_child(&mut self.nodes, gp, pid, only);
                    },
                }
                self.nodes.remove(&pid);
                relink(&mut self.nodes, only, grandparent, Ratio { num: 1, den: 1 });
                proof {
                    let f = self.nodes@;
                    assert(f.dom() =~= o.dom().remove(id).remove(pid));
                    assert(leaf_removed(o, o_root, f, self.root, id));
                    lemma_leaf_removed_wf(
                        o,
                        o_root,
                        f,
                        self.root,
                        id,
                        self.next_id,
                        self.depth@,
                        self.height@,
                    );
                }
            },
            None => {
                self.root = None;
                proof {
                    lemma_leaf_removed_wf(
                        o,
                        o_root,
                        self.nodes@,
                        self.root,
                        id,
                        self.next_id,
                        self.depth@,
                        self.height@,
                    );
                }
            },
        }
    }

    /// Remove the leaf of window `window_id`, if the tree holds one.
    ///
    /// When several leaves hold the window, one of them is removed.
    pub fn remove_window(&mut self, window_id: u32)
        requires
            old(self).wf(),
        ensures
            final(self).wf(),
            window_leaf_removed(*old(self), *final(self), window_id),
    {
        let node_id = self.find_window(window_id);
        if let Some(nid) = node_id {
            self.remove_node(nid);
        }
        proof {
            if old(self).leaves_of(window_id) != Set::<NodeId>::empty() {
                assert(node_id is Some);
            }
        }
    }
}


/// Whether a container split along `split` orders its children along `dir`.
pub open spec fn split_matches(split: SplitDirection, dir: Direction) -> bool {
    ||| split == SplitDirection::Horizontal && (dir == Direction::Left || dir == Direction::Right)
    ||| split == SplitDirection::Vertical && (dir == Direction::Up || dir == Direction::Down)
}

/// The first position of `x` in `s`, if it occurs.
pub open spec fn first_index(s: Seq<NodeId>, x: NodeId) -> Option<int> {
    if s.contains(x) {
        Some(
            choose|i: int|
                0 <= i < s.len() && s[i] == x && forall|j: int| 0 <= j < i ==> s[j] != x,
        )
    } else {
        None
    }
}

/// The leaf reached from node `id` by always descending into the first child.
pub open spec fn first_leaf_of(nodes: Map<NodeId, Node>, height: Map<NodeId, nat>, id: NodeId) -> NodeId
    decreases height[id],
{
    if !nodes.contains_key(id) {
        id
    } else {
        match nodes[id].kind {
            NodeKind::Window { .. } => id,
            NodeKind::Container { children, .. } => {
                if children@.len() > 0 && height[children@[0]] < height[id] {
                    first_leaf_of(nodes, height, children@[0])
                } else {
                    id
                }
            },
        }
    }
}

/// The position next to `pos` in direction `dir` among `len` children, if there is
/// one: the one before for left and up, the one after for right and down.
pub open spec fn next_index(pos: int, len: int, dir: Direction) -> Option<int> {
    match dir {
        Direction::Left | Direction::Up => if pos >= 1 {
            Some(pos - 1)
        } else {
            None
        },
        Direction::Right | Direction::Down => if pos + 1 < len {
            Some(pos + 1)
        } else {
            None
        },
    }
}

/// The leaf next to node `from` in direction `dir`: climb to the nearest ancestor
/// whose split runs along `dir` and that has a child next to the one on the path in
/// that direction, then descend to the first leaf of that child.
pub open spec fn neighbor_of(
    nodes: Map<NodeId, Node>,
    depth: Map<NodeId, nat>,
    height: Map<NodeId, nat>,
    from: NodeId,
    dir: Direction,
) -> Option<NodeId>
    decreases depth[from],
{
    if !nodes.contains_key(from) {
        None
    } else {
        match nodes[from].parent {
            None => None,
            Some(p) => {
                let up = if nodes.contains_key(p) && depth[p] < depth[from] {
                    neighbor_of(nodes, depth, height, p, dir)
                } else {
                    None
                };
                if !nodes.contains_key(p) {
                    None
                } else {
                    match nodes[p].kind {
                        NodeKind::Container { split, children } => {
                            if split_matches(split, dir) {
                                match first_index(children@, from) {
                                    None => None,
                                    Some(pos) => match next_index(pos, children@.len() as int, dir) {
                                        Some(idx) => Some(first_leaf_of(nodes, height, children@[idx])),
                                        None => up,
                                    },
                                }
                            } else {
                                up
                            }
                        },
                        NodeKind::Window { .. } => up,
                    }
                }
            },
        }
    }
}

/// The first leaf below a node of a well-formed tree is a leaf of the tree.
proof fn lemma_first_leaf_is_leaf(
    nodes: Map<NodeId, Node>,
    root: Option<NodeId>,
    next: u64,
    depth: Map<NodeId, nat>,
    height: Map<NodeId, nat>,
    id: NodeId,
)
    requires
        tree_wf(nodes, root, next, depth, height),
        nodes.contains_key(id),
    ensures
        nodes.contains_key(first_leaf_of(nodes, height, id)),
        nodes[first_leaf_of(nodes, height, id)].kind is Window,
    decreases height[id],
{
    if nodes[id].kind is Container {
        let c = children_of(nodes[id]);
        assert(c.len() == 2 && nodes.contains_key(c[0]) && height[c[0]] < height[id]);
        lemma_first_leaf_is_leaf(nodes, root, next, depth, height, c[0]);
    }
}

/// The neighbor of a node of a well-formed tree, where there is one, is a leaf of
/// the tree.
proof fn lemma_neighbor_is_leaf(
    nodes: Map<NodeId, Node>,
    root: Option<NodeId>,
    next: u64,
    depth: Map<NodeId, nat>,
    height: Map<NodeId, nat>,
    from: NodeId,
    dir: Direction,
)
    requires
        tree_wf(nodes, root, next, depth, height),
    ensures
        neighbor_of(nodes, depth, height, from, dir) matches Some(x) ==> nodes.contains_key(x)
            && nodes[x].kind is Window,
    decreases depth[from],
{
    if nodes.contains_key(from) {
        if let Some(p) = nodes[from].parent {
            assert(nodes.contains_key(p) && depth[p] < depth[from]);
            lemma_neighbor_is_leaf(nodes, root, next, depth, height, p, dir);
            if let NodeKind::Container { split, children } = nodes[p].kind {
                let c = children@;
                assert(c == children_of(nodes[p]));
                assert(c.len() == 2 && nodes.contains_key(c[0]) && nodes.contains_key(c[1]));
                if let Some(pos) = first_index(c, from) {
                    if let Some(idx) = next_index(pos, c.len() as int, dir) {
                        assert(0 <= idx < 2);
                        lemma_first_leaf_is_leaf(nodes, root, next, depth, height, c[idx]);
                    }
                }
            }
        }
    }
}

impl Tree {
    /// The leaf next to node `from` in direction `dir`, if there is one.
    pub fn neighbor(&self, from: NodeId, dir: Direction) -> (r: Option<NodeId>)
        requires
            self.wf(),
        ensures
            r == neighbor_of(self.nodes(), self.depths(), self.heights(), from, dir),
            r matches Some(x) ==> self.nodes().contains_key(x) && self.nodes()[x].kind is Window,
        decreases self.depths()[from],
    {
        proof {
            lemma_neighbor_is_leaf(
                self.nodes@,
                self.root,
                self.next_id,
                self.depth@,
                self.height@,
                from,
                dir,
            );
        }
        let parent_id = match self.nodes.get(&from) {
            Some(n) => match n.parent {
                Some(p) => p,
                None => {
                    return None;
                },
            },
            None => {
                return None;
            },
        };
        let parent = match self.nodes.get(&parent_id) {
            Some(p) => p,
            None => {
                return None;
            },
        };
        if let NodeKind::Container { split, children } = &parent.kind {
            let matches = match (split, dir) {
                (SplitDirection::Horizontal, Direction::Left) => true,
                (SplitDirection::Horizontal, Direction::Right) => true,
                (SplitDirection::Vertical, Direction::Up) => true,
                (SplitDirection::Vertical, Direction::Down) => true,
                _ => false,
            };
            if matches {
                let pos = match position_of(children, from) {
                    Some(p) => p,
                    None => {
                        return None;
                    },
                };
                proof {
                    let i = choose|i: int|
                        0 <= i < children@.len() && children@[i] == from && forall|j: int|
                            0 <= j < i ==> children@[j] != from;
                    assert(i == pos as int);
                }
                let next = match dir {
                    Direction::Left | Direction::Up => pos.checked_sub(1),
                    Direction::Right | Direction::Down => {
                        let n = pos + 1;
                        if n < children.len() {
                            Some(n)
                        } else {
                            None
                        }
                    },
                };
                if let Some(idx) = next {
                    proof {
                        assert(self.nodes@.contains_key(children@[idx as int]));
                    }
                    return Some(self.first_leaf(children[idx]));
                }
            }
        }
        proof {
            assert(self.depth@[parent_id] < self.depth@[from]);
        }
        self.neighbor(parent_id, dir)
    }

    /// The leaf reached from `id` by always descending into the first child.
    fn first_leaf(&self, id: NodeId) -> (r: NodeId)
        requires
            self.wf(),
            self.nodes@.contains_key(id),
        ensures
            r == first_leaf_of(self.nodes@, self.height@, id),
        decreases self.height@[id],
    {
        let node = self.nodes.get(&id).unwrap();
        match &node.kind {
            NodeKind::Window { .. } => id,
            NodeKind::Container { children, .. } => {
                proof {
                    assert(children@.len() == 2);
                    assert(self.nodes@.contains_key(children@[0]));
                }
                self.first_leaf(children[0])
            },
        }
    }
}


/// A leaf node holding window `w` in place of its window, all else kept.
pub open spec fn relabeled(n: Node, w: u32) -> Node {
    Node { id: n.id, parent: n.parent, kind: NodeKind::Window { window_id: w }, ratio: n.ratio }
}

/// Changing the window that a leaf holds keeps the tree well formed.
pub proof fn lemma_relabel_keeps_wf(
    nodes: Map<NodeId, Node>,
    root: Option<NodeId>,
    next: u64,
    depth: Map<NodeId, nat>,
    height: Map<NodeId, nat>,
    id: NodeId,
    w: u32,
)
    requires
        tree_wf(nodes, root, next, depth, height),
        nodes.contains_key(id),
        nodes[id].kind is Window,
    ensures
        tree_wf(nodes.insert(id, relabeled(nodes[id], w)), root, next, depth, height),
{
    let f = nodes.insert(id, relabeled(nodes[id], w));
    assert(f.dom() =~= nodes.dom());
    assert forall|k: NodeId| f.contains_key(k) && #[trigger] f[k].parent is Some implies {
        let p = f[k].parent->0;
        &&& f.contains_key(p)
        &&& children_of(f[p]).contains(k)
        &&& depth[p] < depth[k]
    } by {
        let p = nodes[k].parent->0;
        assert(nodes[k].parent == f[k].parent);
        assert(children_of(nodes[p]).contains(k));
        assert(p != id);
    }
    assert forall|k: NodeId| f.contains_key(k) && #[trigger] f[k].kind is Container implies {
        let c = children_of(f[k]);
        &&& c.len() == 2
        &&& c[0] != c[1]
        &&& f.contains_key(c[0])
        &&& f.contains_key(c[1])
        &&& f[c[0]].parent == Some(k)
        &&& f[c[1]].parent == Some(k)
        &&& height[c[0]] < height[k]
        &&& height[c[1]] < height[k]
    } by {
        assert(k != id);
        assert(nodes[k].kind is Container);
    }
    assert forall|k: NodeId| f.contains_key(k) && #[trigger] f[k].parent is None implies root
        == Some(k) by {
        assert(nodes[k].parent == f[k].parent);
    }
}

impl Tree {
    /// Mutable access to the node with id `id`.
    ///
    /// The tree stays well formed only when the caller keeps its structure; see
    /// [`lemma_relabel_keeps_wf`] for a change that does.
    pub fn get_mut(&mut self, id: NodeId) -> (r: Option<&mut Node>)
        ensures
            final(self).root_id() == old(self).root_id(),
            final(self).last_id() == old(self).last_id(),
            final(self).depths() == old(self).depths(),
            final(self).heights() == old(self).heights(),
            match r {
                Some(n) => {
                    &&& old(self).nodes().contains_key(id)
                    &&& *n == old(self).nodes()[id]
                    &&& final(self).nodes() == old(self).nodes().insert(id, *final(n))
                },
                None => {
                    &&& !old(self).nodes().contains_key(id)
                    &&& final(self).nodes() == old(self).nodes()
                },
            },
    {
        match self.nodes.entry(id) {
            std::collections::hash_map::Entry::Occupied(e) => Some(e.into_mut()),
            std::collections::hash_map::Entry::Vacant(_) => None,
        }
    }
}


proof fn lemma_parentless_ancestor(
    nodes: Map<NodeId, Node>,
    root: Option<NodeId>,
    next: u64,
    depth: Map<NodeId, nat>,
    height: Map<NodeId, nat>,
    k: NodeId,
)
    requires
        tree_wf(nodes, root, next, depth, height),
        nodes.contains_key(k),
    ensures
        exists|r: NodeId| nodes.contains_key(r) && #[trigger] nodes[r].parent is None,
    decreases depth[k],
{
    match nodes[k].parent {
        None => {},
        Some(p) => {
            assert(nodes.contains_key(p));
            lemma_parentless_ancestor(nodes, root, next, depth, height, p);
        },
    }
}

/// Law: a well-formed tree has a root exactly when it holds a node.
pub proof fn lemma_root_iff_nonempty(t: Tree)
    requires
        t.wf(),
    ensures
        t.root_id() is None <==> t.nodes().dom() == Set::<NodeId>::empty(),
{
    if t.root_id() is None {
        assert forall|k: NodeId| !t.nodes().contains_key(k) by {
            if t.nodes().contains_key(k) {
                lemma_parentless_ancestor(
                    t.nodes(),
                    t.root_id(),
                    t.last_id(),
                    t.depths(),
                    t.heights(),
                    k,
                );
                let r = choose|r: NodeId| t.nodes().contains_key(r) && #[trigger] t.nodes()[r].parent is None;
                assert(t.root_id() == Some(r));
            }
        }
        assert(t.nodes().dom() =~= Set::<NodeId>::empty());
    } else {
        let r = t.root_id()->0;
        assert(t.nodes().dom().contains(r));
    }
}

/// Law: in a well-formed tree every container splits into exactly two distinct
/// children, each a node of the tree whose parent is that container.
pub proof fn lemma_containers_are_binary(t: Tree, k: NodeId)
    requires
        t.wf(),
        t.nodes().contains_key(k),
        t.nodes()[k].kind is Container,
    ensures
        children_of(t.nodes()[k]).len() == 2,
        children_of(t.nodes()[k])[0] != children_of(t.nodes()[k])[1],
        forall|i: int|
            0 <= i < 2 ==> t.nodes().contains_key(#[trigger] children_of(t.nodes()[k])[i])
                && t.nodes()[children_of(t.nodes()[k])[i]].parent == Some(k),
{
}

/// Law: adding window `w` (as `insert_window` does, under fresh node `id`) and then
/// removing a leaf `n` of `w` (as `remove_window` does) leaves every window with
/// as many leaves as before.
pub proof fn lemma_insert_then_remove(t0: Tree, t1: Tree, t2: Tree, w: u32, id: NodeId, n: NodeId)
    requires
        t0.wf(),
        !t0.nodes().contains_key(id),
        forall|v: u32| #[trigger]
            t1.leaves_of(v) == if v == w {
                t0.leaves_of(v).insert(id)
            } else {
                t0.leaves_of(v)
            },
        t1.leaves_of(w).contains(n),
        forall|v: u32| #[trigger] t2.leaves_of(v) == t1.leaves_of(v).remove(n),
    ensures
        forall|v: u32| #[trigger] t2.leaves_of(v).len() == t0.leaves_of(v).len(),
{
    assert forall|v: u32| #[trigger] t2.leaves_of(v).len() == t0.leaves_of(v).len() by {
        assert(t1.leaves_of(v) == if v == w {
            t0.leaves_of(v).insert(id)
        } else {
            t0.leaves_of(v)
        });
        assert(t2.leaves_of(v) == t1.leaves_of(v).remove(n));
        assert(!t0.leaves_of(v).contains(id));
        if v == w {
            assert(t0.leaves_of(v).insert(id).len() == t0.leaves_of(v).len() + 1);
        } else {
            assert(!t1.leaves_of(v).contains(n)) by {
                assert(t1.leaves_of(w).contains(n));
                assert(holds_window(t1.nodes()[n], w));
            }
            assert(t1.leaves_of(v).remove(n) =~= t1.leaves_of(v));
        }
    }
}


/// Law: a tree built from an empty one by inserting the windows `ws` one after the
/// other holds, for every window id, as many leaves as `ws` holds that id; so
/// `window_ids` on it gives `ws` in some order.
pub proof fn lemma_inserts_hold_windows(ts: Seq<Tree>, ws: Seq<u32>)
    requires
        ts.len() == ws.len() + 1,
        ts[0].nodes() == Map::<NodeId, Node>::empty(),
        forall|i: int|
            #![trigger ws[i]]
            0 <= i < ws.len() ==> window_inserted(
                ts[i],
                ts[i + 1],
                ws[i],
                (ts[i].last_id() + 1) as u64,
            ),
    ensures
        forall|w: u32| #[trigger] ts.last().leaves_of(w).len() == ws.to_multiset().count(w),
{
    lemma_inserts_prefix(ts, ws, ws.len() as int);
    assert(ws.take(ws.len() as int) =~= ws);
    assert(ts.last() == ts[ws.len() as int]);
    assert forall|w: u32| #[trigger] ts.last().leaves_of(w).len() == ws.to_multiset().count(w) by {
        assert(ts[ws.len() as int].leaves_of(w).finite());
    }
}

proof fn lemma_inserts_prefix(ts: Seq<Tree>, ws: Seq<u32>, k: int)
    requires
        ts.len() == ws.len() + 1,
        0 <= k <= ws.len(),
        ts[0].nodes() == Map::<NodeId, Node>::empty(),
        forall|i: int|
            #![trigger ws[i]]
            0 <= i < ws.len() ==> window_inserted(
                ts[i],
                ts[i + 1],
                ws[i],
                (ts[i].last_id() + 1) as u64,
            ),
    ensures
        forall|w: u32|
            #[trigger] ts[k].leaves_of(w).finite() && ts[k].leaves_of(w).len() == ws.take(
                k,
            ).to_multiset().count(w),
    decreases k,
{
    broadcast use vstd::seq_lib::group_to_multiset_ensures;
    if k == 0 {
        assert forall|w: u32| #[trigger] ts[0].leaves_of(w).finite() && ts[0].leaves_of(w).len()
            == ws.take(0).to_multiset().count(w) by {
            assert(ts[0].leaves_of(w) =~= Set::empty());
            assert(ws.take(0) =~= Seq::<u32>::empty());
        }
    } else {
        lemma_inserts_prefix(ts, ws, k - 1);
        let o = ts[k - 1];
        let f = ts[k];
        let id = (o.last_id() + 1) as u64;
        let wk = ws[k - 1];
        assert(window_inserted(o, f, wk, id));
        assert(ws.take(k) =~= ws.take(k - 1).push(ws[k - 1]));
        assert forall|w: u32| #[trigger] ts[k].leaves_of(w).finite() && ts[k].leaves_of(w).len()
            == ws.take(k).to_multiset().count(w) by {
            assert(o.leaves_of(w).finite());
            assert(!o.leaves_of(w).contains(id));
            assert(f.leaves_of(w) == if w == ws[k - 1] {
                o.leaves_of(w).insert(id)
            } else {
                o.leaves_of(w)
            });
        }
    }
}


/// Law: inserting a window that a well-formed tree does not hold and then removing
/// it gives back the tree's nodes and root exactly.
pub proof fn lemma_insert_then_remove_restores(t0: Tree, t1: Tree, t2: Tree, w: u32)
    requires
        t0.wf(),
        t0.leaves_of(w) == Set::<NodeId>::empty(),
        window_inserted(t0, t1, w, (t0.last_id() + 1) as u64),
        window_leaf_removed(t1, t2, w),
    ensures
        t2.nodes() == t0.nodes(),
        t2.root_id() == t0.root_id(),
{
    let id = (t0.last_id() + 1) as u64;
    assert(t1.leaves_of(w) == t0.leaves_of(w).insert(id));
    assert(t1.leaves_of(w).contains(id));
    let n = choose|n: NodeId|
        #![trigger t1.leaves_of(w).contains(n)]
        {
            &&& t1.leaves_of(w).contains(n)
            &&& leaf_removed(t1.nodes(), t1.root_id(), t2.nodes(), t2.root_id(), n)
            &&& forall|v: u32| #[trigger] t2.leaves_of(v) == t1.leaves_of(v).remove(n)
        };
    assert(n == id);
    match t0.root_id() {
        None => {
            lemma_root_iff_nonempty(t0);
            assert(t2.nodes() =~= t0.nodes());
        },
        Some(r) => {
            let c = (id + 1) as u64;
            assert(t1.nodes()[id].parent == Some(c));
            assert(children_of(t1.nodes()[c]) =~= seq![r, id]);
            assert(t0.nodes().contains_key(r));
            assert(t0.nodes()[r].parent is None);
            assert(t1.nodes()[c].parent is None);
            assert(t2.nodes().dom() =~= t0.nodes().dom());
            assert forall|k: NodeId| #[trigger] t2.nodes().contains_key(k) implies t2.nodes()[k]
                == t0.nodes()[k] by {
                if k != r {
                    assert(t2.nodes()[k] == t1.nodes()[k]);
                    assert(t1.nodes()[k] == t0.nodes()[k]);
                }
            }
            assert(t2.nodes() =~= t0.nodes());
        },
    }
}

} // verus!
