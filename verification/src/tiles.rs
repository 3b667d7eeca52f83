use vstd::prelude::*;
use vstd::multiset::Multiset;
use crate::geometry::{Gaps, Rect, div_trunc, in_i32, rect_of};
use crate::subtree::{
    holding,
    leaf_seq,
    leaf_seq_children,
    lemma_leaf_seq_container,
    lemma_leaf_seq_frame,
    leaves_below,
    leaves_below_children,
    lemma_children_disjoint,
    lemma_children_reach,
    lemma_leaf_below_root,
    lemma_leaves_below_reach,
};
use crate::tree::{
    NodeId,
    NodeKind,
    SplitDirection,
    Tree,
    Node,
    children_of,
    lemma_root_iff_nonempty,
    relinked,
    tree_wf,
    window_inserted,
};

verus! {

/// The product of the ratio denominators of the nodes `cs`.
pub open spec fn den_product(nodes: Map<NodeId, Node>, cs: Seq<NodeId>) -> int
    decreases cs.len(),
{
    if cs.len() == 0 {
        1
    } else {
        den_product(nodes, cs.drop_last()) * nodes[cs.last()].ratio.den
    }
}

/// The share of child `cs[i]` scaled by the product of all denominators, so that
/// child `i` takes `weight(i) / Σ weight` of its parent: its exact ratio over the
/// sum of the ratios of all children.
pub open spec fn weight(nodes: Map<NodeId, Node>, cs: Seq<NodeId>, i: int) -> int {
    nodes[cs[i]].ratio.num * (den_product(nodes, cs) / (nodes[cs[i]].ratio.den as int))
}

/// The sum of the weights of the first `k` children.
pub open spec fn weight_sum(nodes: Map<NodeId, Node>, cs: Seq<NodeId>, k: int) -> int
    decreases k,
{
    if k <= 0 {
        0
    } else {
        weight_sum(nodes, cs, k - 1) + weight(nodes, cs, k - 1)
    }
}

/// The length that child `i` takes of a parent extent `len`, rounded toward zero.
pub open spec fn span(nodes: Map<NodeId, Node>, cs: Seq<NodeId>, i: int, len: int) -> int {
    let total = weight_sum(nodes, cs, cs.len() as int);
    if total > 0 {
        div_trunc(len * weight(nodes, cs, i), total)
    } else {
        0
    }
}

/// The rectangle of child `i` of a container split along `split` over `area`, with the
/// running position `cursor`, and the position after it; `None` where a step leaves
/// the `i32` range.
pub open spec fn child_rect(
    nodes: Map<NodeId, Node>,
    split: SplitDirection,
    cs: Seq<NodeId>,
    i: int,
    area: Rect,
    gaps: Gaps,
    cursor: int,
) -> Option<(Rect, int)> {
    let is_last = i + 1 == cs.len();
    let (start, len, gap) = match split {
        SplitDirection::Horizontal => (area.x as int, area.width as int, gaps.inner_h as int),
        SplitDirection::Vertical => (area.y as int, area.height as int, gaps.inner_v as int),
    };
    let half = div_trunc(gap, 2);
    let gap_after = if is_last {
        0
    } else {
        half
    };
    let gap_before = if i == 0 {
        0
    } else {
        half
    };
    let w = if is_last {
        start + len - cursor
    } else {
        span(nodes, cs, i, len)
    };
    let fits = if is_last {
        in_i32(start + len) && in_i32(start + len - cursor)
    } else {
        true
    };
    if fits && in_i32(cursor + gap_before) && in_i32(w - gap_before) && in_i32(
        w - gap_before - gap_after,
    ) && in_i32(cursor + w) {
        let r = match split {
            SplitDirection::Horizontal => rect_of(
                cursor + gap_before,
                area.y as int,
                w - gap_before - gap_after,
                area.height as int,
            ),
            SplitDirection::Vertical => rect_of(
                area.x as int,
                cursor + gap_before,
                area.width as int,
                w - gap_before - gap_after,
            ),
        };
        Some((r, cursor + w))
    } else {
        None
    }
}

/// Join two partial layouts; `None` stands for a layout that left the `i32` range.
pub open spec fn join(a: Option<Seq<(u32, Rect)>>, b: Option<Seq<(u32, Rect)>>) -> Option<
    Seq<(u32, Rect)>,
> {
    match (a, b) {
        (Some(x), Some(y)) => Some(x + y),
        _ => None,
    }
}

/// The tiling of the subtree of node `id` over `area`: each window leaf gets the
/// area its ancestors give it, in left-to-right (top-to-bottom) order.
pub open spec fn tiles_node(
    nodes: Map<NodeId, Node>,
    height: Map<NodeId, nat>,
    id: NodeId,
    area: Rect,
    gaps: Gaps,
) -> Option<Seq<(u32, Rect)>>
    decreases height[id], 1nat, 0nat,
{
    if !nodes.contains_key(id) {
        Some(Seq::empty())
    } else {
        match nodes[id].kind {
            NodeKind::Window { window_id } => Some(seq![(window_id, area)]),
            NodeKind::Container { split, children } => {
                let start = match split {
                    SplitDirection::Horizontal => area.x as int,
                    SplitDirection::Vertical => area.y as int,
                };
                tiles_children(nodes, height, id, split, children@, 0, area, gaps, start)
            },
        }
    }
}

/// The tiling of children `i..` of container `parent`, starting at `cursor`.
pub open spec fn tiles_children(
    nodes: Map<NodeId, Node>,
    height: Map<NodeId, nat>,
    parent: NodeId,
    split: SplitDirection,
    cs: Seq<NodeId>,
    i: int,
    area: Rect,
    gaps: Gaps,
    cursor: int,
) -> Option<Seq<(u32, Rect)>>
    decreases height[parent], 0nat, cs.len() - i,
{
    if i < 0 || i >= cs.len() {
        Some(Seq::empty())
    } else if !nodes.contains_key(cs[i]) {
        tiles_children(nodes, height, parent, split, cs, i + 1, area, gaps, cursor)
    } else {
        match child_rect(nodes, split, cs, i, area, gaps, cursor) {
            None => None,
            Some((r, next)) => {
                let sub = if height[cs[i]] < height[parent] {
                    tiles_node(nodes, height, cs[i], r, gaps)
                } else {
                    None
                };
                join(
                    sub,
                    tiles_children(nodes, height, parent, split, cs, i + 1, area, gaps, next),
                )
            },
        }
    }
}

/// The tiling of a whole tree over `area` with `gaps`: the outer gaps are taken
/// off first. `None` where a step leaves the `i32` range.
pub open spec fn tiles_layout(tree: Tree, area: Rect, gaps: Gaps) -> Option<Seq<(u32, Rect)>> {
    if !gaps.shrink_fits(area) {
        None
    } else {
        match tree.root_id() {
            None => Some(Seq::empty()),
            Some(root) => tiles_node(tree.nodes(), tree.heights(), root, gaps.spec_shrink(area), gaps),
        }
    }
}


/// Lays out the windows of a tree by recursive splitting: each container divides its
/// area along its split axis among its children in proportion to their ratios, with
/// half of the inner gap on each side of every inner boundary.
pub struct TilesLayout<'a> {
    pub tree: &'a Tree,
}

/// Facts about the weights of the two children of a container of a well-formed tree.
proof fn lemma_weights(nodes: Map<NodeId, Node>, cs: Seq<NodeId>)
    requires
        cs.len() == 2,
        forall|i: int| 0 <= i < 2 ==> nodes[cs[i]].ratio.num == 1 && 1 <= nodes[cs[i]].ratio.den <= 2,
    ensures
        1 <= den_product(nodes, cs) <= 4,
        0 <= weight(nodes, cs, 0) <= 4,
        0 <= weight(nodes, cs, 1) <= 4,
        weight_sum(nodes, cs, 2) == weight(nodes, cs, 0) + weight(nodes, cs, 1),
        0 < weight_sum(nodes, cs, 2) <= 8,
        den_product(nodes, cs) == nodes[cs[0]].ratio.den * nodes[cs[1]].ratio.den,
{
    reveal_with_fuel(den_product, 3);
    reveal_with_fuel(weight_sum, 3);
    assert(cs.drop_last().drop_last().len() == 0);
    assert(cs.drop_last().last() == cs[0]);
    let d0 = nodes[cs[0]].ratio.den as int;
    let d1 = nodes[cs[1]].ratio.den as int;
    assert(den_product(nodes, cs) == d0 * d1);
    assert(1 <= d0 * d1 <= 4) by (nonlinear_arith)
        requires
            1 <= d0 <= 2,
            1 <= d1 <= 2,
    ;
    assert((d0 * d1) / d0 == d1) by (nonlinear_arith)
        requires
            1 <= d0,
    ;
    assert((d0 * d1) / d1 == d0) by (nonlinear_arith)
        requires
            1 <= d1,
    ;
}

/// The exact length `span` that a non-last child takes of `len`.
fn scaled(len: i32, wgt: u64, total: u64) -> (r: i32)
    requires
        0 < total <= 8,
        wgt <= total,
    ensures
        r == div_trunc(len * wgt, total as int),
{
    proof {
        let l = len as int;
        let w = wgt as int;
        let t = total as int;
        if l >= 0 {
            assert(0 <= l * w <= l * t) by (nonlinear_arith)
                requires
                    0 <= l,
                    0 <= w <= t,
            ;
            assert((l * w) / t <= l) by (nonlinear_arith)
                requires
                    0 <= l * w <= l * t,
                    0 < t,
            ;
            assert(0 <= (l * w) / t) by (nonlinear_arith)
                requires
                    0 <= l * w,
                    0 < t,
            ;
        } else {
            assert(0 <= (-l) * w <= (-l) * t) by (nonlinear_arith)
                requires
                    0 <= -l,
                    0 <= w <= t,
            ;
            assert(((-l) * w) / t <= -l) by (nonlinear_arith)
                requires
                    0 <= (-l) * w <= (-l) * t,
                    0 < t,
            ;
            assert(0 <= ((-l) * w) / t) by (nonlinear_arith)
                requires
                    0 <= (-l) * w,
                    0 < t,
            ;
            assert((-l) * w == -(l * w)) by (nonlinear_arith);
        }
        assert(-2147483648 * 8 <= l * w <= 2147483647 * 8) by (nonlinear_arith)
            requires
                -2147483648 <= l <= 2147483647,
                0 <= w <= 8,
        ;
    }
    let prod: i64 = (len as i64) * (wgt as i64);
    let q = prod.checked_div(total as i64).unwrap();
    q as i32
}

impl<'a> TilesLayout<'a> {
    /// The rectangle of child `i` and the cursor after it, as `child_rect` states.
    #[verifier::rlimit(50)]
    fn child_rect(
        &self,
        split: SplitDirection,
        cs: &Vec<NodeId>,
        i: usize,
        area: Rect,
        gaps: &Gaps,
        cursor: i32,
        wgt: u64,
        total: u64,
    ) -> (r: Option<(Rect, i32)>)
        requires
            i < cs@.len(),
            0 < total <= 8,
            wgt <= total,
            total == weight_sum(self.tree.nodes(), cs@, cs@.len() as int),
            wgt == weight(self.tree.nodes(), cs@, i as int),
        ensures
            match child_rect(self.tree.nodes(), split, cs@, i as int, area, *gaps, cursor as int) {
                Some((rect, next)) => r == Some((rect, next as i32)),
                None => r is None,
            },
    {
        let n = cs.len();
        let is_last = i + 1 == n;
        let (start, len, gap) = match split {
            SplitDirection::Horizontal => (area.x, area.width, gaps.inner_h),
            SplitDirection::Vertical => (area.y, area.height, gaps.inner_v),
        };
        let half = gap / 2;
        proof {
            assert(half == div_trunc(gap as int, 2));
        }
        let w = if is_last {
            let end = match start.checked_add(len) {
                Some(e) => e,
                None => {
                    return None;
                },
            };
            match end.checked_sub(cursor) {
                Some(v) => v,
                None => {
                    return None;
                },
            }
        } else {
            scaled(len, wgt, total)
        };
        let gap_after = if is_last {
            0
        } else {
            half
        };
        let gap_before = if i == 0 {
            0
        } else {
            half
        };
        let pos = match cursor.checked_add(gap_before) {
            Some(v) => v,
            None => {
                return None;
            },
        };
        let w1 = match w.checked_sub(gap_before) {
            Some(v) => v,
            None => {
                return None;
            },
        };
        let extent = match w1.checked_sub(gap_after) {
            Some(v) => v,
            None => {
                return None;
            },
        };
        let next = match cursor.checked_add(w) {
            Some(v) => v,
            None => {
                return None;
            },
        };
        let r = match split {
            SplitDirection::Horizontal => Rect {
                x: pos,
                y: area.y,
                width: extent,
                height: area.height,
            },
            SplitDirection::Vertical => Rect {
                x: area.x,
                y: pos,
                width: area.width,
                height: extent,
            },
        };
        Some((r, next))
    }
}


impl<'a> TilesLayout<'a> {
    /// The product of the ratio denominators and the sum of the weights of the
    /// children `cs` of a container.
    fn weights(&self, cs: &Vec<NodeId>) -> (r: (u64, u64))
        requires
            self.tree.wf(),
            cs@.len() == 2,
            cs@[0] != cs@[1],
            self.tree.nodes().contains_key(cs@[0]),
            self.tree.nodes().contains_key(cs@[1]),
        ensures
            r.0 == den_product(self.tree.nodes(), cs@),
            r.1 == weight_sum(self.tree.nodes(), cs@, 2),
            1 <= r.0 <= 4,
            0 < r.1 <= 8,
    {
        let ghost nodes = self.tree.nodes();
        proof {
            lemma_weights(nodes, cs@);
        }
        let mut p: u64 = 1;
        let mut j: usize = 0;
        while j < cs.len()
            invariant
                self.tree.wf(),
                nodes == self.tree.nodes(),
                cs@.len() == 2,
                nodes.contains_key(cs@[0]),
                nodes.contains_key(cs@[1]),
                j <= 2,
                p == den_product(nodes, cs@.take(j as int)),
                1 <= p <= (if j == 0 {
                    1
                } else {
                    2 * j
                }),
            decreases 2 - j,
        {
            let d = match self.tree.get(cs[j]) {
                Some(n) => n.ratio.den,
                None => 1,
            };
            proof {
                assert(cs@.take(j + 1).drop_last() =~= cs@.take(j as int));
                assert(1 <= d <= 2);
                assert(p * d <= (if j + 1 == 0 {
                    1
                } else {
                    2 * (j + 1)
                })) by (nonlinear_arith)
                    requires
                        1 <= p <= (if j == 0 {
                            1
                        } else {
                            2 * j
                        }),
                        1 <= d <= 2,
                        j <= 1,
                ;
                assert(1 <= p * d) by (nonlinear_arith)
                    requires
                        1 <= p,
                        1 <= d,
                ;
            }
            p = p * (d as u64);
            j = j + 1;
        }
        proof {
            assert(cs@.take(2) =~= cs@);
        }
        let mut total: u64 = 0;
        let mut k: usize = 0;
        while k < cs.len()
            invariant
                self.tree.wf(),
                nodes == self.tree.nodes(),
                cs@.len() == 2,
                nodes.contains_key(cs@[0]),
                nodes.contains_key(cs@[1]),
                k <= 2,
                p == den_product(nodes, cs@),
                total == weight_sum(nodes, cs@, k as int),
                0 <= weight(nodes, cs@, 0) <= 4,
                0 <= weight(nodes, cs@, 1) <= 4,
                1 <= p <= 4,
                total <= 4 * k,
            decreases 2 - k,
        {
            let (num, den) = match self.tree.get(cs[k]) {
                Some(n) => (n.ratio.num, n.ratio.den),
                None => (1, 1),
            };
            proof {
                assert(num == nodes[cs@[k as int]].ratio.num);
                assert(den == nodes[cs@[k as int]].ratio.den);
                assert(1 <= den);
            }
            let wgt = (num as u64) * (p / (den as u64));
            proof {
                assert(wgt == weight(nodes, cs@, k as int));
            }
            total = total + wgt;
            k = k + 1;
        }
        (p, total)
    }
}


impl<'a> TilesLayout<'a> {
    /// Append the tiling of the subtree of `id` over `area` to `out`; `false` where a
    /// step leaves the `i32` range.
    fn layout_node(&self, id: NodeId, area: Rect, gaps: &Gaps, out: &mut Vec<(u32, Rect)>) -> (ok:
        bool)
        requires
            self.tree.wf(),
        ensures
            match tiles_node(self.tree.nodes(), self.tree.heights(), id, area, *gaps) {
                Some(s) => ok && final(out)@ == old(out)@ + s,
                None => !ok,
            },
        decreases self.tree.heights()[id],
    {
        let ghost nodes = self.tree.nodes();
        let ghost heights = self.tree.heights();
        let node = match self.tree.get(id) {
            Some(n) => n,
            None => {
                proof {
                    assert(out@ =~= old(out)@ + Seq::<(u32, Rect)>::empty());
                }
                return true;
            },
        };
        match &node.kind {
            NodeKind::Window { window_id } => {
                out.push((*window_id, area));
                proof {
                    assert(out@ =~= old(out)@ + seq![(*window_id, area)]);
                }
                true
            },
            NodeKind::Container { split, children } => {
                let split = *split;
                proof {
                    assert(children@.len() == 2);
                    assert(nodes.contains_key(children@[0]));
                    assert(nodes.contains_key(children@[1]));
                    assert(heights[children@[0]] < heights[id]);
                    assert(heights[children@[1]] < heights[id]);
                }
                let (p, total) = self.weights(children);
                proof {
                    lemma_weights(nodes, children@);
                }
                let child_count = children.len();
                let start = match split {
                    SplitDirection::Horizontal => area.x,
                    SplitDirection::Vertical => area.y,
                };
                let mut cursor = start;
                let ghost whole = tiles_children(
                    nodes,
                    heights,
                    id,
                    split,
                    children@,
                    0,
                    area,
                    *gaps,
                    start as int,
                );
                let ghost mut done: Seq<(u32, Rect)> = Seq::empty();
                proof {
                    assert(tiles_node(nodes, heights, id, area, *gaps) == whole);
                    assert(Seq::<(u32, Rect)>::empty() + Seq::<(u32, Rect)>::empty() =~= Seq::<(u32, Rect)>::empty());
                    assert(out@ =~= old(out)@ + done);
                }
                let mut i: usize = 0;
                while i < child_count
                    invariant
                        self.tree.wf(),
                        nodes == self.tree.nodes(),
                        heights == self.tree.heights(),
                        nodes.contains_key(id),
                        nodes[id].kind == (NodeKind::Container { split, children: *children }),
                        child_count == children@.len(),
                        children@.len() == 2,
                        nodes.contains_key(children@[0]),
                        nodes.contains_key(children@[1]),
                        heights[children@[0]] < heights[id],
                        heights[children@[1]] < heights[id],
                        p == den_product(nodes, children@),
                        total == weight_sum(nodes, children@, 2),
                        0 < total <= 8,
                        0 <= weight(nodes, children@, 0) <= 4,
                        0 <= weight(nodes, children@, 1) <= 4,
                        weight_sum(nodes, children@, 2) == weight(nodes, children@, 0) + weight(
                            nodes,
                            children@,
                            1,
                        ),
                        i <= child_count,
                        out@ == old(out)@ + done,
                        tiles_node(nodes, heights, id, area, *gaps) == whole,
                        whole == join(
                            Some(done),
                            tiles_children(
                                nodes,
                                heights,
                                id,
                                split,
                                children@,
                                i as int,
                                area,
                                *gaps,
                                cursor as int,
                            ),
                        ),
                    decreases child_count - i,
                {
                    let child_id = children[i];
                    let child = match self.tree.get(child_id) {
                        Some(n) => n,
                        None => {
                            i = i + 1;
                            continue;
                        },
                    };
                    let wgt = (child.ratio.num as u64) * (p / (child.ratio.den as u64));
                    proof {
                        assert(wgt == weight(nodes, children@, i as int));
                    }
                    let (r, next) = match self.child_rect(
                        split,
                        children,
                        i,
                        area,
                        gaps,
                        cursor,
                        wgt,
                        total,
                    ) {
                        Some(v) => v,
                        None => {
                            proof {
                                assert(tiles_children(nodes, heights, id, split, children@, i as int, area, *gaps, cursor as int) is None);
                            }
                            return false;
                        },
                    };
                    let ghost before = out@;
                    let ok = self.layout_node(child_id, r, gaps, out);
                    if !ok {
                        proof {
                            assert(tiles_children(nodes, heights, id, split, children@, i as int, area, *gaps, cursor as int) is None);
                        }
                        return false;
                    }
                    proof {
                        let sub = tiles_node(nodes, heights, child_id, r, *gaps);
                        let s = sub->0;
                        assert(out@ == before + s);
                        assert(out@ =~= old(out)@ + (done + s));
                        done = done + s;
                    }
                    cursor = next;
                    i = i + 1;
                }
                proof {
                    assert(done + Seq::<(u32, Rect)>::empty() =~= done);
                }
                true
            },
        }
    }

    /// The tiling of the tree over `area` with `gaps`, or `None` where a step of it
    /// leaves the `i32` range.
    pub fn try_compute(&self, area: Rect, gaps: &Gaps) -> (r: Option<Vec<(u32, Rect)>>)
        requires
            self.tree.wf(),
        ensures
            match tiles_layout(*self.tree, area, *gaps) {
                Some(s) => r matches Some(v) && v@ == s,
                None => r is None,
            },
    {
        if !gaps.shrink_fits_exec(area) {
            return None;
        }
        let inner = gaps.shrink(area);
        let mut result: Vec<(u32, Rect)> = Vec::new();
        if let Some(root) = self.tree.root() {
            let ok = self.layout_node(root, inner, gaps, &mut result);
            if !ok {
                return None;
            }
            proof {
                assert(result@ =~= Seq::<(u32, Rect)>::empty() + tiles_layout(*self.tree, area, *gaps)->0);
            }
        }
        Some(result)
    }

    /// The windows of the tree with the rectangle each one gets over `area` with
    /// `gaps`.
    pub fn compute(&self, area: Rect, gaps: &Gaps) -> (r: Vec<(u32, Rect)>)
        requires
            self.tree.wf(),
            tiles_layout(*self.tree, area, *gaps) is Some,
        ensures
            r@ == tiles_layout(*self.tree, area, *gaps)->0,
    {
        match self.try_compute(area, gaps) {
            Some(v) => v,
            None => Vec::new(),
        }
    }
}


/// The window ids of a list of frames, in order.
pub open spec fn frame_ids(s: Seq<(u32, Rect)>) -> Seq<u32> {
    s.map_values(|p: (u32, Rect)| p.0)
}

proof fn lemma_frame_ids_concat(a: Seq<(u32, Rect)>, b: Seq<(u32, Rect)>)
    ensures
        frame_ids(a + b).to_multiset() =~= frame_ids(a).to_multiset().add(frame_ids(b).to_multiset()),
{
    assert(frame_ids(a + b) =~= frame_ids(a) + frame_ids(b));
    vstd::seq_lib::lemma_multiset_commutative(frame_ids(a), frame_ids(b));
}

/// Window `w` gets one frame in the tiling of the subtree of `id` for each leaf
/// below `id` that holds it.
proof fn lemma_tiles_node_counts(
    nodes: Map<NodeId, Node>,
    root: Option<NodeId>,
    next: u64,
    depth: Map<NodeId, nat>,
    height: Map<NodeId, nat>,
    id: NodeId,
    area: Rect,
    gaps: Gaps,
    w: u32,
)
    requires
        tree_wf(nodes, root, next, depth, height),
        tiles_node(nodes, height, id, area, gaps) is Some,
    ensures
        frame_ids(tiles_node(nodes, height, id, area, gaps)->0).to_multiset().count(w) == holding(
            nodes,
            leaves_below(nodes, height, id),
            w,
        ).len(),
    decreases height[id], 1nat, 0nat,
{
    broadcast use vstd::seq_lib::group_to_multiset_ensures;
    if nodes.contains_key(id) {
        match nodes[id].kind {
            NodeKind::Window { window_id } => {
                let s = seq![(window_id, area)];
                assert(frame_ids(s) =~= Seq::<u32>::empty().push(window_id));
                assert(Seq::<u32>::empty().to_multiset() =~= Multiset::empty());
                if window_id == w {
                    assert(holding(nodes, set![id], w) =~= set![id]);
                } else {
                    assert(holding(nodes, set![id], w) =~= Set::empty());
                }
            },
            NodeKind::Container { split, children } => {
                let start = match split {
                    SplitDirection::Horizontal => area.x as int,
                    SplitDirection::Vertical => area.y as int,
                };
                lemma_tiles_children_counts(
                    nodes,
                    root,
                    next,
                    depth,
                    height,
                    id,
                    split,
                    children@,
                    0,
                    area,
                    gaps,
                    start,
                    w,
                );
            },
        }
    } else {
        assert(frame_ids(Seq::empty()) =~= Seq::<u32>::empty());
        assert(Seq::<u32>::empty().to_multiset() =~= Multiset::empty());
        assert(holding(nodes, Set::empty(), w) =~= Set::empty());
    }
}

/// Window `w` gets one frame in the tiling of children `i..` of a container for
/// each leaf below them that holds it.
proof fn lemma_tiles_children_counts(
    nodes: Map<NodeId, Node>,
    root: Option<NodeId>,
    next: u64,
    depth: Map<NodeId, nat>,
    height: Map<NodeId, nat>,
    parent: NodeId,
    split: SplitDirection,
    cs: Seq<NodeId>,
    i: int,
    area: Rect,
    gaps: Gaps,
    cursor: int,
    w: u32,
)
    requires
        tree_wf(nodes, root, next, depth, height),
        nodes.contains_key(parent),
        nodes[parent].kind is Container,
        cs == children_of(nodes[parent]),
        0 <= i,
        tiles_children(nodes, height, parent, split, cs, i, area, gaps, cursor) is Some,
    ensures
        frame_ids(tiles_children(nodes, height, parent, split, cs, i, area, gaps, cursor)->0).to_multiset().count(
            w,
        ) == holding(nodes, leaves_below_children(nodes, height, parent, cs, i), w).len(),
    decreases height[parent], 0nat, cs.len() - i,
{
    broadcast use vstd::seq_lib::group_to_multiset_ensures;
    broadcast use vstd::multiset::group_multiset_axioms;
    if i >= cs.len() {
        assert(frame_ids(Seq::empty()) =~= Seq::<u32>::empty());
        assert(Seq::<u32>::empty().to_multiset() =~= Multiset::empty());
        assert(holding(nodes, Set::empty(), w) =~= Set::empty());
    } else if !nodes.contains_key(cs[i]) {
        lemma_tiles_children_counts(
            nodes,
            root,
            next,
            depth,
            height,
            parent,
            split,
            cs,
            i + 1,
            area,
            gaps,
            cursor,
            w,
        );
    } else {
        assert(cs.len() == 2 && height[cs[0]] < height[parent] && height[cs[1]] < height[parent]);
        let (r, nxt) = child_rect(nodes, split, cs, i, area, gaps, cursor)->0;
        lemma_tiles_node_counts(nodes, root, next, depth, height, cs[i], r, gaps, w);
        lemma_tiles_children_counts(
            nodes,
            root,
            next,
            depth,
            height,
            parent,
            split,
            cs,
            i + 1,
            area,
            gaps,
            nxt,
            w,
        );
        let s1 = tiles_node(nodes, height, cs[i], r, gaps)->0;
        let s2 = tiles_children(nodes, height, parent, split, cs, i + 1, area, gaps, nxt)->0;
        assert(tiles_children(nodes, height, parent, split, cs, i, area, gaps, cursor)->0 == s1 + s2);
        lemma_frame_ids_concat(s1, s2);
        let a = leaves_below(nodes, height, cs[i]);
        let b = leaves_below_children(nodes, height, parent, cs, i + 1);
        assert(leaves_below_children(nodes, height, parent, cs, i) == a + b);
        lemma_leaves_below_reach(nodes, root, next, depth, height, cs[i]);
        lemma_children_reach(nodes, root, next, depth, height, parent, cs, i + 1);
        if i == 0 {
            lemma_children_disjoint(nodes, root, next, depth, height, parent);
        } else {
            assert(b =~= Set::empty());
        }
        assert(a.disjoint(b));
        assert(holding(nodes, a + b, w) =~= holding(nodes, a, w) + holding(nodes, b, w));
        a.lemma_len_filter(|k: NodeId| crate::tree::holds_window(nodes[k], w));
        b.lemma_len_filter(|k: NodeId| crate::tree::holds_window(nodes[k], w));
        assert(holding(nodes, a, w).disjoint(holding(nodes, b, w)));
        vstd::set_lib::lemma_set_disjoint_lens(holding(nodes, a, w), holding(nodes, b, w));
    }
}

/// Law: the tiling of a well-formed tree gives every leaf exactly one frame, so
/// window `w` gets as many frames as the tree has leaves holding it.
pub proof fn lemma_tiles_frame_per_leaf(tree: Tree, area: Rect, gaps: Gaps)
    requires
        tree.wf(),
        tiles_layout(tree, area, gaps) is Some,
    ensures
        forall|w: u32|
            #[trigger] frame_ids(tiles_layout(tree, area, gaps)->0).to_multiset().count(w)
                == tree.leaves_of(w).len(),
{
    let nodes = tree.nodes();
    let height = tree.heights();
    let depth = tree.depths();
    assert forall|w: u32|
        #[trigger] frame_ids(tiles_layout(tree, area, gaps)->0).to_multiset().count(w)
            == tree.leaves_of(w).len() by {
        broadcast use vstd::seq_lib::group_to_multiset_ensures;
        match tree.root_id() {
            None => {
                lemma_root_iff_nonempty(tree);
                assert(tree.leaves_of(w) =~= Set::empty());
                assert(frame_ids(Seq::empty()) =~= Seq::<u32>::empty());
                assert(Seq::<u32>::empty().to_multiset() =~= Multiset::empty());
            },
            Some(r) => {
                lemma_tiles_node_counts(
                    nodes,
                    tree.root_id(),
                    tree.last_id(),
                    depth,
                    height,
                    r,
                    gaps.spec_shrink(area),
                    gaps,
                    w,
                );
                lemma_leaves_below_reach(nodes, tree.root_id(), tree.last_id(), depth, height, r);
                assert forall|k: NodeId| #[trigger] tree.leaves_of(w).contains(k) implies leaves_below(
                    nodes,
                    height,
                    r,
                ).contains(k) by {
                    assert(leaves_below(nodes, height, k) =~= set![k]);
                    lemma_leaf_below_root(nodes, tree.root_id(), tree.last_id(), depth, height, k, k);
                }
                assert(holding(nodes, leaves_below(nodes, height, r), w) =~= tree.leaves_of(w));
            },
        }
    }
}


/// Law: the two children of a container share its area along the split axis with
/// no overlap and no hole: the first starts where the area starts, the second ends
/// where it ends, and between them lies the inner gap rounded down to an even
/// number of pixels; across the axis both take the whole area.
pub proof fn lemma_children_tile_area(
    nodes: Map<NodeId, Node>,
    split: SplitDirection,
    cs: Seq<NodeId>,
    area: Rect,
    gaps: Gaps,
)
    requires
        cs.len() == 2,
        child_rect(nodes, split, cs, 0, area, gaps, match split {
            SplitDirection::Horizontal => area.x as int,
            SplitDirection::Vertical => area.y as int,
        }) is Some,
        child_rect(nodes, split, cs, 1, area, gaps, (child_rect(nodes, split, cs, 0, area, gaps, match split {
            SplitDirection::Horizontal => area.x as int,
            SplitDirection::Vertical => area.y as int,
        })->0).1) is Some,
    ensures
        ({
            let start = match split {
                SplitDirection::Horizontal => area.x as int,
                SplitDirection::Vertical => area.y as int,
            };
            let (r0, c1) = child_rect(nodes, split, cs, 0, area, gaps, start)->0;
            let r1 = (child_rect(nodes, split, cs, 1, area, gaps, c1)->0).0;
            match split {
                SplitDirection::Horizontal => {
                    &&& r0.x == area.x
                    &&& r1.x + r1.width == area.x + area.width
                    &&& r1.x - (r0.x + r0.width) == 2 * div_trunc(gaps.inner_h as int, 2)
                    &&& r0.y == area.y && r1.y == area.y
                    &&& r0.height == area.height && r1.height == area.height
                },
                SplitDirection::Vertical => {
                    &&& r0.y == area.y
                    &&& r1.y + r1.height == area.y + area.height
                    &&& r1.y - (r0.y + r0.height) == 2 * div_trunc(gaps.inner_v as int, 2)
                    &&& r0.x == area.x && r1.x == area.x
                    &&& r0.width == area.width && r1.width == area.width
                },
            }
        }),
{
}


/// The windows of a tree's leaves from left to right (top to bottom).
pub open spec fn tree_order(t: Tree) -> Seq<u32> {
    match t.root_id() {
        None => Seq::empty(),
        Some(r) => leaf_seq(t.nodes(), t.heights(), r),
    }
}

proof fn lemma_tiles_node_order(
    nodes: Map<NodeId, Node>,
    height: Map<NodeId, nat>,
    id: NodeId,
    area: Rect,
    gaps: Gaps,
)
    requires
        tiles_node(nodes, height, id, area, gaps) is Some,
    ensures
        frame_ids(tiles_node(nodes, height, id, area, gaps)->0) == leaf_seq(nodes, height, id),
    decreases height[id], 1nat, 0nat,
{
    if nodes.contains_key(id) {
        match nodes[id].kind {
            NodeKind::Window { window_id } => {
                assert(frame_ids(seq![(window_id, area)]) =~= seq![window_id]);
            },
            NodeKind::Container { split, children } => {
                let start = match split {
                    SplitDirection::Horizontal => area.x as int,
                    SplitDirection::Vertical => area.y as int,
                };
                lemma_tiles_children_order(nodes, height, id, split, children@, 0, area, gaps, start);
            },
        }
    } else {
        assert(frame_ids(Seq::empty()) =~= Seq::<u32>::empty());
    }
}

proof fn lemma_tiles_children_order(
    nodes: Map<NodeId, Node>,
    height: Map<NodeId, nat>,
    parent: NodeId,
    split: SplitDirection,
    cs: Seq<NodeId>,
    i: int,
    area: Rect,
    gaps: Gaps,
    cursor: int,
)
    requires
        tiles_children(nodes, height, parent, split, cs, i, area, gaps, cursor) is Some,
    ensures
        frame_ids(tiles_children(nodes, height, parent, split, cs, i, area, gaps, cursor)->0)
            == leaf_seq_children(nodes, height, parent, cs, i),
    decreases height[parent], 0nat, cs.len() - i,
{
    if i < 0 || i >= cs.len() {
        assert(frame_ids(Seq::empty()) =~= Seq::<u32>::empty());
    } else if !nodes.contains_key(cs[i]) {
        lemma_tiles_children_order(nodes, height, parent, split, cs, i + 1, area, gaps, cursor);
    } else {
        let (r, nxt) = child_rect(nodes, split, cs, i, area, gaps, cursor)->0;
        assert(height[cs[i]] < height[parent]);
        lemma_tiles_node_order(nodes, height, cs[i], r, gaps);
        lemma_tiles_children_order(nodes, height, parent, split, cs, i + 1, area, gaps, nxt);
        let s1 = tiles_node(nodes, height, cs[i], r, gaps)->0;
        let s2 = tiles_children(nodes, height, parent, split, cs, i + 1, area, gaps, nxt)->0;
        assert(frame_ids(s1 + s2) =~= frame_ids(s1) + frame_ids(s2));
    }
}

/// Law: the tiling gives the windows their frames in the order of the tree's
/// leaves, from left to right (top to bottom).
pub proof fn lemma_tiles_in_tree_order(tree: Tree, area: Rect, gaps: Gaps)
    requires
        tiles_layout(tree, area, gaps) is Some,
    ensures
        frame_ids(tiles_layout(tree, area, gaps)->0) == tree_order(tree),
{
    match tree.root_id() {
        None => {
            assert(frame_ids(Seq::empty()) =~= Seq::<u32>::empty());
        },
        Some(r) => {
            lemma_tiles_node_order(tree.nodes(), tree.heights(), r, gaps.spec_shrink(area), gaps);
        },
    }
}


/// Whether the frames `s` stand side by side over `area`: the first starts at its
/// left edge, the last ends at its right edge, each next one starts `gap` pixels
/// after the one before ends, and all take the area's full height.
pub open spec fn is_row(s: Seq<(u32, Rect)>, area: Rect, gap: int) -> bool {
    &&& s.len() > 0
    &&& s[0].1.x == area.x
    &&& s.last().1.x + s.last().1.width == area.x + area.width
    &&& forall|i: int|
        #![trigger s[i]]
        0 <= i < s.len() - 1 ==> s[i].1.x + s[i].1.width + gap == s[i + 1].1.x
    &&& forall|i: int| #![trigger s[i]] 0 <= i < s.len() ==> s[i].1.y == area.y && s[i].1.height == area.height
}

/// Whether every container of a node map splits horizontally.
pub open spec fn all_horizontal(nodes: Map<NodeId, Node>) -> bool {
    forall|k: NodeId|
        #[trigger] nodes.contains_key(k) && nodes[k].kind is Container ==> nodes[k].kind->split
            == SplitDirection::Horizontal
}

proof fn lemma_row_concat(s0: Seq<(u32, Rect)>, s1: Seq<(u32, Rect)>, r0: Rect, r1: Rect, area: Rect, gap: int)
    requires
        is_row(s0, r0, gap),
        is_row(s1, r1, gap),
        r0.x == area.x,
        r1.x + r1.width == area.x + area.width,
        r1.x - (r0.x + r0.width) == gap,
        r0.y == area.y && r1.y == area.y,
        r0.height == area.height && r1.height == area.height,
    ensures
        is_row(s0 + s1, area, gap),
{
    let s = s0 + s1;
    let n0 = s0.len() as int;
    assert(s[0] == s0[0]);
    assert(s.last() == s1.last());
    assert forall|i: int| #![trigger s[i]] 0 <= i < s.len() - 1 implies s[i].1.x + s[i].1.width + gap
        == s[i + 1].1.x by {
        if i < n0 - 1 {
            assert(s[i] == s0[i] && s[i + 1] == s0[i + 1]);
        } else if i == n0 - 1 {
            assert(s[i] == s0.last() && s[i + 1] == s1[0]);
        } else {
            assert(s[i] == s1[i - n0] && s[i + 1] == s1[i - n0 + 1]);
        }
    }
    assert forall|i: int| #![trigger s[i]] 0 <= i < s.len() implies s[i].1.y == area.y && s[i].1.height
        == area.height by {
        if i < n0 {
            assert(s[i] == s0[i]);
        } else {
            assert(s[i] == s1[i - n0]);
        }
    }
}

/// In a well-formed tree whose containers all split horizontally, the tiling of the
/// subtree of a node over `area` is a row over `area`.
proof fn lemma_row_node(
    nodes: Map<NodeId, Node>,
    root: Option<NodeId>,
    next: u64,
    depth: Map<NodeId, nat>,
    height: Map<NodeId, nat>,
    id: NodeId,
    area: Rect,
    gaps: Gaps,
)
    requires
        tree_wf(nodes, root, next, depth, height),
        all_horizontal(nodes),
        nodes.contains_key(id),
        tiles_node(nodes, height, id, area, gaps) is Some,
    ensures
        is_row(tiles_node(nodes, height, id, area, gaps)->0, area, 2 * div_trunc(gaps.inner_h as int, 2)),
    decreases height[id],
{
    let gap = 2 * div_trunc(gaps.inner_h as int, 2);
    match nodes[id].kind {
        NodeKind::Window { window_id } => {
            let s = seq![(window_id, area)];
            assert(s.last() == s[0]);
        },
        NodeKind::Container { split, children } => {
            assert(split == SplitDirection::Horizontal);
            let cs = children@;
            assert(cs == children_of(nodes[id]));
            assert(cs.len() == 2 && nodes.contains_key(cs[0]) && nodes.contains_key(cs[1]));
            assert(height[cs[0]] < height[id] && height[cs[1]] < height[id]);
            let start = area.x as int;
            let h = SplitDirection::Horizontal;
            let (r0, c1) = child_rect(nodes, h, cs, 0, area, gaps, start)->0;
            let (r1, c2) = child_rect(nodes, h, cs, 1, area, gaps, c1)->0;
            let t0 = tiles_node(nodes, height, cs[0], r0, gaps);
            let t1 = tiles_node(nodes, height, cs[1], r1, gaps);
            assert(tiles_children(nodes, height, id, h, cs, 2, area, gaps, c2) == Some(
                Seq::<(u32, Rect)>::empty(),
            ));
            assert(tiles_children(nodes, height, id, h, cs, 1, area, gaps, c1) == join(
                t1,
                Some(Seq::<(u32, Rect)>::empty()),
            ));
            assert(tiles_node(nodes, height, id, area, gaps) == tiles_children(
                nodes,
                height,
                id,
                h,
                cs,
                0,
                area,
                gaps,
                start,
            ));
            assert(tiles_children(nodes, height, id, h, cs, 0, area, gaps, start) == join(
                t0,
                tiles_children(nodes, height, id, h, cs, 1, area, gaps, c1),
            ));
            lemma_children_tile_area(nodes, h, cs, area, gaps);
            lemma_row_node(nodes, root, next, depth, height, cs[0], r0, gaps);
            lemma_row_node(nodes, root, next, depth, height, cs[1], r1, gaps);
            assert(t1->0 + Seq::<(u32, Rect)>::empty() =~= t1->0);
            lemma_row_concat(t0->0, t1->0, r0, r1, area, gap);
        },
    }
}


/// After the `k` first insertions of `ws` into an empty tree, the leaves hold those
/// windows in insertion order and every container splits horizontally.
proof fn lemma_inserts_in_order(ts: Seq<Tree>, ws: Seq<u32>, k: int)
    requires
        ts.len() == ws.len() + 1,
        0 <= k <= ws.len(),
        ts[0].nodes() == Map::<NodeId, Node>::empty(),
        forall|i: int| #![trigger ts[i]] 0 <= i < ts.len() ==> ts[i].wf(),
        forall|i: int|
            #![trigger ws[i]]
            0 <= i < ws.len() ==> window_inserted(
                ts[i],
                ts[i + 1],
                ws[i],
                (ts[i].last_id() + 1) as u64,
            ),
    ensures
        tree_order(ts[k]) == ws.take(k),
        all_horizontal(ts[k].nodes()),
    decreases k,
{
    if k == 0 {
        assert(ts[0].wf());
        if ts[0].root_id() is Some {
            assert(ts[0].nodes().contains_key(ts[0].root_id()->0));
        }
        assert(ws.take(0) =~= Seq::<u32>::empty());
    } else {
        lemma_inserts_in_order(ts, ws, k - 1);
        let o = ts[k - 1];
        let f = ts[k];
        let wk = ws[k - 1];
        let id = (o.last_id() + 1) as u64;
        assert(window_inserted(o, f, wk, id));
        assert(o.wf() && f.wf());
        assert(ws.take(k) =~= ws.take(k - 1).push(wk));
        match o.root_id() {
            None => {
                lemma_root_iff_nonempty(o);
                assert(f.nodes().dom() =~= set![id]);
                assert(tree_order(f) =~= seq![wk]);
                assert(ws.take(k - 1) =~= Seq::<u32>::empty());
                assert forall|n: NodeId| #[trigger] f.nodes().contains_key(n) && f.nodes()[n].kind is Container
                    implies f.nodes()[n].kind->split == SplitDirection::Horizontal by {
                    assert(n == id);
                }
            },
            Some(r) => {
                let c = (id + 1) as u64;
                assert(f.is_container_with(c, SplitDirection::Horizontal, seq![r, id]));
                assert(children_of(f.nodes()[c]) =~= seq![r, id]);
                assert(f.nodes()[r] == relinked(o.nodes()[r], Some(c), crate::tree::Ratio { num: 1, den: 2 }));
                assert forall|n: NodeId| #[trigger] o.nodes().contains_key(n) implies f.nodes().contains_key(n)
                    && f.nodes()[n].kind == o.nodes()[n].kind by {
                    assert(f.nodes().dom().contains(n));
                    if n != r {
                        assert(f.nodes()[n] == o.nodes()[n]);
                    }
                }
                assert(o.nodes().contains_key(r));
                lemma_leaf_seq_frame(
                    o.nodes(),
                    o.root_id(),
                    o.last_id(),
                    o.depths(),
                    o.heights(),
                    f.nodes(),
                    f.root_id(),
                    f.last_id(),
                    f.depths(),
                    f.heights(),
                    r,
                );
                lemma_leaf_seq_container(f.nodes(), f.root_id(), f.last_id(), f.depths(), f.heights(), c);
                assert(f.nodes().contains_key(id));
                assert(leaf_seq(f.nodes(), f.heights(), id) =~= seq![wk]);
                assert forall|n: NodeId| #[trigger] f.nodes().contains_key(n) && f.nodes()[n].kind is Container
                    implies f.nodes()[n].kind->split == SplitDirection::Horizontal by {
                    if n != c && n != id {
                        assert(o.nodes().contains_key(n));
                        assert(o.nodes()[n].kind is Container);
                    }
                }
            },
        }
    }
}

/// Law: windows inserted one after the other into an empty tree are tiled side by
/// side in insertion order: the frames name the windows in that order, the first
/// starts at the left edge of the area inside the outer gaps, the last ends at its
/// right edge, neighbors are the inner gap (rounded down to an even number) apart,
/// and every frame takes the area's full height.
pub proof fn lemma_inserted_windows_tile_in_a_row(ts: Seq<Tree>, ws: Seq<u32>, area: Rect, gaps: Gaps)
    requires
        ts.len() == ws.len() + 1,
        ts[0].nodes() == Map::<NodeId, Node>::empty(),
        forall|i: int| #![trigger ts[i]] 0 <= i < ts.len() ==> ts[i].wf(),
        forall|i: int|
            #![trigger ws[i]]
            0 <= i < ws.len() ==> window_inserted(
                ts[i],
                ts[i + 1],
                ws[i],
                (ts[i].last_id() + 1) as u64,
            ),
        tiles_layout(ts.last(), area, gaps) is Some,
    ensures
        frame_ids(tiles_layout(ts.last(), area, gaps)->0) == ws,
        ws.len() > 0 ==> is_row(
            tiles_layout(ts.last(), area, gaps)->0,
            gaps.spec_shrink(area),
            2 * div_trunc(gaps.inner_h as int, 2),
        ),
{
    let n = ws.len() as int;
    let t = ts[n];
    assert(ts.last() == t);
    lemma_inserts_in_order(ts, ws, n);
    assert(ws.take(n) =~= ws);
    lemma_tiles_in_tree_order(t, area, gaps);
    if ws.len() > 0 {
        assert(t.wf());
        match t.root_id() {
            None => {
                assert(tree_order(t) == Seq::<u32>::empty());
            },
            Some(r) => {
                lemma_row_node(
                    t.nodes(),
                    t.root_id(),
                    t.last_id(),
                    t.depths(),
                    t.heights(),
                    r,
                    gaps.spec_shrink(area),
                    gaps,
                );
            },
        }
    }
}

} // verus!
