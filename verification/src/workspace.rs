use vstd::prelude::*;
use crate::accordion::{AccordionLayout, accordion_rect};
use crate::geometry::{Gaps, Rect};
use crate::ipc::LayoutKind;
use crate::tiles::{TilesLayout, frame_ids, lemma_tiles_frame_per_leaf, tiles_layout};
use crate::tree::{
    Direction,
    NodeId,
    NodeKind,
    Tree,
    lemma_relabel_keeps_wf,
    neighbor_of,
    relabeled,
    window_inserted,
    window_leaf_removed,
    window_leaves,
};
use crate::window::Window;

verus! {

/// The ids of `windows`, in order.
pub open spec fn ids_of(windows: Seq<Window>) -> Seq<u32> {
    windows.map_values(|w: Window| w.id)
}

/// A workspace: its windows, the layout tree that holds a leaf for each of them, and
/// the layout it shows them in.
pub struct Workspace {
    name: String,
    tree: Tree,
    windows: Vec<Window>,
    layout: LayoutKind,
}

/// The padding between stacked windows in the accordion layout.
pub const ACCORDION_PADDING: i32 = 30;

impl Workspace {
    pub closed spec fn spec_name(&self) -> Seq<char> {
        self.name@
    }

    pub closed spec fn spec_tree(&self) -> Tree {
        self.tree
    }

    pub closed spec fn spec_windows(&self) -> Seq<Window> {
        self.windows@
    }

    pub closed spec fn spec_layout(&self) -> LayoutKind {
        self.layout
    }

    /// The workspace's invariant: its tree is well formed and holds, for every
    /// window id, as many leaves as the workspace holds windows with that id.
    pub open spec fn wf(&self) -> bool {
        &&& self.spec_tree().wf()
        &&& forall|w: u32|
            #[trigger] ids_of(self.spec_windows()).to_multiset().count(w) == self.spec_tree().leaves_of(
                w,
            ).len()
    }

    /// An empty workspace in the tiles layout.
    pub fn new(name: String) -> (r: Self)
        ensures
            r.wf(),
            r.spec_name() == name@,
            r.spec_windows().len() == 0,
            r.spec_tree().nodes() == Map::<NodeId, crate::tree::Node>::empty(),
            r.spec_tree().root_id() is None,
            r.spec_tree().last_id() == 0,
            r.spec_layout() == LayoutKind::Tiles,
    {
        let r = Self { name, tree: Tree::new(), windows: Vec::new(), layout: LayoutKind::Tiles };
        proof {
            broadcast use vstd::seq_lib::group_to_multiset_ensures;
            assert(ids_of(r.windows@) =~= Seq::<u32>::empty());
            assert forall|w: u32| #[trigger] ids_of(r.windows@).to_multiset().count(w) == r.tree.leaves_of(w).len() by {
                assert(r.tree.leaves_of(w) =~= Set::<NodeId>::empty());
            }
        }
        r
    }

    /// The workspace's name.
    pub fn name(&self) -> (r: &str)
        ensures
            r@ == self.spec_name(),
    {
        self.name.as_str()
    }

    /// The workspace's layout tree.
    pub fn tree(&self) -> (r: &Tree)
        ensures
            *r == self.spec_tree(),
    {
        &self.tree
    }

    /// The number of windows in the workspace.
    pub fn window_count(&self) -> (r: usize)
        ensures
            r == self.spec_windows().len(),
    {
        self.windows.len()
    }

    /// Switch the workspace to layout `kind`.
    pub fn set_layout(&mut self, kind: LayoutKind)
        requires
            old(self).wf(),
        ensures
            final(self).wf(),
            final(self).spec_layout() == kind,
            final(self).spec_name() == old(self).spec_name(),
            final(self).spec_tree() == old(self).spec_tree(),
            final(self).spec_windows() == old(self).spec_windows(),
    {
        let ghost before = *self;
        self.layout = kind;
        proof {
            assert(self.windows@ == before.windows@);
            assert(self.tree == before.tree);
            assert forall|w: u32| #[trigger] ids_of(self.spec_windows()).to_multiset().count(w)
                == self.spec_tree().leaves_of(w).len() by {
                assert(ids_of(before.spec_windows()).to_multiset().count(w)
                    == before.spec_tree().leaves_of(w).len());
            }
        }
    }
}


/// The frames of the windows of `ws` over `area` in its layout.
pub open spec fn layout_of(ws: Workspace, area: Rect, gaps: Gaps) -> Seq<(u32, Rect)> {
    match ws.spec_layout() {
        LayoutKind::Tiles => tiles_layout(ws.spec_tree(), area, gaps)->0,
        LayoutKind::Accordion => Seq::new(
            ws.spec_windows().len(),
            |i: int|
                (
                    ws.spec_windows()[i].id,
                    accordion_rect(
                        gaps.spec_shrink(area),
                        ws.spec_windows().len() as int,
                        i,
                        ACCORDION_PADDING as int,
                    ),
                ),
        ),
    }
}

/// The accordion layout a workspace uses.
pub open spec fn workspace_accordion() -> AccordionLayout {
    AccordionLayout { padding: ACCORDION_PADDING }
}

/// The index of the first window with id `id`.
fn window_position(windows: &Vec<Window>, id: u32) -> (r: Option<usize>)
    ensures
        match r {
            Some(i) => i < windows@.len() && windows@[i as int].id == id && forall|j: int|
                0 <= j < i ==> windows@[j].id != id,
            None => forall|j: int| 0 <= j < windows@.len() ==> windows@[j].id != id,
        },
{
    let mut i: usize = 0;
    while i < windows.len()
        invariant
            i <= windows@.len(),
            forall|j: int| 0 <= j < i ==> windows@[j].id != id,
        decreases windows@.len() - i,
    {
        if windows[i].id == id {
            return Some(i);
        }
        i = i + 1;
    }
    None
}

/// Whether `f` is `o` after adding window `win`: it goes last in the window list
/// and the tree is `o`'s after `insert_window(win.id)`.
pub open spec fn window_added(o: Workspace, f: Workspace, win: Window) -> bool {
    &&& f.spec_windows() == o.spec_windows().push(win)
    &&& f.spec_name() == o.spec_name()
    &&& f.spec_layout() == o.spec_layout()
    &&& window_inserted(o.spec_tree(), f.spec_tree(), win.id, (o.spec_tree().last_id() + 1) as u64)
    &&& f.spec_tree().last_id() <= o.spec_tree().last_id() + 2
    &&& forall|w: u32|
        #![trigger f.spec_tree().leaves_of(w)]
        f.spec_tree().leaves_of(w).len() == o.spec_tree().leaves_of(w).len() + if w == win.id {
            1int
        } else {
            0int
        }
}

/// Whether `f` is `o` after removing window `id`, with `r` returned: the first window
/// with that id leaves the list and is returned, and the tree is `o`'s after
/// `remove_window(id)`; where there is none, nothing changes.
pub open spec fn window_removed(o: Workspace, f: Workspace, id: u32, r: Option<Window>) -> bool {
    &&& f.spec_name() == o.spec_name()
    &&& f.spec_layout() == o.spec_layout()
    &&& window_leaf_removed(o.spec_tree(), f.spec_tree(), id)
    &&& match r {
        Some(win) => {
            &&& exists|i: int|
                #![trigger o.spec_windows()[i]]
                {
                    &&& 0 <= i < o.spec_windows().len()
                    &&& o.spec_windows()[i].id == id
                    &&& forall|j: int| 0 <= j < i ==> o.spec_windows()[j].id != id
                    &&& win == o.spec_windows()[i]
                    &&& f.spec_windows() == o.spec_windows().remove(i)
                }
            &&& forall|w: u32|
                #![trigger f.spec_tree().leaves_of(w)]
                f.spec_tree().leaves_of(w).len() == o.spec_tree().leaves_of(w).len() - if w == id {
                    1int
                } else {
                    0int
                }
        },
        None => {
            &&& !ids_of(o.spec_windows()).contains(id)
            &&& f == o
        },
    }
}

impl Workspace {
    /// Add a window: it gets a leaf in the tree and goes last in the window list.
    pub fn add_window(&mut self, win: Window)
        requires
            old(self).wf(),
            old(self).spec_tree().last_id() + 2 <= u64::MAX,
        ensures
            final(self).wf(),
            window_added(*old(self), *final(self), win),
    {
        let ghost old_ws = *self;
        let id = self.tree.insert_window(win.id);
        let ghost wid = win.id;
        self.windows.push(win);
        proof {
            broadcast use vstd::seq_lib::group_to_multiset_ensures;
            assert(ids_of(self.windows@) =~= ids_of(old_ws.windows@).push(wid));
            assert forall|w: u32| #[trigger] self.spec_tree().leaves_of(w).len()
                == old_ws.spec_tree().leaves_of(w).len() + if w == wid {
                1int
            } else {
                0int
            } by {
                if w == wid {
                    assert(!old_ws.tree.leaves_of(w).contains(id));
                }
            }
            assert forall|w: u32| #[trigger] ids_of(self.spec_windows()).to_multiset().count(w)
                == self.spec_tree().leaves_of(w).len() by {
                assert(ids_of(old_ws.spec_windows()).to_multiset().count(w)
                    == old_ws.spec_tree().leaves_of(w).len());
                assert(self.spec_tree().leaves_of(w).len() == old_ws.spec_tree().leaves_of(w).len()
                    + if w == wid {
                    1int
                } else {
                    0int
                });
            }
        }
    }

    /// Remove window `window_id`: one leaf of it leaves the tree, and the first
    /// window with that id leaves the list and is returned.
    pub fn remove_window(&mut self, window_id: u32) -> (r: Option<Window>)
        requires
            old(self).wf(),
        ensures
            final(self).wf(),
            window_removed(*old(self), *final(self), window_id, r),
    {
        let ghost old_ws = *self;
        proof {
            broadcast use vstd::seq_lib::group_to_multiset_ensures;
            assert(ids_of(old_ws.spec_windows()).to_multiset().count(window_id)
                == old_ws.spec_tree().leaves_of(window_id).len());
            if !ids_of(old_ws.spec_windows()).contains(window_id) {
                assert(old_ws.tree.leaves_of(window_id).len() == 0);
                assert(old_ws.tree.leaves_of(window_id) =~= Set::<NodeId>::empty()) by {
                    if exists|k: NodeId| old_ws.tree.leaves_of(window_id).contains(k) {
                        let k = choose|k: NodeId| old_ws.tree.leaves_of(window_id).contains(k);
                        assert(old_ws.tree.leaves_of(window_id).len() > 0) by {
                            vstd::set_lib::lemma_set_empty_equivalency_len(old_ws.tree.leaves_of(window_id));
                        }
                    }
                }
            } else {
                assert(ids_of(old_ws.spec_windows()).to_multiset().count(window_id) > 0);
                assert(old_ws.tree.leaves_of(window_id) != Set::<NodeId>::empty());
            }
        }
        self.tree.remove_window(window_id);
        proof {
            if ids_of(old_ws.spec_windows()).contains(window_id) {
                let n = choose|n: NodeId| #![trigger old_ws.tree.leaves_of(window_id).contains(n)]
                    old_ws.tree.leaves_of(window_id).contains(n) && (forall|w: u32| #[trigger]
                    self.tree.leaves_of(w) == old_ws.tree.leaves_of(w).remove(n));
                assert forall|w: u32| #[trigger] self.spec_tree().leaves_of(w).len()
                    == old_ws.spec_tree().leaves_of(w).len() - if w == window_id {
                    1int
                } else {
                    0int
                } by {
                    assert(self.tree.leaves_of(w) == old_ws.tree.leaves_of(w).remove(n));
                    if w != window_id {
                        assert(!old_ws.tree.leaves_of(w).contains(n));
                        assert(old_ws.tree.leaves_of(w).remove(n) =~= old_ws.tree.leaves_of(w));
                    }
                }
            }
        }
        let found = window_position(&self.windows, window_id);
        if found.is_none() {
            proof {
                assert(!ids_of(old_ws.spec_windows()).contains(window_id)) by {
                    if ids_of(old_ws.spec_windows()).contains(window_id) {
                        let j = choose|j: int| 0 <= j < ids_of(old_ws.spec_windows()).len() && ids_of(old_ws.spec_windows())[j] == window_id;
                        assert(old_ws.spec_windows()[j].id == window_id);
                    }
                }
                assert forall|w: u32| #[trigger] ids_of(self.spec_windows()).to_multiset().count(w)
                    == self.spec_tree().leaves_of(w).len() by {
                    assert(ids_of(old_ws.spec_windows()).to_multiset().count(w)
                        == old_ws.spec_tree().leaves_of(w).len());
                }
            }
            return None;
        }
        let pos = found.unwrap();
        let win = self.windows.remove(pos);
        proof {
            let ids = ids_of(old_ws.spec_windows());
            assert(ids[pos as int] == window_id);
            assert(ids.contains(window_id));
            assert(ids_of(self.windows@) =~= ids.remove(pos as int));
            assert forall|w: u32| #[trigger] ids_of(self.spec_windows()).to_multiset().count(w)
                == self.spec_tree().leaves_of(w).len() by {
                assert(ids_of(old_ws.spec_windows()).to_multiset().count(w)
                    == old_ws.spec_tree().leaves_of(w).len());
                assert(ids.remove(pos as int).to_multiset() =~= ids.to_multiset().remove(window_id));
            }
        }
        Some(win)
    }
}


impl Workspace {
    /// Whether every step of the workspace's layout over `area` stays in the range
    /// of `i32`.
    pub open spec fn spec_layout_fits(&self, area: Rect, gaps: Gaps) -> bool {
        match self.spec_layout() {
            LayoutKind::Tiles => tiles_layout(self.spec_tree(), area, gaps) is Some,
            LayoutKind::Accordion => workspace_accordion().fits(
                self.spec_windows().len() as int,
                area,
                gaps,
            ),
        }
    }

    /// Whether every step of the workspace's layout over `area` stays in the range
    /// of `i32`.
    pub fn layout_fits(&self, area: Rect, gaps: &Gaps) -> (r: bool)
        requires
            self.wf(),
        ensures
            r == self.spec_layout_fits(area, *gaps),
    {
        match self.layout {
            LayoutKind::Tiles => {
                let layout = TilesLayout { tree: &self.tree };
                layout.try_compute(area, gaps).is_some()
            },
            LayoutKind::Accordion => {
                let layout = AccordionLayout { padding: ACCORDION_PADDING };
                layout.fits_exec(self.windows.len(), area, gaps)
            },
        }
    }

    /// The frame of each window of the workspace over `area`: the tiles layout of
    /// its tree, or its windows stacked in list order.
    pub fn compute_layout(&self, area: Rect, gaps: &Gaps, focused: Option<u32>) -> (r: Vec<
        (u32, Rect),
    >)
        requires
            self.wf(),
            self.spec_layout_fits(area, *gaps),
        ensures
            match self.spec_layout() {
                LayoutKind::Tiles => r@ == tiles_layout(self.spec_tree(), area, *gaps)->0,
                LayoutKind::Accordion => {
                    &&& r@.len() == self.spec_windows().len()
                    &&& forall|i: int|
                        0 <= i < r@.len() ==> #[trigger] r@[i] == (
                            self.spec_windows()[i].id,
                            accordion_rect(
                                gaps.spec_shrink(area),
                                self.spec_windows().len() as int,
                                i,
                                ACCORDION_PADDING as int,
                            ),
                        )
                },
            },
            r@ == layout_of(*self, area, *gaps),
    {
        match self.layout {
            LayoutKind::Tiles => {
                let layout = TilesLayout { tree: &self.tree };
                layout.compute(area, gaps)
            },
            LayoutKind::Accordion => {
                let mut window_ids: Vec<u32> = Vec::new();
                let mut i: usize = 0;
                while i < self.windows.len()
                    invariant
                        i <= self.windows@.len(),
                        window_ids@ == ids_of(self.windows@).take(i as int),
                    decreases self.windows@.len() - i,
                {
                    window_ids.push(self.windows[i].id);
                    proof {
                        assert(window_ids@ =~= ids_of(self.windows@).take(i + 1));
                    }
                    i = i + 1;
                }
                proof {
                    assert(window_ids@ =~= ids_of(self.windows@));
                }
                let layout = AccordionLayout { padding: ACCORDION_PADDING };
                let r = layout.compute(window_ids.as_slice(), area, gaps, focused);
                proof {
                    assert(r@ =~= layout_of(*self, area, *gaps));
                }
                r
            },
        }
    }

    /// Swap the window of leaf `window_id` with the window of the leaf next to it in
    /// direction `dir`, where there is one.
    pub fn swap_with_neighbor(&mut self, window_id: u32, dir: Direction)
        requires
            old(self).wf(),
        ensures
            final(self).wf(),
            final(self).spec_name() == old(self).spec_name(),
            final(self).spec_layout() == old(self).spec_layout(),
            final(self).spec_windows() == old(self).spec_windows(),
            final(self).spec_tree().root_id() == old(self).spec_tree().root_id(),
            final(self).spec_tree().last_id() == old(self).spec_tree().last_id(),
            neighbor_swapped(old(self).spec_tree(), final(self).spec_tree(), window_id, dir),
            forall|w: u32|
                #![trigger final(self).spec_tree().leaves_of(w)]
                final(self).spec_tree().leaves_of(w).len() == old(self).spec_tree().leaves_of(
                    w,
                ).len(),
    {
        let ghost old_ws = *self;
        let from = match self.tree.find_window(window_id) {
            Some(n) => n,
            None => {
                return;
            },
        };
        let to = match self.tree.neighbor(from, dir) {
            Some(n) => n,
            None => {
                proof {
                    assert(old_ws.tree.leaves_of(window_id).contains(from));
                }
                return;
            },
        };
        let from_wid = match self.tree.get(from) {
            Some(n) => match &n.kind {
                NodeKind::Window { window_id } => *window_id,
                _ => {
                    return;
                },
            },
            None => {
                return;
            },
        };
        let to_wid = match self.tree.get(to) {
            Some(n) => match &n.kind {
                NodeKind::Window { window_id } => *window_id,
                _ => {
                    return;
                },
            },
            None => {
                return;
            },
        };
        let ghost t0 = self.tree;
        proof {
            assert(from_wid == window_id);
            lemma_relabel_keeps_wf(
                t0.nodes(),
                t0.root_id(),
                t0.last_id(),
                t0.depths(),
                t0.heights(),
                from,
                to_wid,
            );
        }
        if let Some(n) = self.tree.get_mut(from) {
            n.kind = NodeKind::Window { window_id: to_wid };
        }
        let ghost t1 = self.tree;
        proof {
            assert(t1.nodes() == t0.nodes().insert(from, relabeled(t0.nodes()[from], to_wid)));
            assert(t1.wf());
            assert(t1.nodes()[to].kind is Window);
            lemma_relabel_keeps_wf(
                t1.nodes(),
                t1.root_id(),
                t1.last_id(),
                t1.depths(),
                t1.heights(),
                to,
                from_wid,
            );
        }
        if let Some(n) = self.tree.get_mut(to) {
            n.kind = NodeKind::Window { window_id: from_wid };
        }
        proof {
            let t2 = self.tree;
            assert(t2.nodes() == t1.nodes().insert(to, relabeled(t1.nodes()[to], from_wid)));
            assert(t2.wf());
            assert(t0.leaves_of(window_id).contains(from));
            assert(held_window(t0.nodes()[to]) == to_wid);
            if from == to {
                assert(t2.nodes() =~= t0.nodes());
                assert(relabeled(t0.nodes()[from], window_id) == t0.nodes()[from]);
                assert(t0.nodes().insert(from, relabeled(t0.nodes()[from], to_wid)).insert(
                    to,
                    relabeled(t0.nodes()[to], window_id),
                ) =~= t0.nodes());
            } else {
                assert(t2.nodes() == t0.nodes().insert(from, relabeled(t0.nodes()[from], to_wid)).insert(to, relabeled(t0.nodes()[to], window_id)));
            }
            lemma_swap_keeps_counts(t0.nodes(), t2.nodes(), from, to, window_id, to_wid);
            assert(t0.leaves_of(to_wid).contains(to));
            assert forall|w: u32| #[trigger] ids_of(self.spec_windows()).to_multiset().count(w)
                == self.spec_tree().leaves_of(w).len() by {
                assert(ids_of(old_ws.spec_windows()).to_multiset().count(w)
                    == old_ws.spec_tree().leaves_of(w).len());
                assert(self.spec_tree().leaves_of(w).len() == old_ws.spec_tree().leaves_of(w).len());
            }
        }
    }
}

/// The window a leaf holds.
pub open spec fn held_window(n: crate::tree::Node) -> u32 {
    match n.kind {
        NodeKind::Window { window_id } => window_id,
        NodeKind::Container { .. } => 0,
    }
}

/// Whether `f` is the tree `o` after swapping window `window_id` with its neighbor
/// in direction `dir`: where `o` holds the window, one of its leaves `from` is taken;
/// where that leaf has a neighbor `to`, the two leaves exchange their windows, and
/// otherwise nothing changes.
pub open spec fn neighbor_swapped(o: Tree, f: Tree, window_id: u32, dir: Direction) -> bool {
    if o.leaves_of(window_id) == Set::<NodeId>::empty() {
        f.nodes() == o.nodes()
    } else {
        exists|from: NodeId|
            #![trigger o.leaves_of(window_id).contains(from)]
            {
                &&& o.leaves_of(window_id).contains(from)
                &&& match neighbor_of(o.nodes(), o.depths(), o.heights(), from, dir) {
                    None => f.nodes() == o.nodes(),
                    Some(to) => f.nodes() == o.nodes().insert(
                        from,
                        relabeled(o.nodes()[from], held_window(o.nodes()[to])),
                    ).insert(to, relabeled(o.nodes()[to], window_id)),
                }
            }
    }
}

/// Swapping the windows of two leaves keeps the number of leaves of every window.
proof fn lemma_swap_keeps_counts(
    o: Map<NodeId, crate::tree::Node>,
    f: Map<NodeId, crate::tree::Node>,
    from: NodeId,
    to: NodeId,
    a: u32,
    b: u32,
)
    requires
        o.dom().finite(),
        o.contains_key(from),
        o.contains_key(to),
        crate::tree::holds_window(o[from], a),
        crate::tree::holds_window(o[to], b),
        from == to ==> f == o,
        from != to ==> f == o.insert(from, relabeled(o[from], b)).insert(to, relabeled(o[to], a)),
    ensures
        forall|w: u32| #[trigger] window_leaves(f, w).len() == window_leaves(o, w).len(),
{
    assert forall|w: u32| #[trigger] window_leaves(f, w).len() == window_leaves(o, w).len() by {
        if from != to {
            let lo = window_leaves(o, w);
            let lf = window_leaves(f, w);
            if w == a && w == b {
                assert(lf =~= lo);
            } else if w == a {
                assert(lf =~= lo.remove(from).insert(to));
                assert(!lo.remove(from).contains(to));
            } else if w == b {
                assert(lf =~= lo.remove(to).insert(from));
                assert(!lo.remove(to).contains(from));
            } else {
                assert(lf =~= lo);
            }
        }
    }
}


/// Law: the layout of a well-formed workspace gives each of its windows one frame:
/// taken as multisets, the ids of the frames are the ids of the windows. In the
/// accordion layout the frames also come in the order of the windows.
pub proof fn lemma_layout_frames_each_window(ws: Workspace, area: Rect, gaps: Gaps)
    requires
        ws.wf(),
        ws.spec_layout_fits(area, gaps),
    ensures
        frame_ids(layout_of(ws, area, gaps)).to_multiset() == ids_of(ws.spec_windows()).to_multiset(),
        ws.spec_layout() == LayoutKind::Accordion ==> frame_ids(layout_of(ws, area, gaps)) == ids_of(
            ws.spec_windows(),
        ),
{
    match ws.spec_layout() {
        LayoutKind::Tiles => {
            lemma_tiles_frame_per_leaf(ws.spec_tree(), area, gaps);
            assert(frame_ids(layout_of(ws, area, gaps)).to_multiset() =~= ids_of(
                ws.spec_windows(),
            ).to_multiset());
        },
        LayoutKind::Accordion => {
            assert(frame_ids(layout_of(ws, area, gaps)) =~= ids_of(ws.spec_windows()));
        },
    }
}


/// Law: adding a window whose id a well-formed workspace does not hold and then
/// removing that id gives the window back and leaves the window list, and the
/// number of leaves of every window id, as they were.
pub proof fn lemma_add_then_remove(
    w0: Workspace,
    w1: Workspace,
    w2: Workspace,
    win: Window,
    r: Option<Window>,
)
    requires
        w0.wf(),
        !ids_of(w0.spec_windows()).contains(win.id),
        window_added(w0, w1, win),
        window_removed(w1, w2, win.id, r),
    ensures
        r == Some(win),
        w2.spec_windows() == w0.spec_windows(),
        forall|w: u32| #[trigger] w2.spec_tree().leaves_of(w).len() == w0.spec_tree().leaves_of(w).len(),
{
    let n = w0.spec_windows().len();
    assert(ids_of(w1.spec_windows())[n as int] == win.id);
    assert(ids_of(w1.spec_windows()).contains(win.id));
    let x = r->0;
    let i = choose|i: int|
        #![trigger w1.spec_windows()[i]]
        {
            &&& 0 <= i < w1.spec_windows().len()
            &&& w1.spec_windows()[i].id == win.id
            &&& forall|j: int| 0 <= j < i ==> w1.spec_windows()[j].id != win.id
            &&& x == w1.spec_windows()[i]
            &&& w2.spec_windows() == w1.spec_windows().remove(i)
        };
    if i < n {
        assert(ids_of(w0.spec_windows())[i] == win.id);
    }
    assert(w2.spec_windows() =~= w0.spec_windows());
    assert forall|w: u32| #[trigger] w2.spec_tree().leaves_of(w).len() == w0.spec_tree().leaves_of(w).len() by {
        assert(w1.spec_tree().leaves_of(w).len() == w0.spec_tree().leaves_of(w).len() + if w == win.id {
            1int
        } else {
            0int
        });
    }
}

} // verus!
