use vstd::prelude::*;
use crate::config::Config;
use crate::geometry::{Gaps, Rect};
use crate::ipc::{IpcCommand, LayoutKind};
use crate::text::{concat, decimal, decimal_string, str_eq};
use crate::tree::{Direction, NodeId, NodeKind, holds_window, neighbor_of};
use crate::window::{Display, Window, fallback_display};
use crate::workspace::{Workspace, ids_of, window_added, window_removed};

verus! {

/// The window manager's state: its workspaces, which one is shown, the displays and
/// the focused window.
pub struct WindowManager {
    config: Config,
    workspaces: Vec<Workspace>,
    active_workspace: usize,
    displays: Vec<Display>,
    focused_window: Option<u32>,
}

/// The name the `i`-th workspace gets when the configuration names none: `i + 1`.
pub open spec fn default_workspace_name(i: int) -> Seq<char> {
    decimal((i + 1) as nat)
}

impl WindowManager {
    pub closed spec fn spec_config(&self) -> Config {
        self.config
    }

    pub closed spec fn spec_workspaces(&self) -> Seq<Workspace> {
        self.workspaces@
    }

    pub closed spec fn spec_active(&self) -> int {
        self.active_workspace as int
    }

    pub closed spec fn spec_displays(&self) -> Seq<Display> {
        self.displays@
    }

    pub closed spec fn spec_focused(&self) -> Option<u32> {
        self.focused_window
    }

    /// The manager's invariant: at least one workspace, a valid active one, and
    /// every workspace well formed.
    pub open spec fn wf(&self) -> bool {
        &&& self.spec_workspaces().len() >= 1
        &&& 0 <= self.spec_active() < self.spec_workspaces().len()
        &&& forall|i: int| 0 <= i < self.spec_workspaces().len() ==> #[trigger] self.spec_workspaces()[i].wf()
    }

    /// Whether every workspace's tree can still hand out the ids that adding one
    /// window takes.
    pub open spec fn spec_id_room(&self) -> bool {
        forall|i: int|
            0 <= i < self.spec_workspaces().len() ==> #[trigger] self.spec_workspaces()[i].spec_tree().last_id()
                + 2 <= u64::MAX
    }

    /// The active workspace.
    pub open spec fn active(&self) -> Workspace {
        self.spec_workspaces()[self.spec_active()]
    }

    /// The `i`-th window of the active workspace.
    pub open spec fn spec_windows_at(&self, i: int) -> Window {
        self.active().spec_windows()[i]
    }

    /// A manager for `config` with `max(9, configured)` empty workspaces, named as
    /// configured and otherwise by their position from 1; the first is active.
    pub fn new(config: Config) -> (r: Self)
        ensures
            r.wf(),
            r.spec_id_room(),
            r.spec_config() == config,
            r.spec_workspaces().len() == if config.workspaces@.len() > 9 {
                config.workspaces@.len()
            } else {
                9
            },
            forall|i: int|
                0 <= i < r.spec_workspaces().len() ==> {
                    &&& (#[trigger] r.spec_workspaces()[i]).spec_name() == if i
                        < config.workspaces@.len() {
                        config.workspaces@[i].name@
                    } else {
                        default_workspace_name(i)
                    }
                    &&& r.spec_workspaces()[i].spec_windows().len() == 0
                    &&& r.spec_workspaces()[i].spec_tree().last_id() == 0
                    &&& r.spec_workspaces()[i].spec_layout() == LayoutKind::Tiles
                },
            r.spec_active() == 0,
            r.spec_displays().len() == 0,
            r.spec_focused() is None,
    {
        let configured = config.workspaces.len();
        let workspace_count = if configured > 9 {
            configured
        } else {
            9
        };
        let mut workspaces: Vec<Workspace> = Vec::new();
        let mut i: usize = 0;
        while i < workspace_count
            invariant
                workspace_count == if config.workspaces@.len() > 9 {
                    config.workspaces@.len()
                } else {
                    9
                },
                configured == config.workspaces@.len(),
                i <= workspace_count,
                workspaces@.len() == i,
                forall|j: int|
                    0 <= j < i ==> {
                        &&& (#[trigger] workspaces@[j]).wf()
                        &&& workspaces@[j].spec_name() == if j < config.workspaces@.len() {
                            config.workspaces@[j].name@
                        } else {
                            default_workspace_name(j)
                        }
                        &&& workspaces@[j].spec_windows().len() == 0
                        &&& workspaces@[j].spec_tree().last_id() == 0
                        &&& workspaces@[j].spec_layout() == LayoutKind::Tiles
                    },
            decreases workspace_count - i,
        {
            let name = if i < configured {
                config.workspaces[i].name.clone()
            } else {
                decimal_string((i as u64) + 1)
            };
            workspaces.push(Workspace::new(name));
            i = i + 1;
        }
        Self {
            config,
            workspaces,
            active_workspace: 0,
            displays: Vec::new(),
            focused_window: None,
        }
    }

    /// Whether every workspace can still take a window.
    pub fn has_id_room(&self) -> (r: bool)
        ensures
            r == self.spec_id_room(),
    {
        let mut i: usize = 0;
        while i < self.workspaces.len()
            invariant
                i <= self.workspaces@.len(),
                forall|j: int|
                    0 <= j < i ==> #[trigger] self.workspaces@[j].spec_tree().last_id() + 2
                        <= u64::MAX,
            decreases self.workspaces@.len() - i,
        {
            if self.workspaces[i].tree().last_id_exec() > u64::MAX - 2 {
                proof {
                    assert(self.spec_workspaces()[i as int] == self.workspaces@[i as int]);
                    assert(!(self.spec_workspaces()[i as int].spec_tree().last_id() + 2 <= u64::MAX));
                }
                return false;
            }
            i = i + 1;
        }
        true
    }

    /// The gaps of the configuration.
    pub open spec fn spec_gaps(&self) -> Gaps {
        let g = self.spec_config().gaps;
        Gaps {
            inner_h: g.inner_horizontal,
            inner_v: g.inner_vertical,
            outer_left: g.outer_left,
            outer_right: g.outer_right,
            outer_top: g.outer_top,
            outer_bottom: g.outer_bottom,
        }
    }

    fn gaps(&self) -> (r: Gaps)
        ensures
            r == self.spec_gaps(),
    {
        let g = &self.config.gaps;
        Gaps {
            inner_h: g.inner_horizontal,
            inner_v: g.inner_vertical,
            outer_left: g.outer_left,
            outer_right: g.outer_right,
            outer_top: g.outer_top,
            outer_bottom: g.outer_bottom,
        }
    }

    /// The frame of the first display, or a 1920×1080 frame at the origin.
    pub open spec fn spec_active_display(&self) -> Rect {
        if self.spec_displays().len() > 0 {
            self.spec_displays()[0].frame
        } else {
            fallback_display().frame
        }
    }

    fn active_display(&self) -> (r: Rect)
        ensures
            r == self.spec_active_display(),
    {
        if self.displays.len() > 0 {
            self.displays[0].frame
        } else {
            Rect { x: 0, y: 0, width: 1920, height: 1080 }
        }
    }

    /// The frames that `retile` applies: the active workspace's layout over the first
    /// display, or none where computing it would leave the `i32` range.
    pub open spec fn spec_frames(&self) -> Seq<(u32, Rect)> {
        let ws = self.active();
        if ws.spec_layout_fits(self.spec_active_display(), self.spec_gaps()) {
            crate::workspace::layout_of(ws, self.spec_active_display(), self.spec_gaps())
        } else {
            Seq::empty()
        }
    }

    /// Lay out the active workspace over the first display, set each window's frame
    /// and return the frames set.
    pub fn retile(&mut self) -> (r: Vec<(u32, Rect)>)
        requires
            old(self).wf(),
        ensures
            *final(self) == *old(self),
            r@ == old(self).spec_frames(),
    {
        let area = self.active_display();
        let gaps = self.gaps();
        let ws = &self.workspaces[self.active_workspace];
        proof {
            assert(ws.wf());
        }
        if !ws.layout_fits(area, &gaps) {
            return Vec::new();
        }
        let frames = ws.compute_layout(area, &gaps, self.focused_window);
        let mut i: usize = 0;
        while i < frames.len()
            invariant
                i <= frames@.len(),
            decreases frames@.len() - i,
        {
            let (window_id, rect) = frames[i];
            let _ = Window::set_frame(window_id, rect);
            i = i + 1;
        }
        frames
    }
}


/// Whether `new` is `old` with at most entry `i` changed.
pub open spec fn others_unchanged(old: Seq<Workspace>, new: Seq<Workspace>, i: int) -> bool {
    &&& new.len() == old.len()
    &&& forall|j: int| 0 <= j < old.len() && j != i ==> #[trigger] new[j] == old[j]
}

/// The index of the first workspace named `name`.
pub open spec fn first_named(wss: Seq<Workspace>, name: Seq<char>) -> Option<int> {
    if exists|i: int| 0 <= i < wss.len() && (#[trigger] wss[i]).spec_name() == name {
        Some(
            choose|i: int|
                0 <= i < wss.len() && (#[trigger] wss[i]).spec_name() == name && forall|j: int|
                    0 <= j < i ==> wss[j].spec_name() != name,
        )
    } else {
        None
    }
}

/// Whether `f` is the state after switching `o` to the first workspace named `name`.
pub open spec fn workspace_switched(o: WindowManager, f: WindowManager, name: Seq<char>) -> bool {
    &&& f.spec_workspaces() == o.spec_workspaces()
    &&& f.spec_config() == o.spec_config()
    &&& f.spec_displays() == o.spec_displays()
    &&& f.spec_focused() == o.spec_focused()
    &&& f.spec_active() == match first_named(o.spec_workspaces(), name) {
        Some(i) => i,
        None => o.spec_active(),
    }
}

/// Whether `f` is the state after switching the active workspace of `o` to `kind`.
pub open spec fn layout_set(o: WindowManager, f: WindowManager, kind: LayoutKind) -> bool {
    &&& f.spec_active() == o.spec_active()
    &&& others_unchanged(o.spec_workspaces(), f.spec_workspaces(), o.spec_active())
    &&& f.active().spec_layout() == kind
    &&& f.active().spec_name() == o.active().spec_name()
    &&& f.active().spec_windows() == o.active().spec_windows()
    &&& f.active().spec_tree() == o.active().spec_tree()
    &&& f.spec_config() == o.spec_config()
    &&& f.spec_displays() == o.spec_displays()
    &&& f.spec_focused() == o.spec_focused()
}

impl WindowManager {
    /// The index of the first workspace named `name`.
    fn position_of_workspace(&self, name: &str) -> (r: Option<usize>)
        ensures
            match r {
                Some(i) => {
                    &&& i < self.spec_workspaces().len()
                    &&& self.spec_workspaces()[i as int].spec_name() == name@
                    &&& forall|j: int| 0 <= j < i ==> self.spec_workspaces()[j].spec_name() != name@
                    &&& first_named(self.spec_workspaces(), name@) == Some(i as int)
                },
                None => first_named(self.spec_workspaces(), name@) is None,
            },
    {
        let mut i: usize = 0;
        while i < self.workspaces.len()
            invariant
                i <= self.workspaces@.len(),
                forall|j: int| 0 <= j < i ==> self.workspaces@[j].spec_name() != name@,
            decreases self.workspaces@.len() - i,
        {
            if str_eq(self.workspaces[i].name(), name) {
                proof {
                    let wss = self.spec_workspaces();
                    assert(wss[i as int].spec_name() == name@);
                    let k = choose|k: int|
                        0 <= k < wss.len() && (#[trigger] wss[k]).spec_name() == name@ && forall|j: int|
                            0 <= j < k ==> wss[j].spec_name() != name@;
                    if k < i {
                    } else if k > i {
                        assert(wss[i as int].spec_name() != name@);
                    }
                }
                return Some(i);
            }
            i = i + 1;
        }
        None
    }

    /// Make the first workspace named `name` the active one and retile it; no change
    /// where no workspace has that name.
    fn switch_workspace(&mut self, name: &str)
        requires
            old(self).wf(),
        ensures
            final(self).wf(),
            workspace_switched(*old(self), *final(self), name@),
    {
        let idx = self.position_of_workspace(name);
        if let Some(idx) = idx {
            self.active_workspace = idx;
            let _ = self.retile();
        }
    }

    /// Switch the active workspace to layout `kind` and retile it.
    fn set_layout(&mut self, kind: LayoutKind)
        requires
            old(self).wf(),
        ensures
            final(self).wf(),
            layout_set(*old(self), *final(self), kind),
    {
        let a = self.active_workspace;
        proof {
            assert(self.workspaces@[a as int].wf());
        }
        self.workspaces[a].set_layout(kind);
        proof {
            assert forall|i: int| 0 <= i < self.spec_workspaces().len() implies #[trigger] self.spec_workspaces()[i].wf() by {
                if i != a {
                    assert(self.spec_workspaces()[i] == old(self).spec_workspaces()[i]);
                }
            }
        }
        let _ = self.retile();
    }
}


/// The window a leaf holds, if the node is a leaf.
pub open spec fn window_of(n: crate::tree::Node) -> Option<u32> {
    match n.kind {
        NodeKind::Window { window_id } => Some(window_id),
        NodeKind::Container { .. } => None,
    }
}

/// Whether `f` is the state after moving the focus from `o` in direction `dir`:
/// from a leaf of the focused window (one of them, where it has several) to the
/// window of the leaf next to it in that direction; where there is none, the focus
/// stays.
pub open spec fn focus_moved(o: WindowManager, f: WindowManager, dir: Direction) -> bool {
    &&& f.spec_workspaces() == o.spec_workspaces()
    &&& f.spec_active() == o.spec_active()
    &&& f.spec_config() == o.spec_config()
    &&& f.spec_displays() == o.spec_displays()
    &&& match o.spec_focused() {
        None => f.spec_focused() is None,
        Some(w) => {
            let t = o.active().spec_tree();
            if t.leaves_of(w) == Set::<NodeId>::empty() {
                f.spec_focused() == o.spec_focused()
            } else {
                exists|from: NodeId|
                    #![trigger t.leaves_of(w).contains(from)]
                    t.leaves_of(w).contains(from) && f.spec_focused() == match neighbor_of(
                        t.nodes(),
                        t.depths(),
                        t.heights(),
                        from,
                        dir,
                    ) {
                        Some(nb) => window_of(t.nodes()[nb]),
                        None => o.spec_focused(),
                    }
            }
        },
    }
}

/// Whether `f` is the state after swapping the focused window of `o` with its
/// neighbor in direction `dir`.
pub open spec fn window_moved(o: WindowManager, f: WindowManager, dir: Direction) -> bool {
    &&& f.spec_active() == o.spec_active()
    &&& f.spec_config() == o.spec_config()
    &&& f.spec_displays() == o.spec_displays()
    &&& f.spec_focused() == o.spec_focused()
    &&& others_unchanged(o.spec_workspaces(), f.spec_workspaces(), o.spec_active())
    &&& f.active().spec_name() == o.active().spec_name()
    &&& f.active().spec_layout() == o.active().spec_layout()
    &&& f.active().spec_windows() == o.active().spec_windows()
    &&& f.active().spec_tree().root_id() == o.active().spec_tree().root_id()
    &&& f.active().spec_tree().last_id() == o.active().spec_tree().last_id()
    &&& match o.spec_focused() {
        None => f.spec_workspaces() == o.spec_workspaces(),
        Some(w) => crate::workspace::neighbor_swapped(
            o.active().spec_tree(),
            f.active().spec_tree(),
            w,
            dir,
        ),
    }
}

impl WindowManager {
    /// Move the focus to the window next to the focused one in direction `dir`.
    fn focus(&mut self, dir: Direction)
        requires
            old(self).wf(),
        ensures
            final(self).wf(),
            focus_moved(*old(self), *final(self), dir),
    {
        let a = self.active_workspace;
        let ws = &self.workspaces[a];
        proof {
            assert(ws.wf());
        }
        if let Some(focused) = self.focused_window {
            if let Some(target_node) = ws.tree().find_window(focused) {
                proof {
                    assert(old(self).active().spec_tree().leaves_of(focused).contains(target_node));
                }
                if let Some(nb) = ws.tree().neighbor(target_node, dir) {
                    if let Some(node) = ws.tree().get(nb) {
                        if let NodeKind::Window { window_id } = node.kind {
                            let _ = Window::focus(window_id);
                            self.focused_window = Some(window_id);
                            proof {
                                let t = old(self).active().spec_tree();
                                assert(t.leaves_of(focused).contains(target_node));
                                assert(t.nodes()[nb] == *node);
                            }
                        }
                    }
                }
            }
        }
    }

    /// Swap the focused window with its neighbor in direction `dir` and retile.
    fn move_window(&mut self, dir: Direction)
        requires
            old(self).wf(),
        ensures
            final(self).wf(),
            window_moved(*old(self), *final(self), dir),
    {
        let a = self.active_workspace;
        proof {
            assert(self.workspaces@[a as int].wf());
        }
        if let Some(focused) = self.focused_window {
            self.workspaces[a].swap_with_neighbor(focused, dir);
            proof {
                assert forall|i: int| 0 <= i < self.spec_workspaces().len() implies #[trigger] self.spec_workspaces()[i].wf() by {
                    if i != a {
                        assert(self.spec_workspaces()[i] == old(self).spec_workspaces()[i]);
                    }
                }
            }
        }
        let _ = self.retile();
    }

    /// Resize the focused window to the whole first display.
    fn toggle_fullscreen(&mut self) -> (r: Option<(u32, Rect)>)
        requires
            old(self).wf(),
        ensures
            *final(self) == *old(self),
            r == match old(self).spec_focused() {
                Some(w) => Some((w, old(self).spec_active_display())),
                None => None,
            },
    {
        if let Some(wid) = self.focused_window {
            let area = self.active_display();
            let _ = Window::set_frame(wid, area);
            return Some((wid, area));
        }
        None
    }

    /// Re-read the configuration; it is kept as it is.
    fn reload_config(&mut self)
        ensures
            *final(self) == *old(self),
    {
    }
}


/// Whether `f` holds the workspaces `o` after window `win`, the first window with id
/// `w` of workspace `a`, moved to workspace `t`: it is removed from `a` as
/// `remove_window` does and added to `t` as `add_window` does; every other
/// workspace is kept.
pub open spec fn window_moved_between(
    o: Seq<Workspace>,
    f: Seq<Workspace>,
    a: int,
    t: int,
    w: u32,
    win: Window,
) -> bool {
    &&& f.len() == o.len()
    &&& forall|j: int| 0 <= j < o.len() && j != a && j != t ==> #[trigger] f[j] == o[j]
    &&& if t == a {
        exists|m: Workspace|
            #[trigger] window_removed(o[a], m, w, Some(win)) && window_added(m, f[a], win)
    } else {
        &&& window_removed(o[a], f[a], w, Some(win))
        &&& window_added(o[t], f[t], win)
    }
}

/// Whether `f` is the state after moving the focused window of `o` to the first
/// workspace named `name`: where there is such a workspace and the active one holds
/// the focused window, the window moves there; otherwise nothing changes.
pub open spec fn moved_to_workspace(o: WindowManager, f: WindowManager, name: Seq<char>) -> bool {
    &&& f.spec_active() == o.spec_active()
    &&& f.spec_config() == o.spec_config()
    &&& f.spec_displays() == o.spec_displays()
    &&& f.spec_focused() == o.spec_focused()
    &&& f.spec_workspaces().len() == o.spec_workspaces().len()
    &&& match (first_named(o.spec_workspaces(), name), o.spec_focused()) {
        (Some(t), Some(w)) => if ids_of(o.active().spec_windows()).contains(w) {
            some_window_moved(o.spec_workspaces(), f.spec_workspaces(), o.spec_active(), t, w)
        } else {
            f.spec_workspaces() == o.spec_workspaces()
        },
        _ => f.spec_workspaces() == o.spec_workspaces(),
    }
}

/// Whether `f` holds the workspaces `o` after some window, the first with id `w` of
/// workspace `a`, moved to workspace `t`.
pub open spec fn some_window_moved(o: Seq<Workspace>, f: Seq<Workspace>, a: int, t: int, w: u32) -> bool {
    exists|win: Window| #[trigger] window_moved_between(o, f, a, t, w, win)
}

/// Whether `f` is the state after closing the focused window of `o`: the active
/// workspace removes it as `remove_window` does, and nothing is focused.
pub open spec fn focused_closed(o: WindowManager, f: WindowManager) -> bool {
    &&& f.spec_active() == o.spec_active()
    &&& f.spec_config() == o.spec_config()
    &&& f.spec_displays() == o.spec_displays()
    &&& others_unchanged(o.spec_workspaces(), f.spec_workspaces(), o.spec_active())
    &&& f.spec_focused() is None
    &&& match o.spec_focused() {
        None => f.spec_workspaces() == o.spec_workspaces(),
        Some(w) => exists|r: Option<Window>| #[trigger] window_removed(o.active(), f.active(), w, r),
    }
}

impl WindowManager {
    /// Move the focused window to the first workspace named `name` and retile.
    fn move_to_workspace(&mut self, name: &str)
        requires
            old(self).wf(),
            old(self).spec_id_room(),
        ensures
            final(self).wf(),
            moved_to_workspace(*old(self), *final(self), name@),
    {
        let target_idx = self.position_of_workspace(name);
        if let Some(target_idx) = target_idx {
            if let Some(wid) = self.focused_window {
                let a = self.active_workspace;
                proof {
                    assert(self.workspaces@[a as int].wf());
                    assert(self.workspaces@[target_idx as int].wf());
                    assert(self.workspaces@[target_idx as int].spec_tree().last_id() + 2 <= u64::MAX);
                }
                let ghost ws0 = self.workspaces@[a as int];
                let window = self.workspaces[a].remove_window(wid);
                if let Some(win) = window {
                    let ghost mid = self.workspaces@;
                    proof {
                        assert(mid[target_idx as int].wf());
                        assert(mid[target_idx as int].spec_tree().last_id() + 2 <= u64::MAX);
                    }
                    self.workspaces[target_idx].add_window(win);
                    proof {
                        assert forall|i: int| 0 <= i < self.spec_workspaces().len() implies #[trigger] self.spec_workspaces()[i].wf() by {
                            if i != a && i != target_idx {
                                assert(self.spec_workspaces()[i] == old(self).spec_workspaces()[i]);
                            }
                        }
                        let src = old(self).active().spec_windows();
                        assert(ws0.spec_windows() == src);
                        let i = choose|i: int|
                            #![trigger ws0.spec_windows()[i]]
                            {
                                &&& 0 <= i < ws0.spec_windows().len()
                                &&& ws0.spec_windows()[i].id == wid
                                &&& forall|j: int| 0 <= j < i ==> ws0.spec_windows()[j].id != wid
                                &&& win == ws0.spec_windows()[i]
                                &&& mid[a as int].spec_windows() == ws0.spec_windows().remove(i)
                            };
                        assert(ids_of(src)[i] == wid);
                        assert(ids_of(src).contains(wid));
                        let ow = old(self).spec_workspaces();
                        let fw = self.spec_workspaces();
                        if target_idx == a {
                            assert(window_removed(ow[a as int], mid[a as int], wid, Some(win)));
                            assert(window_added(mid[a as int], fw[a as int], win));
                        } else {
                            assert(mid[target_idx as int] == ow[target_idx as int]);
                            assert(fw[a as int] == mid[a as int]);
                        }
                        assert(window_moved_between(ow, fw, a as int, target_idx as int, wid, win));
                        assert(some_window_moved(ow, fw, a as int, target_idx as int, wid));
                    }
                    let _ = self.retile();
                } else {
                    proof {
                        assert(self.spec_workspaces() =~= old(self).spec_workspaces());
                    }
                }
            }
        }
    }

    /// Close the focused window, drop it from the active workspace and retile.
    fn close_focused(&mut self)
        requires
            old(self).wf(),
        ensures
            final(self).wf(),
            focused_closed(*old(self), *final(self)),
    {
        if let Some(wid) = self.focused_window {
            let a = self.active_workspace;
            proof {
                assert(self.workspaces@[a as int].wf());
            }
            let _ = Window::close(wid);
            let ghost ws0 = self.workspaces@[a as int];
            let removed = self.workspaces[a].remove_window(wid);
            self.focused_window = None;
            proof {
                assert forall|i: int| 0 <= i < self.spec_workspaces().len() implies #[trigger] self.spec_workspaces()[i].wf() by {
                    if i != a {
                        assert(self.spec_workspaces()[i] == old(self).spec_workspaces()[i]);
                    }
                }
                assert(window_removed(old(self).active(), self.active(), wid, removed));
            }
            let _ = self.retile();
        }
    }
}


/// The line that reports workspace `name` with `count` windows, marked `*` when it
/// is the active one.
pub open spec fn state_line(active: bool, name: Seq<char>, count: nat) -> Seq<char> {
    (if active {
        "*"@
    } else {
        " "@
    }) + " workspace '"@ + name + "': "@ + decimal(count) + " windows"@
}

/// The report of all workspaces, one line each.
pub open spec fn state_report(o: WindowManager) -> Seq<Seq<char>> {
    Seq::new(
        o.spec_workspaces().len(),
        |i: int|
            state_line(
                i == o.spec_active(),
                o.spec_workspaces()[i].spec_name(),
                o.spec_workspaces()[i].spec_windows().len(),
            ),
    )
}

/// Law: the report has one line per workspace, and a line starts with `*` exactly
/// when it reports the active workspace.
pub proof fn lemma_report_marks_active(o: WindowManager)
    ensures
        state_report(o).len() == o.spec_workspaces().len(),
        forall|i: int|
            0 <= i < state_report(o).len() ==> ((#[trigger] state_report(o)[i])[0] == '*' <==> i
                == o.spec_active()),
{
    reveal_strlit("*");
    reveal_strlit(" ");
    assert forall|i: int| 0 <= i < state_report(o).len() implies ((#[trigger] state_report(o)[i])[0]
        == '*' <==> i == o.spec_active()) by {
        let rest = " workspace '"@ + o.spec_workspaces()[i].spec_name() + "': "@ + decimal(
            o.spec_workspaces()[i].spec_windows().len(),
        ) + " windows"@;
        if i == o.spec_active() {
            assert(state_report(o)[i] == "*"@ + rest);
            assert(("*"@ + rest)[0] == '*');
        } else {
            assert(state_report(o)[i] == " "@ + rest);
            assert((" "@ + rest)[0] == ' ');
        }
    }
}

/// Whether `f` and `r` are the state and report after handling `cmd` in state `o`.
pub open spec fn command_handled(
    o: WindowManager,
    f: WindowManager,
    cmd: IpcCommand,
    r: Seq<String>,
) -> bool {
    &&& match cmd {
        IpcCommand::List => r.len() == o.spec_workspaces().len() && forall|i: int|
            0 <= i < r.len() ==> #[trigger] r[i]@ == state_report(o)[i],
        _ => r.len() == 0,
    }
    &&& match cmd {
        IpcCommand::Focus(d) => focus_moved(o, f, d),
        IpcCommand::Move(d) => window_moved(o, f, d),
        IpcCommand::Workspace(name) => workspace_switched(o, f, name@),
        IpcCommand::MoveToWorkspace(name) => moved_to_workspace(o, f, name@),
        IpcCommand::Layout(kind) => layout_set(o, f, kind),
        IpcCommand::Fullscreen => f == o,
        IpcCommand::Close => focused_closed(o, f),
        IpcCommand::Reload => f == o,
        IpcCommand::List => f == o,
    }
}

impl WindowManager {
    /// One line per workspace, `*` marking the active one, with its name and
    /// number of windows.
    pub fn print_state(&self) -> (r: Vec<String>)
        ensures
            r@.len() == self.spec_workspaces().len(),
            forall|i: int| 0 <= i < r@.len() ==> #[trigger] r@[i]@ == state_report(*self)[i],
    {
        let mut lines: Vec<String> = Vec::new();
        let mut i: usize = 0;
        while i < self.workspaces.len()
            invariant
                i <= self.workspaces@.len(),
                lines@.len() == i,
                forall|j: int| 0 <= j < i ==> #[trigger] lines@[j]@ == state_report(*self)[j],
            decreases self.workspaces@.len() - i,
        {
            let ws = &self.workspaces[i];
            let marker = if i == self.active_workspace {
                "*"
            } else {
                " "
            };
            let mut line = concat(marker, " workspace '");
            line.append(ws.name());
            line.append("': ");
            line.append(decimal_string(ws.window_count() as u64).as_str());
            line.append(" windows");
            proof {
                assert(line@ =~= state_report(*self)[i as int]);
            }
            lines.push(line);
            i = i + 1;
        }
        lines
    }

    /// Carry out `cmd`, and return the lines it reports (those of `list`).
    pub fn handle_command(&mut self, cmd: IpcCommand) -> (r: Vec<String>)
        requires
            old(self).wf(),
            old(self).spec_id_room(),
        ensures
            final(self).wf(),
            command_handled(*old(self), *final(self), cmd, r@),
    {
        match cmd {
            IpcCommand::Focus(dir) => self.focus(dir),
            IpcCommand::Move(dir) => self.move_window(dir),
            IpcCommand::Workspace(name) => self.switch_workspace(name.as_str()),
            IpcCommand::MoveToWorkspace(name) => self.move_to_workspace(name.as_str()),
            IpcCommand::Layout(kind) => self.set_layout(kind),
            IpcCommand::Fullscreen => {
                let _ = self.toggle_fullscreen();
            },
            IpcCommand::Close => self.close_focused(),
            IpcCommand::Reload => {
                let _ = self.reload_config();
            },
            IpcCommand::List => {
                return self.print_state();
            },
        }
        Vec::new()
    }

    /// Add `windows` to the active workspace, one after the other, as `add_window`
    /// does.
    fn add_windows(&mut self, windows: Vec<Window>)
        requires
            old(self).wf(),
            old(self).active().spec_tree().last_id() + 2 * windows@.len() <= u64::MAX,
        ensures
            final(self).wf(),
            final(self).spec_active() == old(self).spec_active(),
            final(self).spec_config() == old(self).spec_config(),
            final(self).spec_displays() == old(self).spec_displays(),
            final(self).spec_focused() == old(self).spec_focused(),
            others_unchanged(old(self).spec_workspaces(), final(self).spec_workspaces(), old(self).spec_active()),
            final(self).active().spec_windows() == old(self).active().spec_windows() + windows@,
            final(self).active().spec_name() == old(self).active().spec_name(),
            final(self).active().spec_layout() == old(self).active().spec_layout(),
            windows@.len() == 0 ==> *final(self) == *old(self),
    {
        let ghost before = *self;
        let ghost all = windows@;
        let mut windows = windows;
        let a = self.active_workspace;
        while windows.len() > 0
            invariant
                self.wf(),
                a == self.active_workspace,
                a == before.active_workspace,
                self.spec_config() == before.spec_config(),
                self.spec_displays() == before.spec_displays(),
                self.spec_focused() == before.spec_focused(),
                others_unchanged(before.spec_workspaces(), self.spec_workspaces(), a as int),
                self.active().spec_windows() + windows@ == before.active().spec_windows() + all,
                self.active().spec_name() == before.active().spec_name(),
                self.active().spec_layout() == before.active().spec_layout(),
                self.active().spec_tree().last_id() + 2 * windows@.len() <= u64::MAX,
                all.len() == 0 ==> *self == before,
            decreases windows@.len(),
        {
            let ghost rest = windows@;
            let win = windows.remove(0);
            proof {
                assert(self.workspaces@[a as int].wf());
            }
            let ghost prev = *self;
            self.workspaces[a].add_window(win);
            proof {
                assert forall|i: int| 0 <= i < self.spec_workspaces().len() implies #[trigger] self.spec_workspaces()[i].wf() by {
                    if i != a {
                        assert(self.spec_workspaces()[i] == prev.spec_workspaces()[i]);
                    }
                }
                assert(rest =~= seq![win] + windows@);
                assert(self.active().spec_windows() + windows@ =~= prev.active().spec_windows() + rest);
                assert(all.len() > 0) by {
                    if all.len() == 0 {
                        assert((prev.active().spec_windows() + rest).len() == before.active().spec_windows().len());
                    }
                }
            }
        }
        proof {
            assert(self.active().spec_windows() =~= self.active().spec_windows() + windows@);
        }
    }

    /// Add the windows the platform lists to the active workspace and retile.
    fn scan_windows(&mut self) -> (r: Result<(), crate::window::WindowError>)
        requires
            old(self).wf(),
        ensures
            final(self).wf(),
            *final(self) == *old(self),
            r is Ok,
    {
        let windows = match Window::list_all() {
            Ok(v) => v,
            Err(e) => {
                return Err(e);
            },
        };
        self.add_windows(windows);
        let _ = self.retile();
        Ok(())
    }

    /// Take the displays the platform reports, then discover the existing windows
    /// and lay them out: what the daemon does before it starts serving commands.
    pub fn start(&mut self, displays: Vec<Display>) -> (r: Result<(), crate::window::WindowError>)
        requires
            old(self).wf(),
        ensures
            final(self).wf(),
            r is Ok,
            final(self).spec_displays() == displays@,
            final(self).spec_workspaces() == old(self).spec_workspaces(),
            final(self).spec_active() == old(self).spec_active(),
            final(self).spec_config() == old(self).spec_config(),
            final(self).spec_focused() == old(self).spec_focused(),
    {
        self.displays = displays;
        self.scan_windows()
    }
}


/// The number of windows over all workspaces of `wss`.
pub open spec fn window_total(wss: Seq<Workspace>) -> int
    decreases wss.len(),
{
    if wss.len() == 0 {
        0
    } else {
        window_total(wss.drop_last()) + wss.last().spec_windows().len()
    }
}

proof fn lemma_window_total_update(o: Seq<Workspace>, f: Seq<Workspace>, i: int)
    requires
        0 <= i < o.len(),
        others_unchanged(o, f, i),
    ensures
        window_total(f) == window_total(o) - o[i].spec_windows().len() + f[i].spec_windows().len(),
    decreases o.len(),
{
    if i == o.len() - 1 {
        assert(f.drop_last() =~= o.drop_last());
    } else {
        lemma_window_total_update(o.drop_last(), f.drop_last(), i);
    }
}

proof fn lemma_first_name_exists(wss: Seq<Workspace>, name: Seq<char>, k: int)
    requires
        0 <= k < wss.len(),
        wss[k].spec_name() == name,
    ensures
        exists|i: int|
            0 <= i < wss.len() && (#[trigger] wss[i]).spec_name() == name && forall|j: int|
                0 <= j < i ==> wss[j].spec_name() != name,
    decreases k,
{
    if exists|j: int| 0 <= j < k && (#[trigger] wss[j]).spec_name() == name {
        let j = choose|j: int| 0 <= j < k && (#[trigger] wss[j]).spec_name() == name;
        lemma_first_name_exists(wss, name, j);
    } else {
        assert(forall|j: int| 0 <= j < k ==> wss[j].spec_name() != name);
    }
}

/// The first workspace with a name is one of the workspaces, and has that name.
proof fn lemma_first_named_in_range(wss: Seq<Workspace>, name: Seq<char>)
    ensures
        first_named(wss, name) matches Some(t) ==> 0 <= t < wss.len() && wss[t].spec_name() == name,
{
    if exists|i: int| 0 <= i < wss.len() && (#[trigger] wss[i]).spec_name() == name {
        let k = choose|i: int| 0 <= i < wss.len() && (#[trigger] wss[i]).spec_name() == name;
        lemma_first_name_exists(wss, name, k);
    }
}

/// A removal of window `w` that returns a window leaves one window fewer.
proof fn lemma_removed_one_fewer(o: Workspace, f: Workspace, w: u32, win: Window)
    requires
        window_removed(o, f, w, Some(win)),
    ensures
        f.spec_windows().len() + 1 == o.spec_windows().len(),
{
    let i = choose|i: int|
        #![trigger o.spec_windows()[i]]
        {
            &&& 0 <= i < o.spec_windows().len()
            &&& o.spec_windows()[i].id == w
            &&& forall|j: int| 0 <= j < i ==> o.spec_windows()[j].id != w
            &&& win == o.spec_windows()[i]
            &&& f.spec_windows() == o.spec_windows().remove(i)
        };
}

proof fn lemma_close_keeps_windows(o: WindowManager, f: WindowManager)
    requires
        o.wf(),
        focused_closed(o, f),
    ensures
        window_total(f.spec_workspaces()) == window_total(o.spec_workspaces())
            || window_total(f.spec_workspaces()) + 1 == window_total(o.spec_workspaces()),
{
    lemma_window_total_update(o.spec_workspaces(), f.spec_workspaces(), o.spec_active());
    if let Some(w) = o.spec_focused() {
        let r = choose|r: Option<Window>| #[trigger] window_removed(o.active(), f.active(), w, r);
        if let Some(win) = r {
            lemma_removed_one_fewer(o.active(), f.active(), w, win);
        }
    }
}

proof fn lemma_move_to_workspace_keeps_windows(o: WindowManager, f: WindowManager, name: Seq<char>)
    requires
        o.wf(),
        moved_to_workspace(o, f, name),
    ensures
        window_total(f.spec_workspaces()) == window_total(o.spec_workspaces()),
{
    let a = o.spec_active();
    let ow = o.spec_workspaces();
    let fw = f.spec_workspaces();
    if let (Some(t), Some(w)) = (first_named(ow, name), o.spec_focused()) {
        if ids_of(o.active().spec_windows()).contains(w) {
            assert(some_window_moved(ow, fw, a, t, w));
            let win = choose|win: Window| #[trigger] window_moved_between(ow, fw, a, t, w, win);
            lemma_first_named_in_range(ow, name);
            if t == a {
                let m = choose|m: Workspace|
                    #[trigger] window_removed(ow[a], m, w, Some(win)) && window_added(m, fw[a], win);
                lemma_removed_one_fewer(ow[a], m, w, win);
                lemma_window_total_update(ow, fw, a);
            } else {
                lemma_removed_one_fewer(ow[a], fw[a], w, win);
                let m = ow.update(a, fw[a]);
                lemma_window_total_update(ow, m, a);
                lemma_window_total_update(m, fw, t);
            }
        } else {
            assert(fw == ow);
        }
    } else {
        assert(fw == ow);
    }
}

/// Law: no command loses or duplicates a window: every command but `close` keeps
/// the number of windows over all workspaces, and `close` removes at most one.
pub proof fn lemma_commands_keep_windows(o: WindowManager, f: WindowManager, cmd: IpcCommand, r: Seq<String>)
    requires
        o.wf(),
        command_handled(o, f, cmd, r),
    ensures
        match cmd {
            IpcCommand::Close => window_total(f.spec_workspaces()) == window_total(o.spec_workspaces())
                || window_total(f.spec_workspaces()) + 1 == window_total(o.spec_workspaces()),
            _ => window_total(f.spec_workspaces()) == window_total(o.spec_workspaces()),
        },
{
    match cmd {
        IpcCommand::Move(d) => {
            assert(window_moved(o, f, d));
            lemma_window_total_update(o.spec_workspaces(), f.spec_workspaces(), o.spec_active());
        },
        IpcCommand::Layout(k) => {
            assert(layout_set(o, f, k));
            lemma_window_total_update(o.spec_workspaces(), f.spec_workspaces(), o.spec_active());
        },
        IpcCommand::Close => {
            lemma_close_keeps_windows(o, f);
        },
        IpcCommand::MoveToWorkspace(name) => {
            lemma_move_to_workspace_keeps_windows(o, f, name@);
        },
        _ => {},
    }
}

} // verus!
