use vstd::prelude::*;
use crate::text::{decimal, decimal_string};

verus! {

/// The daemon's configuration, as read from its TOML file.
#[derive(Debug, Clone)]
pub struct Config {
    pub gaps: GapsConfig,
    pub mode: ModeConfig,
    pub workspaces: Vec<WorkspaceConfig>,
    pub keybindings: Vec<Keybinding>,
    pub on_window_detected: Vec<OnWindowDetected>,
    pub exec_on_workspace_change: Vec<String>,
}

/// Gap sizes in pixels.
#[derive(Debug, Clone, Copy, PartialEq, Eq, Structural)]
pub struct GapsConfig {
    pub inner_horizontal: i32,
    pub inner_vertical: i32,
    pub outer_left: i32,
    pub outer_right: i32,
    pub outer_top: i32,
    pub outer_bottom: i32,
}

/// The default horizontal gap between windows.
pub fn default_inner_horizontal() -> (r: i32)
    ensures
        r == 10,
{
    10
}

/// The default vertical gap between windows.
pub fn default_inner_vertical() -> (r: i32)
    ensures
        r == 10,
{
    10
}

/// The default gap at each screen edge.
pub fn default_outer() -> (r: i32)
    ensures
        r == 10,
{
    10
}

impl Default for GapsConfig {
    fn default() -> (r: Self)
        ensures
            r == (GapsConfig {
                inner_horizontal: 10,
                inner_vertical: 10,
                outer_left: 10,
                outer_right: 10,
                outer_top: 10,
                outer_bottom: 10,
            }),
    {
        Self {
            inner_horizontal: default_inner_horizontal(),
            inner_vertical: default_inner_vertical(),
            outer_left: default_outer(),
            outer_right: default_outer(),
            outer_top: default_outer(),
            outer_bottom: default_outer(),
        }
    }
}

/// How workspaces lay out their windows by default.
#[derive(Debug, Clone, Copy, PartialEq, Eq, Structural)]
pub struct ModeConfig {
    pub default_layout: LayoutKind,
    pub accordion_padding: i32,
}

/// The default layout of a workspace.
pub fn default_layout() -> (r: LayoutKind)
    ensures
        r == LayoutKind::Tiles,
{
    LayoutKind::Tiles
}

/// The default offset between stacked windows.
pub fn default_accordion_padding() -> (r: i32)
    ensures
        r == 30,
{
    30
}

impl Default for ModeConfig {
    fn default() -> (r: Self)
        ensures
            r == (ModeConfig { default_layout: LayoutKind::Tiles, accordion_padding: 30 }),
    {
        Self { default_layout: default_layout(), accordion_padding: default_accordion_padding() }
    }
}

/// The layouts a configuration can name.
#[derive(Debug, Clone, Copy, PartialEq, Eq, Structural)]
pub enum LayoutKind {
    Tiles,
    Accordion,
}

/// A named workspace.
#[derive(Debug, Clone)]
pub struct WorkspaceConfig {
    pub name: String,
    pub display: Option<u32>,
    pub auto_back_and_forth: bool,
}

/// A key chord and the command it runs.
#[derive(Debug, Clone)]
pub struct Keybinding {
    pub key: String,
    pub command: String,
}

/// A command to run for windows of a given app or title.
#[derive(Debug, Clone)]
pub struct OnWindowDetected {
    pub app: Option<String>,
    pub title: Option<String>,
    pub command: String,
}

/// The key chords and commands bound by default.
pub open spec fn default_keybinding_pairs() -> Seq<(Seq<char>, Seq<char>)> {
    seq![
        ("alt-h"@, "focus left"@),
        ("alt-j"@, "focus down"@),
        ("alt-k"@, "focus up"@),
        ("alt-l"@, "focus right"@),
        ("alt-shift-h"@, "move left"@),
        ("alt-shift-j"@, "move down"@),
        ("alt-shift-k"@, "move up"@),
        ("alt-shift-l"@, "move right"@),
        ("alt-1"@, "workspace 1"@),
        ("alt-2"@, "workspace 2"@),
        ("alt-3"@, "workspace 3"@),
        ("alt-4"@, "workspace 4"@),
        ("alt-5"@, "workspace 5"@),
        ("alt-6"@, "workspace 6"@),
        ("alt-7"@, "workspace 7"@),
        ("alt-8"@, "workspace 8"@),
        ("alt-9"@, "workspace 9"@),
        ("alt-shift-1"@, "move-node-to-workspace 1"@),
        ("alt-shift-2"@, "move-node-to-workspace 2"@),
        ("alt-shift-3"@, "move-node-to-workspace 3"@),
        ("alt-shift-4"@, "move-node-to-workspace 4"@),
        ("alt-shift-5"@, "move-node-to-workspace 5"@),
        ("alt-shift-6"@, "move-node-to-workspace 6"@),
        ("alt-shift-7"@, "move-node-to-workspace 7"@),
        ("alt-shift-8"@, "move-node-to-workspace 8"@),
        ("alt-shift-9"@, "move-node-to-workspace 9"@),
        ("alt-slash"@, "layout tiles horizontal vertical"@),
        ("alt-comma"@, "layout accordion horizontal vertical"@),
        ("alt-f"@, "fullscreen"@),
        ("alt-shift-q"@, "close"@)
    ]
}

fn binding(key: &str, command: &str) -> (r: Keybinding)
    ensures
        r.key@ == key@,
        r.command@ == command@,
{
    Keybinding { key: key.to_owned(), command: command.to_owned() }
}

/// The keybindings of the default configuration.
pub fn default_keybindings() -> (r: Vec<Keybinding>)
    ensures
        r@.len() == default_keybinding_pairs().len(),
        forall|i: int|
            0 <= i < r@.len() ==> (#[trigger] r@[i]).key@ == default_keybinding_pairs()[i].0
                && r@[i].command@ == default_keybinding_pairs()[i].1,
{
    let v = vec![
        // Focus movement
        binding("alt-h", "focus left"),
        binding("alt-j", "focus down"),
        binding("alt-k", "focus up"),
        binding("alt-l", "focus right"),
        // Move windows
        binding("alt-shift-h", "move left"),
        binding("alt-shift-j", "move down"),
        binding("alt-shift-k", "move up"),
        binding("alt-shift-l", "move right"),
        // Workspace switching
        binding("alt-1", "workspace 1"),
        binding("alt-2", "workspace 2"),
        binding("alt-3", "workspace 3"),
        binding("alt-4", "workspace 4"),
        binding("alt-5", "workspace 5"),
        binding("alt-6", "workspace 6"),
        binding("alt-7", "workspace 7"),
        binding("alt-8", "workspace 8"),
        binding("alt-9", "workspace 9"),
        // Move window to workspace
        binding("alt-shift-1", "move-node-to-workspace 1"),
        binding("alt-shift-2", "move-node-to-workspace 2"),
        binding("alt-shift-3", "move-node-to-workspace 3"),
        binding("alt-shift-4", "move-node-to-workspace 4"),
        binding("alt-shift-5", "move-node-to-workspace 5"),
        binding("alt-shift-6", "move-node-to-workspace 6"),
        binding("alt-shift-7", "move-node-to-workspace 7"),
        binding("alt-shift-8", "move-node-to-workspace 8"),
        binding("alt-shift-9", "move-node-to-workspace 9"),
        // Layout toggling
        binding("alt-slash", "layout tiles horizontal vertical"),
        binding("alt-comma", "layout accordion horizontal vertical"),
        // Fullscreen
        binding("alt-f", "fullscreen"),
        // Close
        binding("alt-shift-q", "close"),
    ];
    v
}

impl Default for Config {
    /// Default gaps and mode, nine workspaces named `1` to `9`, the default
    /// keybindings and no window rules.
    fn default() -> (r: Self)
        ensures
            r.gaps == (GapsConfig {
                inner_horizontal: 10,
                inner_vertical: 10,
                outer_left: 10,
                outer_right: 10,
                outer_top: 10,
                outer_bottom: 10,
            }),
            r.mode == (ModeConfig { default_layout: LayoutKind::Tiles, accordion_padding: 30 }),
            r.workspaces@.len() == 9,
            forall|i: int|
                0 <= i < 9 ==> (#[trigger] r.workspaces@[i]).name@ == decimal((i + 1) as nat)
                    && r.workspaces@[i].display is None && !r.workspaces@[i].auto_back_and_forth,
            r.keybindings@.len() == default_keybinding_pairs().len(),
            forall|i: int|
                0 <= i < r.keybindings@.len() ==> (#[trigger] r.keybindings@[i]).key@
                    == default_keybinding_pairs()[i].0 && r.keybindings@[i].command@
                    == default_keybinding_pairs()[i].1,
            r.on_window_detected@.len() == 0,
            r.exec_on_workspace_change@.len() == 0,
    {
        let mut workspaces: Vec<WorkspaceConfig> = Vec::new();
        let mut i: u64 = 1;
        while i <= 9
            invariant
                1 <= i <= 10,
                workspaces@.len() == i - 1,
                forall|j: int|
                    0 <= j < i - 1 ==> (#[trigger] workspaces@[j]).name@ == decimal((j + 1) as nat)
                        && workspaces@[j].display is None && !workspaces@[j].auto_back_and_forth,
            decreases 10 - i,
        {
            workspaces.push(
                WorkspaceConfig {
                    name: decimal_string(i),
                    display: None,
                    auto_back_and_forth: false,
                },
            );
            i = i + 1;
        }
        Self {
            gaps: GapsConfig::default(),
            mode: ModeConfig::default(),
            workspaces,
            keybindings: default_keybindings(),
            on_window_detected: Vec::new(),
            exec_on_workspace_change: Vec::new(),
        }
    }
}

} // verus!
