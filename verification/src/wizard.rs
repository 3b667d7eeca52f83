use vstd::prelude::*;
use vstd::string::StringExecFns;
use crate::text::{all_white_space, concat, decimal, decimal_string, is_blank, signed_decimal, signed_decimal_string};

verus! {

/// The answers collected by the setup wizard.
#[derive(Clone)]
pub struct WizardData {
    pub inner_h: i32,
    pub inner_v: i32,
    pub outer_all: i32,
    pub layout_tiles: bool,
    pub accordion_pad: i32,
    pub workspace_names: Vec<String>,
    /// `alt`, `cmd` or `ctrl`.
    pub modifier: String,
    pub float_apps: Vec<String>,
}

impl Default for WizardData {
    /// Gaps of 10, the tiles layout, an accordion padding of 30, workspaces `1` to
    /// `9`, the `alt` modifier, and three floating apps with two empty slots.
    fn default() -> (r: Self)
        ensures
            r.inner_h == 10,
            r.inner_v == 10,
            r.outer_all == 10,
            r.layout_tiles,
            r.accordion_pad == 30,
            r.workspace_names@.len() == 9,
            forall|i: int| 0 <= i < 9 ==> (#[trigger] r.workspace_names@[i])@ == decimal((i + 1) as nat),
            r.modifier@ == "alt"@,
            r.float_apps@.len() == 5,
            r.float_apps@[0]@ == "System Preferences"@,
            r.float_apps@[1]@ == "Calculator"@,
            r.float_apps@[2]@ == "Finder"@,
            r.float_apps@[3]@ == Seq::<char>::empty(),
            r.float_apps@[4]@ == Seq::<char>::empty(),
    {
        let mut names: Vec<String> = Vec::new();
        let mut i: u64 = 1;
        while i <= 9
            invariant
                1 <= i <= 10,
                names@.len() == i - 1,
                forall|j: int| 0 <= j < i - 1 ==> (#[trigger] names@[j])@ == decimal((j + 1) as nat),
            decreases 10 - i,
        {
            names.push(decimal_string(i));
            i = i + 1;
        }
        Self {
            inner_h: 10,
            inner_v: 10,
            outer_all: 10,
            layout_tiles: true,
            accordion_pad: 30,
            workspace_names: names,
            modifier: "alt".to_owned(),
            float_apps: vec![
                "System Preferences".to_owned(),
                "Calculator".to_owned(),
                "Finder".to_owned(),
                String::new(),
                String::new(),
            ],
        }
    }
}

/// What one page of the setup wizard collects.
pub enum PageAnswers {
    /// The gap sliders, in pixels.
    Gaps { inner_h: i32, inner_v: i32, outer_all: i32 },
    /// Whether the tiles radio button is on, and the accordion padding slider.
    Layout { tiles: bool, accordion_pad: i32 },
    /// The workspace name fields.
    Workspaces(Vec<String>),
    /// Whether the command and the control radio buttons are on.
    Modifier { cmd: bool, ctrl: bool },
    /// The floating app fields.
    FloatApps(Vec<String>),
}

/// The modifier that the radio buttons select: `cmd`, else `ctrl`, else `alt`.
pub open spec fn picked_modifier(cmd: bool, ctrl: bool) -> Seq<char> {
    if cmd {
        "cmd"@
    } else if ctrl {
        "ctrl"@
    } else {
        "alt"@
    }
}

impl WizardData {
    /// Take the answers of one page into the wizard's data; every other answer is
    /// kept.
    pub fn apply(&mut self, answers: PageAnswers)
        ensures
            final(self).inner_h == match answers {
                PageAnswers::Gaps { inner_h, .. } => inner_h,
                _ => old(self).inner_h,
            },
            final(self).inner_v == match answers {
                PageAnswers::Gaps { inner_v, .. } => inner_v,
                _ => old(self).inner_v,
            },
            final(self).outer_all == match answers {
                PageAnswers::Gaps { outer_all, .. } => outer_all,
                _ => old(self).outer_all,
            },
            final(self).layout_tiles == match answers {
                PageAnswers::Layout { tiles, .. } => tiles,
                _ => old(self).layout_tiles,
            },
            final(self).accordion_pad == match answers {
                PageAnswers::Layout { accordion_pad, .. } => accordion_pad,
                _ => old(self).accordion_pad,
            },
            final(self).workspace_names@ == match answers {
                PageAnswers::Workspaces(names) => names@,
                _ => old(self).workspace_names@,
            },
            final(self).modifier@ == match answers {
                PageAnswers::Modifier { cmd, ctrl } => picked_modifier(cmd, ctrl),
                _ => old(self).modifier@,
            },
            final(self).float_apps@ == match answers {
                PageAnswers::FloatApps(apps) => apps@,
                _ => old(self).float_apps@,
            },
    {
        match answers {
            PageAnswers::Gaps { inner_h, inner_v, outer_all } => {
                self.inner_h = inner_h;
                self.inner_v = inner_v;
                self.outer_all = outer_all;
            },
            PageAnswers::Layout { tiles, accordion_pad } => {
                self.layout_tiles = tiles;
                self.accordion_pad = accordion_pad;
            },
            PageAnswers::Workspaces(names) => {
                self.workspace_names = names;
            },
            PageAnswers::Modifier { cmd, ctrl } => {
                self.modifier = if cmd {
                    "cmd".to_owned()
                } else if ctrl {
                    "ctrl".to_owned()
                } else {
                    "alt".to_owned()
                };
                proof {
                    reveal_strlit("cmd");
                    reveal_strlit("ctrl");
                    reveal_strlit("alt");
                }
            },
            PageAnswers::FloatApps(apps) => {
                self.float_apps = apps;
            },
        }
    }
}

/// A quoted TOML string value.
pub open spec fn quoted(s: Seq<char>) -> Seq<char> {
    "\""@ + s + "\""@
}

/// The `[gaps]` and `[mode]` tables of the generated configuration.
pub open spec fn toml_header(d: WizardData) -> Seq<char> {
    let layout = if d.layout_tiles {
        "tiles"@
    } else {
        "accordion"@
    };
    let outer = signed_decimal(d.outer_all as int);
    "# yabai-rs config — generated by Setup Wizard\n\n[gaps]\ninner-horizontal = "@
        + signed_decimal(d.inner_h as int) + "\ninner-vertical   = "@ + signed_decimal(
        d.inner_v as int,
    ) + "\nouter-left       = "@ + outer + "\nouter-right      = "@ + outer
        + "\nouter-top        = "@ + outer + "\nouter-bottom     = "@ + outer
        + "\n\n[mode]\ndefault-layout    = "@ + quoted(layout) + "\naccordion-padding = "@
        + signed_decimal(d.accordion_pad as int) + "\n\n"@
}

/// A `[[keybindings]]` entry.
pub open spec fn keybinding_entry(key: Seq<char>, command: Seq<char>) -> Seq<char> {
    "[[keybindings]]\nkey     = "@ + quoted(key) + "\ncommand = "@ + quoted(command) + "\n\n"@
}

/// The `[[workspaces]]` entries for the names that are not blank.
pub open spec fn workspace_entries(names: Seq<Seq<char>>) -> Seq<char>
    decreases names.len(),
{
    if names.len() == 0 {
        Seq::empty()
    } else {
        let name = names.last();
        workspace_entries(names.drop_last()) + if all_white_space(name) {
            Seq::empty()
        } else {
            "[[workspaces]]\nname = "@ + quoted(name) + "\n\n"@
        }
    }
}

/// The keys and commands bound to the modifier for navigation and layout.
pub open spec fn nav_bindings() -> Seq<(Seq<char>, Seq<char>)> {
    seq![
        ("h"@, "focus left"@),
        ("j"@, "focus down"@),
        ("k"@, "focus up"@),
        ("l"@, "focus right"@),
        ("shift-h"@, "move left"@),
        ("shift-j"@, "move down"@),
        ("shift-k"@, "move up"@),
        ("shift-l"@, "move right"@),
        ("/"@, "layout tiles"@),
        (","@, "layout accordion"@),
        ("f"@, "fullscreen"@),
        ("shift-q"@, "close"@)
    ]
}

/// The keybinding entries of the first `k` navigation bindings.
pub open spec fn nav_entries(modifier: Seq<char>, k: int) -> Seq<char>
    decreases k,
{
    if k <= 0 {
        Seq::empty()
    } else {
        let (key, cmd) = nav_bindings()[k - 1];
        nav_entries(modifier, k - 1) + keybinding_entry(modifier + "-"@ + key, cmd)
    }
}

/// The keybindings that switch to and move windows to each workspace whose name is
/// not blank.
pub open spec fn workspace_bindings(modifier: Seq<char>, names: Seq<Seq<char>>) -> Seq<char>
    decreases names.len(),
{
    if names.len() == 0 {
        Seq::empty()
    } else {
        let name = names.last();
        workspace_bindings(modifier, names.drop_last()) + if all_white_space(name) {
            Seq::empty()
        } else {
            keybinding_entry(modifier + "-"@ + name, "workspace "@ + name) + keybinding_entry(
                modifier + "-shift-"@ + name,
                "move-node-to-workspace "@ + name,
            )
        }
    }
}

/// The `[[on-window-detected]]` rules that float each app whose name is not blank.
pub open spec fn float_rules(apps: Seq<Seq<char>>) -> Seq<char>
    decreases apps.len(),
{
    if apps.len() == 0 {
        Seq::empty()
    } else {
        let app = apps.last();
        float_rules(apps.drop_last()) + if all_white_space(app) {
            Seq::empty()
        } else {
            "[[on-window-detected]]\napp     = "@ + quoted(app) + "\ncommand = \"layout floating\"\n\n"@
        }
    }
}

/// The text of a sequence of strings.
pub open spec fn texts(v: Seq<String>) -> Seq<Seq<char>> {
    v.map_values(|s: String| s@)
}

/// The configuration file the wizard writes for its answers `d`.
pub open spec fn spec_generate_toml(d: WizardData) -> Seq<char> {
    toml_header(d) + workspace_entries(texts(d.workspace_names@)) + nav_entries(d.modifier@, 12)
        + workspace_bindings(d.modifier@, texts(d.workspace_names@)) + float_rules(
        texts(d.float_apps@),
    )
}

fn quote_into(s: &mut String, v: &str)
    ensures
        final(s)@ == old(s)@ + quoted(v@),
{
    s.append("\"");
    s.append(v);
    s.append("\"");
    proof {
        assert(final(s)@ =~= old(s)@ + quoted(v@));
    }
}

fn push_keybinding(s: &mut String, key: &str, command: &str)
    ensures
        final(s)@ == old(s)@ + keybinding_entry(key@, command@),
{
    let ghost s0 = s@;
    s.append("[[keybindings]]\nkey     = ");
    quote_into(s, key);
    s.append("\ncommand = ");
    quote_into(s, command);
    s.append("\n\n");
    proof {
        assert(s@ =~= s0 + keybinding_entry(key@, command@));
    }
}

/// The configuration file for the wizard's answers `d`, in TOML.
pub fn generate_toml(d: &WizardData) -> (r: String)
    ensures
        r@ == spec_generate_toml(*d),
{
    let layout = if d.layout_tiles {
        "tiles"
    } else {
        "accordion"
    };
    let outer = signed_decimal_string(d.outer_all);
    let mut s = concat(
        "# yabai-rs config — generated by Setup Wizard\n\n[gaps]\ninner-horizontal = ",
        signed_decimal_string(d.inner_h).as_str(),
    );
    s.append("\ninner-vertical   = ");
    s.append(signed_decimal_string(d.inner_v).as_str());
    s.append("\nouter-left       = ");
    s.append(outer.as_str());
    s.append("\nouter-right      = ");
    s.append(outer.as_str());
    s.append("\nouter-top        = ");
    s.append(outer.as_str());
    s.append("\nouter-bottom     = ");
    s.append(outer.as_str());
    s.append("\n\n[mode]\ndefault-layout    = ");
    quote_into(&mut s, layout);
    s.append("\naccordion-padding = ");
    s.append(signed_decimal_string(d.accordion_pad).as_str());
    s.append("\n\n");
    proof {
        assert(s@ =~= toml_header(*d));
    }
    let ghost names = texts(d.workspace_names@);
    let ghost base = s@;
    let mut i: usize = 0;
    while i < d.workspace_names.len()
        invariant
            names == texts(d.workspace_names@),
            i <= d.workspace_names@.len(),
            s@ == base + workspace_entries(names.take(i as int)),
        decreases d.workspace_names@.len() - i,
    {
        let name = d.workspace_names[i].as_str();
        proof {
            assert(names.take(i + 1).drop_last() =~= names.take(i as int));
            assert(names.take(i + 1).last() == name@);
        }
        if !is_blank(name) {
            s.append("[[workspaces]]\nname = ");
            quote_into(&mut s, name);
            s.append("\n\n");
        }
        proof {
            assert(s@ =~= base + workspace_entries(names.take(i + 1)));
        }
        i = i + 1;
    }
    proof {
        assert(names.take(names.len() as int) =~= names);
    }
    let ghost base2 = s@;
    let nav: [(&str, &str); 12] = [
        ("h", "focus left"),
        ("j", "focus down"),
        ("k", "focus up"),
        ("l", "focus right"),
        ("shift-h", "move left"),
        ("shift-j", "move down"),
        ("shift-k", "move up"),
        ("shift-l", "move right"),
        ("/", "layout tiles"),
        (",", "layout accordion"),
        ("f", "fullscreen"),
        ("shift-q", "close"),
    ];
    let mut k: usize = 0;
    while k < 12
        invariant
            k <= 12,
            nav@.len() == 12,
            forall|j: int| 0 <= j < 12 ==> #[trigger] nav@[j].0@ == nav_bindings()[j].0 && nav@[j].1@ == nav_bindings()[j].1,
            s@ == base2 + nav_entries(d.modifier@, k as int),
        decreases 12 - k,
    {
        let (key, cmd) = nav[k];
        let full_key = concat(concat(d.modifier.as_str(), "-").as_str(), key);
        push_keybinding(&mut s, full_key.as_str(), cmd);
        proof {
            assert(s@ =~= base2 + nav_entries(d.modifier@, k + 1));
        }
        k = k + 1;
    }
    let ghost base3 = s@;
    let mut i: usize = 0;
    while i < d.workspace_names.len()
        invariant
            names == texts(d.workspace_names@),
            i <= d.workspace_names@.len(),
            s@ == base3 + workspace_bindings(d.modifier@, names.take(i as int)),
        decreases d.workspace_names@.len() - i,
    {
        let name = d.workspace_names[i].as_str();
        proof {
            assert(names.take(i + 1).drop_last() =~= names.take(i as int));
            assert(names.take(i + 1).last() == name@);
        }
        if !is_blank(name) {
            let key = concat(concat(d.modifier.as_str(), "-").as_str(), name);
            let cmd = concat("workspace ", name);
            push_keybinding(&mut s, key.as_str(), cmd.as_str());
            let key2 = concat(concat(d.modifier.as_str(), "-shift-").as_str(), name);
            let cmd2 = concat("move-node-to-workspace ", name);
            push_keybinding(&mut s, key2.as_str(), cmd2.as_str());
        }
        proof {
            assert(s@ =~= base3 + workspace_bindings(d.modifier@, names.take(i + 1)));
        }
        i = i + 1;
    }
    let ghost apps = texts(d.float_apps@);
    let ghost base4 = s@;
    let mut i: usize = 0;
    while i < d.float_apps.len()
        invariant
            apps == texts(d.float_apps@),
            i <= d.float_apps@.len(),
            s@ == base4 + float_rules(apps.take(i as int)),
        decreases d.float_apps@.len() - i,
    {
        let app = d.float_apps[i].as_str();
        proof {
            assert(apps.take(i + 1).drop_last() =~= apps.take(i as int));
            assert(apps.take(i + 1).last() == app@);
        }
        if !is_blank(app) {
            s.append("[[on-window-detected]]\napp     = ");
            quote_into(&mut s, app);
            s.append("\ncommand = \"layout floating\"\n\n");
        }
        proof {
            assert(s@ =~= base4 + float_rules(apps.take(i + 1)));
        }
        i = i + 1;
    }
    proof {
        assert(apps.take(apps.len() as int) =~= apps);
        assert(s@ =~= spec_generate_toml(*d));
    }
    s
}


/// The strings of `s` that are not blank, in order.
pub open spec fn non_blank(s: Seq<Seq<char>>) -> Seq<Seq<char>> {
    s.filter(|x: Seq<char>| !all_white_space(x))
}

proof fn lemma_non_blank_step(s: Seq<Seq<char>>)
    requires
        s.len() > 0,
    ensures
        non_blank(s) == if all_white_space(s.last()) {
            non_blank(s.drop_last())
        } else {
            non_blank(s.drop_last()).push(s.last())
        },
{
    reveal(Seq::filter);
}

proof fn lemma_sections_skip_blank(modifier: Seq<char>, s: Seq<Seq<char>>)
    ensures
        workspace_entries(non_blank(s)) == workspace_entries(s),
        workspace_bindings(modifier, non_blank(s)) == workspace_bindings(modifier, s),
        float_rules(non_blank(s)) == float_rules(s),
    decreases s.len(),
{
    if s.len() == 0 {
        reveal(Seq::filter);
    } else {
        lemma_sections_skip_blank(modifier, s.drop_last());
        lemma_non_blank_step(s);
        let t = non_blank(s.drop_last());
        if !all_white_space(s.last()) {
            assert(t.push(s.last()).drop_last() =~= t);
            assert(t.push(s.last()).last() == s.last());
        }
    }
}

/// Law: blank workspace names and blank floating apps contribute nothing to the
/// generated configuration, wherever they stand: answers that leave them out give
/// the same text.
pub proof fn lemma_blank_names_contribute_nothing(d: WizardData, d2: WizardData)
    requires
        texts(d2.workspace_names@) == non_blank(texts(d.workspace_names@)),
        texts(d2.float_apps@) == non_blank(texts(d.float_apps@)),
        d2.inner_h == d.inner_h,
        d2.inner_v == d.inner_v,
        d2.outer_all == d.outer_all,
        d2.layout_tiles == d.layout_tiles,
        d2.accordion_pad == d.accordion_pad,
        d2.modifier@ == d.modifier@,
    ensures
        spec_generate_toml(d2) == spec_generate_toml(d),
{
    lemma_sections_skip_blank(d.modifier@, texts(d.workspace_names@));
    lemma_sections_skip_blank(d.modifier@, texts(d.float_apps@));
}

} // verus!
