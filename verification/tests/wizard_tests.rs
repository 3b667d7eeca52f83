use yabai_rs::wizard::{generate_toml, PageAnswers, WizardData};

const NAV: [(&str, &str); 12] = [
    ("h", "focus left"),
    ("j", "focus down"),
    ("k", "focus up"),
    ("l", "focus right"),
    ("shift-h", "move left"),
    ("shift-j", "move down"),
    ("shift-k", "move up"),
    ("shift-l", "move right"),
    ("/", "layout tiles"),
    (",", "layout accordion"),
    ("f", "fullscreen"),
    ("shift-q", "close"),
];

fn nav_block(modifier: &str) -> String {
    let mut s = String::new();
    for (key, cmd) in NAV {
        s += &format!("[[keybindings]]\nkey     = \"{modifier}-{key}\"\ncommand = \"{cmd}\"\n\n");
    }
    s
}

#[test]
fn wizard_defaults() {
    let d = WizardData::default();
    assert_eq!((d.inner_h, d.inner_v, d.outer_all), (10, 10, 10));
    assert!(d.layout_tiles);
    assert_eq!(d.accordion_pad, 30);
    assert_eq!(d.workspace_names, (1..=9).map(|i| i.to_string()).collect::<Vec<_>>());
    assert_eq!(d.modifier, "alt");
    assert_eq!(d.float_apps, vec!["System Preferences", "Calculator", "Finder", "", ""]);
}

#[test]
fn generate_toml_writes_every_section() {
    let d = WizardData {
        inner_h: 5,
        inner_v: -3,
        outer_all: 8,
        layout_tiles: false,
        accordion_pad: 20,
        workspace_names: vec!["a".to_string(), "  ".to_string()],
        modifier: "cmd".to_string(),
        float_apps: vec!["Finder".to_string(), String::new()],
    };
    let mut expected = String::from(
        "# yabai-rs config — generated by Setup Wizard\n\n\
         [gaps]\n\
         inner-horizontal = 5\n\
         inner-vertical   = -3\n\
         outer-left       = 8\n\
         outer-right      = 8\n\
         outer-top        = 8\n\
         outer-bottom     = 8\n\n\
         [mode]\n\
         default-layout    = \"accordion\"\n\
         accordion-padding = 20\n\n\
         [[workspaces]]\nname = \"a\"\n\n",
    );
    expected += &nav_block("cmd");
    expected += "[[keybindings]]\nkey     = \"cmd-a\"\ncommand = \"workspace a\"\n\n";
    expected += "[[keybindings]]\nkey     = \"cmd-shift-a\"\ncommand = \"move-node-to-workspace a\"\n\n";
    expected += "[[on-window-detected]]\napp     = \"Finder\"\ncommand = \"layout floating\"\n\n";
    assert_eq!(generate_toml(&d), expected);
}

#[test]
fn generate_toml_of_defaults() {
    let d = WizardData::default();
    let out = generate_toml(&d);
    assert!(out.starts_with("# yabai-rs config — generated by Setup Wizard\n\n[gaps]\ninner-horizontal = 10\n"));
    assert!(out.contains("default-layout    = \"tiles\"\naccordion-padding = 30\n\n"));
    assert_eq!(out.matches("[[workspaces]]").count(), 9);
    assert_eq!(out.matches("[[keybindings]]").count(), 12 + 18);
    assert_eq!(out.matches("[[on-window-detected]]").count(), 3);
    assert!(out.contains(&nav_block("alt")));
    assert!(out.ends_with("[[on-window-detected]]\napp     = \"Finder\"\ncommand = \"layout floating\"\n\n"));
}

#[test]
fn generate_toml_skips_blank_names() {
    let d = WizardData {
        inner_h: 0,
        inner_v: 0,
        outer_all: 0,
        layout_tiles: true,
        accordion_pad: 0,
        workspace_names: vec![" \t".to_string(), String::new()],
        modifier: "ctrl".to_string(),
        float_apps: vec!["\n".to_string()],
    };
    let out = generate_toml(&d);
    assert!(!out.contains("[[workspaces]]"));
    assert!(!out.contains("[[on-window-detected]]"));
    assert!(out.ends_with(&nav_block("ctrl")));
}

#[test]
fn pages_fill_their_answers() {
    let mut d = WizardData::default();
    d.apply(PageAnswers::Gaps { inner_h: 4, inner_v: 6, outer_all: 8 });
    assert_eq!((d.inner_h, d.inner_v, d.outer_all), (4, 6, 8));
    d.apply(PageAnswers::Layout { tiles: false, accordion_pad: 12 });
    assert!(!d.layout_tiles);
    assert_eq!(d.accordion_pad, 12);
    d.apply(PageAnswers::Workspaces(vec!["web".to_string(), String::new()]));
    assert_eq!(d.workspace_names, vec!["web", ""]);
    d.apply(PageAnswers::Modifier { cmd: false, ctrl: true });
    assert_eq!(d.modifier, "ctrl");
    d.apply(PageAnswers::Modifier { cmd: true, ctrl: true });
    assert_eq!(d.modifier, "cmd");
    d.apply(PageAnswers::Modifier { cmd: false, ctrl: false });
    assert_eq!(d.modifier, "alt");
    d.apply(PageAnswers::FloatApps(vec!["Notes".to_string()]));
    assert_eq!(d.float_apps, vec!["Notes"]);
    assert_eq!((d.inner_h, d.accordion_pad), (4, 12));
}

#[test]
fn blank_names_anywhere_contribute_nothing() {
    let mut d = WizardData::default();
    d.workspace_names = vec![" ".to_string(), "a".to_string(), "\t".to_string(), "b".to_string()];
    d.float_apps = vec!["".to_string(), "Finder".to_string(), "  ".to_string()];
    let mut d2 = d.clone();
    d2.workspace_names = vec!["a".to_string(), "b".to_string()];
    d2.float_apps = vec!["Finder".to_string()];
    assert_eq!(generate_toml(&d), generate_toml(&d2));
}
