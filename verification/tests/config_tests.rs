use yabai_rs::config::{
    default_accordion_padding, default_inner_horizontal, default_inner_vertical, default_keybindings,
    default_layout, default_outer, Config, GapsConfig, LayoutKind, ModeConfig,
};
use yabai_rs::text::{decimal_string, is_blank, signed_decimal_string, split_words, str_eq};

#[test]
fn default_values() {
    assert_eq!(default_inner_horizontal(), 10);
    assert_eq!(default_inner_vertical(), 10);
    assert_eq!(default_outer(), 10);
    assert_eq!(default_layout(), LayoutKind::Tiles);
    assert_eq!(default_accordion_padding(), 30);
    let g = GapsConfig::default();
    assert_eq!((g.inner_horizontal, g.inner_vertical, g.outer_left, g.outer_right, g.outer_top, g.outer_bottom), (10, 10, 10, 10, 10, 10));
    let m = ModeConfig::default();
    assert_eq!(m.default_layout, LayoutKind::Tiles);
    assert_eq!(m.accordion_padding, 30);
}

#[test]
fn default_config_has_nine_workspaces() {
    let c = Config::default();
    let names: Vec<&str> = c.workspaces.iter().map(|w| w.name.as_str()).collect();
    assert_eq!(names, vec!["1", "2", "3", "4", "5", "6", "7", "8", "9"]);
    assert!(c.workspaces.iter().all(|w| w.display.is_none() && !w.auto_back_and_forth));
    assert!(c.on_window_detected.is_empty());
    assert!(c.exec_on_workspace_change.is_empty());
    assert_eq!(c.keybindings.len(), 30);
}

#[test]
fn default_keybindings_content() {
    let k = default_keybindings();
    assert_eq!(k.len(), 30);
    assert_eq!((k[0].key.as_str(), k[0].command.as_str()), ("alt-h", "focus left"));
    assert_eq!((k[8].key.as_str(), k[8].command.as_str()), ("alt-1", "workspace 1"));
    assert_eq!((k[25].key.as_str(), k[25].command.as_str()), ("alt-shift-9", "move-node-to-workspace 9"));
    assert_eq!((k[29].key.as_str(), k[29].command.as_str()), ("alt-shift-q", "close"));
}

#[test]
fn decimal_strings() {
    assert_eq!(decimal_string(0), "0");
    assert_eq!(decimal_string(12345), "12345");
    assert_eq!(decimal_string(u64::MAX), u64::MAX.to_string());
    assert_eq!(signed_decimal_string(-7), "-7");
    assert_eq!(signed_decimal_string(i32::MIN), "-2147483648");
    assert_eq!(signed_decimal_string(40), "40");
}

#[test]
fn words_and_blanks() {
    assert_eq!(split_words("  a bc\td \n"), vec!["a", "bc", "d"]);
    assert_eq!(split_words(""), Vec::<String>::new());
    assert_eq!(split_words("\u{a0}x\u{2003}y"), vec!["x", "y"]);
    assert!(is_blank(""));
    assert!(is_blank(" \t\n\u{3000}"));
    assert!(!is_blank(" x "));
    assert!(str_eq("abc", "abc"));
    assert!(!str_eq("abc", "abd"));
}
