use yabai_rs::config::{Config, WorkspaceConfig};
use yabai_rs::geometry::{Gaps, Rect};
use yabai_rs::ipc::{IpcCommand, LayoutKind};
use yabai_rs::manager::WindowManager;
use yabai_rs::tree::Direction;
use yabai_rs::window::{Display, Window, WindowError};
use yabai_rs::workspace::Workspace;

fn gaps10() -> Gaps {
    Gaps { inner_h: 10, inner_v: 10, outer_left: 10, outer_right: 10, outer_top: 10, outer_bottom: 10 }
}

fn screen() -> Rect {
    Rect { x: 0, y: 0, width: 1920, height: 1080 }
}

fn rect(x: i32, y: i32, width: i32, height: i32) -> Rect {
    Rect { x, y, width, height }
}

fn window(id: u32) -> Window {
    Window {
        id,
        app: format!("app{id}"),
        title: format!("title{id}"),
        frame: rect(0, 0, 100, 100),
        is_floating: false,
        is_fullscreen: false,
    }
}

fn state_lines(active: usize, counts: &[usize]) -> Vec<String> {
    counts
        .iter()
        .enumerate()
        .map(|(i, c)| {
            let marker = if i == active { "*" } else { " " };
            format!("{marker} workspace '{}': {c} windows", i + 1)
        })
        .collect()
}

#[test]
fn new_workspace_is_empty_tiles() {
    let ws = Workspace::new("main".to_string());
    assert_eq!(ws.name(), "main");
    assert_eq!(ws.window_count(), 0);
    assert!(ws.tree().root().is_none());
    assert_eq!(ws.compute_layout(screen(), &gaps10(), None), vec![]);
}

#[test]
fn workspace_add_and_remove_windows() {
    let mut ws = Workspace::new("w".to_string());
    ws.add_window(window(1));
    ws.add_window(window(2));
    assert_eq!(ws.window_count(), 2);
    assert!(ws.tree().find_window(1).is_some());
    let removed = ws.remove_window(1).unwrap();
    assert_eq!(removed.id, 1);
    assert_eq!(removed.app, "app1");
    assert_eq!(ws.window_count(), 1);
    assert!(ws.tree().find_window(1).is_none());
    assert!(ws.remove_window(99).is_none());
    assert_eq!(ws.window_count(), 1);
}

#[test]
fn workspace_tiles_layout_of_two_windows() {
    let mut ws = Workspace::new("w".to_string());
    ws.add_window(window(1));
    ws.add_window(window(2));
    assert!(ws.layout_fits(screen(), &gaps10()));
    assert_eq!(
        ws.compute_layout(screen(), &gaps10(), None),
        vec![(1, rect(10, 10, 945, 1060)), (2, rect(965, 10, 945, 1060))]
    );
}

#[test]
fn workspace_accordion_layout_follows_window_order() {
    let mut ws = Workspace::new("w".to_string());
    ws.add_window(window(4));
    ws.add_window(window(5));
    ws.add_window(window(6));
    ws.set_layout(LayoutKind::Accordion);
    assert_eq!(
        ws.compute_layout(screen(), &gaps10(), Some(5)),
        vec![
            (4, rect(10, 10, 1840, 1000)),
            (5, rect(40, 40, 1840, 1000)),
            (6, rect(70, 70, 1840, 1000)),
        ]
    );
    ws.set_layout(LayoutKind::Tiles);
    assert_eq!(ws.compute_layout(screen(), &gaps10(), None).len(), 3);
}

#[test]
fn workspace_swap_with_neighbor_exchanges_tiles() {
    let mut ws = Workspace::new("w".to_string());
    ws.add_window(window(1));
    ws.add_window(window(2));
    ws.swap_with_neighbor(1, Direction::Right);
    assert_eq!(
        ws.compute_layout(screen(), &gaps10(), None),
        vec![(2, rect(10, 10, 945, 1060)), (1, rect(965, 10, 945, 1060))]
    );
    // no neighbor to the right of the rightmost window, nor vertically
    ws.swap_with_neighbor(1, Direction::Right);
    ws.swap_with_neighbor(1, Direction::Up);
    ws.swap_with_neighbor(42, Direction::Left);
    assert_eq!(
        ws.compute_layout(screen(), &gaps10(), None),
        vec![(2, rect(10, 10, 945, 1060)), (1, rect(965, 10, 945, 1060))]
    );
    assert_eq!(ws.window_count(), 2);
}

#[test]
fn workspace_layout_that_overflows_does_not_fit() {
    let mut ws = Workspace::new("w".to_string());
    ws.add_window(window(1));
    let big_gap = Gaps { inner_h: 0, inner_v: 0, outer_left: i32::MAX, outer_right: 0, outer_top: 0, outer_bottom: 0 };
    assert!(!ws.layout_fits(rect(5, 0, 10, 10), &big_gap));
}

#[test]
fn manager_lists_nine_default_workspaces() {
    let wm = WindowManager::new(Config::default());
    assert_eq!(wm.print_state(), state_lines(0, &[0; 9]));
    assert!(wm.has_id_room());
}

#[test]
fn manager_names_missing_workspaces_by_position() {
    let mut config = Config::default();
    config.workspaces = vec![WorkspaceConfig { name: "web".to_string(), display: None, auto_back_and_forth: false }];
    let wm = WindowManager::new(config);
    let lines = wm.print_state();
    assert_eq!(lines.len(), 9);
    assert_eq!(lines[0], "* workspace 'web': 0 windows");
    assert_eq!(lines[1], "  workspace '2': 0 windows");
    assert_eq!(lines[8], "  workspace '9': 0 windows");
}

#[test]
fn manager_keeps_more_than_nine_configured_workspaces() {
    let mut config = Config::default();
    config.workspaces = (1..=11)
        .map(|i| WorkspaceConfig { name: format!("ws{i}"), display: None, auto_back_and_forth: false })
        .collect();
    let wm = WindowManager::new(config);
    let lines = wm.print_state();
    assert_eq!(lines.len(), 11);
    assert_eq!(lines[10], "  workspace 'ws11': 0 windows");
}

#[test]
fn manager_switches_workspace_by_name() {
    let mut wm = WindowManager::new(Config::default());
    assert_eq!(wm.handle_command(IpcCommand::Workspace("3".to_string())), Vec::<String>::new());
    assert_eq!(wm.handle_command(IpcCommand::List), state_lines(2, &[0; 9]));
    // an unknown name leaves the active workspace as it is
    wm.handle_command(IpcCommand::Workspace("nope".to_string()));
    assert_eq!(wm.print_state(), state_lines(2, &[0; 9]));
}

#[test]
fn manager_commands_without_focus_change_nothing() {
    let mut wm = WindowManager::new(Config::default());
    let before = wm.print_state();
    for cmd in [
        IpcCommand::Focus(Direction::Left),
        IpcCommand::Move(Direction::Right),
        IpcCommand::MoveToWorkspace("2".to_string()),
        IpcCommand::Layout(LayoutKind::Accordion),
        IpcCommand::Fullscreen,
        IpcCommand::Close,
        IpcCommand::Reload,
    ] {
        assert!(wm.handle_command(cmd).is_empty());
        assert_eq!(wm.print_state(), before);
    }
}

#[test]
fn manager_retile_of_empty_workspace_sets_no_frames() {
    let mut wm = WindowManager::new(Config::default());
    assert_eq!(wm.retile(), vec![]);
}

#[test]
fn manager_start_takes_the_displays() {
    let mut wm = WindowManager::new(Config::default());
    assert_eq!(wm.start(Display::list().unwrap()), Ok(()));
    assert_eq!(wm.print_state(), state_lines(0, &[0; 9]));
    assert_eq!(wm.retile(), vec![]);
}

#[test]
fn platform_layer_reports_fallbacks() {
    let displays = Display::list().unwrap();
    assert_eq!(displays, vec![Display { id: 1, frame: screen(), is_main: true }]);
    assert!(Window::list_all().unwrap().is_empty());
    assert_eq!(Window::set_frame(1, screen()), Ok(()));
    assert_eq!(Window::focus(1), Ok(()));
    assert_eq!(Window::close(1), Ok(()));
    let _ = WindowError::Refused;
}

#[test]
fn workspace_add_then_remove_gives_window_back() {
    let mut ws = Workspace::new("w".to_string());
    ws.add_window(window(1));
    ws.add_window(window(2));
    let before = ws.compute_layout(screen(), &gaps10(), None);
    ws.add_window(window(3));
    let back = ws.remove_window(3).unwrap();
    assert_eq!(back.id, 3);
    assert_eq!(back.title, "title3");
    assert_eq!(ws.window_count(), 2);
    let mut ids = ws.tree().window_ids();
    ids.sort();
    assert_eq!(ids, vec![1, 2]);
    assert_eq!(ws.compute_layout(screen(), &gaps10(), None).len(), before.len());
}

#[test]
fn workspace_layout_gives_each_window_one_frame() {
    let mut ws = Workspace::new("w".to_string());
    for id in [5, 6, 5, 8] {
        ws.add_window(window(id));
    }
    let mut tiles: Vec<u32> = ws.compute_layout(screen(), &gaps10(), None).iter().map(|(w, _)| *w).collect();
    tiles.sort();
    assert_eq!(tiles, vec![5, 5, 6, 8]);
    ws.set_layout(LayoutKind::Accordion);
    let stacked: Vec<u32> = ws.compute_layout(screen(), &gaps10(), None).iter().map(|(w, _)| *w).collect();
    assert_eq!(stacked, vec![5, 6, 5, 8]);
}

#[test]
fn workspace_remove_keeps_other_tiles_in_place() {
    let mut ws = Workspace::new("w".to_string());
    ws.add_window(window(1));
    ws.add_window(window(2));
    ws.add_window(window(3));
    ws.remove_window(2);
    // window 1 takes the collapsed container's place: 2/3 of the width
    assert_eq!(
        ws.compute_layout(screen(), &gaps10(), None),
        vec![(1, rect(10, 10, 1261, 1060)), (3, rect(1281, 10, 629, 1060))]
    );
}

#[test]
fn focus_stays_without_a_focused_window_or_neighbor() {
    let mut wm = WindowManager::new(Config::default());
    for dir in [Direction::Left, Direction::Right, Direction::Up, Direction::Down] {
        assert!(wm.handle_command(IpcCommand::Focus(dir)).is_empty());
    }
    assert_eq!(wm.print_state(), state_lines(0, &[0; 9]));
}
