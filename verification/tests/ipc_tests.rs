use yabai_rs::ipc::{parse_command, parse_direction, IpcCommand, LayoutKind, ParseError};
use yabai_rs::tree::Direction;

#[test]
fn parses_focus_and_move() {
    assert_eq!(parse_command("focus left"), Ok(IpcCommand::Focus(Direction::Left)));
    assert_eq!(parse_command("  move \t up  "), Ok(IpcCommand::Move(Direction::Up)));
    assert_eq!(parse_command("focus\u{3000}down"), Ok(IpcCommand::Focus(Direction::Down)));
}

#[test]
fn parses_workspace_commands() {
    assert_eq!(parse_command("workspace 3"), Ok(IpcCommand::Workspace("3".to_string())));
    assert_eq!(
        parse_command("move-node-to-workspace dev"),
        Ok(IpcCommand::MoveToWorkspace("dev".to_string()))
    );
}

#[test]
fn parses_layouts() {
    assert_eq!(parse_command("layout tiles"), Ok(IpcCommand::Layout(LayoutKind::Tiles)));
    assert_eq!(parse_command("layout accordion"), Ok(IpcCommand::Layout(LayoutKind::Accordion)));
    let err = parse_command("layout floating").unwrap_err();
    assert_eq!(err, ParseError::UnknownLayout("floating".to_string()));
    assert_eq!(err.message(), "Unknown layout: floating");
}

#[test]
fn parses_single_word_commands() {
    assert_eq!(parse_command("fullscreen"), Ok(IpcCommand::Fullscreen));
    assert_eq!(parse_command("close"), Ok(IpcCommand::Close));
    assert_eq!(parse_command("reload"), Ok(IpcCommand::Reload));
    assert_eq!(parse_command("list"), Ok(IpcCommand::List));
}

#[test]
fn rejects_unknown_direction() {
    let err = parse_command("focus sideways").unwrap_err();
    assert_eq!(err, ParseError::UnknownDirection("sideways".to_string()));
    assert_eq!(err.message(), "Unknown direction: sideways");
    assert_eq!(parse_direction("right"), Ok(Direction::Right));
    assert_eq!(parse_direction("Left"), Err(ParseError::UnknownDirection("Left".to_string())));
}

#[test]
fn rejects_unknown_commands_with_the_whole_line() {
    let err = parse_command("frobnicate now").unwrap_err();
    assert_eq!(err.message(), "Unknown command: frobnicate now");
    assert_eq!(parse_command(""), Err(ParseError::UnknownCommand(String::new())));
    assert_eq!(
        parse_command("layout tiles diagonal"),
        Err(ParseError::UnknownCommand("layout tiles diagonal".to_string()))
    );
    assert_eq!(parse_command("list all"), Err(ParseError::UnknownCommand("list all".to_string())));
}

#[test]
fn readme_commands_parse() {
    for line in [
        "focus left",
        "focus right",
        "move left",
        "workspace 3",
        "move-node-to-workspace 2",
        "layout tiles",
        "layout accordion",
        "fullscreen",
        "close",
        "reload",
        "list",
    ] {
        assert!(parse_command(line).is_ok(), "{line}");
    }
}

#[test]
fn layout_commands_may_end_in_both_axes() {
    assert_eq!(
        parse_command("layout tiles horizontal vertical"),
        Ok(IpcCommand::Layout(LayoutKind::Tiles))
    );
    assert_eq!(
        parse_command("layout accordion horizontal vertical"),
        Ok(IpcCommand::Layout(LayoutKind::Accordion))
    );
    for line in ["layout tiles vertical", "layout floating horizontal vertical", "layout tiles vertical horizontal"] {
        assert_eq!(parse_command(line), Err(ParseError::UnknownCommand(line.to_string())));
    }
}

#[test]
fn every_default_key_binding_parses() {
    let bindings = yabai_rs::config::default_keybindings();
    assert_eq!(bindings.len(), 30);
    for kb in &bindings {
        assert!(parse_command(&kb.command).is_ok(), "{} -> {}", kb.key, kb.command);
    }
}
