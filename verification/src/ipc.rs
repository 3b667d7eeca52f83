use vstd::prelude::*;
use crate::text::{concat, split_words, str_eq, words};
use crate::tree::Direction;

verus! {

/// The path of the daemon's command socket.
pub const SOCKET_PATH: &'static str = "/tmp/yabai-rs.sock";

/// A command the window manager accepts over its socket.
#[derive(Debug, Clone, PartialEq, Eq)]
pub enum IpcCommand {
    Focus(Direction),
    Move(Direction),
    Workspace(String),
    MoveToWorkspace(String),
    Layout(LayoutKind),
    Fullscreen,
    Close,
    Reload,
    List,
}

/// The layouts a workspace can be switched to.
#[derive(Debug, Clone, Copy, PartialEq, Eq, Structural)]
pub enum LayoutKind {
    Tiles,
    Accordion,
}

/// Why a command line was refused.
#[derive(Debug, Clone, PartialEq, Eq)]
pub enum ParseError {
    /// A focus or move command named no direction it knows.
    UnknownDirection(String),
    /// A layout command named no layout it knows.
    UnknownLayout(String),
    /// The line is no command at all.
    UnknownCommand(String),
}

/// The direction a word names.
pub open spec fn spec_direction(w: Seq<char>) -> Option<Direction> {
    if w == "left"@ {
        Some(Direction::Left)
    } else if w == "right"@ {
        Some(Direction::Right)
    } else if w == "up"@ {
        Some(Direction::Up)
    } else if w == "down"@ {
        Some(Direction::Down)
    } else {
        None
    }
}

/// Whether `r` is what `parse_direction` gives for the word `s`.
pub open spec fn direction_parsed(s: Seq<char>, r: Result<Direction, ParseError>) -> bool {
    match spec_direction(s) {
        Some(d) => r == Ok::<Direction, ParseError>(d),
        None => r matches Err(ParseError::UnknownDirection(t)) && t@ == s,
    }
}

/// Whether the words `w` are a layout command for `kind`: `layout <kind>`, or
/// `layout <kind> horizontal vertical` as the default key bindings write it.
pub open spec fn layout_words(w: Seq<Seq<char>>, kind: Seq<char>) -> bool {
    &&& w.len() == 2 || (w.len() == 4 && w[2] == "horizontal"@ && w[3] == "vertical"@)
    &&& w[0] == "layout"@
    &&& w[1] == kind
}

/// Whether `r` is what `parse_command` gives for the line `s`: the line is split
/// into words at white space and read as one of the commands below. A layout
/// command may end in `horizontal vertical`, as the default key bindings write it.
pub open spec fn command_parsed(s: Seq<char>, r: Result<IpcCommand, ParseError>) -> bool {
    let w = words(s);
    if w.len() == 2 && w[0] == "focus"@ {
        match spec_direction(w[1]) {
            Some(d) => r == Ok::<IpcCommand, ParseError>(IpcCommand::Focus(d)),
            None => r matches Err(ParseError::UnknownDirection(t)) && t@ == w[1],
        }
    } else if w.len() == 2 && w[0] == "move"@ {
        match spec_direction(w[1]) {
            Some(d) => r == Ok::<IpcCommand, ParseError>(IpcCommand::Move(d)),
            None => r matches Err(ParseError::UnknownDirection(t)) && t@ == w[1],
        }
    } else if w.len() == 2 && w[0] == "workspace"@ {
        r matches Ok(IpcCommand::Workspace(name)) && name@ == w[1]
    } else if w.len() == 2 && w[0] == "move-node-to-workspace"@ {
        r matches Ok(IpcCommand::MoveToWorkspace(name)) && name@ == w[1]
    } else if layout_words(w, "tiles"@) {
        r == Ok::<IpcCommand, ParseError>(IpcCommand::Layout(LayoutKind::Tiles))
    } else if layout_words(w, "accordion"@) {
        r == Ok::<IpcCommand, ParseError>(IpcCommand::Layout(LayoutKind::Accordion))
    } else if w.len() == 2 && w[0] == "layout"@ {
        r matches Err(ParseError::UnknownLayout(t)) && t@ == w[1]
    } else if w.len() == 1 && w[0] == "fullscreen"@ {
        r == Ok::<IpcCommand, ParseError>(IpcCommand::Fullscreen)
    } else if w.len() == 1 && w[0] == "close"@ {
        r == Ok::<IpcCommand, ParseError>(IpcCommand::Close)
    } else if w.len() == 1 && w[0] == "reload"@ {
        r == Ok::<IpcCommand, ParseError>(IpcCommand::Reload)
    } else if w.len() == 1 && w[0] == "list"@ {
        r == Ok::<IpcCommand, ParseError>(IpcCommand::List)
    } else {
        r matches Err(ParseError::UnknownCommand(t)) && t@ == s
    }
}

/// Read a direction word: `left`, `right`, `up` or `down`.
pub fn parse_direction(s: &str) -> (r: Result<Direction, ParseError>)
    ensures
        direction_parsed(s@, r),
{
    if str_eq(s, "left") {
        Ok(Direction::Left)
    } else if str_eq(s, "right") {
        Ok(Direction::Right)
    } else if str_eq(s, "up") {
        Ok(Direction::Up)
    } else if str_eq(s, "down") {
        Ok(Direction::Down)
    } else {
        Err(ParseError::UnknownDirection(s.to_owned()))
    }
}

/// Parse a text command like those used in config keybindings, such as
/// `focus left`, `workspace 3`, `move-node-to-workspace 2`, `layout tiles` or
/// `fullscreen`.
pub fn parse_command(s: &str) -> (r: Result<IpcCommand, ParseError>)
    ensures
        command_parsed(s@, r),
{
    let parts = split_words(s);
    let n = parts.len();
    let axes = n == 2 || (n == 4 && str_eq(parts[2].as_str(), "horizontal") && str_eq(
        parts[3].as_str(),
        "vertical",
    ));
    if n == 2 && str_eq(parts[0].as_str(), "focus") {
        match parse_direction(parts[1].as_str()) {
            Ok(d) => Ok(IpcCommand::Focus(d)),
            Err(e) => Err(e),
        }
    } else if n == 2 && str_eq(parts[0].as_str(), "move") {
        match parse_direction(parts[1].as_str()) {
            Ok(d) => Ok(IpcCommand::Move(d)),
            Err(e) => Err(e),
        }
    } else if n == 2 && str_eq(parts[0].as_str(), "workspace") {
        Ok(IpcCommand::Workspace(parts[1].as_str().to_owned()))
    } else if n == 2 && str_eq(parts[0].as_str(), "move-node-to-workspace") {
        Ok(IpcCommand::MoveToWorkspace(parts[1].as_str().to_owned()))
    } else if axes && str_eq(parts[0].as_str(), "layout") && str_eq(parts[1].as_str(), "tiles") {
        Ok(IpcCommand::Layout(LayoutKind::Tiles))
    } else if axes && str_eq(parts[0].as_str(), "layout") && str_eq(
        parts[1].as_str(),
        "accordion",
    ) {
        Ok(IpcCommand::Layout(LayoutKind::Accordion))
    } else if n == 2 && str_eq(parts[0].as_str(), "layout") {
        Err(ParseError::UnknownLayout(parts[1].as_str().to_owned()))
    } else if n == 1 && str_eq(parts[0].as_str(), "fullscreen") {
        Ok(IpcCommand::Fullscreen)
    } else if n == 1 && str_eq(parts[0].as_str(), "close") {
        Ok(IpcCommand::Close)
    } else if n == 1 && str_eq(parts[0].as_str(), "reload") {
        Ok(IpcCommand::Reload)
    } else if n == 1 && str_eq(parts[0].as_str(), "list") {
        Ok(IpcCommand::List)
    } else {
        Err(ParseError::UnknownCommand(s.to_owned()))
    }
}

impl ParseError {
    /// The text of the error, as the socket reports it after `error: `.
    pub open spec fn spec_message(&self) -> Seq<char> {
        match self {
            ParseError::UnknownDirection(t) => "Unknown direction: "@ + t@,
            ParseError::UnknownLayout(t) => "Unknown layout: "@ + t@,
            ParseError::UnknownCommand(t) => "Unknown command: "@ + t@,
        }
    }

    /// The text of the error, as the socket reports it after `error: `.
    pub fn message(&self) -> (r: String)
        ensures
            r@ == self.spec_message(),
    {
        match self {
            ParseError::UnknownDirection(t) => concat("Unknown direction: ", t.as_str()),
            ParseError::UnknownLayout(t) => concat("Unknown layout: ", t.as_str()),
            ParseError::UnknownCommand(t) => concat("Unknown command: ", t.as_str()),
        }
    }
}

} // verus!
