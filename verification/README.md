# yabai-rs

A tiling window manager for macOS whose core is verified with Verus.

## Layout

- `src/` — the verified library:
  - `tree.rs` — the binary split tree of a workspace: inserting and removing
    windows, finding a window's leaf, the neighbor in a direction, with the
    tree's structural invariant and its laws.
  - `subtree.rs` — the leaves below a node and the facts about ancestry that
    the layout laws rest on.
  - `tiles.rs`, `accordion.rs`, `geometry.rs` — the two layouts, computed in
    exact integer arithmetic, with the law that every window gets one frame
    and that a container's children share its area without overlap.
  - `workspace.rs`, `manager.rs` — workspaces and the window manager's
    decisions for each command of the socket.
  - `ipc.rs`, `text.rs` — the command language of the socket.
  - `config.rs`, `wizard.rs` — configuration defaults and the TOML the setup
    wizard writes.
  - `window.rs` — the platform layer's windows and displays.
- `app/` — the daemon (`main`, the socket server, the configuration file), the
  `yabai-rs-msg` client and the macOS menu-bar GUI, around the library.
- `tests/` — tests of the library on concrete values.
