//! Verified core of a tiling window manager: the binary split tree that holds
//! the windows of a workspace, the tiling and accordion layouts computed from it,
//! the text command language of the IPC socket, the configuration defaults and the
//! window manager's decisions.

pub mod geometry;
pub mod tree;
pub mod subtree;
pub mod tiles;
pub mod accordion;
pub mod text;
pub mod ipc;
pub mod config;
pub mod window;
pub mod workspace;
pub mod manager;
pub mod wizard;
