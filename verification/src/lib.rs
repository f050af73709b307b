//! Katnip window-management core: tiling geometry, keybinds, configuration,
//! workspaces and the small decision procedures around them.
pub mod layout;
pub mod text;
pub mod fmt;
pub mod keybinds;
pub mod config;
pub mod binds;
pub mod wm;
pub mod paths;
pub mod order;
pub mod ipc;
pub mod plugins;
pub mod grabs;
pub mod input;
pub mod bar;
pub mod output;
