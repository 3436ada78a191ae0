//! A small application-launcher library: desktop-entry parsing, visibility
//! rules, an identifier-keyed application map, case-insensitive search, and
//! the menu selection state machine, all with verified contracts.

pub mod action;
pub mod app_map;
pub mod args;
pub mod config;
pub mod desktop_entry;
pub mod entry;
pub mod menu;
pub mod text;
