//! Port listing and process-labelling core of a Windows tray port manager.

pub mod text;
pub mod net;
pub mod config;
pub mod cmdline;
pub mod ports;
pub mod popup;
pub mod icon;
pub mod process;
pub mod tray;
pub mod cli;
