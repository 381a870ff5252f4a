//! Verified core of a desktop Logcat viewer.

pub mod adb;
pub mod answers;
pub mod bridge;
pub mod capture;
pub mod config;
pub mod controls;
pub mod filter;
pub mod history;
pub mod log_store;
pub mod logs;
pub mod model;
pub mod naming;
pub mod pattern;
pub mod queue;
pub mod render;
pub mod saved;
pub mod selection;
pub mod session;
pub mod stream;
pub mod text;
pub mod view;
