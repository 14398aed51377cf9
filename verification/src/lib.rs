//! A background clipboard-history utility's core: a bounded, deduplicating,
//! most-recently-used history of text snippets, a fuzzy ranking function over
//! it, a byte codec that persists it, and the state machines that coordinate
//! a clipboard poller, a hotkey listener, a tray menu and a UI loop.

pub mod config;
pub mod fuzzy;
pub mod history;
pub mod storage;
pub mod coordinator;
pub mod tray;
