//! Core engine of a terminal dashboard for externally published tray entries.
//!
//! The crate keeps an ordered registry of live entries in step with an
//! externally mutated snapshot while preserving per-entry UI state, offers
//! 2-D grid keyboard navigation, mouse hit-testing against per-frame
//! rectangles, and the protocol that decides whether a user action expands a
//! submenu or emits an activation request. Terminal rendering and the wire
//! protocol of the tray source live outside this crate.

pub mod app;
pub mod config;
pub mod handler;
pub mod reconcile;
pub mod registry;
pub mod tree;
pub mod wrappers;
