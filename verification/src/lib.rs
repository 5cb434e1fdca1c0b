//! Core logic of an image gallery backend: the path security boundary, the
//! catalog reconciliation planner, the playlist builder, the session store
//! and the folder browser.
pub mod text;
pub mod paths;
pub mod names;
pub mod order;
pub mod natural;
pub mod catalog;
pub mod playlist;
pub mod strategy;
pub mod builder;
pub mod session;
pub mod browse;
pub mod files;
pub mod config;
