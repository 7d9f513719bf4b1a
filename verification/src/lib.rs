//! An append-only event log and the read-only views derived from it.

pub mod event_log;
pub mod models;
pub mod ratios;
pub mod service;
pub mod sessions;
pub mod text;
