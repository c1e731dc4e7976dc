//! Triggerlane: a declarative event-trigger and replay plane.

pub mod broker;
pub mod cli;
pub mod config;
pub mod durable;
pub mod event;
pub mod http;
pub mod ingest;
pub mod json;
pub mod jsonl;
pub mod model;
pub mod registry;
pub mod replay;
pub mod retention;
pub mod retry;
pub mod runtime;
pub mod storage;
pub mod text;
pub mod time;
pub mod trace;
pub mod trigger;
