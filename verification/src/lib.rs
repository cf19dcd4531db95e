//! A configuration-driven syntax highlighter and the small helpers of the
//! site generator around it.
//!
//! The highlighter has three parts. The [`registry`] holds language
//! definitions, merged from a baseline and overrides and found by name or
//! file extension. The [`engine`] classifies every character of a text by the
//! rule of highest priority that matches it and cuts the text into the runs
//! of equal classification. The [`render`] module turns those runs into
//! escaped markup.
//!
//! Two outside crates do work that is believed rather than proved: the
//! regular-expression engine behind [`pattern`] and the TOML reader behind
//! [`config`]. Everything else is verified against the contracts stated on
//! each function.
//!
//! Beside the highlighter stand program paths ([`path`]), the cookbook
//! ([`cookbook`]) and the text of run-time warnings ([`trace`]).

pub mod config;
pub mod cookbook;
pub mod definitions;
pub mod engine;
pub mod error;
pub mod language;
pub mod path;
pub mod pattern;
pub mod registry;
pub mod render;
pub mod search;
pub mod text;
pub mod trace;
