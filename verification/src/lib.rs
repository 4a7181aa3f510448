//! The rules of a proxy of image registries: which paths it takes and where they
//! lead, which accounts it logs in with, what passes of an upstream answer, and
//! where a redirect leads. `exchange` puts them together, step by step; the
//! sending and receiving is left to the caller.
pub mod access;
pub mod access_log;
pub mod answer_laws;
pub mod config;
pub mod docker;
pub mod engine;
pub mod exchange;
pub mod headers;
pub mod laws;
pub mod number;
pub mod pattern;
pub mod routing_laws;
pub mod text;
pub mod text_laws;
