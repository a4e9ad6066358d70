//! A small persistent SMTP listener's logic.
pub mod auth;
pub mod bytes;
pub mod clean;
pub mod config;
pub mod connection;
pub mod data;
pub mod delivery;
pub mod envelope;
pub mod files;
pub mod headers;
pub mod ids;
pub mod limiter;
pub mod mime;
pub mod number;
pub mod order;
pub mod outside;
pub mod paths;
pub mod routing;
pub mod session;
pub mod settings;
pub mod stable;
pub mod text;
pub mod utf8;
