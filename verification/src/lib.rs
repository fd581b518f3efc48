//! Schema drift detection for externally hosted tool catalogs.

pub mod canonical;
pub mod catalog;
pub mod cli;
pub mod drift;
pub mod http;
pub mod integration;
pub mod json;
pub mod laws;
pub mod lifecycle;
pub mod mcp;
pub mod render;
pub mod request;
pub mod text;
pub mod web;
