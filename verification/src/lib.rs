//! A verified core for caching JSON API responses behind short handles,
//! summarizing their shape, and answering path queries against them.

pub mod json;
pub mod text;
pub mod canonical;
pub mod error;
pub mod parser;
pub mod store;
pub mod engine;
pub mod base64url;
pub mod checks;
pub mod settings;
pub mod oauth;
pub mod proxy;
