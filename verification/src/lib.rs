//! A reverse-proxy content-rewriting library: requests are routed to backend
//! targets by path prefix, and HTML response bodies have every element
//! identifier replaced by an opaque generated value, with script and CSS
//! references to those identifiers rewritten consistently.

pub mod bytes_util;
pub mod config;
pub mod html_processor;
pub mod proxy_service;
pub mod id_mapping;
pub mod rewrite;

use vstd::prelude::*;
