//! A weighted load balancer for inference backends: a registry of named
//! backends, weighted random selection over a snapshot of it, the framing and
//! routing of proxied HTTP/1.1 requests, and the reconciliation of the registry
//! against a desired state.

pub mod bytes;
pub mod config;
pub mod http;
pub mod reconcile;
pub mod registry;
pub mod selector;
pub mod text;
