//! A verified model of Prep: package manifests and lockfiles, dependency
//! graphs, build-result identities, the plugin protocol and the result store.
use vstd::prelude::*;

pub mod activation;
pub mod cli;
pub mod encoding;
pub mod graph;
pub mod graph_acceptance;
pub mod graph_properties;
pub mod graph_reach;
pub mod identifiers;
pub mod identity;
pub mod identity_coverage;
pub mod identity_refusals;
pub mod lock_match;
pub mod manifest;
pub mod normal;
pub mod order;
pub mod outside;
pub mod plugin;
pub mod protocol;
pub mod publication;
pub mod store;
pub mod support;
pub mod text;
pub mod text_map;
pub mod validity;

verus! {
} // verus!
