//! A rule-driven DNS query router: a table of rules, validated once as a
//! graph from `start` to `end`, decides for each query which upstream
//! resolvers to consult.

pub mod collections;
pub mod domain;
pub mod laws;
pub mod matchers;
pub mod rule;
pub mod table;
