//! Declarative route registration for web services: route patterns, a
//! segment trie with literal-before-parameter matching, route groups with
//! inherited authentication and middleware, and the registration plan that
//! checks and orders the declared routes.

pub mod text;
pub mod trie;
pub mod md5;
pub mod route;
pub mod group;
pub mod order;
pub mod registry;
pub mod middleware;
pub mod mapping;
pub mod handler;
