//! Formula engine: named calculated fields whose expressions reference each
//! other, resolved as a dependency graph and evaluated in dependency order;
//! with the query-builder and record types around it.
pub mod text;
pub mod statement;
pub mod graph;
pub mod expression;
pub mod scheduler;
pub mod store;
pub mod formula_node;
pub mod engine;
pub mod resolvers;
pub mod laws;
pub mod query_builder;
pub mod clickhouse;
pub mod dsl;
pub mod dataset;
pub mod user;
pub mod engine_type;
pub mod entity;
pub mod connector;
