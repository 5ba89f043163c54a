//! Declarative RPM package builds: the specification model, dependency
//! resolution, content-addressed build identities and the decisions that
//! drive each build, with their contracts proved by Verus.

pub mod keys;
pub mod dependency;
pub mod spec_tree;
pub mod graph;
pub mod encoding;
pub mod order;
pub mod identity;
pub mod text;
pub mod copr;
pub mod specfile;
pub mod shell;
pub mod backend;
pub mod source;
pub mod commands;
pub mod schedule;
pub mod docker;
pub mod host;
pub mod logging;
