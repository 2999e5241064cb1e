//! Resolution of instance-path links inside generated thunk modules against a
//! project hierarchy, and the decision whether such a link has to be rewritten.

pub mod command;
pub mod hierarchy;
pub mod link_mutator;
pub mod navigation;
pub mod normalizer;
pub mod require_parser;
pub mod resolver;
pub mod syntax;
