//! A small reactive core: versioned asynchronous resources, the boundaries that
//! decide what to show while they load, and scopes that tear down in order.

pub mod action;
pub mod boundary;
pub mod cell;
pub mod page;
pub mod render;
pub mod resource;
pub mod scope;
pub mod scope_tree;
