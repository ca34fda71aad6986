//! Template instantiation engine: name casing, placeholder substitution,
//! template trees and the plan that turns a tree into files on disk.

pub mod casing;
pub mod substitution;
pub mod template;
pub mod materialize;
pub mod resolver;
pub mod catalog;
pub mod search;
pub mod pages;
