//! Import and export dependency graphs of source trees.
pub mod assembling;
pub mod calendar;
pub mod choosing;
pub mod disk;
pub mod effective;
pub mod excludes;
pub mod facts;
pub mod following;
pub mod graph;
pub mod hash;
pub mod json;
pub mod lang;
pub mod laws;
pub mod lists;
pub mod model;
pub mod nodes;
pub mod order;
pub mod path;
pub mod placing;
pub mod reading;
pub mod scan;
pub mod scanning;
pub mod selecting;
pub mod show;
pub mod syntax;
pub mod text;
pub mod time;
pub mod tsutil;
pub mod walk;
