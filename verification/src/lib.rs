//! A mirror of an upstream bookmark collection, its tag reference counts and
//! the tag filter that read queries are resolved to.

pub mod config;
pub mod mongodb;
pub mod pixiv;
pub mod routes;
pub mod sync;
pub mod text;
