//! A little bell temple that several people can walk around at once.

pub mod grid;
pub mod duty;
pub mod keys;
pub mod text;
pub mod world;
pub mod choosing;
pub mod weather;
pub mod site;
pub mod calendar;
pub mod book;
pub mod avatars;
pub mod sha256;
pub mod counter;
pub mod config;
pub mod session;
