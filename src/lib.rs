//! Command dispatch for a game server: command grammars as trees of
//! literals, arguments, requirements and leaves, and a dispatcher that finds
//! the first path of a tree that takes a whole command line. Also the item
//! data types of the world.

pub mod dispatcher;
pub mod item;
pub mod tokens;
pub mod tree;
