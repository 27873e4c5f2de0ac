//! A command-alias resolver: short codes stand for longer shell commands,
//! kept in per-directory configuration files that are discovered by walking
//! from the working directory up to the filesystem root. Nearer files shadow
//! farther ones; mutations target the nearest file that owns the code.

pub mod chain;
pub mod codegen;
pub mod command;
pub mod dir;
pub mod entry;
pub mod order;
pub mod store;
pub mod text;
