//! A small configuration library for storage "disk farms": a capacity parser
//! that turns human-readable size strings (such as `"1500G"`) into exact byte
//! counts, a line-based text codec for the configuration document, and a
//! loader that validates uniqueness of server addresses and farm directories.

pub mod capacity;
pub mod codec;
pub mod config;
