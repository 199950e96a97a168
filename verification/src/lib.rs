//! A small telnet memory debugger: the pure parts of its protocol, its
//! command language and its memory-dump rendering, with their contracts.

pub mod command;
pub mod config;
pub mod hex;
pub mod mem_dump;
pub mod mem_write;
pub mod number;
pub mod parser;
pub mod telnet;
pub mod text;
