//! Markdown to a flat stream of range-annotated events, with bare URLs in
//! plain text marked as links, and the small pieces of the assistant, dock,
//! terminal and network code that stand beside it.
pub mod autolink;
pub mod event;
pub mod guarantees;
pub mod normalize;
pub mod parser;
pub mod pulldown;

pub mod assistant;
pub mod dock;
pub mod shell;
pub mod socks;
pub mod tools;
