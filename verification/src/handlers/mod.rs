//! What the editor-facing handlers decide, apart from the protocol types
//! they answer in.

pub mod symbols;
pub mod semantic;
pub mod cursor;
pub mod definition;
pub mod hover;
pub mod references;
pub mod rename;
pub mod folding;
pub mod links;
pub mod lens;
pub mod implementation;
