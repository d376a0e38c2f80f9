pub mod archive;
pub mod epub;
pub mod error;
pub mod package;
pub mod pager;
pub mod render;
pub mod terminal;
pub mod xml;
