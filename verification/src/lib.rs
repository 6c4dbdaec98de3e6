pub mod text;
pub mod strmap;
pub mod engine;
pub mod scripts;
pub mod panes;
pub mod tree;
pub mod dnd;
