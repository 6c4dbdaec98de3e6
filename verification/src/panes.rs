pub mod dnd;
pub mod table;
