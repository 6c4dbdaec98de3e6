pub use crate::panes::dnd::{DnDView, DragAndDropDemo};
