pub mod models;
pub mod selection;
pub mod editor;
pub mod laws;

pub use editor::{AppMode, EditError, RailwayEditor};
pub use models::{Block, Connection, ConnectionType, Direction, Group};
