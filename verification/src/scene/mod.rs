pub mod events;
pub mod handle;
pub mod entities;
