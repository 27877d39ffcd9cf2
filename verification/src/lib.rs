pub mod events;
pub mod lookup;
pub mod module;
pub mod process;
pub mod vm;
