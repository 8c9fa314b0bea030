pub mod layout;
pub mod focus;
pub mod history;
pub mod process;
pub mod config;
pub mod group;
