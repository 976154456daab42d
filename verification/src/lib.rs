pub mod apps;
pub mod power;
pub mod convert;
pub mod launcher;
pub mod layout;
pub mod pratt;
pub mod recents;
pub mod screen;
pub mod settings;
pub mod sort;
pub mod store;
pub mod text;
pub mod timers;
pub mod web;
