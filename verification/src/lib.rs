pub mod action;
pub mod audio;
pub mod config;
pub mod hal;
pub mod indicator;
pub mod input;
pub mod loop_mirror;
pub mod looper;
pub mod preroll;
pub mod settings;
pub mod state_machine;
pub mod toml;
pub mod wav;
