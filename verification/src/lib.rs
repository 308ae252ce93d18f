pub mod blockset;
pub mod config;
pub mod display;
pub mod errors;
pub mod hosts;
pub mod strutil;
pub mod timewin;
