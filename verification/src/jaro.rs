pub mod compare;
pub mod compute;
pub mod config;
