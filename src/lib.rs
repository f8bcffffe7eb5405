pub mod ratio;
pub mod config;
pub mod fps;
pub mod main_loop;
