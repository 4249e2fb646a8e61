pub mod arg;
pub mod args;
