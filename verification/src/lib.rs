//! A library for reading a machine's CPU topology and per-core load.

pub mod text;
pub mod cpu_list;
pub mod collector;
pub mod topology;
pub mod ui;
