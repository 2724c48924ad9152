//! LAN inventory and diff engine.

pub mod bytes;
pub mod commands;
pub mod diff;
pub mod discovery;
pub mod display;
pub mod export;
pub mod identity;
pub mod keymap;
pub mod merge;
pub mod model;
pub mod netenv;
pub mod num;
pub mod privilege;
pub mod report;
pub mod scanner;
pub mod seqs;
pub mod store;
pub mod text;
pub mod util;
pub mod window;
