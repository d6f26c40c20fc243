//! Feedback on an agent's reply: where the reply is found, and where the feedback goes.
//!
//! `sessions` and `transcript` find and read the sessions of the DeepSeek Harness (`dsh`);
//! `delivery` sends feedback to the clipboard or to an agent in a Herdr pane. Nothing here
//! touches the file system, the terminal or another process: the functions take what was read
//! and say what to do.

pub mod base64;
pub mod delivery;
pub mod frame;
pub mod host;
pub mod json;
pub mod pi;
pub mod ranking;
pub mod sessions;
pub mod text;
pub mod time;
pub mod transcript;
pub mod zstd;
