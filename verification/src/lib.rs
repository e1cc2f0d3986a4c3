//! Decision logic of a multi-connection download manager.

pub mod text;
pub mod bytes;
pub mod encode;
pub mod error;
pub mod head;
pub mod chunked;
pub mod request;
pub mod probe;
pub mod object;
pub mod range;
pub mod i18n;
pub mod autostart;
pub mod completions;
pub mod engine;
pub mod download;
pub mod record;
pub mod stream;
pub mod windows;
