pub mod classify;
pub mod config;
pub mod index;
pub mod key;
pub mod laws;
pub mod listing;

pub use config::VideoPlayerConfig;
pub use index::{IndexView, VideoPlayerState};
pub use listing::IndexTemplate;
