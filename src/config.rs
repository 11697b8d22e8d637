use vstd::prelude::*;

verus! {

/// Where the videos live and where the server listens.
#[derive(Clone)]
pub struct VideoPlayerConfig {
    pub assets_root: String,
    pub port: u16,
    pub host: String,
}

impl Default for VideoPlayerConfig {
    /// Videos under `assets`, served on `0.0.0.0:9092`.
    fn default() -> (r: Self)
        ensures
            r.assets_root@ == "assets"@,
            r.port == 9092,
            r.host@ == "0.0.0.0"@,
    {
        VideoPlayerConfig {
            assets_root: String::from_str("assets"),
            port: 9092,
            host: String::from_str("0.0.0.0"),
        }
    }
}

} // verus!
