use video_server::classify::path_extension;
use video_server::key::{decimal_string, make_server_key};
use video_server::{IndexTemplate, VideoPlayerConfig, VideoPlayerState};

fn paths(list: &[&str]) -> Vec<String> {
    list.iter().map(|s| s.to_string()).collect()
}

fn pairs(list: &[(&str, &str)]) -> Vec<(String, String)> {
    list.iter().map(|(k, p)| (k.to_string(), p.to_string())).collect()
}

fn config(root: &str) -> VideoPlayerConfig {
    VideoPlayerConfig { assets_root: root.to_string(), port: 9092, host: "0.0.0.0".to_string() }
}

#[test]
fn every_listed_extension_is_a_video() {
    let s = VideoPlayerState::new();
    for ext in ["mp4", "avi", "flv", "heic", "mkv", "mov", "mpg", "mpeg", "m4v", "webm", "wmv", "3gp"] {
        assert!(s.is_video_file(&format!("dir/clip.{}", ext)), "{}", ext);
    }
}

#[test]
fn other_extensions_are_not_videos() {
    let s = VideoPlayerState::new();
    assert!(!s.is_video_file("a/clip.MP4"));
    assert!(!s.is_video_file("a/clip.Mov"));
    assert!(!s.is_video_file("readme.txt"));
    assert!(!s.is_video_file("movie.mp3"));
    assert!(!s.is_video_file("movie.mp4.txt"));
}

#[test]
fn paths_without_extension_are_not_videos() {
    let s = VideoPlayerState::new();
    assert!(!s.is_video_file(""));
    assert!(!s.is_video_file("mp4"));
    assert!(!s.is_video_file("dir.mp4/movie"));
    assert!(!s.is_video_file(".mp4"));
    assert!(!s.is_video_file("dir/.mp4"));
    assert!(!s.is_video_file("movie."));
}

#[test]
fn last_extension_of_last_segment_counts() {
    let s = VideoPlayerState::new();
    assert!(s.is_video_file("archive.tar.mp4"));
    assert!(s.is_video_file("/srv/media/.hidden.webm"));
    assert!(s.is_video_file("a.b/c.3gp"));
}

#[test]
fn extension_extraction() {
    assert_eq!(path_extension("a/b.mp4"), Some("mp4".to_string()));
    assert_eq!(path_extension("a.b/c"), None);
    assert_eq!(path_extension("x.tar.gz"), Some("gz".to_string()));
    assert_eq!(path_extension(".bashrc"), None);
    assert_eq!(path_extension("dir/.."), None);
    assert_eq!(path_extension("name."), Some("".to_string()));
    assert_eq!(path_extension("vidéo.mkv"), Some("mkv".to_string()));
}

#[test]
fn decimal_keys() {
    assert_eq!(decimal_string(0), "0");
    assert_eq!(decimal_string(7), "7");
    assert_eq!(decimal_string(10), "10");
    assert_eq!(decimal_string(1234), "1234");
    assert_eq!(make_server_key(0, "mp4"), "0.mp4");
    assert_eq!(make_server_key(42, "webm"), "42.webm");
}

#[test]
fn build_example_tree() {
    let files = paths(&["a/movie.mp4", "a/clip.MP4", "b/trailer.mov", "readme.txt"]);
    let s = VideoPlayerState::build(&config("assets"), &files);
    assert_eq!(s.list_all(), pairs(&[("0.mp4", "a/movie.mp4"), ("1.mov", "b/trailer.mov")]));
    assert_eq!(s.next_index(), 2);
    assert_eq!(s.root(), Some("assets".to_string()));
}

#[test]
fn build_of_empty_tree() {
    let s = VideoPlayerState::build(&config("empty"), &Vec::new());
    assert_eq!(s.list_all(), Vec::new());
    assert_eq!(s.next_index(), 0);
    assert_eq!(s.lookup("0.mp4"), None);
}

#[test]
fn numbers_follow_visit_order_past_ten() {
    let mut files = Vec::new();
    for i in 0..12 {
        files.push(format!("d/{}.mkv", i));
        files.push(format!("d/{}.srt", i));
    }
    let s = VideoPlayerState::build(&config("d"), &files);
    let all = s.list_all();
    assert_eq!(all.len(), 12);
    for (i, (key, path)) in all.iter().enumerate() {
        assert_eq!(key, &format!("{}.mkv", i));
        assert_eq!(path, &format!("d/{}.mkv", i));
    }
    assert_eq!(s.lookup("11.mkv"), Some("d/11.mkv".to_string()));
}

#[test]
fn lookup_found_and_not_found() {
    let files = paths(&["x/one.avi", "x/two.flv", "notes.md"]);
    let s = VideoPlayerState::build(&config("x"), &files);
    assert_eq!(s.lookup("0.avi"), Some("x/one.avi".to_string()));
    assert_eq!(s.lookup("1.flv"), Some("x/two.flv".to_string()));
    assert_eq!(s.lookup("1.avi"), None);
    assert_eq!(s.lookup("2.md"), None);
    assert_eq!(s.lookup(""), None);
}

#[test]
fn two_builds_agree() {
    let files = paths(&["m/a.mov", "m/b.txt", "m/c.wmv"]);
    let a = VideoPlayerState::build(&config("m"), &files);
    let b = VideoPlayerState::build(&config("m"), &files);
    assert_eq!(a.list_all(), b.list_all());
}

#[test]
fn reload_reflects_new_tree() {
    let before = paths(&["r/old.mp4", "r/kept.mkv"]);
    let mut s = VideoPlayerState::build(&config("r"), &before);
    assert_eq!(s.list_all(), pairs(&[("0.mp4", "r/old.mp4"), ("1.mkv", "r/kept.mkv")]));
    let after = paths(&["r/kept.mkv", "r/new.m4v"]);
    s.reload(&after);
    assert_eq!(s.list_all(), pairs(&[("0.mkv", "r/kept.mkv"), ("1.m4v", "r/new.m4v")]));
    assert_eq!(s.next_index(), 2);
    assert_eq!(s.lookup("0.mp4"), None);
    assert_eq!(s.root(), Some("r".to_string()));
}

#[test]
fn reload_twice_gives_same_index() {
    let files = paths(&["t/a.mpeg", "t/b.heic", "t/c.doc"]);
    let mut s = VideoPlayerState::build(&config("t"), &files);
    s.reload(&files);
    let first = s.list_all();
    s.reload(&files);
    assert_eq!(s.list_all(), first);
    assert_eq!(first, pairs(&[("0.mpeg", "t/a.mpeg"), ("1.heic", "t/b.heic")]));
}

#[test]
fn load_video_and_load_videos_continue_numbering() {
    let mut s = VideoPlayerState::new();
    assert_eq!(s.root(), None);
    s.load_video("v/first.mpg".to_string());
    s.load_videos(&paths(&["v/skip.png", "v/second.3gp"]));
    assert_eq!(s.list_all(), pairs(&[("0.mpg", "v/first.mpg"), ("1.3gp", "v/second.3gp")]));
    assert_eq!(s.next_index(), 2);
}

#[test]
fn default_config() {
    let c = VideoPlayerConfig::default();
    assert_eq!(c.assets_root, "assets");
    assert_eq!(c.port, 9092);
    assert_eq!(c.host, "0.0.0.0");
}

#[test]
fn template_lists_entries() {
    let files = paths(&["p/x.webm", "p/y.txt"]);
    let s = VideoPlayerState::build(&config("p"), &files);
    let t = IndexTemplate::new(&s);
    assert_eq!(t.videos, pairs(&[("0.webm", "p/x.webm")]));
}

#[test]
fn load_video_keeps_any_extension() {
    let mut s = VideoPlayerState::new();
    s.load_video("docs/notes.txt".to_string());
    assert_eq!(s.lookup("0.txt"), Some("docs/notes.txt".to_string()));
    assert_eq!(s.next_index(), 1);
}
