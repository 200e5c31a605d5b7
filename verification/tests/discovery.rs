use std::path::PathBuf;

use condensed_audio::discovery::{
    find_srts, find_videos, find_with_exts, pick_video, DiscoveryError,
};
use condensed_audio::paths::{extension, file_stem, join, sort_paths};

fn strings(v: &[&str]) -> Vec<String> {
    v.iter().map(|s| s.to_string()).collect()
}

#[test]
fn finds_videos_by_extension_case_insensitively() {
    let files = strings(&[
        "/m/b.MKV",
        "/m/notes.txt",
        "/m/a.mp4",
        "/m/sub/c.Ts",
        "/m/.mkv",
        "/m/x.srt",
        "/m/noext",
    ]);
    assert_eq!(find_videos(files.clone()), strings(&["/m/a.mp4", "/m/b.MKV", "/m/sub/c.Ts"]));
    assert_eq!(find_srts(files), strings(&["/m/x.srt"]));
}

#[test]
fn custom_extension_list() {
    let files = strings(&["b.txt", "a.TXT", "c.md"]);
    assert_eq!(find_with_exts(files, &["txt"]), strings(&["a.TXT", "b.txt"]));
}

#[test]
fn sorting_follows_path_components() {
    let input = strings(&[
        "a.b/z", "a/b", "a-b", "/abs", "./x", "a/../b", "a//c", "a/b/", "b", "../up", "a/b",
    ]);
    let mut expected: Vec<PathBuf> = input.iter().map(PathBuf::from).collect();
    expected.sort();
    let got: Vec<PathBuf> = sort_paths(input).iter().map(PathBuf::from).collect();
    assert_eq!(got, expected);
}

#[test]
fn sort_is_stable_for_equal_paths() {
    let got = sort_paths(strings(&["a//b", "c", "a/b", "a/b/"]));
    assert_eq!(got, strings(&["a//b", "a/b", "a/b/", "c"]));
}

#[test]
fn stems_and_extensions_match_std() {
    for p in [
        "/a/b.tar.gz", "noext", ".hidden", "/x/.hidden.txt", "dir/", "a/..", "/", "", ".", "a/.",
        "trail.", "a/b/./", "..", "x..y",
    ] {
        let pb = PathBuf::from(p);
        assert_eq!(
            file_stem(p),
            pb.file_stem().map(|s| s.to_str().unwrap().to_string()),
            "stem of {p:?}"
        );
        assert_eq!(
            extension(p),
            pb.extension().map(|s| s.to_str().unwrap().to_string()),
            "extension of {p:?}"
        );
    }
}

#[test]
fn join_matches_std() {
    for (base, rel) in [("/tmp", "x"), ("/tmp/", "x"), ("", "x"), ("a/b", "c/d")] {
        assert_eq!(join(base, rel), PathBuf::from(base).join(rel).to_str().unwrap());
    }
}

#[test]
fn no_videos_is_an_error() {
    assert_eq!(
        pick_video("/here", &[]),
        Err(DiscoveryError::NoVideos { root: "/here".into() })
    );
    let v = strings(&["/here/a.mkv"]);
    assert_eq!(pick_video("/here", &v), Ok(v.clone()));
}
