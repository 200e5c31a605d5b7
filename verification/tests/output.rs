use std::path::PathBuf;

use condensed_audio::output::{confirms_overwrite, output_step, overwrite_question, resolve, OutputStep};
use condensed_audio::report::fmt_duration;

#[test]
fn resolves_folder_and_filenames() {
    let cwd = PathBuf::from("/tmp");
    let video = PathBuf::from("/some/where/Show.S01E02.mkv");
    let out = resolve(cwd.to_str().unwrap(), video.to_str().unwrap());
    assert_eq!(PathBuf::from(&out.dir), PathBuf::from("/tmp/Show.S01E02.condensed"));
    assert_eq!(
        PathBuf::from(&out.mp3),
        PathBuf::from("/tmp/Show.S01E02.condensed/Show.S01E02.condensed.mp3")
    );
    assert_eq!(
        PathBuf::from(&out.srt),
        PathBuf::from("/tmp/Show.S01E02.condensed/Show.S01E02.condensed.srt")
    );
}

#[test]
fn handles_no_extension() {
    let cwd = PathBuf::from("/tmp");
    let video = PathBuf::from("/some/where/raw");
    let out = resolve(cwd.to_str().unwrap(), video.to_str().unwrap());
    assert_eq!(PathBuf::from(&out.dir), PathBuf::from("/tmp/raw.condensed"));
    assert_eq!(
        PathBuf::from(&out.mp3),
        PathBuf::from("/tmp/raw.condensed/raw.condensed.mp3")
    );
}

#[test]
fn resolve_matches_std_paths() {
    let cases = [
        ("/tmp/", "/v/a.b.c.mkv"),
        ("", "clip.mp4"),
        ("rel/dir", "./.hidden"),
        ("/", "/v/trailing.mkv/"),
        ("/x", "/v/.."),
        ("/x", "/"),
        ("/x", "/v/name./."),
    ];
    for (cwd, video) in cases {
        let stem = PathBuf::from(video)
            .file_stem()
            .map(|s| s.to_string_lossy().into_owned())
            .unwrap_or_else(|| "output".into());
        let dir = PathBuf::from(cwd).join(format!("{stem}.condensed"));
        let out = resolve(cwd, video);
        assert_eq!(out.dir, dir.to_str().unwrap(), "{cwd} {video}");
        assert_eq!(
            out.mp3,
            dir.join(format!("{stem}.condensed.mp3")).to_str().unwrap()
        );
        assert_eq!(
            out.srt,
            dir.join(format!("{stem}.condensed.srt")).to_str().unwrap()
        );
    }
}

#[test]
fn output_steps() {
    assert_eq!(output_step(false, true, true), OutputStep::CreateDir);
    assert_eq!(output_step(true, false, false), OutputStep::Proceed);
    assert_eq!(output_step(true, true, true), OutputStep::Ask("audio + srt".into()));
    assert_eq!(output_step(true, true, false), OutputStep::Ask("audio".into()));
    assert_eq!(output_step(true, false, true), OutputStep::Ask("srt".into()));
    assert_eq!(
        overwrite_question("/tmp/x.condensed", "srt"),
        "/tmp/x.condensed/ already contains a previous srt file. Overwrite? [y/N] "
    );
}

#[test]
fn overwrite_answers() {
    assert!(confirms_overwrite("y\n"));
    assert!(confirms_overwrite("  YeS \t\n"));
    assert!(confirms_overwrite("\u{3000}Y"));
    assert!(!confirms_overwrite(""));
    assert!(!confirms_overwrite("n"));
    assert!(!confirms_overwrite("yess"));
    assert!(!confirms_overwrite("y y"));
}

#[test]
fn durations_are_formatted() {
    assert_eq!(fmt_duration(0), "0m00s");
    assert_eq!(fmt_duration(59_999), "0m59s");
    assert_eq!(fmt_duration(61_000), "1m01s");
    assert_eq!(fmt_duration(3_599_999), "59m59s");
    assert_eq!(fmt_duration(3_600_000), "1h00m00s");
    assert_eq!(fmt_duration(3_723_456), "1h02m03s");
    assert_eq!(fmt_duration(360_000_000), "100h00m00s");
}
