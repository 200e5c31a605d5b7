use condensed_audio::audio::{format_audio_label, pick_audio_track, AudioError};
use condensed_audio::cli::Args;
use condensed_audio::ffprobe::{ProbeResult, Stream};
use condensed_audio::picker::{picker_exit, selected_line, Menu, Pick, PickerExit};
use condensed_audio::subtitle::{
    format_stream_label, pick_embedded_track, pick_external_srt, prompt_source, source_choices,
    Source, SubtitleError,
};

fn stream(index: u32, kind: &str, codec: Option<&str>, tags: &[(&str, &str)]) -> Stream {
    Stream {
        index,
        codec_type: kind.to_string(),
        codec_name: codec.map(|c| c.to_string()),
        channels: None,
        tags: tags.iter().map(|(k, v)| (k.to_string(), v.to_string())).collect(),
    }
}

#[test]
fn tags_are_looked_up_by_key() {
    let s = stream(0, "audio", None, &[("title", "Main"), ("language", "jpn")]);
    assert_eq!(s.language(), Some("jpn"));
    assert_eq!(s.title(), Some("Main"));
    let s = stream(0, "audio", None, &[]);
    assert_eq!(s.language(), None);
    assert_eq!(s.title(), None);
}

#[test]
fn streams_are_split_by_type() {
    let probe = ProbeResult {
        streams: vec![
            stream(0, "video", None, &[]),
            stream(1, "audio", None, &[]),
            stream(2, "subtitle", None, &[]),
            stream(3, "audio", None, &[]),
        ],
        duration_ms: Some(1000),
    };
    let a: Vec<u32> = probe.audio_streams().iter().map(|s| s.index).collect();
    let s: Vec<u32> = probe.subtitle_streams().iter().map(|s| s.index).collect();
    assert_eq!(a, vec![1, 3]);
    assert_eq!(s, vec![2]);
}

#[test]
fn audio_labels() {
    let mut s = stream(4, "audio", Some("aac"), &[("language", "eng")]);
    s.channels = Some(6);
    assert_eq!(format_audio_label(1, &s), "#1 (stream=4)  lang=eng  codec=aac  ch=6");
    let s = stream(7, "audio", None, &[("title", "Commentary")]);
    assert_eq!(
        format_audio_label(0, &s),
        "#0 (stream=7)  lang=und  codec=?  ch=?  title=Commentary"
    );
    let s = stream(7, "audio", None, &[("title", "")]);
    assert_eq!(format_audio_label(0, &s), "#0 (stream=7)  lang=und  codec=?  ch=?");
}

#[test]
fn audio_track_choice() {
    assert_eq!(pick_audio_track(&[]).unwrap_err(), AudioError::NoAudioStreams);
    let a = stream(1, "audio", Some("aac"), &[]);
    let b = stream(5, "audio", Some("opus"), &[("language", "jpn")]);
    assert!(matches!(pick_audio_track(&[&a]), Ok(Pick::Chosen(0))));
    match pick_audio_track(&[&a, &b]) {
        Ok(Pick::Ask(menu)) => {
            assert_eq!(menu.values, vec![0, 1]);
            assert_eq!(menu.labels[1], "#1 (stream=5)  lang=jpn  codec=opus  ch=?");
            assert_eq!(menu.value_of(&menu.labels[1]), Some(1));
            assert_eq!(menu.value_of("nothing"), None);
        }
        _ => panic!("expected a menu"),
    }
}

#[test]
fn menu_picks_first_matching_label() {
    let m = Menu { labels: vec!["a".into(), "b".into(), "a".into()], values: vec![7, 8, 9] };
    assert_eq!(m.value_of("a"), Some(7));
    assert_eq!(m.value_of("b"), Some(8));
    assert_eq!(m.value_of("c"), None);
}

#[test]
fn embedded_tracks_only_text_codecs() {
    let pgs = stream(2, "subtitle", Some("hdmv_pgs_subtitle"), &[]);
    let srt = stream(3, "subtitle", Some("subrip"), &[("language", "eng"), ("title", "Full")]);
    let ass = stream(4, "subtitle", Some("ass"), &[]);
    let none = stream(5, "subtitle", None, &[]);
    assert_eq!(pick_embedded_track(&[&pgs, &none]).unwrap_err(), SubtitleError::NoTextTracks);
    let menu = pick_embedded_track(&[&pgs, &srt, &none, &ass]).unwrap();
    assert_eq!(menu.values, vec![3, 4]);
    assert_eq!(menu.labels[0], "#3  lang=eng  codec=subrip  title=Full");
    assert_eq!(menu.labels[1], "#4  lang=und  codec=ass");
    assert_eq!(format_stream_label(&pgs), "#2  lang=und  codec=hdmv_pgs_subtitle");
}

#[test]
fn subtitle_source_from_pick() {
    let lines = source_choices();
    assert_eq!(lines, vec!["Embedded subtitle track", "External SRT file"]);
    assert_eq!(prompt_source(Some("Embedded subtitle track")), Some(Source::Embedded));
    assert_eq!(prompt_source(Some("External SRT file")), Some(Source::External));
    assert_eq!(prompt_source(Some("anything")), Some(Source::External));
    assert_eq!(prompt_source(None), None);
}

#[test]
fn external_srt_needs_a_file() {
    assert_eq!(
        pick_external_srt("/d", &[]),
        Err(SubtitleError::NoSrtFiles { root: "/d".into() })
    );
    let files = vec!["/d/a.srt".to_string()];
    assert_eq!(pick_external_srt("/d", &files), Ok(files.clone()));
}

#[test]
fn default_settings() {
    let a = Args::default();
    assert_eq!((a.pad_ms, a.gap_ms), (500, 200));
}

#[test]
fn a_tag_is_found_wherever_it_stands() {
    let a = stream(0, "audio", None, &[("language", "eng"), ("title", "Commentary"), ("handler", "x")]);
    let b = stream(0, "audio", None, &[("handler", "x"), ("title", "Commentary"), ("language", "eng")]);
    assert_eq!(a.language(), b.language());
    assert_eq!(a.title(), b.title());
    assert_eq!(b.language(), Some("eng"));
    let c = stream(0, "audio", None, &[("LANGUAGE", "eng")]);
    assert_eq!(c.language(), None);
}

#[test]
fn picker_exit_codes() {
    assert_eq!(picker_exit(Some(0)), PickerExit::Selected);
    assert_eq!(picker_exit(Some(1)), PickerExit::Cancelled);
    assert_eq!(picker_exit(Some(130)), PickerExit::Cancelled);
    assert_eq!(picker_exit(Some(2)), PickerExit::Failed(2));
    assert_eq!(picker_exit(None), PickerExit::Killed);
}

#[test]
fn picked_line_loses_only_trailing_newlines() {
    assert_eq!(selected_line("movie.mkv\n"), "movie.mkv");
    assert_eq!(selected_line("a b \n\n"), "a b ");
    assert_eq!(selected_line("x\r\n"), "x\r");
    assert_eq!(selected_line("\nx"), "\nx");
    assert_eq!(selected_line(""), "");
}
