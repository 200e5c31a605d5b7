//! Choosing where the subtitles come from: a text track inside the video, or an
//! external `.srt` file.

use vstd::prelude::*;

use crate::ffprobe::{
    codec_text, derefs, lang_text, push_codec, push_lang, push_title_suffix, title_suffix, Stream,
};
use crate::paths::texts;
use crate::picker::{lemma_menu_value_first, menu_value, Menu};
use crate::text::{
    chars_of, decimal, extend_str, has_number_at, lemma_number_at_unique, push_decimal, str_eq,
    string_of,
};

verus! {

/// Where the subtitles come from.
#[derive(Debug, Clone, Copy, PartialEq, Eq, Structural)]
pub enum Source {
    Embedded,
    External,
}

/// Why no subtitles can be offered.
#[derive(Debug, Clone, PartialEq, Eq)]
pub enum SubtitleError {
    /// No `.srt` file was found under `root`.
    NoSrtFiles { root: String },
    /// The video has no text-based subtitle track (image-based ones such as PGS
    /// or VobSub cannot be read).
    NoTextTracks,
}

/// The two lines offered when choosing the subtitle source.
pub fn source_choices() -> (r: Vec<&'static str>)
    ensures
        r@.len() == 2,
        r@[0]@ == "Embedded subtitle track"@,
        r@[1]@ == "External SRT file"@,
{
    vec!["Embedded subtitle track", "External SRT file"]
}

/// The source that the picked line stands for: the embedded track for
/// `Embedded subtitle track`, an external file for any other line, and nothing
/// when the pick was cancelled.
pub fn prompt_source(picked: Option<&str>) -> (r: Option<Source>)
    ensures
        match picked {
            None => r is None,
            Some(p) => r == Some(
                if p@ == "Embedded subtitle track"@ {
                    Source::Embedded
                } else {
                    Source::External
                },
            ),
        },
{
    match picked {
        None => None,
        Some(p) => if str_eq(p, "Embedded subtitle track") {
            Some(Source::Embedded)
        } else {
            Some(Source::External)
        },
    }
}

/// The labels to offer when picking among the `.srt` files `srts` found under
/// `root`: each path as it is. There is nothing to pick when none was found.
pub fn pick_external_srt(root: &str, srts: &[String]) -> (r: Result<Vec<String>, SubtitleError>)
    ensures
        srts@.len() == 0 ==> (r matches Err(SubtitleError::NoSrtFiles { root: d }) && d@ == root@),
        srts@.len() > 0 ==> (r matches Ok(labels) && texts(labels@) == texts(srts@)),
{
    if srts.len() == 0 {
        return Err(SubtitleError::NoSrtFiles { root: string_of(chars_of(root).as_slice()) });
    }
    let mut labels: Vec<String> = Vec::new();
    let n = srts.len();
    for i in 0..n
        invariant
            n == srts@.len(),
            texts(labels@) == texts(srts@).take(i as int),
    {
        let ghost before = labels@;
        labels.push(srts[i].clone());
        assert(texts(labels@) == texts(before).push(labels@[i as int]@));
        assert(texts(srts@).take(i + 1) == texts(srts@).take(i as int).push(srts@[i as int]@));
    }
    assert(texts(srts@).take(n as int) == texts(srts@));
    Ok(labels)
}

/// Codecs of subtitle tracks held as text, which can be turned into SRT.
pub open spec fn is_text_codec(c: Seq<char>) -> bool {
    c == "subrip"@ || c == "ass"@ || c == "ssa"@ || c == "mov_text"@ || c == "webvtt"@
}

/// The stream's codec is a text subtitle codec.
pub open spec fn is_text_track(s: Stream) -> bool {
    match s.codec_name {
        Some(c) => is_text_codec(c@),
        None => false,
    }
}

fn text_track(s: &Stream) -> (r: bool)
    ensures
        r == is_text_track(*s),
{
    match &s.codec_name {
        Some(c) => {
            let c = c.as_str();
            str_eq(c, "subrip") || str_eq(c, "ass") || str_eq(c, "ssa") || str_eq(c, "mov_text")
                || str_eq(c, "webvtt")
        },
        None => false,
    }
}

/// The menu line for subtitle stream `s`:
/// `#<index>  lang=<lang>  codec=<codec>`, followed by `  title=<title>` when the
/// stream has a title.
pub open spec fn stream_label(s: Stream) -> Seq<char> {
    "#"@ + decimal(s.index as nat) + "  lang="@ + lang_text(s) + "  codec="@ + codec_text(s)
        + title_suffix(s)
}

/// The menu line for subtitle stream `s`.
pub fn format_stream_label(s: &Stream) -> (r: String)
    ensures
        r@ == stream_label(*s),
{
    let mut v: Vec<char> = Vec::new();
    extend_str(&mut v, "#");
    push_decimal(&mut v, s.index as u64);
    extend_str(&mut v, "  lang=");
    push_lang(&mut v, s);
    extend_str(&mut v, "  codec=");
    push_codec(&mut v, s);
    push_title_suffix(&mut v, s);
    string_of(v.as_slice())
}

/// The text subtitle tracks among `s`, in order.
pub open spec fn text_tracks(s: Seq<Stream>) -> Seq<Stream> {
    s.filter(|x: Stream| is_text_track(x))
}

proof fn lemma_text_tracks_push(s: Seq<Stream>, x: Stream)
    ensures
        text_tracks(s.push(x)) == if is_text_track(x) {
            text_tracks(s).push(x)
        } else {
            text_tracks(s)
        },
{
    broadcast use Seq::lemma_filter_push;

}

/// `m` offers each of `tracks` by its stream label; picking one gives its global
/// stream index.
pub open spec fn is_track_menu(tracks: Seq<Stream>, m: Menu) -> bool {
    &&& m.labels@.len() == tracks.len()
    &&& m.values@.len() == tracks.len()
    &&& forall|i: int|
        0 <= i < tracks.len() ==> #[trigger] texts(m.labels@)[i] == stream_label(tracks[i])
    &&& forall|i: int| 0 <= i < tracks.len() ==> #[trigger] m.values@[i] == tracks[i].index
}

proof fn lemma_stream_label_number(s: Stream)
    ensures
        has_number_at(stream_label(s), 1, s.index as nat),
{
    reveal_strlit("#");
    reveal_strlit("  lang=");
    let d = decimal(s.index as nat);
    let p = "#"@ + d + "  lang="@;
    let x = stream_label(s);
    assert(x.len() >= p.len());
    assert forall|k: int| 0 <= k < p.len() implies x[k] == p[k] by {
    }
    assert forall|k: int| 0 <= k < d.len() implies x[1 + k] == #[trigger] d[k] by {
        assert(p[1 + k] == d[k]);
    }
    assert(p[1 + d.len() as int] == ' ');
}

/// Picking the line that a track menu shows for a track gives that track's
/// stream index back.
pub proof fn lemma_track_menu_round_trip(tracks: Seq<Stream>, m: Menu, i: int)
    requires
        is_track_menu(tracks, m),
        0 <= i < tracks.len(),
    ensures
        menu_value(texts(m.labels@), m.values@, texts(m.labels@)[i]) == Some(tracks[i].index),
{
    let ls = texts(m.labels@);
    lemma_menu_value_first(ls, m.values@, i);
    let j = choose|j: int|
        0 <= j <= i && ls[j] == ls[i] && menu_value(ls, m.values@, ls[i]) == Some(m.values@[j]);
    assert(ls[j] == stream_label(tracks[j]));
    assert(ls[i] == stream_label(tracks[i]));
    lemma_stream_label_number(tracks[j]);
    lemma_stream_label_number(tracks[i]);
    lemma_number_at_unique(ls[i], 1, tracks[j].index as nat, tracks[i].index as nat);
    assert(m.values@[j] == tracks[j].index);
}

/// The codec name is one of those of text subtitles: SubRip, ASS, SSA, MP4 timed
/// text or WebVTT.
pub open spec fn names_text_codec(s: Stream) -> bool {
    s.codec_name matches Some(c) && (c@ == "subrip"@ || c@ == "ass"@ || c@ == "ssa"@ || c@
        == "mov_text"@ || c@ == "webvtt"@)
}

/// A track menu for the streams `streams` offers every stream whose codec is named
/// `subrip`, `ass`, `ssa`, `mov_text` or `webvtt`, under its label and with its stream
/// index as value, and offers nothing else; it is empty exactly when no stream has
/// one of those codecs.
pub proof fn lemma_text_tracks_offered(streams: Seq<Stream>, m: Menu)
    requires
        is_track_menu(text_tracks(streams), m),
    ensures
        forall|i: int|
            0 <= i < streams.len() && #[trigger] names_text_codec(streams[i]) ==> exists|j: int|
                0 <= j < m.values@.len() && m.values@[j] == streams[i].index && texts(
                    m.labels@,
                )[j] == stream_label(streams[i]),
        forall|j: int|
            0 <= j < m.values@.len() ==> exists|i: int|
                0 <= i < streams.len() && names_text_codec(streams[i]) && #[trigger] m.values@[j]
                    == streams[i].index,
        m.values@.len() == 0 <==> forall|i: int|
            0 <= i < streams.len() ==> !#[trigger] names_text_codec(streams[i]),
{
    let tt = text_tracks(streams);
    assert forall|i: int|
        0 <= i < streams.len() && #[trigger] names_text_codec(streams[i]) implies exists|j: int|
        0 <= j < m.values@.len() && m.values@[j] == streams[i].index && texts(m.labels@)[j]
            == stream_label(streams[i]) by {
        lemma_text_track_member(streams, streams[i]);
        assert(streams.contains(streams[i]));
        let j = choose|j: int| 0 <= j < tt.len() && tt[j] == streams[i];
        assert(m.values@[j] == tt[j].index);
        assert(texts(m.labels@)[j] == stream_label(tt[j]));
    }
    assert forall|j: int| 0 <= j < m.values@.len() implies exists|i: int|
        0 <= i < streams.len() && names_text_codec(streams[i]) && #[trigger] m.values@[j]
            == streams[i].index by {
        lemma_text_track_member(streams, tt[j]);
        assert(tt.contains(tt[j]));
        let i = choose|i: int| 0 <= i < streams.len() && streams[i] == tt[j];
        assert(m.values@[j] == streams[i].index);
    }
    if m.values@.len() == 0 {
        assert forall|i: int| 0 <= i < streams.len() implies !#[trigger] names_text_codec(
            streams[i],
        ) by {
            lemma_text_track_member(streams, streams[i]);
            assert(streams.contains(streams[i]));
        }
    } else {
        lemma_text_track_member(streams, tt[0]);
        assert(tt.contains(tt[0]));
        let i = choose|i: int| 0 <= i < streams.len() && streams[i] == tt[0];
        assert(names_text_codec(streams[i]));
    }
}

/// There are no text tracks to offer (`NoTextTracks`) exactly when no stream's
/// codec is named `subrip`, `ass`, `ssa`, `mov_text` or `webvtt`.
pub proof fn lemma_no_text_tracks(streams: Seq<Stream>)
    ensures
        text_tracks(streams).len() == 0 <==> forall|i: int|
            0 <= i < streams.len() ==> !#[trigger] names_text_codec(streams[i]),
{
    let tt = text_tracks(streams);
    if tt.len() == 0 {
        assert forall|i: int| 0 <= i < streams.len() implies !#[trigger] names_text_codec(
            streams[i],
        ) by {
            lemma_text_track_member(streams, streams[i]);
            assert(streams.contains(streams[i]));
        }
    } else {
        lemma_text_track_member(streams, tt[0]);
        assert(tt.contains(tt[0]));
        let i = choose|i: int| 0 <= i < streams.len() && streams[i] == tt[0];
        assert(names_text_codec(streams[i]));
    }
}

/// A stream is among the text tracks exactly when it is one of `streams` and its
/// codec names a text subtitle format.
proof fn lemma_text_track_member(streams: Seq<Stream>, x: Stream)
    ensures
        text_tracks(streams).contains(x) <==> (streams.contains(x) && names_text_codec(x)),
{
    let pred = |y: Stream| is_text_track(y);
    let tt = text_tracks(streams);
    assert(is_text_track(x) == names_text_codec(x));
    if tt.contains(x) {
        streams.lemma_filter_contains_rev(pred, x);
        let k = choose|k: int| 0 <= k < tt.len() && tt[k] == x;
        streams.lemma_filter_pred(pred, k);
    }
    if streams.contains(x) && names_text_codec(x) {
        let i = choose|i: int| 0 <= i < streams.len() && streams[i] == x;
        streams.lemma_filter_contains(pred, i);
    }
}

/// The menu of the embedded subtitle tracks that hold text; picking one gives its
/// global stream index. There is nothing to offer when no track holds text.
pub fn pick_embedded_track(streams: &[&Stream]) -> (r: Result<Menu, SubtitleError>)
    ensures
        text_tracks(derefs(streams@)).len() == 0 ==> r matches Err(SubtitleError::NoTextTracks),
        text_tracks(derefs(streams@)).len() > 0 ==> (r matches Ok(m) && is_track_menu(
            text_tracks(derefs(streams@)),
            m,
        )),
{
    let ghost all = derefs(streams@);
    let mut labels: Vec<String> = Vec::new();
    let mut values: Vec<u32> = Vec::new();
    let n = streams.len();
    for i in 0..n
        invariant
            n == streams@.len(),
            all == derefs(streams@),
            is_track_menu(text_tracks(all.take(i as int)), Menu { labels, values }),
    {
        let s = streams[i];
        let ghost tt = text_tracks(all.take(i as int));
        proof {
            assert(all[i as int] == *s);
            assert(all.take(i + 1) == all.take(i as int).push(*s));
            lemma_text_tracks_push(all.take(i as int), *s);
        }
        if text_track(s) {
            let ghost before = labels@;
            labels.push(format_stream_label(s));
            values.push(s.index);
            assert forall|k: int|
                0 <= k < tt.len() + 1 implies #[trigger] texts(labels@)[k] == stream_label(
                tt.push(*s)[k],
            ) by {
                if k < tt.len() {
                    assert(labels@[k] == before[k]);
                    assert(texts(before)[k] == before[k]@);
                }
            }
        }
    }
    assert(all.take(n as int) == all);
    if labels.len() == 0 {
        return Err(SubtitleError::NoTextTracks);
    }
    Ok(Menu { labels, values })
}

} // verus!
