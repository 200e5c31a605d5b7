//! Choosing the audio track to condense.

use vstd::prelude::*;

use crate::ffprobe::{
    channels_text, codec_text, derefs, lang_text, push_channels, push_codec, push_lang,
    push_title_suffix, title_suffix, Stream,
};
use crate::paths::texts;
use crate::picker::{lemma_menu_value_first, menu_value, Menu, Pick};
use crate::text::{
    decimal, extend_str, has_number_at, lemma_number_at_unique, push_decimal, string_of,
};

verus! {

/// Why no audio track can be chosen.
#[derive(Clone, Copy, Debug, PartialEq, Eq, Structural)]
pub enum AudioError {
    /// The video has no audio stream.
    NoAudioStreams,
}

/// The menu line for the audio stream `s`, the `audio_idx`-th of the file:
/// `#<audio_idx> (stream=<index>)  lang=<lang>  codec=<codec>  ch=<channels>`,
/// followed by `  title=<title>` when the stream has a title.
pub open spec fn audio_label(audio_idx: nat, s: Stream) -> Seq<char> {
    "#"@ + decimal(audio_idx) + " (stream="@ + decimal(s.index as nat) + ")  lang="@ + lang_text(s)
        + "  codec="@ + codec_text(s) + "  ch="@ + channels_text(s) + title_suffix(s)
}

proof fn lemma_audio_label_number(i: nat, s: Stream)
    ensures
        has_number_at(audio_label(i, s), 1, i),
{
    reveal_strlit("#");
    reveal_strlit(" (stream=");
    let d = decimal(i);
    let p = "#"@ + d + " (stream="@;
    let x = audio_label(i, s);
    assert(x.len() >= p.len());
    assert forall|k: int| 0 <= k < p.len() implies x[k] == p[k] by {
    }
    assert forall|k: int| 0 <= k < d.len() implies x[1 + k] == #[trigger] d[k] by {
        assert(p[1 + k] == d[k]);
    }
    assert(p[1 + d.len() as int] == ' ');
}

/// Picking the line that an audio menu shows for a stream gives that stream's
/// position back.
pub proof fn lemma_audio_menu_round_trip(streams: Seq<Stream>, m: Menu, i: int)
    requires
        is_audio_menu(streams, m),
        0 <= i < streams.len(),
    ensures
        menu_value(texts(m.labels@), m.values@, texts(m.labels@)[i]) == Some(i as u32),
{
    let ls = texts(m.labels@);
    lemma_menu_value_first(ls, m.values@, i);
    let j = choose|j: int|
        0 <= j <= i && ls[j] == ls[i] && menu_value(ls, m.values@, ls[i]) == Some(m.values@[j]);
    assert(ls[j] == audio_label(j as nat, streams[j]));
    assert(ls[i] == audio_label(i as nat, streams[i]));
    lemma_audio_label_number(j as nat, streams[j]);
    lemma_audio_label_number(i as nat, streams[i]);
    lemma_number_at_unique(ls[i], 1, j as nat, i as nat);
    assert(m.values@[i] == i as u32);
}

/// `m` offers each of `streams` by its audio label, picking it stands for its
/// position among them.
pub open spec fn is_audio_menu(streams: Seq<Stream>, m: Menu) -> bool {
    &&& m.labels@.len() == streams.len()
    &&& m.values@.len() == streams.len()
    &&& forall|i: int|
        0 <= i < streams.len() ==> #[trigger] texts(m.labels@)[i] == audio_label(
            i as nat,
            streams[i],
        )
    &&& forall|i: int| 0 <= i < streams.len() ==> #[trigger] m.values@[i] == i as u32
}

/// The menu line for audio stream `s`, the `audio_idx`-th of the file.
pub fn format_audio_label(audio_idx: usize, s: &Stream) -> (r: String)
    ensures
        r@ == audio_label(audio_idx as nat, *s),
{
    let mut v: Vec<char> = Vec::new();
    extend_str(&mut v, "#");
    push_decimal(&mut v, audio_idx as u64);
    extend_str(&mut v, " (stream=");
    push_decimal(&mut v, s.index as u64);
    extend_str(&mut v, ")  lang=");
    push_lang(&mut v, s);
    extend_str(&mut v, "  codec=");
    push_codec(&mut v, s);
    extend_str(&mut v, "  ch=");
    push_channels(&mut v, s);
    push_title_suffix(&mut v, s);
    string_of(v.as_slice())
}

/// The menu offering every audio stream; picking one gives its position.
pub fn prompt_audio(audio_streams: &[&Stream]) -> (m: Menu)
    ensures
        is_audio_menu(derefs(audio_streams@), m),
{
    let mut labels: Vec<String> = Vec::new();
    let mut values: Vec<u32> = Vec::new();
    let n = audio_streams.len();
    for i in 0..n
        invariant
            n == audio_streams@.len(),
            labels@.len() == i,
            values@.len() == i,
            forall|k: int|
                0 <= k < i ==> #[trigger] texts(labels@)[k] == audio_label(
                    k as nat,
                    derefs(audio_streams@)[k],
                ),
            forall|k: int| 0 <= k < i ==> #[trigger] values@[k] == k as u32,
    {
        let label = format_audio_label(i, audio_streams[i]);
        let ghost before = labels@;
        labels.push(label);
        values.push(i as u32);
        assert(derefs(audio_streams@)[i as int] == *audio_streams@[i as int]);
        assert forall|k: int|
            0 <= k <= i implies #[trigger] texts(labels@)[k] == audio_label(
            k as nat,
            derefs(audio_streams@)[k],
        ) by {
            if k < i {
                assert(labels@[k] == before[k]);
                assert(texts(before)[k] == before[k]@);
            }
        }
    }
    Menu { labels, values }
}

/// Chooses the audio track, as an index among the audio streams (`0:a:N` in
/// ffmpeg's terms): there is none to choose without audio streams, the only one is
/// chosen without asking, and among several the user is asked.
pub fn pick_audio_track(audio_streams: &[&Stream]) -> (r: Result<Pick, AudioError>)
    ensures
        audio_streams@.len() == 0 ==> r matches Err(AudioError::NoAudioStreams),
        audio_streams@.len() == 1 ==> r matches Ok(Pick::Chosen(0)),
        audio_streams@.len() > 1 ==> (r matches Ok(Pick::Ask(m)) && is_audio_menu(
            derefs(audio_streams@),
            m,
        )),
{
    match audio_streams.len() {
        0 => Err(AudioError::NoAudioStreams),
        1 => Ok(Pick::Chosen(0)),
        _ => Ok(Pick::Ask(prompt_audio(audio_streams))),
    }
}

} // verus!
