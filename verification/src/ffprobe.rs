//! What ffprobe reports about a media file, as the rest of the tool reads it.

use vstd::prelude::*;

use crate::text::{chars_of, decimal, extend_str, push_decimal, str_eq};

verus! {

/// One stream of the media file.
#[derive(Debug)]
pub struct Stream {
    /// The stream's global index in the file.
    pub index: u32,
    /// `audio`, `video`, `subtitle`, ...
    pub codec_type: String,
    pub codec_name: Option<String>,
    pub channels: Option<u32>,
    /// The stream's tags as (key, value) pairs; ffprobe reports each key once
    /// (`keys_distinct`).
    pub tags: Vec<(String, String)>,
}

/// The value of the first tag named `key`, if any.
pub open spec fn tag_value(tags: Seq<(String, String)>, key: Seq<char>) -> Option<Seq<char>>
    decreases tags.len(),
{
    if tags.len() == 0 {
        None
    } else if tags[0].0@ == key {
        Some(tags[0].1@)
    } else {
        tag_value(tags.drop_first(), key)
    }
}

/// No two of `tags` share a key.
pub open spec fn keys_distinct(tags: Seq<(String, String)>) -> bool {
    forall|i: int, j: int| 0 <= i < j < tags.len() ==> tags[i].0@ != tags[j].0@
}

/// No tag is named `key` exactly when the lookup finds none; with distinct keys,
/// the lookup finds the value of the one tag named `key`, wherever it stands.
proof fn lemma_tag_value(tags: Seq<(String, String)>, key: Seq<char>)
    ensures
        tag_value(tags, key) is None <==> forall|i: int|
            0 <= i < tags.len() ==> #[trigger] tags[i].0@ != key,
        keys_distinct(tags) ==> forall|i: int|
            0 <= i < tags.len() && #[trigger] tags[i].0@ == key ==> tag_value(tags, key) == Some(
                tags[i].1@,
            ),
    decreases tags.len(),
{
    if tags.len() > 0 {
        let rest = tags.drop_first();
        lemma_tag_value(rest, key);
        assert forall|i: int| 0 <= i < rest.len() implies #[trigger] rest[i] == tags[i + 1] by {}
        if keys_distinct(tags) {
            assert forall|i: int, j: int| 0 <= i < j < rest.len() implies rest[i].0@
                != rest[j].0@ by {
                assert(tags[i + 1].0@ != tags[j + 1].0@);
            }
        }
        if tag_value(tags, key) is None {
            assert forall|i: int| 0 <= i < tags.len() implies #[trigger] tags[i].0@ != key by {
                if i > 0 {
                    assert(rest[i - 1] == tags[i]);
                }
            }
        }
    }
}

impl Stream {
    fn tag<'a>(&'a self, key: &str) -> (r: Option<&'a str>)
        ensures
            match r {
                Some(v) => tag_value(self.tags@, key@) == Some(v@),
                None => tag_value(self.tags@, key@) is None,
            },
            r is None <==> forall|i: int|
                0 <= i < self.tags@.len() ==> #[trigger] self.tags@[i].0@ != key@,
            keys_distinct(self.tags@) ==> forall|i: int|
                0 <= i < self.tags@.len() && #[trigger] self.tags@[i].0@ == key@ ==> (r matches Some(
                    v,
                ) && v@ == self.tags@[i].1@),
    {
        proof {
            lemma_tag_value(self.tags@, key@);
        }
        let n = self.tags.len();
        let ghost tags = self.tags@;
        assert(tags.skip(0) == tags);
        for i in 0..n
            invariant
                n == tags.len(),
                tags == self.tags@,
                tag_value(tags, key@) == tag_value(tags.skip(i as int), key@),
        {
            assert(tags.skip(i as int)[0] == tags[i as int]);
            if str_eq(self.tags[i].0.as_str(), key) {
                return Some(self.tags[i].1.as_str());
            }
            assert(tags.skip(i as int).drop_first() == tags.skip(i + 1));
        }
        None
    }

    /// The `language` tag.
    pub fn language(&self) -> (r: Option<&str>)
        ensures
            match r {
                Some(v) => tag_value(self.tags@, "language"@) == Some(v@),
                None => tag_value(self.tags@, "language"@) is None,
            },
            r is None <==> forall|i: int|
                0 <= i < self.tags@.len() ==> #[trigger] self.tags@[i].0@ != "language"@,
            keys_distinct(self.tags@) ==> forall|i: int|
                0 <= i < self.tags@.len() && #[trigger] self.tags@[i].0@ == "language"@ ==> (r matches Some(
                    v,
                ) && v@ == self.tags@[i].1@),
    {
        self.tag("language")
    }

    /// The `title` tag.
    pub fn title(&self) -> (r: Option<&str>)
        ensures
            match r {
                Some(v) => tag_value(self.tags@, "title"@) == Some(v@),
                None => tag_value(self.tags@, "title"@) is None,
            },
            r is None <==> forall|i: int|
                0 <= i < self.tags@.len() ==> #[trigger] self.tags@[i].0@ != "title"@,
            keys_distinct(self.tags@) ==> forall|i: int|
                0 <= i < self.tags@.len() && #[trigger] self.tags@[i].0@ == "title"@ ==> (r matches Some(
                    v,
                ) && v@ == self.tags@[i].1@),
    {
        self.tag("title")
    }
}

/// The container-level facts ffprobe reports.
#[derive(Debug)]
pub struct Format {
    /// The duration in seconds, as ffprobe writes it.
    pub duration: Option<String>,
}

/// The streams of a media file and its duration in milliseconds, when known.
#[derive(Debug)]
pub struct ProbeResult {
    pub streams: Vec<Stream>,
    pub duration_ms: Option<u64>,
}

/// The streams of `s` whose codec type is `t`, in order.
pub open spec fn streams_of_type(s: Seq<Stream>, t: Seq<char>) -> Seq<Stream> {
    s.filter(|x: Stream| x.codec_type@ == t)
}

proof fn lemma_streams_of_type_push(s: Seq<Stream>, x: Stream, t: Seq<char>)
    ensures
        streams_of_type(s.push(x), t) == if x.codec_type@ == t {
            streams_of_type(s, t).push(x)
        } else {
            streams_of_type(s, t)
        },
{
    broadcast use Seq::lemma_filter_push;

}

/// The streams behind the references of `v`.
pub open spec fn derefs<'a>(v: Seq<&'a Stream>) -> Seq<Stream> {
    v.map_values(|s: &Stream| *s)
}

impl ProbeResult {
    fn streams_typed<'a>(&'a self, t: &str) -> (r: Vec<&'a Stream>)
        ensures
            derefs(r@) == streams_of_type(self.streams@, t@),
    {
        let mut out: Vec<&Stream> = Vec::new();
        let n = self.streams.len();
        for i in 0..n
            invariant
                n == self.streams@.len(),
                derefs(out@) == streams_of_type(self.streams@.take(i as int), t@),
        {
            let s = &self.streams[i];
            proof {
                assert(self.streams@.take(i + 1) == self.streams@.take(i as int).push(*s));
                lemma_streams_of_type_push(self.streams@.take(i as int), *s, t@);
            }
            if str_eq(s.codec_type.as_str(), t) {
                let ghost before = out@;
                out.push(s);
                assert(derefs(out@) == derefs(before).push(*s));
            }
        }
        assert(self.streams@.take(n as int) == self.streams@);
        out
    }

    /// The audio streams, in file order.
    pub fn audio_streams(&self) -> (r: Vec<&Stream>)
        ensures
            derefs(r@) == streams_of_type(self.streams@, "audio"@),
    {
        self.streams_typed("audio")
    }

    /// The subtitle streams, in file order.
    pub fn subtitle_streams(&self) -> (r: Vec<&Stream>)
        ensures
            derefs(r@) == streams_of_type(self.streams@, "subtitle"@),
    {
        self.streams_typed("subtitle")
    }
}

/// The stream's language tag, or `und`.
pub open spec fn lang_text(s: Stream) -> Seq<char> {
    match tag_value(s.tags@, "language"@) {
        Some(l) => l,
        None => "und"@,
    }
}

/// The stream's codec name, or `?`.
pub open spec fn codec_text(s: Stream) -> Seq<char> {
    match s.codec_name {
        Some(c) => c@,
        None => "?"@,
    }
}

/// The stream's channel count in decimal, or `?`.
pub open spec fn channels_text(s: Stream) -> Seq<char> {
    match s.channels {
        Some(c) => decimal(c as nat),
        None => "?"@,
    }
}

/// `  title=<title>` when the stream has a non-empty title tag, else nothing.
pub open spec fn title_suffix(s: Stream) -> Seq<char> {
    match tag_value(s.tags@, "title"@) {
        Some(t) => if t.len() == 0 {
            seq![]
        } else {
            "  title="@ + t
        },
        None => seq![],
    }
}

/// Appends the stream's language tag, or `und`.
pub fn push_lang(out: &mut Vec<char>, s: &Stream)
    ensures
        final(out)@ == old(out)@ + lang_text(*s),
{
    match s.language() {
        Some(l) => extend_str(out, l),
        None => extend_str(out, "und"),
    }
}

/// Appends the stream's codec name, or `?`.
pub fn push_codec(out: &mut Vec<char>, s: &Stream)
    ensures
        final(out)@ == old(out)@ + codec_text(*s),
{
    match &s.codec_name {
        Some(c) => extend_str(out, c.as_str()),
        None => extend_str(out, "?"),
    }
}

/// Appends the stream's channel count, or `?`.
pub fn push_channels(out: &mut Vec<char>, s: &Stream)
    ensures
        final(out)@ == old(out)@ + channels_text(*s),
{
    match s.channels {
        Some(c) => push_decimal(out, c as u64),
        None => extend_str(out, "?"),
    }
}

/// Appends `  title=<title>` when the stream has a non-empty title tag.
pub fn push_title_suffix(out: &mut Vec<char>, s: &Stream)
    ensures
        final(out)@ == old(out)@ + title_suffix(*s),
{
    match s.title() {
        Some(t) => {
            let tc = chars_of(t);
            if tc.len() == 0 {
                assert(old(out)@ + Seq::<char>::empty() == old(out)@);
            } else {
                extend_str(out, "  title=");
                extend_str(out, t);
            }
        },
        None => {
            assert(old(out)@ + Seq::<char>::empty() == old(out)@);
        },
    }
}

} // verus!
