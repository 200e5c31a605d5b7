//! Where the condensed audio and its subtitles are written, and whether existing
//! files there may be overwritten.

use vstd::prelude::*;

use crate::paths::{file_stem, join, joined, stem_of};
use crate::text::{
    ascii_lowercase, chars_eq, chars_of, extend_str, string_of, to_ascii_lowercase, trim,
    trim_chars,
};

verus! {

/// The output directory and the two files written into it.
#[derive(Debug, Clone)]
pub struct OutputPaths {
    pub dir: String,
    pub mp3: String,
    pub srt: String,
}

/// The name the outputs are based on: the video's file stem, or `output` when the
/// video path has no file name.
pub open spec fn output_stem(video: Seq<char>) -> Seq<char> {
    match stem_of(video) {
        Some(s) => s,
        None => "output"@,
    }
}

/// `<cwd>/<stem>.condensed/` with `<stem>.condensed.mp3` and `<stem>.condensed.srt`
/// inside, `<stem>` being the video's file stem.
pub fn resolve(cwd: &str, video: &str) -> (out: OutputPaths)
    ensures
        out.dir@ == joined(cwd@, output_stem(video@) + ".condensed"@),
        out.mp3@ == joined(out.dir@, output_stem(video@) + ".condensed.mp3"@),
        out.srt@ == joined(out.dir@, output_stem(video@) + ".condensed.srt"@),
{
    let stem = match file_stem(video) {
        Some(s) => s,
        None => string_of(chars_of("output").as_slice()),
    };
    let base = chars_of(stem.as_str());
    let mut dir_name = base.clone();
    extend_str(&mut dir_name, ".condensed");
    let mut mp3_name = base.clone();
    extend_str(&mut mp3_name, ".condensed.mp3");
    let mut srt_name = base.clone();
    extend_str(&mut srt_name, ".condensed.srt");
    let dir = join(cwd, string_of(dir_name.as_slice()).as_str());
    let mp3 = join(dir.as_str(), string_of(mp3_name.as_slice()).as_str());
    let srt = join(dir.as_str(), string_of(srt_name.as_slice()).as_str());
    OutputPaths { dir, mp3, srt }
}

/// What to do before writing the outputs.
#[derive(Clone, Debug, PartialEq, Eq)]
pub enum OutputStep {
    /// The directory is missing: create it, then write.
    CreateDir,
    /// Neither output file exists yet: write.
    Proceed,
    /// Ask before overwriting; the text names the files that exist.
    Ask(String),
}

/// Decides what to do given which of the output directory and files exist. The
/// files are only looked at when the directory exists.
pub fn output_step(dir_exists: bool, mp3_exists: bool, srt_exists: bool) -> (r: OutputStep)
    ensures
        !dir_exists ==> r == OutputStep::CreateDir,
        dir_exists && !mp3_exists && !srt_exists ==> r == OutputStep::Proceed,
        dir_exists && mp3_exists && srt_exists ==> (r matches OutputStep::Ask(w) && w@
            == "audio + srt"@),
        dir_exists && mp3_exists && !srt_exists ==> (r matches OutputStep::Ask(w) && w@
            == "audio"@),
        dir_exists && !mp3_exists && srt_exists ==> (r matches OutputStep::Ask(w) && w@ == "srt"@),
{
    if !dir_exists {
        OutputStep::CreateDir
    } else if !mp3_exists && !srt_exists {
        OutputStep::Proceed
    } else {
        let which = if mp3_exists && srt_exists {
            "audio + srt"
        } else if mp3_exists {
            "audio"
        } else {
            "srt"
        };
        OutputStep::Ask(string_of(chars_of(which).as_slice()))
    }
}

/// The question asked before overwriting: `<dir>/ already contains a previous
/// <which> file. Overwrite? [y/N] `.
pub fn overwrite_question(dir: &str, which: &str) -> (q: String)
    ensures
        q@ == dir@ + "/ already contains a previous "@ + which@ + " file. Overwrite? [y/N] "@,
{
    let mut v: Vec<char> = Vec::new();
    extend_str(&mut v, dir);
    extend_str(&mut v, "/ already contains a previous ");
    extend_str(&mut v, which);
    extend_str(&mut v, " file. Overwrite? [y/N] ");
    string_of(v.as_slice())
}

/// Whether a reply to the overwrite question agrees: after trimming white space
/// and lowering ASCII case it is `y` or `yes`.
pub fn confirms_overwrite(answer: &str) -> (yes: bool)
    ensures
        yes == (ascii_lowercase(trim(answer@)) == seq!['y'] || ascii_lowercase(trim(answer@))
            == seq!['y', 'e', 's']),
{
    let a = chars_of(answer);
    let t = trim_chars(a.as_slice());
    let l = to_ascii_lowercase(t.as_slice());
    let y = ['y'];
    let yes = ['y', 'e', 's'];
    assert(y@ == seq!['y']);
    assert(yes@ == seq!['y', 'e', 's']);
    chars_eq(l.as_slice(), &y) || chars_eq(l.as_slice(), &yes)
}

} // verus!
