//! Condensed audio: only the parts of a video's audio during which a subtitle line
//! is shown, for language immersion.
//!
//! The library holds the decisions and the text formats: reading SRT subtitles,
//! turning cues into padded and merged segments, the ffmpeg filter graph that cuts
//! them out, the output paths, and the menus offered to the user. Running ffprobe,
//! ffmpeg and the picker, and touching the file system, is left to the caller.

use vstd::prelude::*;

pub mod audio;
pub mod cli;
pub mod discovery;
pub mod extract;
pub mod merge_laws;
pub mod ffprobe;
pub mod output;
pub mod paths;
pub mod picker;
pub mod report;
pub mod segments;
pub mod srt;
pub mod subtitle;
pub mod text;

verus! {
} // verus!
