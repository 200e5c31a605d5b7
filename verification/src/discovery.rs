//! Choosing the video and subtitle files among the files found under a directory.

use vstd::prelude::*;

use crate::paths::{
    extension, extension_of, lemma_sort_paths, paths_sorted, sort_paths, sort_paths_spec, texts,
};
use crate::text::{ascii_lowercase, chars_of, str_eq, string_of, to_ascii_lowercase};

verus! {

/// The text of each string slice.
pub open spec fn str_texts(v: Seq<&str>) -> Seq<Seq<char>> {
    v.map_values(|s: &str| s@)
}

/// `path` has an extension that, in ASCII lower case, is one of `exts`.
pub open spec fn ext_listed(exts: Seq<Seq<char>>, path: Seq<char>) -> bool {
    match extension_of(path) {
        Some(e) => exts.contains(ascii_lowercase(e)),
        None => false,
    }
}

/// The paths of `files` whose extension is listed in `exts`, in their order.
pub open spec fn with_exts(files: Seq<Seq<char>>, exts: Seq<Seq<char>>) -> Seq<Seq<char>> {
    files.filter(|p: Seq<char>| ext_listed(exts, p))
}

proof fn lemma_with_exts_push(files: Seq<Seq<char>>, exts: Seq<Seq<char>>, p: Seq<char>)
    ensures
        with_exts(files.push(p), exts) == if ext_listed(exts, p) {
            with_exts(files, exts).push(p)
        } else {
            with_exts(files, exts)
        },
{
    broadcast use Seq::lemma_filter_push;

}

/// A file is among the paths found for `exts` exactly when it is one of `files`
/// and its extension (`Path::extension`), in ASCII lower case, is one of `exts`;
/// sorting keeps every such file and adds none.
pub proof fn lemma_found_exactly(files: Seq<Seq<char>>, exts: Seq<Seq<char>>, f: Seq<char>)
    ensures
        sort_paths_spec(with_exts(files, exts)).contains(f) <==> (files.contains(f)
            && extension_of(f) is Some && exts.contains(ascii_lowercase(extension_of(f)->0))),
{
    broadcast use Seq::lemma_filter_contains_rev, Seq::lemma_filter_pred, Seq::lemma_filter_contains;

    let pred = |p: Seq<char>| ext_listed(exts, p);
    let w = with_exts(files, exts);
    lemma_sort_paths(w);
    vstd::seq_lib::to_multiset_contains(w, f);
    vstd::seq_lib::to_multiset_contains(sort_paths_spec(w), f);
    if w.contains(f) {
        let k = choose|k: int| 0 <= k < w.len() && w[k] == f;
        assert(pred(w[k]));
    }
    if files.contains(f) && ext_listed(exts, f) {
        let k = choose|k: int| 0 <= k < files.len() && files[k] == f;
        assert(pred(files[k]));
        assert(w.contains(files[k]));
    }
}

/// Whether `ext`, lower-cased, is one of `exts`.
fn listed(exts: &[&str], ext: &str) -> (r: bool)
    ensures
        r == str_texts(exts@).contains(ascii_lowercase(ext@)),
{
    let e = chars_of(ext);
    let lc = string_of(to_ascii_lowercase(e.as_slice()).as_slice());
    let n = exts.len();
    for i in 0..n
        invariant
            n == exts@.len(),
            lc@ == ascii_lowercase(ext@),
            forall|j: int| 0 <= j < i ==> str_texts(exts@)[j] != lc@,
    {
        if str_eq(exts[i], lc.as_str()) {
            assert(str_texts(exts@)[i as int] == lc@);
            return true;
        }
    }
    false
}

/// The files among `files` whose extension, in ASCII lower case, is one of `exts`,
/// sorted as paths sort.
pub fn find_with_exts(files: Vec<String>, exts: &[&str]) -> (r: Vec<String>)
    ensures
        texts(r@) == sort_paths_spec(with_exts(texts(files@), str_texts(exts@))),
        paths_sorted(texts(r@)),
        texts(r@).to_multiset() == with_exts(texts(files@), str_texts(exts@)).to_multiset(),
        forall|f: Seq<char>|
            #![trigger texts(r@).contains(f)]
            texts(r@).contains(f) <==> (texts(files@).contains(f) && extension_of(f) is Some
                && str_texts(exts@).contains(ascii_lowercase(extension_of(f)->0))),
{
    let ghost want = str_texts(exts@);
    let mut out: Vec<String> = Vec::new();
    let n = files.len();
    for i in 0..n
        invariant
            n == files@.len(),
            want == str_texts(exts@),
            texts(out@) == with_exts(texts(files@).take(i as int), want),
    {
        let f = files[i].clone();
        let keep = match extension(f.as_str()) {
            Some(e) => listed(exts, e.as_str()),
            None => false,
        };
        proof {
            assert(texts(files@).take(i + 1) == texts(files@).take(i as int).push(f@));
            lemma_with_exts_push(texts(files@).take(i as int), want, f@);
        }
        if keep {
            let ghost before = out@;
            out.push(f);
            assert(texts(out@) == texts(before).push(out@[out@.len() - 1]@));
        }
    }
    assert(texts(files@).take(n as int) == texts(files@));
    proof {
        lemma_sort_paths(texts(out@));
    }
    let r = sort_paths(out);
    proof {
        assert forall|f: Seq<char>|
            #![trigger texts(r@).contains(f)]
            texts(r@).contains(f) <==> (texts(files@).contains(f) && extension_of(f) is Some
                && want.contains(ascii_lowercase(extension_of(f)->0))) by {
            lemma_found_exactly(texts(files@), want, f);
        }
    }
    r
}

/// The extensions of the video files this tool offers.
pub fn video_exts() -> (r: Vec<&'static str>)
    ensures
        str_texts(r@) == seq![
            "mkv"@,
            "mp4"@,
            "avi"@,
            "webm"@,
            "mov"@,
            "ts"@,
            "m4v"@,
            "wmv"@,
            "flv"@,
        ],
{
    let r = vec!["mkv", "mp4", "avi", "webm", "mov", "ts", "m4v", "wmv", "flv"];
    assert(str_texts(r@) =~= seq![
        "mkv"@,
        "mp4"@,
        "avi"@,
        "webm"@,
        "mov"@,
        "ts"@,
        "m4v"@,
        "wmv"@,
        "flv"@,
    ]);
    r
}

/// The extensions of the subtitle files this tool offers.
pub fn subtitle_exts() -> (r: Vec<&'static str>)
    ensures
        str_texts(r@) == seq!["srt"@],
{
    let r = vec!["srt"];
    assert(str_texts(r@) =~= seq!["srt"@]);
    r
}

/// The video files among `files` (see `video_exts`), sorted as paths sort.
pub fn find_videos(files: Vec<String>) -> (r: Vec<String>)
    ensures
        texts(r@) == sort_paths_spec(
            with_exts(
                texts(files@),
                seq!["mkv"@, "mp4"@, "avi"@, "webm"@, "mov"@, "ts"@, "m4v"@, "wmv"@, "flv"@],
            ),
        ),
        forall|f: Seq<char>|
            #![trigger texts(r@).contains(f)]
            texts(r@).contains(f) <==> (texts(files@).contains(f) && extension_of(f) is Some
                && seq!["mkv"@, "mp4"@, "avi"@, "webm"@, "mov"@, "ts"@, "m4v"@, "wmv"@, "flv"@].contains(
                ascii_lowercase(extension_of(f)->0),
            )),
{
    let exts = video_exts();
    find_with_exts(files, exts.as_slice())
}

/// The `.srt` files among `files`, sorted as paths sort.
pub fn find_srts(files: Vec<String>) -> (r: Vec<String>)
    ensures
        texts(r@) == sort_paths_spec(with_exts(texts(files@), seq!["srt"@])),
        forall|f: Seq<char>|
            #![trigger texts(r@).contains(f)]
            texts(r@).contains(f) <==> (texts(files@).contains(f) && extension_of(f) is Some
                && ascii_lowercase(extension_of(f)->0) == "srt"@),
{
    let exts = subtitle_exts();
    let r = find_with_exts(files, exts.as_slice());
    proof {
        assert forall|x: Seq<char>| seq!["srt"@].contains(x) <==> x == "srt"@ by {
            if x == "srt"@ {
                assert(seq!["srt"@][0] == x);
            }
        }
    }
    r
}

/// Why no video can be offered.
#[derive(Clone, Debug, PartialEq, Eq)]
pub enum DiscoveryError {
    /// No video file was found under `root`.
    NoVideos { root: String },
}

/// The labels to offer when picking a video among `videos`, found under `cwd`:
/// each path as it is. There is nothing to pick when none was found.
pub fn pick_video(cwd: &str, videos: &[String]) -> (r: Result<Vec<String>, DiscoveryError>)
    ensures
        videos@.len() == 0 ==> (r matches Err(DiscoveryError::NoVideos { root }) && root@ == cwd@),
        videos@.len() > 0 ==> (r matches Ok(labels) && texts(labels@) == texts(videos@)),
{
    if videos.len() == 0 {
        return Err(DiscoveryError::NoVideos { root: string_of(chars_of(cwd).as_slice()) });
    }
    let mut labels: Vec<String> = Vec::new();
    let n = videos.len();
    for i in 0..n
        invariant
            n == videos@.len(),
            texts(labels@) == texts(videos@).take(i as int),
    {
        let ghost before = labels@;
        labels.push(videos[i].clone());
        assert(texts(labels@) == texts(before).push(labels@[i as int]@));
        assert(texts(videos@).take(i + 1) == texts(videos@).take(i as int).push(videos@[i as int]@));
    }
    assert(texts(videos@).take(n as int) == texts(videos@));
    Ok(labels)
}

} // verus!
