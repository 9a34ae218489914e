//! Per-track audio extraction for multi-track preview: which tracks still
//! need extracting, and the ffmpeg arguments that copy (or, failing that,
//! re-encode) each audio stream into its own cached file.

use vstd::prelude::*;
use crate::text::{dec, owned, push_arg, push_dec, push_str_arg};

verus! {

/// What the editor gets back for one requested track.
pub struct TrackExtractResult {
    pub track_index: u32,
    /// Playable URL on success.
    pub url: Option<String>,
    /// The failure, otherwise.
    pub error: Option<String>,
}

/// `0:a:N?` (the `N`-th audio stream, if present).
pub open spec fn audio_stream_selector(idx: u32) -> Seq<char> {
    "0:a:"@ + dec(idx as nat) + "?"@
}

fn selector(idx: u32) -> (r: String)
    ensures
        r@ == audio_stream_selector(idx),
{
    let mut s = owned("0:a:");
    push_dec(&mut s, idx as u64);
    s.append("?");
    s
}

/// The output part for one track copied out of the source (ADTS to MP4 for AAC).
pub open spec fn copy_output(idx: u32, out: Seq<char>) -> Seq<Seq<char>> {
    seq!["-map"@, audio_stream_selector(idx), "-vn"@, "-c:a"@, "copy"@, "-bsf:a"@, "aac_adtstoasc"@, "-map_chapters"@, "-1"@, out]
}

pub open spec fn input_head(src: Seq<char>) -> Seq<Seq<char>> {
    seq!["-y"@, "-hide_banner"@, "-loglevel"@, "error"@, "-i"@, src]
}

fn push_head(v: &mut Vec<String>, src: &str)
    ensures
        final(v).deep_view() == old(v).deep_view() + input_head(src@),
{
    push_str_arg(v, "-y");
    push_str_arg(v, "-hide_banner");
    push_str_arg(v, "-loglevel");
    push_str_arg(v, "error");
    push_str_arg(v, "-i");
    push_str_arg(v, src);
    assert(v.deep_view() =~= old(v).deep_view() + input_head(src@));
}

fn push_copy_output(v: &mut Vec<String>, idx: u32, out: &str)
    ensures
        final(v).deep_view() == old(v).deep_view() + copy_output(idx, out@),
{
    push_str_arg(v, "-map");
    push_arg(v, selector(idx));
    push_str_arg(v, "-vn");
    push_str_arg(v, "-c:a");
    push_str_arg(v, "copy");
    push_str_arg(v, "-bsf:a");
    push_str_arg(v, "aac_adtstoasc");
    push_str_arg(v, "-map_chapters");
    push_str_arg(v, "-1");
    push_str_arg(v, out);
    assert(v.deep_view() =~= old(v).deep_view() + copy_output(idx, out@));
}

/// Copy one audio track of `src` into `out`.
pub fn track_copy_args(src: &str, idx: u32, out: &str) -> (v: Vec<String>)
    ensures
        v.deep_view() == input_head(src@) + copy_output(idx, out@),
{
    let mut v: Vec<String> = Vec::new();
    push_head(&mut v, src);
    push_copy_output(&mut v, idx, out);
    v
}

/// Re-encode one audio track of `src` to 192 kb/s AAC in `out`.
pub open spec fn reencode_output(idx: u32, out: Seq<char>) -> Seq<Seq<char>> {
    seq!["-map"@, audio_stream_selector(idx), "-vn"@, "-c:a"@, "aac"@, "-b:a"@, "192k"@, "-map_chapters"@, "-1"@, out]
}

/// The fallback when copying fails: re-encode the track.
pub fn track_reencode_args(src: &str, idx: u32, out: &str) -> (v: Vec<String>)
    ensures
        v.deep_view() == input_head(src@) + reencode_output(idx, out@),
{
    let mut v: Vec<String> = Vec::new();
    push_head(&mut v, src);
    push_str_arg(&mut v, "-map");
    push_arg(&mut v, selector(idx));
    push_str_arg(&mut v, "-vn");
    push_str_arg(&mut v, "-c:a");
    push_str_arg(&mut v, "aac");
    push_str_arg(&mut v, "-b:a");
    push_str_arg(&mut v, "192k");
    push_str_arg(&mut v, "-map_chapters");
    push_str_arg(&mut v, "-1");
    push_str_arg(&mut v, out);
    assert(v.deep_view() =~= input_head(src@) + reencode_output(idx, out@));
    v
}

pub open spec fn copy_outputs(misses: Seq<(u32, Seq<char>)>) -> Seq<Seq<char>>
    decreases misses.len(),
{
    if misses.len() == 0 {
        Seq::empty()
    } else {
        copy_outputs(misses.drop_last()) + copy_output(misses.last().0, misses.last().1)
    }
}

/// One ffmpeg run that copies every missing track (index, temporary file).
pub fn batch_copy_args(src: &str, misses: &Vec<(u32, String)>) -> (v: Vec<String>)
    ensures
        v.deep_view() == input_head(src@) + copy_outputs(misses@.map_values(|m: (u32, String)| (m.0, m.1@))),
{
    let ghost ms = misses@.map_values(|m: (u32, String)| (m.0, m.1@));
    let mut v: Vec<String> = Vec::new();
    push_head(&mut v, src);
    let mut i: usize = 0;
    while i < misses.len()
        invariant
            i <= misses@.len(),
            ms == misses@.map_values(|m: (u32, String)| (m.0, m.1@)),
            v.deep_view() == input_head(src@) + copy_outputs(ms.take(i as int)),
        decreases misses.len() - i,
    {
        push_copy_output(&mut v, misses[i].0, misses[i].1.as_str());
        i = i + 1;
        assert(ms.take(i as int).drop_last() =~= ms.take((i - 1) as int));
        assert(v.deep_view() =~= input_head(src@) + copy_outputs(ms.take(i as int)));
    }
    assert(ms.take(misses@.len() as int) =~= ms);
    v
}

/// The requests that need extracting: the first request for each track
/// whose cached file is absent (`cached` is parallel to `indices`).
pub open spec fn is_miss(indices: Seq<u32>, cached: Seq<bool>, k: int) -> bool {
    !cached[k] && forall|j: int| 0 <= j < k ==> indices[j] != indices[k]
}

/// Positions (into `indices`) of the tracks to extract, in request order.
pub fn plan_misses(indices: &Vec<u32>, cached: &Vec<bool>) -> (r: Vec<usize>)
    requires
        cached@.len() == indices@.len(),
    ensures
        forall|a: int| 0 <= a < r@.len() ==> #[trigger] r@[a] < indices@.len() && is_miss(indices@, cached@, r@[a] as int),
        forall|a: int, b: int| 0 <= a < b < r@.len() ==> #[trigger] r@[a] < #[trigger] r@[b],
        forall|k: int| 0 <= k < indices@.len() && is_miss(indices@, cached@, k) ==> r@.contains(k as usize),
{
    let mut r: Vec<usize> = Vec::new();
    let mut k: usize = 0;
    while k < indices.len()
        invariant
            k <= indices@.len(),
            cached@.len() == indices@.len(),
            forall|a: int| 0 <= a < r@.len() ==> #[trigger] r@[a] < k && is_miss(indices@, cached@, r@[a] as int),
            forall|a: int, b: int| 0 <= a < b < r@.len() ==> #[trigger] r@[a] < #[trigger] r@[b],
            forall|j: int| 0 <= j < k && is_miss(indices@, cached@, j) ==> r@.contains(j as usize),
        decreases indices.len() - k,
    {
        let mut first = true;
        let mut j: usize = 0;
        while j < k
            invariant
                j <= k < indices@.len(),
                first == forall|q: int| 0 <= q < j ==> indices@[q] != indices@[k as int],
            decreases k - j,
        {
            if indices[j] == indices[k] {
                first = false;
            }
            j = j + 1;
        }
        if first && !cached[k] {
            let ghost before = r@;
            r.push(k);
            proof {
                assert(r@[before.len() as int] == k);
                assert forall|q: int| 0 <= q < k && is_miss(indices@, cached@, q) implies r@.contains(q as usize) by {
                    assert(before.contains(q as usize));
                    let w = choose|w: int| 0 <= w < before.len() && before[w] == q as usize;
                    assert(r@[w] == q as usize);
                }
                assert(r@.contains(k));
            }
        }
        k = k + 1;
    }
    r
}

/// The outcome of one requested track: its URL when its file exists, else
/// the recorded failure, else a generic one.
pub fn track_result(track_index: u32, url: Option<String>, failure: Option<String>) -> (r: TrackExtractResult)
    ensures
        r.track_index == track_index,
        url is Some ==> r.url == url && r.error is None,
        url is None ==> r.url is None && (match failure {
            Some(f) => r.error == Some(f),
            None => r.error matches Some(e) && e@ == "track extract failed"@,
        }),
{
    match url {
        Some(u) => TrackExtractResult { track_index, url: Some(u), error: None },
        None => {
            let e = match failure {
                Some(f) => f,
                None => owned("track extract failed"),
            };
            TrackExtractResult { track_index, url: None, error: Some(e) }
        },
    }
}

} // verus!
