//! Reading ffprobe's stream list: the audio tracks a source offers, numbered
//! the way ffmpeg's `0:a:N` selector counts them, and which stream is the
//! video. Running ffprobe and parsing its JSON happen around these functions.

use vstd::prelude::*;
use crate::media::{string_of_range, trim_range, trim_spaces};
use crate::replay::games::{lines_of, text_lines};
use crate::text::{chars_of, owned, push_arg, str_eq};

verus! {

/// One audio track of a source.
pub struct AudioTrack {
    /// Position among the audio streams only (`0:a:N`).
    pub index: usize,
    pub codec: String,
    pub channels: u32,
    /// Channel layout (`stereo`, `5.1`), when reported.
    pub layout: Option<String>,
    /// Stream title (`title` tag, else `name`), when set.
    pub title: Option<String>,
    pub language: Option<String>,
}

/// One stream of ffprobe's `streams` array, as far as it is read.
pub struct ProbeStream {
    pub codec_type: Option<String>,
    pub codec_name: Option<String>,
    pub channels: Option<u64>,
    pub channel_layout: Option<String>,
    pub tag_title: Option<String>,
    pub tag_name: Option<String>,
    pub tag_language: Option<String>,
}

pub open spec fn opt_view(o: Option<String>) -> Option<Seq<char>> {
    match o { Some(s) => Some(s@), None => None }
}

pub open spec fn is_kind(s: ProbeStream, kind: Seq<char>) -> bool {
    opt_view(s.codec_type) == Some(kind)
}

/// A track as plain values: index, codec, channels, layout, title, language.
pub open spec fn track_view(t: AudioTrack) -> (nat, Seq<char>, u32, Option<Seq<char>>, Option<Seq<char>>, Option<Seq<char>>) {
    (t.index as nat, t.codec@, t.channels, opt_view(t.layout), opt_view(t.title), opt_view(t.language))
}

/// The track for audio stream `s`, the `n`-th audio stream: a missing codec
/// is empty, missing channels are zero (the count keeps its low 32 bits), the
/// title is the `title` tag or else the `name` tag.
pub open spec fn track_of(n: nat, s: ProbeStream) -> (nat, Seq<char>, u32, Option<Seq<char>>, Option<Seq<char>>, Option<Seq<char>>) {
    (
        n,
        match s.codec_name { Some(c) => c@, None => Seq::empty() },
        match s.channels { Some(c) => c as u32, None => 0 },
        opt_view(s.channel_layout),
        match s.tag_title { Some(t) => Some(t@), None => opt_view(s.tag_name) },
        opt_view(s.tag_language),
    )
}

/// The audio tracks of `streams`, in stream order.
pub open spec fn audio_tracks_of(streams: Seq<ProbeStream>) -> Seq<(nat, Seq<char>, u32, Option<Seq<char>>, Option<Seq<char>>, Option<Seq<char>>)>
    decreases streams.len(),
{
    if streams.len() == 0 {
        Seq::empty()
    } else {
        let prev = audio_tracks_of(streams.drop_last());
        if is_kind(streams.last(), "audio"@) { prev.push(track_of(prev.len(), streams.last())) } else { prev }
    }
}

fn copy_opt(o: &Option<String>) -> (r: Option<String>)
    ensures
        opt_view(r) == opt_view(*o),
{
    match o {
        Some(s) => Some(owned(s.as_str())),
        None => None,
    }
}

fn kind_is(s: &ProbeStream, kind: &str) -> (b: bool)
    ensures
        b == is_kind(*s, kind@),
{
    match &s.codec_type {
        Some(t) => str_eq(t.as_str(), kind),
        None => false,
    }
}

/// The audio tracks ffprobe reported, numbered among audio streams.
pub fn audio_tracks_from(streams: &Vec<ProbeStream>) -> (r: Vec<AudioTrack>)
    ensures
        r@.map_values(|t: AudioTrack| track_view(t)) == audio_tracks_of(streams@),
{
    let mut out: Vec<AudioTrack> = Vec::new();
    let mut i: usize = 0;
    while i < streams.len()
        invariant
            i <= streams@.len(),
            out@.len() <= i,
            out@.map_values(|t: AudioTrack| track_view(t)) == audio_tracks_of(streams@.take(i as int)),
        decreases streams.len() - i,
    {
        let ghost before = out@.map_values(|t: AudioTrack| track_view(t));
        assert(streams@.take((i + 1) as int).drop_last() =~= streams@.take(i as int));
        let s = &streams[i];
        if kind_is(s, "audio") {
            let idx = out.len();
            let codec = match &s.codec_name {
                Some(c) => owned(c.as_str()),
                None => String::new(),
            };
            let channels: u32 = match s.channels {
                Some(c) => {
                    #[verifier::truncate]
                    let x = c as u32;
                    x
                },
                None => 0,
            };
            let title = match &s.tag_title {
                Some(t) => Some(owned(t.as_str())),
                None => copy_opt(&s.tag_name),
            };
            let t = AudioTrack {
                index: idx,
                codec,
                channels,
                layout: copy_opt(&s.channel_layout),
                title,
                language: copy_opt(&s.tag_language),
            };
            assert(track_view(t) == track_of(before.len(), streams@[i as int]));
            out.push(t);
            assert(out@.map_values(|t: AudioTrack| track_view(t)) =~= before.push(track_view(t)));
        }
        i = i + 1;
    }
    assert(streams@.take(streams@.len() as int) =~= streams@);
    out
}

/// Position of the first video stream, if any.
pub fn first_video_stream(streams: &Vec<ProbeStream>) -> (r: Option<usize>)
    ensures
        match r {
            Some(i) => i < streams@.len() && is_kind(streams@[i as int], "video"@)
                && forall|j: int| 0 <= j < i ==> !is_kind(#[trigger] streams@[j], "video"@),
            None => forall|j: int| 0 <= j < streams@.len() ==> !is_kind(#[trigger] streams@[j], "video"@),
        },
{
    let mut i: usize = 0;
    while i < streams.len()
        invariant
            i <= streams@.len(),
            forall|j: int| 0 <= j < i ==> !is_kind(#[trigger] streams@[j], "video"@),
        decreases streams.len() - i,
    {
        if kind_is(&streams[i], "video") {
            return Some(i);
        }
        i = i + 1;
    }
    None
}

/// The keyframe timestamps among ffprobe's output lines, still as text:
/// each line trimmed, blank lines and `N/A` left out.
pub open spec fn keyframe_fields_of(lines: Seq<Seq<char>>) -> Seq<Seq<char>>
    decreases lines.len(),
{
    if lines.len() == 0 {
        Seq::empty()
    } else {
        let prev = keyframe_fields_of(lines.drop_last());
        let t = trim_spaces(lines.last());
        if t.len() == 0 || t == "N/A"@ { prev } else { prev.push(t) }
    }
}

/// The keyframe timestamp fields of ffprobe's CSV output (one per line).
pub fn keyframe_fields(stdout: &str) -> (r: Vec<String>)
    ensures
        r.deep_view() == keyframe_fields_of(text_lines(stdout@)),
{
    let lines = lines_of(stdout);
    let ghost ls = lines.deep_view();
    let mut out: Vec<String> = Vec::new();
    let mut i: usize = 0;
    while i < lines.len()
        invariant
            i <= lines@.len(),
            ls == lines.deep_view(),
            ls == text_lines(stdout@),
            out.deep_view() == keyframe_fields_of(ls.take(i as int)),
        decreases lines.len() - i,
    {
        let v = chars_of(lines[i].as_str());
        let (a, b) = trim_range(&v, 0, v.len());
        let t = string_of_range(&v, a, b);
        proof {
            assert(ls.take(i + 1).drop_last() =~= ls.take(i as int));
            assert(v@.subrange(0, v@.len() as int) =~= v@);
            assert(ls[i as int] == lines@[i as int]@);
        }
        if b > a && !str_eq(t.as_str(), "N/A") {
            push_arg(&mut out, t);
        }
        i = i + 1;
    }
    assert(ls.take(ls.len() as int) =~= ls);
    out
}

} // verus!
