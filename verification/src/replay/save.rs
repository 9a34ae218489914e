//! Saving a replay: which ffmpeg passes run and with which arguments, and
//! how user-supplied track names are made safe for metadata.
//!
//! Writing the staged files, running ffmpeg and measuring the frame rate of
//! the captured stream happen around these functions; the frame rate arrives
//! here already printed.

use vstd::prelude::*;
use crate::replay::audio::AudioFormat;
use crate::replay::worker::AudioTrackSnapshot;
use crate::diag::{epoch_to_ymd, epoch_to_ymd_spec, year_text};
use crate::media::is_space;
use crate::text::{dec_padded, push_dec_padded};
use crate::text::{contains_seq, dec, owned, push_arg, push_dec, push_str_arg, spec_to_lowercase, str_contains, to_lowercase};

verus! {

// ---------- pcm input format ----------

/// The ffmpeg `-f` value for raw PCM in `format`.
pub open spec fn pcm_flag(format: AudioFormat) -> Seq<char> {
    if format.is_float {
        seq!['f', '3', '2', 'l', 'e']
    } else if format.bits_per_sample == 24 {
        seq!['s', '2', '4', 'l', 'e']
    } else if format.bits_per_sample == 32 {
        seq!['s', '3', '2', 'l', 'e']
    } else {
        seq!['s', '1', '6', 'l', 'e']
    }
}

/// ffmpeg's raw PCM demuxer for `format`: float is `f32le`; integer PCM goes by
/// sample width, 16-bit for any width it does not name.
pub fn pcm_demuxer_flag(format: &AudioFormat) -> (r: &'static str)
    ensures
        r@ == pcm_flag(*format),
{
    proof {
        reveal_strlit("f32le");
        reveal_strlit("s16le");
        reveal_strlit("s24le");
        reveal_strlit("s32le");
    }
    if format.is_float {
        "f32le"
    } else {
        match format.bits_per_sample {
            16 => "s16le",
            24 => "s24le",
            32 => "s32le",
            _ => "s16le",
        }
    }
}

// ---------- metadata sanitising ----------

/// Unicode general category Cc: C0 controls, DEL and the C1 controls
/// (`char::is_control`).
pub open spec fn is_control(c: char) -> bool {
    (c as u32) <= 0x1f || (0x7f <= (c as u32) && (c as u32) <= 0x9f)
}

/// `s` without its control characters.
pub open spec fn strip_controls(s: Seq<char>) -> Seq<char>
    decreases s.len(),
{
    if s.len() == 0 {
        Seq::empty()
    } else if is_control(s.last()) {
        strip_controls(s.drop_last())
    } else {
        strip_controls(s.drop_last()).push(s.last())
    }
}

/// At most `max` characters of `s`, control characters dropped before counting.
pub open spec fn metadata_safe(s: Seq<char>, max: nat) -> Seq<char> {
    let t = strip_controls(s);
    if t.len() <= max {
        t
    } else {
        t.take(max as int)
    }
}

proof fn lemma_strip_prefix(s: Seq<char>, i: int)
    requires
        0 <= i <= s.len(),
    ensures
        strip_controls(s.take(i)).len() <= strip_controls(s).len(),
        strip_controls(s).take(strip_controls(s.take(i)).len() as int) == strip_controls(s.take(i)),
    decreases s.len(),
{
    if i == s.len() {
        assert(s.take(i) =~= s);
    } else {
        assert(s.take(i) =~= s.drop_last().take(i));
        lemma_strip_prefix(s.drop_last(), i);
        let a = strip_controls(s.take(i));
        let b = strip_controls(s.drop_last());
        if !is_control(s.last()) {
            assert(b.push(s.last()).take(a.len() as int) =~= b.take(a.len() as int));
        }
    }
}

fn char_is_control(c: char) -> (b: bool)
    ensures
        b == is_control(c),
{
    let u = c as u32;
    u <= 0x1f || (0x7f <= u && u <= 0x9f)
}

/// `s` with control characters (newline, NUL, ESC, DEL, the C1 range)
/// removed and capped at `max` characters, for ffmpeg metadata and log lines.
pub fn truncate_for_metadata(s: &str, max: usize) -> (r: String)
    ensures
        r@ == metadata_safe(s@, max as nat),
{
    let v = crate::text::chars_of(s);
    let mut out = String::new();
    let mut count: usize = 0;
    let mut i: usize = 0;
    while i < v.len() && count < max
        invariant
            i <= v@.len(),
            out@ == strip_controls(v@.take(i as int)),
            count == out@.len(),
            count <= max,
        decreases v.len() - i,
    {
        let c = v[i];
        let ghost before = v@.take(i as int);
        if !char_is_control(c) {
            out.push(c);
            count = count + 1;
        }
        i = i + 1;
        assert(v@.take(i as int).drop_last() =~= before);
    }
    proof {
        lemma_strip_prefix(v@, i as int);
        if i == v@.len() {
            assert(v@.take(i as int) =~= v@);
        }
    }
    out
}

// ---------- ffmpeg passes ----------

pub open spec fn amd_marker() -> Seq<char> {
    seq!['a', 'm', 'd']
}

pub open spec fn amf_marker() -> Seq<char> {
    seq!['a', 'm', 'f']
}

/// Whether the encoder needs the SPS-rewrite pass before muxing: its name,
/// lowercased, mentions AMD or AMF, or it reported no name at all.
pub open spec fn bsf_needed(encoder_name: Seq<char>) -> bool {
    encoder_name.len() == 0 || contains_seq(spec_to_lowercase(encoder_name), amd_marker())
        || contains_seq(spec_to_lowercase(encoder_name), amf_marker())
}

/// Whether the H.264 stream from `encoder_name` needs its SPS timing rewritten
/// before the mux (AMD's encoder writes half-rate timing; an unnamed encoder
/// is treated as one that might).
pub fn needs_bsf_pass(encoder_name: &str) -> (r: bool)
    ensures
        r == bsf_needed(encoder_name@),
{
    if encoder_name.unicode_len() == 0 {
        return true;
    }
    let lower = to_lowercase(encoder_name);
    proof {
        reveal_strlit("amd");
        reveal_strlit("amf");
        assert("amd"@ =~= amd_marker());
        assert("amf"@ =~= amf_marker());
    }
    str_contains(lower.as_str(), "amd") || str_contains(lower.as_str(), "amf")
}

/// Arguments of the SPS-rewrite pass: copy the stream, declaring a tick rate
/// of twice `fps` with fixed frame rate.
pub open spec fn bsf_arg_list(input: Seq<char>, fixed: Seq<char>, fps: nat) -> Seq<Seq<char>> {
    seq![
        "-y"@,
        "-i"@,
        input,
        "-c"@,
        "copy"@,
        "-bsf:v"@,
        "h264_metadata=tick_rate="@
            + dec(2 * fps) + ":fixed_frame_rate_flag=1"@,
        "-f"@,
        "h264"@,
        fixed,
    ]
}

/// The ffmpeg arguments that rewrite the SPS of raw H.264 `input` into `fixed`.
pub fn bsf_args(input: &str, fixed: &str, fps: u32) -> (v: Vec<String>)
    ensures
        v.deep_view() == bsf_arg_list(input@, fixed@, fps as nat),
{
    let mut v: Vec<String> = Vec::new();
    push_str_arg(&mut v, "-y");
    push_str_arg(&mut v, "-i");
    push_str_arg(&mut v, input);
    push_str_arg(&mut v, "-c");
    push_str_arg(&mut v, "copy");
    push_str_arg(&mut v, "-bsf:v");
    let mut m = owned("h264_metadata=tick_rate=");
    push_dec(&mut m, 2 * (fps as u64));
    m.append(":fixed_frame_rate_flag=1");
    push_arg(&mut v, m);
    push_str_arg(&mut v, "-f");
    push_str_arg(&mut v, "h264");
    push_str_arg(&mut v, fixed);
    assert(v.deep_view() =~= bsf_arg_list(input@, fixed@, fps as nat));
    v
}

/// One staged audio track handed to the mux.
/// Positions of the tracks that captured audio, in order: only these are
/// staged and muxed; a track with no packets is dropped from the save.
pub open spec fn tracks_with_audio(tracks: Seq<AudioTrackSnapshot>) -> Seq<usize>
    decreases tracks.len(),
{
    if tracks.len() == 0 {
        Seq::empty()
    } else {
        let before = tracks_with_audio(tracks.drop_last());
        if tracks.last().packets@.len() > 0 {
            before.push((tracks.len() - 1) as usize)
        } else {
            before
        }
    }
}

/// Which tracks of a save are staged; an error when the video buffer is
/// empty, since there is nothing to mux.
pub fn save_plan(video_packets: usize, tracks: &Vec<AudioTrackSnapshot>) -> (r: Result<Vec<usize>, String>)
    ensures
        r is Ok <==> video_packets > 0,
        r matches Ok(v) ==> v@ == tracks_with_audio(tracks@),
        r matches Err(e) ==> e@ == "buffer is empty"@,
{
    if video_packets == 0 {
        return Err(owned("buffer is empty"));
    }
    let mut v: Vec<usize> = Vec::new();
    let mut i: usize = 0;
    while i < tracks.len()
        invariant
            i <= tracks@.len(),
            v@ == tracks_with_audio(tracks@.take(i as int)),
        decreases tracks.len() - i,
    {
        assert(tracks@.take((i + 1) as int).drop_last() =~= tracks@.take(i as int));
        if tracks[i].packets.len() > 0 {
            v.push(i);
        }
        i = i + 1;
    }
    assert(tracks@.take(tracks@.len() as int) =~= tracks@);
    Ok(v)
}

pub struct MuxAudioInput {
    /// The raw PCM file.
    pub path: String,
    pub format: AudioFormat,
    /// Friendly name for the stream's title; may be empty.
    pub name: String,
}

/// Input options and path of one PCM track.
pub open spec fn track_input(t: MuxAudioInput) -> Seq<Seq<char>> {
    seq![
        "-f"@,
        pcm_flag(t.format),
        "-ar"@,
        dec(t.format.sample_rate as nat),
        "-ac"@,
        dec(t.format.channels as nat),
        "-i"@,
        t.path@,
    ]
}

/// The `-map` of the `i`-th track (input `i + 1`) and, when its sanitised name
/// is not empty, its title metadata.
pub open spec fn track_output(i: nat, t: MuxAudioInput) -> Seq<Seq<char>> {
    let safe = metadata_safe(t.name@, 128);
    seq!["-map"@, dec(i + 1) + ":a"@] + if safe.len() > 0 {
        seq![
            "-metadata:s:a:"@ + dec(i),
            "title="@ + safe,
        ]
    } else {
        Seq::empty()
    }
}

pub open spec fn track_inputs(ts: Seq<MuxAudioInput>) -> Seq<Seq<char>>
    decreases ts.len(),
{
    if ts.len() == 0 {
        Seq::empty()
    } else {
        track_inputs(ts.drop_last()) + track_input(ts.last())
    }
}

pub open spec fn track_outputs(ts: Seq<MuxAudioInput>) -> Seq<Seq<char>>
    decreases ts.len(),
{
    if ts.len() == 0 {
        Seq::empty()
    } else {
        track_outputs(ts.drop_last()) + track_output((ts.len() - 1) as nat, ts.last())
    }
}

/// The mux command: raw H.264 read at frame rate `fps` (forced, ignoring the
/// stream's own timing), each PCM track as a further input, video copied,
/// audio encoded to 192 kb/s AAC with one stream per track, into `out`.
pub open spec fn mux_arg_list(fps: Seq<char>, video: Seq<char>, tracks: Seq<MuxAudioInput>, out: Seq<char>) -> Seq<Seq<char>> {
    seq![
        "-y"@,
        "-r"@,
        fps,
        "-framerate"@,
        fps,
        "-f"@,
        "h264"@,
        "-i"@,
        video,
    ] + track_inputs(tracks) + seq![
        "-c:v"@,
        "copy"@,
        "-map"@,
        "0:v"@,
    ] + (if tracks.len() > 0 {
        seq![
            "-c:a"@,
            "aac"@,
            "-b:a"@,
            "192k"@,
        ] + track_outputs(tracks)
    } else {
        Seq::empty()
    }) + seq![out]
}

proof fn lemma_track_output_inside(ts: Seq<MuxAudioInput>, i: int)
    requires
        0 <= i < ts.len(),
    ensures
        exists|o: int| 0 <= o && o + track_output(i as nat, ts[i]).len() <= track_outputs(ts).len()
            && #[trigger] track_outputs(ts).subrange(o, o + track_output(i as nat, ts[i]).len())
                == track_output(i as nat, ts[i]),
    decreases ts.len(),
{
    let front = track_outputs(ts.drop_last());
    let t = track_output(i as nat, ts[i]);
    assert(track_outputs(ts) == front + track_output((ts.len() - 1) as nat, ts.last()));
    if i == ts.len() - 1 {
        let o = front.len() as int;
        assert(track_outputs(ts).subrange(o, o + t.len()) =~= t);
    } else {
        lemma_track_output_inside(ts.drop_last(), i);
        assert(ts.drop_last()[i] == ts[i]);
        let o = choose|o: int| 0 <= o && o + t.len() <= front.len()
            && #[trigger] front.subrange(o, o + t.len()) == t;
        assert(track_outputs(ts).subrange(o, o + t.len()) =~= front.subrange(o, o + t.len()));
    }
}

/// Every track of a save becomes its own audio stream: the `i`-th track is
/// mapped from input `i + 1`, and when its cleaned name is not empty the
/// metadata of output audio stream `i` (not of any other) is set right after
/// that map to `title=` and the name.
pub proof fn law_mux_titles_each_track_stream(fps: Seq<char>, video: Seq<char>, tracks: Seq<MuxAudioInput>, out: Seq<char>, i: int)
    requires
        0 <= i < tracks.len(),
    ensures
        exists|p: int|
            #![trigger mux_arg_list(fps, video, tracks, out)[p]]
        {
            &&& 0 <= p && p + 2 <= mux_arg_list(fps, video, tracks, out).len()
            &&& mux_arg_list(fps, video, tracks, out)[p] == "-map"@
            &&& mux_arg_list(fps, video, tracks, out)[p + 1] == dec((i + 1) as nat) + ":a"@
            &&& metadata_safe(tracks[i].name@, 128).len() > 0 ==> {
                &&& p + 4 <= mux_arg_list(fps, video, tracks, out).len()
                &&& mux_arg_list(fps, video, tracks, out)[p + 2] == "-metadata:s:a:"@ + dec(i as nat)
                &&& mux_arg_list(fps, video, tracks, out)[p + 3] == "title="@ + metadata_safe(tracks[i].name@, 128)
            }
        },
{
    let a = mux_arg_list(fps, video, tracks, out);
    let t = track_output(i as nat, tracks[i]);
    let head = seq!["-y"@, "-r"@, fps, "-framerate"@, fps, "-f"@, "h264"@, "-i"@, video] + track_inputs(tracks)
        + seq!["-c:v"@, "copy"@, "-map"@, "0:v"@] + seq!["-c:a"@, "aac"@, "-b:a"@, "192k"@];
    assert(a =~= head + track_outputs(tracks) + seq![out]);
    lemma_track_output_inside(tracks, i);
    let o = choose|o: int| 0 <= o && o + t.len() <= track_outputs(tracks).len()
        && #[trigger] track_outputs(tracks).subrange(o, o + t.len()) == t;
    let p = head.len() + o;
    assert(a.subrange(p, p + t.len()) =~= t);
    assert(a[p] == t[0]);
    assert(a[p + 1] == t[1]);
    if metadata_safe(tracks[i].name@, 128).len() > 0 {
        assert(a[p + 2] == t[2]);
        assert(a[p + 3] == t[3]);
    }
}

fn push_track_input(v: &mut Vec<String>, t: &MuxAudioInput)
    ensures
        final(v).deep_view() == old(v).deep_view() + track_input(*t),
{
    push_str_arg(v, "-f");
    push_str_arg(v, pcm_demuxer_flag(&t.format));
    push_str_arg(v, "-ar");
    let mut sr = String::new();
    push_dec(&mut sr, t.format.sample_rate as u64);
    push_arg(v, sr);
    push_str_arg(v, "-ac");
    let mut ch = String::new();
    push_dec(&mut ch, t.format.channels as u64);
    push_arg(v, ch);
    push_str_arg(v, "-i");
    push_str_arg(v, t.path.as_str());
    assert(v.deep_view() =~= old(v).deep_view() + track_input(*t));
}

fn push_track_output(v: &mut Vec<String>, i: u64, t: &MuxAudioInput)
    requires
        i < u64::MAX,
    ensures
        final(v).deep_view() == old(v).deep_view() + track_output(i as nat, *t),
{
    push_str_arg(v, "-map");
    let mut m = String::new();
    push_dec(&mut m, i + 1);
    m.append(":a");
    push_arg(v, m);
    let safe = truncate_for_metadata(t.name.as_str(), 128);
    let ghost mid = v.deep_view();
    if safe.unicode_len() > 0 {
        let mut k = owned("-metadata:s:a:");
        push_dec(&mut k, i);
        push_arg(v, k);
        let mut tt = owned("title=");
        tt.append(safe.as_str());
        push_arg(v, tt);
    }
    assert(v.deep_view() =~= old(v).deep_view() + track_output(i as nat, *t));
}

/// The ffmpeg arguments of the final mux: the video at `video` read at `fps`
/// (already printed with four decimals), the PCM `tracks`, output `out`.
pub fn mux_args(fps: &str, video: &str, tracks: &Vec<MuxAudioInput>, out: &str) -> (v: Vec<String>)
    requires
        tracks@.len() < u64::MAX,
    ensures
        v.deep_view() == mux_arg_list(fps@, video@, tracks@, out@),
{
    let mut v: Vec<String> = Vec::new();
    push_str_arg(&mut v, "-y");
    push_str_arg(&mut v, "-r");
    push_str_arg(&mut v, fps);
    push_str_arg(&mut v, "-framerate");
    push_str_arg(&mut v, fps);
    push_str_arg(&mut v, "-f");
    push_str_arg(&mut v, "h264");
    push_str_arg(&mut v, "-i");
    push_str_arg(&mut v, video);
    let ghost head = v.deep_view();
    let mut i: usize = 0;
    while i < tracks.len()
        invariant
            i <= tracks@.len(),
            v.deep_view() == head + track_inputs(tracks@.take(i as int)),
        decreases tracks.len() - i,
    {
        push_track_input(&mut v, &tracks[i]);
        i = i + 1;
        assert(tracks@.take(i as int).drop_last() =~= tracks@.take((i - 1) as int));
        assert(v.deep_view() =~= head + track_inputs(tracks@.take(i as int)));
    }
    assert(tracks@.take(tracks@.len() as int) =~= tracks@);
    push_str_arg(&mut v, "-c:v");
    push_str_arg(&mut v, "copy");
    push_str_arg(&mut v, "-map");
    push_str_arg(&mut v, "0:v");
    let ghost mid = v.deep_view();
    if tracks.len() > 0 {
        push_str_arg(&mut v, "-c:a");
        push_str_arg(&mut v, "aac");
        push_str_arg(&mut v, "-b:a");
        push_str_arg(&mut v, "192k");
        let ghost head2 = v.deep_view();
        let mut j: usize = 0;
        while j < tracks.len()
            invariant
                j <= tracks@.len(),
                tracks@.len() < u64::MAX,
                v.deep_view() == head2 + track_outputs(tracks@.take(j as int)),
            decreases tracks.len() - j,
        {
            push_track_output(&mut v, j as u64, &tracks[j]);
            j = j + 1;
            assert(tracks@.take(j as int).drop_last() =~= tracks@.take((j - 1) as int));
            assert(v.deep_view() =~= head2 + track_outputs(tracks@.take(j as int)));
        }
    }
    push_str_arg(&mut v, out);
    assert(v.deep_view() =~= mux_arg_list(fps@, video@, tracks@, out@));
    v
}

// ---------- saved file names ----------

/// Characters Windows forbids in file names.
pub open spec fn forbidden_in_name(c: char) -> bool {
    c == '<' || c == '>' || c == ':' || c == '"' || c == '/' || c == '\\' || c == '|' || c == '?' || c == '*'
}

/// `s` with forbidden characters written as `-` and C0 controls removed.
pub open spec fn name_safe_chars(s: Seq<char>) -> Seq<char>
    decreases s.len(),
{
    if s.len() == 0 {
        Seq::empty()
    } else {
        let prev = name_safe_chars(s.drop_last());
        let c = s.last();
        if forbidden_in_name(c) {
            prev.push('-')
        } else if (c as u32) < 32 {
            prev
        } else {
            prev.push(c)
        }
    }
}

/// The whitespace-separated words of `s` joined by `_`
/// (`split_whitespace().join("_")`), with whether a separator is pending.
pub open spec fn words_joined(s: Seq<char>) -> (Seq<char>, bool)
    decreases s.len(),
{
    if s.len() == 0 {
        (Seq::empty(), false)
    } else {
        let (out, pending) = words_joined(s.drop_last());
        let c = s.last();
        if is_space(c) {
            (out, out.len() > 0)
        } else if pending {
            (out + seq!['_', c], false)
        } else {
            (out.push(c), false)
        }
    }
}

pub open spec fn is_mark(c: char) -> bool {
    c == '.' || c == '-' || c == '_'
}

/// `s` without leading and trailing `.`, `-` and `_`.
pub open spec fn trim_marks(s: Seq<char>) -> Seq<char>
    decreases s.len(),
{
    if s.len() > 0 && is_mark(s[0]) {
        trim_marks(s.drop_first())
    } else if s.len() > 0 && is_mark(s.last()) {
        trim_marks(s.drop_last())
    } else {
        s
    }
}

/// A window title made into a file-name fragment: forbidden characters as
/// `-`, controls dropped, whitespace runs as one `_`, dots, dashes and
/// underscores trimmed from both ends, at most 60 characters.
pub open spec fn title_slug(input: Seq<char>) -> Seq<char> {
    let t = trim_marks(words_joined(name_safe_chars(input)).0);
    if t.len() > 60 { t.take(60) } else { t }
}

fn char_is_space(c: char) -> (b: bool)
    ensures
        b == is_space(c),
{
    let u = c as u32;
    (9 <= u && u <= 13) || u == 32 || u == 0x85 || u == 0xa0 || u == 0x1680 || (0x2000 <= u && u <= 0x200a)
        || u == 0x2028 || u == 0x2029 || u == 0x202f || u == 0x205f || u == 0x3000
}

proof fn lemma_trim_marks_front(s: Seq<char>, a: int, b: int)
    requires
        0 <= a < b <= s.len(),
        is_mark(s[a]),
    ensures
        trim_marks(s.subrange(a, b)) == trim_marks(s.subrange(a + 1, b)),
{
    assert(s.subrange(a, b).drop_first() =~= s.subrange(a + 1, b));
}

proof fn lemma_trim_marks_back(s: Seq<char>, a: int, b: int)
    requires
        0 <= a < b <= s.len(),
        !is_mark(s[a]),
        is_mark(s[b - 1]),
    ensures
        trim_marks(s.subrange(a, b)) == trim_marks(s.subrange(a, b - 1)),
{
    assert(s.subrange(a, b).drop_last() =~= s.subrange(a, b - 1));
}

/// Makes a window title safe to embed in a saved clip's file name.
pub fn safe_filename_slug(input: &str) -> (r: String)
    ensures
        r@ == title_slug(input@),
{
    let v = crate::text::chars_of(input);
    let mut out: Vec<char> = Vec::new();
    let mut pending = false;
    let mut i: usize = 0;
    while i < v.len()
        invariant
            i <= v@.len(),
            (out@, pending) == words_joined(name_safe_chars(v@.take(i as int))),
        decreases v.len() - i,
    {
        let c = v[i];
        let ghost before = v@.take(i as int);
        let ghost m0 = name_safe_chars(before);
        assert(v@.take((i + 1) as int).drop_last() =~= before);
        let m: Option<char> = if c == '<' || c == '>' || c == ':' || c == '"' || c == '/' || c == '\\' || c == '|'
            || c == '?' || c == '*' {
            Some('-')
        } else if (c as u32) < 32 {
            None
        } else {
            Some(c)
        };
        match m {
            Some(x) => {
                proof {
                    assert(name_safe_chars(v@.take((i + 1) as int)) == m0.push(x));
                    assert(m0.push(x).drop_last() =~= m0);
                }
                if char_is_space(x) {
                    pending = out.len() > 0;
                } else {
                    if pending {
                        out.push('_');
                    }
                    out.push(x);
                    pending = false;
                }
            },
            None => {
                assert(name_safe_chars(v@.take((i + 1) as int)) == m0);
            },
        }
        i = i + 1;
    }
    assert(v@.take(v@.len() as int) =~= v@);
    let ghost j = out@;
    let n = out.len();
    let mut a: usize = 0;
    assert(j.subrange(0, n as int) =~= j);
    while a < n && (out[a] == '.' || out[a] == '-' || out[a] == '_')
        invariant
            a <= n == j.len(),
            out@ == j,
            trim_marks(j) == trim_marks(j.subrange(a as int, n as int)),
        decreases n - a,
    {
        proof {
            lemma_trim_marks_front(j, a as int, n as int);
        }
        a = a + 1;
    }
    let mut b: usize = n;
    while b > a && (out[b - 1] == '.' || out[b - 1] == '-' || out[b - 1] == '_')
        invariant
            a <= b <= n == j.len(),
            out@ == j,
            a < b ==> !is_mark(j[a as int]),
            trim_marks(j) == trim_marks(j.subrange(a as int, b as int)),
        decreases b - a,
    {
        proof {
            if b - 1 > a {
                lemma_trim_marks_back(j, a as int, b as int);
            }
        }
        b = b - 1;
    }
    proof {
        let t = j.subrange(a as int, b as int);
        if t.len() > 0 {
            assert(t[0] == j[a as int]);
            assert(t.last() == j[b - 1]);
        }
        assert(trim_marks(t) == t);
    }
    let end = if b - a > 60 { a + 60 } else { b };
    let mut r = String::new();
    let mut k = a;
    while k < end
        invariant
            a <= k <= end <= b <= n == j.len(),
            out@ == j,
            end == (if b - a > 60 { a + 60 } else { b as int }),
            r@ == j.subrange(a as int, k as int),
        decreases end - k,
    {
        r.push(out[k]);
        k = k + 1;
        assert(r@ =~= j.subrange(a as int, k as int));
    }
    proof {
        let t = j.subrange(a as int, b as int);
        if t.len() > 60 {
            assert(t.take(60) =~= j.subrange(a as int, end as int));
        }
    }
    r
}

/// `YYYY-MM-DD_HH-MM-SS` of Unix time `secs` in UTC.
pub open spec fn stamp_text(secs: nat) -> Seq<char> {
    let (y, m, d) = epoch_to_ymd_spec(secs as u64);
    year_text(y as int) + "-"@ + dec_padded(m as nat, 2) + "-"@ + dec_padded(d as nat, 2) + "_"@
        + dec_padded((secs / 3600) % 24, 2) + "-"@ + dec_padded((secs / 60) % 60, 2) + "-"@
        + dec_padded(secs % 60, 2)
}

/// A file-name-safe UTC stamp of Unix time `secs`.
pub fn filename_stamp(secs: u64) -> (r: String)
    ensures
        r@ == stamp_text(secs as nat),
{
    let (y, mo, d) = crate::diag::epoch_to_ymd_for_filename(secs);
    let mut out = String::new();
    if y < 0 {
        out.push('-');
        let a: u64 = if y == i32::MIN { 2_147_483_648 } else { (-y) as u64 };
        push_dec_padded(&mut out, a, 3);
    } else {
        push_dec_padded(&mut out, y as u64, 4);
    }
    out.push('-');
    push_dec_padded(&mut out, mo as u64, 2);
    out.push('-');
    push_dec_padded(&mut out, d as u64, 2);
    out.push('_');
    push_dec_padded(&mut out, (secs / 3600) % 24, 2);
    out.push('-');
    push_dec_padded(&mut out, (secs / 60) % 60, 2);
    out.push('-');
    push_dec_padded(&mut out, secs % 60, 2);
    proof {
        reveal_strlit("-");
        reveal_strlit("_");
    }
    assert(out@ =~= stamp_text(secs as nat));
    out
}

/// The saved clip's file name: `Clippy_Replay_`, the title's slug and `_`
/// when the slug is not empty, the stamp, `.mp4`.
pub open spec fn replay_file_name_text(title: Seq<char>, secs: nat) -> Seq<char> {
    let slug = title_slug(title);
    "Clippy_Replay_"@ + (if slug.len() > 0 { slug + "_"@ } else { Seq::empty() }) + stamp_text(secs) + ".mp4"@
}

/// The file name a save writes for a capture titled `title` at Unix time `secs`.
pub fn replay_file_name(title: &str, secs: u64) -> (r: String)
    ensures
        r@ == replay_file_name_text(title@, secs as nat),
{
    let slug = safe_filename_slug(title);
    let stamp = filename_stamp(secs);
    let mut r = owned("Clippy_Replay_");
    if slug.unicode_len() > 0 {
        r.append(slug.as_str());
        r.append("_");
    }
    r.append(stamp.as_str());
    r.append(".mp4");
    r
}

/// The first name recorded for `id` in `names`, if any.
pub open spec fn lookup_name(names: Seq<(Seq<char>, Seq<char>)>, id: Seq<char>) -> Option<Seq<char>>
    decreases names.len(),
{
    if names.len() == 0 {
        None
    } else if names[0].0 == id {
        Some(names[0].1)
    } else {
        lookup_name(names.drop_first(), id)
    }
}

/// A track's title at save time: the latest name the user gave its device,
/// when the track has a device and that name is not empty; otherwise the
/// name it was captured with.
pub open spec fn current_track_name(device_id: Seq<char>, captured: Seq<char>, names: Seq<(Seq<char>, Seq<char>)>) -> Seq<char> {
    if device_id.len() == 0 {
        captured
    } else {
        match lookup_name(names, device_id) {
            Some(n) => if n.len() > 0 { n } else { captured },
            None => captured,
        }
    }
}

/// The title a saved track carries, given the device names the user set
/// (device identifier, name).
pub fn track_display_name(device_id: &str, captured: &str, names: &Vec<(String, String)>) -> (r: String)
    ensures
        r@ == current_track_name(device_id@, captured@, names@.map_values(|p: (String, String)| (p.0@, p.1@))),
{
    let ghost ns = names@.map_values(|p: (String, String)| (p.0@, p.1@));
    if device_id.unicode_len() == 0 {
        return owned(captured);
    }
    let mut i: usize = 0;
    assert(ns.skip(0) =~= ns);
    while i < names.len()
        invariant
            i <= names@.len(),
            device_id@.len() > 0,
            ns == names@.map_values(|p: (String, String)| (p.0@, p.1@)),
            lookup_name(ns, device_id@) == lookup_name(ns.skip(i as int), device_id@),
        decreases names.len() - i,
    {
        let ghost rest = ns.skip(i as int);
        assert(rest[0] == ns[i as int]);
        if crate::text::str_eq(names[i].0.as_str(), device_id) {
            if names[i].1.unicode_len() > 0 {
                return owned(names[i].1.as_str());
            }
            return owned(captured);
        }
        assert(rest.drop_first() =~= ns.skip(i + 1));
        i = i + 1;
    }
    assert(ns.skip(names@.len() as int).len() == 0);
    owned(captured)
}


// ---------- laws of the sanitisers ----------

proof fn lemma_strip_controls_clean(s: Seq<char>)
    ensures
        forall|i: int| 0 <= i < strip_controls(s).len() ==> !is_control(#[trigger] strip_controls(s)[i]),
        strip_controls(s).len() <= s.len(),
    decreases s.len(),
{
    if s.len() > 0 {
        lemma_strip_controls_clean(s.drop_last());
    }
}

/// Metadata text never holds a control character (so it cannot break a log
/// line or an argument) and never exceeds `max` characters.
pub proof fn law_metadata_is_clean_and_bounded(s: Seq<char>, max: nat)
    ensures
        metadata_safe(s, max).len() <= max,
        forall|i: int| 0 <= i < metadata_safe(s, max).len() ==> !is_control(#[trigger] metadata_safe(s, max)[i]),
{
    lemma_strip_controls_clean(s);
    let t = strip_controls(s);
    if t.len() > max {
        assert forall|i: int| 0 <= i < t.take(max as int).len() implies !is_control(#[trigger] t.take(max as int)[i]) by {
            assert(t.take(max as int)[i] == t[i]);
        }
    }
}

proof fn lemma_name_safe_chars_clean(s: Seq<char>)
    ensures
        forall|i: int| 0 <= i < name_safe_chars(s).len() ==> !forbidden_in_name(#[trigger] name_safe_chars(s)[i])
            && (name_safe_chars(s)[i] as u32) >= 32,
    decreases s.len(),
{
    if s.len() > 0 {
        lemma_name_safe_chars_clean(s.drop_last());
        let prev = name_safe_chars(s.drop_last());
        let r = name_safe_chars(s);
        let c = s.last();
        assert(('-' as u32) == 45);
        assert forall|i: int| 0 <= i < r.len() implies !forbidden_in_name(#[trigger] r[i]) && (r[i] as u32) >= 32 by {
            if i < prev.len() {
                assert(r[i] == prev[i]);
            } else if forbidden_in_name(c) {
                assert(r[i] == '-');
            } else {
                assert(r[i] == c);
            }
        }
    }
}

proof fn lemma_words_clean(s: Seq<char>)
    requires
        forall|i: int| 0 <= i < s.len() ==> !forbidden_in_name(#[trigger] s[i]) && (s[i] as u32) >= 32,
    ensures
        forall|i: int| 0 <= i < words_joined(s).0.len() ==> !forbidden_in_name(#[trigger] words_joined(s).0[i])
            && (words_joined(s).0[i] as u32) >= 32 && !is_space(words_joined(s).0[i]),
    decreases s.len(),
{
    if s.len() > 0 {
        assert forall|i: int| 0 <= i < s.drop_last().len() implies !forbidden_in_name(#[trigger] s.drop_last()[i]) && (s.drop_last()[i] as u32) >= 32 by {
            assert(s.drop_last()[i] == s[i]);
        }
        lemma_words_clean(s.drop_last());
        let (out, pending) = words_joined(s.drop_last());
        let c = s.last();
        if !is_space(c) {
            if pending {
                let o2 = out + seq!['_', c];
                assert forall|i: int| 0 <= i < o2.len() implies !forbidden_in_name(#[trigger] o2[i]) && (o2[i] as u32) >= 32 && !is_space(o2[i]) by {
                    if i < out.len() {
                        assert(o2[i] == out[i]);
                    }
                }
            } else {
                let o2 = out.push(c);
                assert forall|i: int| 0 <= i < o2.len() implies !forbidden_in_name(#[trigger] o2[i]) && (o2[i] as u32) >= 32 && !is_space(o2[i]) by {
                    if i < out.len() {
                        assert(o2[i] == out[i]);
                    }
                }
            }
        }
    }
}

proof fn lemma_trim_marks_sub(s: Seq<char>)
    ensures
        exists|a: int, b: int| 0 <= a <= b <= s.len() && trim_marks(s) == s.subrange(a, b),
    decreases s.len(),
{
    if s.len() > 0 && is_mark(s[0]) {
        lemma_trim_marks_sub(s.drop_first());
        let (a, b) = choose|a: int, b: int| 0 <= a <= b <= s.drop_first().len() && trim_marks(s.drop_first()) == s.drop_first().subrange(a, b);
        assert(s.drop_first().subrange(a, b) =~= s.subrange(a + 1, b + 1));
    } else if s.len() > 0 && is_mark(s.last()) {
        lemma_trim_marks_sub(s.drop_last());
        let (a, b) = choose|a: int, b: int| 0 <= a <= b <= s.drop_last().len() && trim_marks(s.drop_last()) == s.drop_last().subrange(a, b);
        assert(s.drop_last().subrange(a, b) =~= s.subrange(a, b));
    } else {
        assert(s.subrange(0, s.len() as int) =~= s);
    }
}

/// A title slug is at most 60 characters and holds no character Windows
/// forbids in a file name, no control character and no whitespace.
pub proof fn law_slug_is_file_name_safe(title: Seq<char>)
    ensures
        title_slug(title).len() <= 60,
        forall|i: int| 0 <= i < title_slug(title).len() ==> !forbidden_in_name(#[trigger] title_slug(title)[i])
            && (title_slug(title)[i] as u32) >= 32 && !is_space(title_slug(title)[i]),
{
    let m = name_safe_chars(title);
    lemma_name_safe_chars_clean(title);
    lemma_words_clean(m);
    let w = words_joined(m).0;
    lemma_trim_marks_sub(w);
    let (a, b) = choose|a: int, b: int| 0 <= a <= b <= w.len() && trim_marks(w) == w.subrange(a, b);
    let t = trim_marks(w);
    let r = title_slug(title);
    assert forall|i: int| 0 <= i < r.len() implies !forbidden_in_name(#[trigger] r[i]) && (r[i] as u32) >= 32 && !is_space(r[i]) by {
        assert(r[i] == t[i]);
        assert(t[i] == w[a + i]);
    }
}

} // verus!
