//! Audio planning for exports: which source audio streams reach the output,
//! through which filter graph, and which codec and `-map` arguments finish the
//! ffmpeg command line.
//!
//! Gains arrive already classified: `unity` says the slider sits at source
//! level, `audible` says it is above the mute threshold, and `volume_text` is
//! the gain as the `volume=` filter prints it (four decimals).

use vstd::prelude::*;
use crate::text::{contains_seq, dec, join, join_strings, occurs_at, owned, push_arg, push_dec, push_str_arg};
use crate::encoder_cascade::hq_encoder_args;

verus! {

/// One track's gain in the user's audio mix.
pub struct TrackGain {
    /// Audio-stream index (`0:a:N`).
    pub index: u32,
    /// The gain is source level (1.0).
    pub unity: bool,
    /// The gain is above the mute threshold.
    pub audible: bool,
    /// The gain as the `volume=` filter argument, e.g. `0.5000`.
    pub volume_text: String,
}

impl TrackGain {
    pub fn new(index: u32, unity: bool, audible: bool, volume_text: String) -> (t: TrackGain)
        ensures
            t.index == index,
            t.unity == unity,
            t.audible == audible,
            t.volume_text@ == volume_text@,
    {
        TrackGain { index, unity, audible, volume_text }
    }
}

/// The audio half of an ffmpeg invocation.
pub struct AudioMux {
    /// Graph for `-filter_complex`, or `None` for direct stream mapping.
    pub filter_complex: Option<String>,
    /// One `-map` argument per output audio stream.
    pub maps: Vec<String>,
    /// `true`: encode AAC; `false`: stream-copy.
    pub needs_encode: bool,
    /// `true`: force stereo 48 kHz on the output.
    pub downmix_to_stereo: bool,
}

/// Mathematical content of an [`AudioMux`].
pub struct MuxPlan {
    pub graph: Option<Seq<char>>,
    pub maps: Seq<Seq<char>>,
    pub needs_encode: bool,
    pub downmix: bool,
}

impl AudioMux {
    pub open spec fn plan(&self) -> MuxPlan {
        MuxPlan {
            graph: match self.filter_complex {
                Some(g) => Some(g@),
                None => None,
            },
            maps: self.maps.deep_view(),
            needs_encode: self.needs_encode,
            downmix: self.downmix_to_stereo,
        }
    }
}

/// An active track: source index, gain text, and whether the gain is unity.
pub type ActiveTrack = (nat, Seq<char>, bool);

/// The mix leaves every source track at source level.
pub open spec fn is_default_mix(mix: Seq<TrackGain>, total: nat) -> bool {
    mix.len() == 0 || (mix.len() == total && forall|i: int| 0 <= i < mix.len() ==> #[trigger] mix[i].unity)
}

/// Entries of an explicit mix that are audible and name an existing track, in order.
pub open spec fn explicit_active(mix: Seq<TrackGain>, total: nat) -> Seq<ActiveTrack>
    decreases mix.len(),
{
    if mix.len() == 0 {
        Seq::empty()
    } else {
        let rest = explicit_active(mix.drop_last(), total);
        let t = mix.last();
        if t.audible && (t.index as nat) < total {
            rest.push((t.index as nat, t.volume_text@, t.unity))
        } else {
            rest
        }
    }
}

pub open spec fn unity_text() -> Seq<char> {
    "1.0000"@
}

/// The tracks that reach the output: every source track at unity for a
/// default mix, else the audible, in-range entries of the mix.
pub open spec fn active_tracks(mix: Seq<TrackGain>, total: nat) -> Seq<ActiveTrack> {
    if is_default_mix(mix, total) {
        Seq::new(total, |i: int| (i as nat, unity_text(), true))
    } else {
        explicit_active(mix, total)
    }
}

/// `[0:a:N]`
pub open spec fn stream_ref(idx: nat) -> Seq<char> {
    "[0:a:"@ + dec(idx) + "]"@
}

/// `[aN]`
pub open spec fn a_label(n: nat) -> Seq<char> {
    "[a"@ + dec(n) + "]"@
}

/// `,post` when there is a post-mix chain, else nothing.
pub open spec fn post_suffix(post: Seq<char>) -> Seq<char> {
    if post.len() == 0 {
        Seq::empty()
    } else {
        ","@ + post
    }
}

pub open spec fn silence_source() -> Seq<char> {
    "anullsrc=channel_layout=stereo:sample_rate=48000"@
}

/// Preserve mode: the chain for the `k`-th surviving track.
pub open spec fn preserve_part(t: ActiveTrack, k: nat, post: Seq<char>) -> Seq<char> {
    stream_ref(t.0) + "volume="@ + t.1 + post_suffix(post) + a_label(k)
}

/// Downmix mode: the volume stage feeding `amix` for one track.
pub open spec fn amix_input(t: ActiveTrack) -> Seq<char> {
    stream_ref(t.0) + "volume="@ + t.1 + a_label(t.0)
}

/// The concatenated `[aN]` tags of the amix inputs.
pub open spec fn amix_tags(act: Seq<ActiveTrack>) -> Seq<char>
    decreases act.len(),
{
    if act.len() == 0 {
        Seq::empty()
    } else {
        amix_tags(act.drop_last()) + a_label(act.last().0)
    }
}

pub open spec fn amix_stage(act: Seq<ActiveTrack>, out: Seq<char>) -> Seq<char> {
    amix_tags(act) + "amix=inputs="@ + dec(act.len()) + ":duration=longest:dropout_transition=0:normalize=0"@ + out
}

/// Label of the mix stage: `[aout]` when nothing follows it, else `[m]`.
pub open spec fn mix_output(post: Seq<char>) -> Seq<char> {
    if post.len() == 0 {
        "[aout]"@
    } else {
        "[m]"@
    }
}

/// Downmix graph parts before the post-mix stage, and the tag that stage reads.
pub open spec fn downmix_parts(act: Seq<ActiveTrack>, post: Seq<char>) -> (Seq<Seq<char>>, Seq<char>) {
    let out = mix_output(post);
    if act.len() == 0 {
        (seq![silence_source() + out], out)
    } else if act.len() == 1 {
        if act[0].2 {
            (Seq::empty(), stream_ref(act[0].0))
        } else {
            (seq![stream_ref(act[0].0) + "volume="@ + act[0].1 + out], out)
        }
    } else {
        (Seq::new(act.len(), |i: int| amix_input(act[i])).push(amix_stage(act, out)), out)
    }
}

/// The complete audio plan of an export.
pub open spec fn audio_plan(mix: Seq<TrackGain>, total: nat, post: Seq<char>, preserve: bool) -> MuxPlan {
    let def = is_default_mix(mix, total);
    let act = active_tracks(mix, total);
    if preserve {
        if def && post.len() == 0 {
            MuxPlan { graph: None, maps: seq!["0:a?"@], needs_encode: false, downmix: false }
        } else if act.len() == 0 {
            MuxPlan {
                graph: Some(silence_source() + post_suffix(post) + "[a0]"@),
                maps: seq!["[a0]"@],
                needs_encode: true,
                downmix: false,
            }
        } else {
            MuxPlan {
                graph: Some(join(Seq::new(act.len(), |k: int| preserve_part(act[k], k as nat, post)), ";"@)),
                maps: Seq::new(act.len(), |k: int| a_label(k as nat)),
                needs_encode: true,
                downmix: false,
            }
        }
    } else if def && post.len() == 0 && total <= 1 {
        MuxPlan { graph: None, maps: seq!["0:a:0?"@], needs_encode: false, downmix: false }
    } else if act.len() == 1 && act[0].2 && post.len() == 0 {
        MuxPlan {
            graph: None,
            maps: seq!["0:a:"@ + dec(act[0].0) + "?"@],
            needs_encode: false,
            downmix: false,
        }
    } else {
        let (parts, tag) = downmix_parts(act, post);
        let all = if post.len() == 0 { parts } else { parts.push(tag + post + "[aout]"@) };
        MuxPlan { graph: Some(join(all, ";"@)), maps: seq!["[aout]"@], needs_encode: true, downmix: true }
    }
}

fn stream_ref_string(idx: u64) -> (s: String)
    ensures
        s@ == stream_ref(idx as nat),
{
    let mut s = owned("[0:a:");
    push_dec(&mut s, idx);
    s.append("]");
    s
}

fn a_label_string(n: u64) -> (s: String)
    ensures
        s@ == a_label(n as nat),
{
    let mut s = owned("[a");
    push_dec(&mut s, n);
    s.append("]");
    s
}

/// The active tracks of `mix` as exec values: index, gain text, unity flag.
fn collect_active(mix: &Vec<TrackGain>, total: usize) -> (act: Vec<(u64, String, bool)>)
    ensures
        act.len() == active_tracks(mix@, total as nat).len(),
        forall|k: int| 0 <= k < act.len() ==> {
            &&& (#[trigger] act@[k]).0 as nat == active_tracks(mix@, total as nat)[k].0
            &&& act@[k].1@ == active_tracks(mix@, total as nat)[k].1
            &&& act@[k].2 == active_tracks(mix@, total as nat)[k].2
        },
        forall|k: int| 0 <= k < act.len() ==> (#[trigger] act@[k]).0 < total,
{
    let default = default_mix(mix, total);
    let mut act: Vec<(u64, String, bool)> = Vec::new();
    if default {
        let mut i: usize = 0;
        while i < total
            invariant
                i <= total,
                is_default_mix(mix@, total as nat),
                act.len() == i,
                forall|k: int| 0 <= k < i ==> {
                    &&& (#[trigger] act@[k]).0 == k
                    &&& act@[k].1@ == unity_text()
                    &&& act@[k].2
                },
            decreases total - i,
        {
            act.push((i as u64, owned("1.0000"), true));
            i = i + 1;
        }
    } else {
        let mut i: usize = 0;
        while i < mix.len()
            invariant
                i <= mix.len(),
                !is_default_mix(mix@, total as nat),
                act.len() == explicit_active(mix@.take(i as int), total as nat).len(),
                forall|k: int| 0 <= k < act.len() ==> {
                    &&& (#[trigger] act@[k]).0 as nat == explicit_active(mix@.take(i as int), total as nat)[k].0
                    &&& act@[k].1@ == explicit_active(mix@.take(i as int), total as nat)[k].1
                    &&& act@[k].2 == explicit_active(mix@.take(i as int), total as nat)[k].2
                },
                forall|k: int| 0 <= k < act.len() ==> (#[trigger] act@[k]).0 < total,
            decreases mix.len() - i,
        {
            assert(mix@.take((i + 1) as int).drop_last() == mix@.take(i as int));
            let t = &mix[i];
            if t.audible && (t.index as usize) < total {
                act.push((t.index as u64, t.volume_text.clone(), t.unity));
            }
            i = i + 1;
        }
        assert(mix@.take(mix.len() as int) == mix@);
    }
    act
}

/// Whether `mix` is a default mix for `total` tracks.
fn default_mix(mix: &Vec<TrackGain>, total: usize) -> (b: bool)
    ensures
        b == is_default_mix(mix@, total as nat),
{
    if mix.len() == 0 {
        return true;
    }
    if mix.len() != total {
        return false;
    }
    let mut i: usize = 0;
    while i < mix.len()
        invariant
            i <= mix.len(),
            forall|j: int| 0 <= j < i ==> #[trigger] mix@[j].unity,
        decreases mix.len() - i,
    {
        if !mix[i].unity {
            return false;
        }
        i = i + 1;
    }
    true
}

fn one_map(s: &str) -> (v: Vec<String>)
    ensures
        v.deep_view() == seq![s@],
{
    single(owned(s))
}

fn single(s: String) -> (v: Vec<String>)
    ensures
        v.deep_view() == seq![s@],
{
    let ghost sv = s@;
    let mut v: Vec<String> = Vec::new();
    v.push(s);
    assert(v.deep_view() =~= seq![sv]);
    v
}

/// Appends `s` to `v`, tracking the string contents.
fn push_string(v: &mut Vec<String>, s: String)
    ensures
        final(v).deep_view() == old(v).deep_view().push(s@),
{
    let ghost sv = s@;
    v.push(s);
    assert(v.deep_view() =~= old(v).deep_view().push(sv));
}

/// Plans the audio side of an export.
///
/// Downmix mode folds every active track into one stereo AAC stream (a
/// single unity track with nothing after it maps straight through); preserve
/// mode keeps each surviving track as its own stream, and stream-copies all of
/// them when the mix changes nothing.
pub fn build_audio_filter_complex(
    track_mix: &Vec<TrackGain>,
    total_tracks: usize,
    post_mix_filters: &str,
    preserve_multi_track: bool,
) -> (mux: AudioMux)
    requires
        total_tracks < u64::MAX,
    ensures
        mux.plan() == audio_plan(track_mix@, total_tracks as nat, post_mix_filters@, preserve_multi_track),
{
    let ghost act_s = active_tracks(track_mix@, total_tracks as nat);
    let ghost post = post_mix_filters@;
    let is_default = default_mix(track_mix, total_tracks);
    let active = collect_active(track_mix, total_tracks);
    let post_empty = post_mix_filters.unicode_len() == 0;

    if preserve_multi_track {
        if is_default && post_empty {
            let m = AudioMux { filter_complex: None, maps: one_map("0:a?"), needs_encode: false, downmix_to_stereo: false };
            assert(m.plan() =~= audio_plan(track_mix@, total_tracks as nat, post, true));
            return m;
        }
        if active.len() == 0 {
            let mut g = owned("anullsrc=channel_layout=stereo:sample_rate=48000");
            if !post_empty {
                g.append(",");
                g.append(post_mix_filters);
            }
            g.append("[a0]");
            assert(g@ =~= silence_source() + post_suffix(post) + "[a0]"@);
            let m = AudioMux { filter_complex: Some(g), maps: one_map("[a0]"), needs_encode: true, downmix_to_stereo: false };
            assert(m.plan() =~= audio_plan(track_mix@, total_tracks as nat, post, true));
            return m;
        }
        let mut parts: Vec<String> = Vec::new();
        let mut maps: Vec<String> = Vec::new();
        let mut k: usize = 0;
        while k < active.len()
            invariant
                k <= active.len(),
                active.len() == act_s.len(),
                forall|j: int| 0 <= j < active.len() ==> {
                    &&& (#[trigger] active@[j]).0 as nat == act_s[j].0
                    &&& active@[j].1@ == act_s[j].1
                    &&& active@[j].2 == act_s[j].2
                },
                post == post_mix_filters@,
                post_empty == (post.len() == 0),
                parts.deep_view() == Seq::new(k as nat, |j: int| preserve_part(act_s[j], j as nat, post)),
                maps.deep_view() == Seq::new(k as nat, |j: int| a_label(j as nat)),
            decreases active.len() - k,
        {
            let mut part = stream_ref_string(active[k].0);
            part.append("volume=");
            part.append(active[k].1.as_str());
            if !post_empty {
                part.append(",");
                part.append(post_mix_filters);
            }
            let lab = a_label_string(k as u64);
            part.append(lab.as_str());
            assert(part@ =~= preserve_part(act_s[k as int], k as nat, post));
            push_string(&mut parts, part);
            push_string(&mut maps, lab);
            k = k + 1;
            assert(parts.deep_view() =~= Seq::new(k as nat, |j: int| preserve_part(act_s[j], j as nat, post)));
            assert(maps.deep_view() =~= Seq::new(k as nat, |j: int| a_label(j as nat)));
        }
        let g = join_strings(&parts, ";");
        let m = AudioMux { filter_complex: Some(g), maps, needs_encode: true, downmix_to_stereo: false };
        assert(m.plan() =~= audio_plan(track_mix@, total_tracks as nat, post, true));
        return m;
    }

    if is_default && post_empty && total_tracks <= 1 {
        let m = AudioMux { filter_complex: None, maps: one_map("0:a:0?"), needs_encode: false, downmix_to_stereo: false };
        assert(m.plan() =~= audio_plan(track_mix@, total_tracks as nat, post, false));
        return m;
    }

    let out: &str = if post_empty { "[aout]" } else { "[m]" };
    assert(out@ == mix_output(post));
    let mut parts: Vec<String> = Vec::new();
    let mut tag: String;
    if active.len() == 0 {
        let mut p = owned("anullsrc=channel_layout=stereo:sample_rate=48000");
        p.append(out);
        push_string(&mut parts, p);
        tag = owned(out);
    } else if active.len() == 1 {
        if active[0].2 {
            if post_empty {
                let mut mp = owned("0:a:");
                push_dec(&mut mp, active[0].0);
                mp.append("?");
                let maps = single(mp);
                let m = AudioMux { filter_complex: None, maps, needs_encode: false, downmix_to_stereo: false };
                assert(m.plan() =~= audio_plan(track_mix@, total_tracks as nat, post, false));
                return m;
            }
            tag = stream_ref_string(active[0].0);
        } else {
            let mut p = stream_ref_string(active[0].0);
            p.append("volume=");
            p.append(active[0].1.as_str());
            p.append(out);
            push_string(&mut parts, p);
            tag = owned(out);
        }
    } else {
        let mut tags = String::new();
        let mut k: usize = 0;
        while k < active.len()
            invariant
                k <= active.len(),
                active.len() == act_s.len(),
                forall|j: int| 0 <= j < active.len() ==> {
                    &&& (#[trigger] active@[j]).0 as nat == act_s[j].0
                    &&& active@[j].1@ == act_s[j].1
                    &&& active@[j].2 == act_s[j].2
                },
                parts.deep_view() == Seq::new(k as nat, |j: int| amix_input(act_s[j])),
                tags@ == amix_tags(act_s.take(k as int)),
            decreases active.len() - k,
        {
            let mut p = stream_ref_string(active[k].0);
            p.append("volume=");
            p.append(active[k].1.as_str());
            let lab = a_label_string(active[k].0);
            p.append(lab.as_str());
            assert(p@ =~= amix_input(act_s[k as int]));
            push_string(&mut parts, p);
            tags.append(lab.as_str());
            k = k + 1;
            assert(parts.deep_view() =~= Seq::new(k as nat, |j: int| amix_input(act_s[j])));
            assert(act_s.take(k as int).drop_last() == act_s.take((k - 1) as int));
        }
        assert(act_s.take(active.len() as int) == act_s);
        let mut stage = tags;
        stage.append("amix=inputs=");
        push_dec(&mut stage, active.len() as u64);
        stage.append(":duration=longest:dropout_transition=0:normalize=0");
        stage.append(out);
        assert(stage@ =~= amix_stage(act_s, mix_output(post)));
        push_string(&mut parts, stage);
        tag = owned(out);
    }
    assert(parts.deep_view() =~= downmix_parts(act_s, post).0);
    assert(tag@ == downmix_parts(act_s, post).1);
    if !post_empty {
        let mut last = tag;
        last.append(post_mix_filters);
        last.append("[aout]");
        push_string(&mut parts, last);
    }
    let g = join_strings(&parts, ";");
    let m = AudioMux { filter_complex: Some(g), maps: one_map("[aout]"), needs_encode: true, downmix_to_stereo: true };
    assert(m.plan() =~= audio_plan(track_mix@, total_tracks as nat, post, false));
    m
}

// ---------- video filters ----------

/// Crop rectangle in source pixels.
#[derive(Clone, Copy, Debug, PartialEq, Eq, Structural)]
pub struct Crop {
    pub x: u32,
    pub y: u32,
    pub w: u32,
    pub h: u32,
}

/// `crop=W:H:X:Y`
pub open spec fn crop_text(c: Crop) -> Seq<char> {
    "crop="@ + dec(c.w as nat) + ":"@ + dec(c.h as nat) + ":"@ + dec(c.x as nat) + ":"@ + dec(c.y as nat)
}

impl Crop {
    pub fn new(x: u32, y: u32, w: u32, h: u32) -> (c: Crop)
        ensures
            c == (Crop { x, y, w, h }),
    {
        Crop { x, y, w, h }
    }

    /// The ffmpeg `crop` filter for this rectangle.
    pub fn to_filter(self) -> (r: String)
        ensures
            r@ == crop_text(self),
    {
        let mut r = owned("crop=");
        push_dec(&mut r, self.w as u64);
        r.append(":");
        push_dec(&mut r, self.h as u64);
        r.append(":");
        push_dec(&mut r, self.x as u64);
        r.append(":");
        push_dec(&mut r, self.y as u64);
        r
    }
}

/// The `-vf` chain: the crop, then the speed filter (`setpts=...`, present
/// only when the speed differs from 1), comma separated; empty when neither.
pub open spec fn video_filter(crop: Option<Crop>, speed_filter: Option<Seq<char>>) -> Seq<char> {
    match (crop, speed_filter) {
        (Some(c), Some(s)) => crop_text(c) + ","@ + s,
        (Some(c), None) => crop_text(c),
        (None, Some(s)) => s,
        (None, None) => Seq::empty(),
    }
}

/// Builds the video filter chain from the crop and the speed filter.
pub fn build_video_filter(crop: Option<Crop>, speed_filter: Option<&str>) -> (r: String)
    ensures
        r@ == video_filter(crop, match speed_filter { Some(s) => Some(s@), None => None }),
{
    match (crop, speed_filter) {
        (Some(c), Some(sp)) => {
            let mut r = c.to_filter();
            r.append(",");
            r.append(sp);
            r
        },
        (Some(c), None) => c.to_filter(),
        (None, Some(sp)) => owned(sp),
        (None, None) => String::new(),
    }
}

/// Whether the export must re-encode video: a crop, or a speed other than 1.
pub fn forces_video_reencode(crop: Option<Crop>, speed_changed: bool) -> (r: bool)
    ensures
        r == (crop is Some || speed_changed),
{
    crop.is_some() || speed_changed
}

pub const GIF_FPS: u32 = 15;
pub const GIF_DEFAULT_WIDTH: u32 = 1280;

/// The GIF graph: crop and speed as for video, then 15 fps, a width capped
/// at `target_width` (never upscaled), and a two-pass palette.
pub open spec fn gif_filter(crop: Option<Crop>, speed_filter: Option<Seq<char>>, target_width: u32) -> Seq<char> {
    let pre = video_filter(crop, speed_filter);
    let tail = "fps=15,scale='min("@ + dec(target_width as nat) + ",iw)':-2:flags=lanczos"@;
    (if pre.len() > 0 { pre + ","@ } else { Seq::empty() }) + tail
        + ",split[s0][s1];[s0]palettegen=stats_mode=diff[p];[s1][p]paletteuse=dither=bayer:bayer_scale=5"@
}

/// Builds the GIF filter graph.
pub fn gif_filter_chain(crop: Option<Crop>, speed_filter: Option<&str>, target_width: u32) -> (r: String)
    ensures
        r@ == gif_filter(crop, match speed_filter { Some(s) => Some(s@), None => None }, target_width),
{
    let pre = build_video_filter(crop, speed_filter);
    let mut r = String::new();
    if pre.unicode_len() > 0 {
        r.append(pre.as_str());
        r.append(",");
    }
    r.append("fps=15,scale='min(");
    push_dec(&mut r, target_width as u64);
    r.append(",iw)':-2:flags=lanczos");
    r.append(",split[s0][s1];[s0]palettegen=stats_mode=diff[p];[s1][p]paletteuse=dither=bayer:bayer_scale=5");
    r
}

/// A GIF is cut with the same crop and played at the same speed as the
/// region: its graph opens with the crop (`crop=W:H:X:Y`), then the speed
/// filter, each followed by a comma, before the fixed frame-rate, scale and
/// palette stages; with neither it opens with the `fps=15` stage.
pub proof fn law_gif_keeps_crop_and_speed(crop: Option<Crop>, speed_filter: Option<Seq<char>>, target_width: u32)
    ensures ({
        let g = gif_filter(crop, speed_filter, target_width);
        let head = match (crop, speed_filter) {
            (Some(c), Some(s)) => if s.len() > 0 { crop_text(c) + ","@ + s + ","@ } else { crop_text(c) + ","@ + ","@ },
            (Some(c), None) => crop_text(c) + ","@,
            (None, Some(s)) => if s.len() > 0 { s + ","@ } else { Seq::empty() },
            (None, None) => Seq::empty(),
        };
        &&& g.len() >= head.len() + 7
        &&& g.take(head.len() as int) == head
        &&& g.subrange(head.len() as int, head.len() as int + 7) == "fps=15,"@
    }),
{
    reveal_strlit("crop=");
    reveal_strlit(",");
    reveal_strlit("fps=15,scale='min(");
    reveal_strlit("fps=15,");
    let g = gif_filter(crop, speed_filter, target_width);
    let pre = video_filter(crop, speed_filter);
    let tail = "fps=15,scale='min("@ + dec(target_width as nat) + ",iw)':-2:flags=lanczos"@;
    let rest = tail + ",split[s0][s1];[s0]palettegen=stats_mode=diff[p];[s1][p]paletteuse=dither=bayer:bayer_scale=5"@;
    let head = if pre.len() > 0 { pre + ","@ } else { Seq::empty() };
    assert(g =~= head + rest);
    assert(rest.subrange(0, 7) =~= "fps=15,"@);
    match crop {
        Some(c) => {
            assert(crop_text(c).len() > 0);
        },
        None => {},
    }
    assert(g.take(head.len() as int) =~= head);
    assert(g.subrange(head.len() as int, head.len() as int + 7) =~= rest.subrange(0, 7));
}

// ---------- audio output arguments ----------

/// Codec arguments for the planned audio: AAC at `bitrate_kbps` (per stream),
/// plus stereo 48 kHz when the plan folds tracks down; otherwise stream copy.
pub open spec fn audio_output_args(needs_encode: bool, downmix: bool, bitrate_kbps: u32) -> Seq<Seq<char>> {
    if needs_encode {
        seq!["-c:a"@, "aac"@, "-b:a"@, dec(bitrate_kbps as nat) + "k"@] + if downmix {
            seq!["-ac"@, "2"@, "-ar"@, "48000"@]
        } else {
            Seq::empty()
        }
    } else {
        seq!["-c:a"@, "copy"@]
    }
}

/// Appends the audio codec arguments for `mux`.
pub fn push_audio_output_args(args: &mut Vec<String>, mux: &AudioMux, bitrate_kbps: u32)
    ensures
        final(args).deep_view() == old(args).deep_view() + audio_output_args(mux.needs_encode, mux.downmix_to_stereo, bitrate_kbps),
{
    if mux.needs_encode {
        push_str_arg(args, "-c:a");
        push_str_arg(args, "aac");
        push_str_arg(args, "-b:a");
        let mut b = String::new();
        push_dec(&mut b, bitrate_kbps as u64);
        b.append("k");
        push_arg(args, b);
        if mux.downmix_to_stereo {
            push_str_arg(args, "-ac");
            push_str_arg(args, "2");
            push_str_arg(args, "-ar");
            push_str_arg(args, "48000");
        }
    } else {
        push_str_arg(args, "-c:a");
        push_str_arg(args, "copy");
    }
    assert(args.deep_view() =~= old(args).deep_view() + audio_output_args(mux.needs_encode, mux.downmix_to_stereo, bitrate_kbps));
}

/// `-map m` for each map of the plan, in order.
pub open spec fn map_args(maps: Seq<Seq<char>>) -> Seq<Seq<char>>
    decreases maps.len(),
{
    if maps.len() == 0 {
        Seq::empty()
    } else {
        map_args(maps.drop_last()) + seq!["-map"@, maps.last()]
    }
}

/// Appends one `-map` pair per output audio stream of `mux`.
pub fn push_audio_maps(args: &mut Vec<String>, mux: &AudioMux)
    ensures
        final(args).deep_view() == old(args).deep_view() + map_args(mux.maps.deep_view()),
{
    let ghost start = args.deep_view();
    let mut i: usize = 0;
    while i < mux.maps.len()
        invariant
            i <= mux.maps@.len(),
            args.deep_view() == start + map_args(mux.maps.deep_view().take(i as int)),
        decreases mux.maps.len() - i,
    {
        push_str_arg(args, "-map");
        push_str_arg(args, mux.maps[i].as_str());
        i = i + 1;
        assert(mux.maps.deep_view().take(i as int).drop_last() =~= mux.maps.deep_view().take((i - 1) as int));
        assert(args.deep_view() =~= start + map_args(mux.maps.deep_view().take(i as int)));
    }
    assert(mux.maps.deep_view().take(mux.maps@.len() as int) =~= mux.maps.deep_view());
}

// ---------- export commands ----------

/// How an export is produced, fastest first.
#[derive(Clone, Copy, Debug, PartialEq, Eq, Structural)]
pub enum ExportPath {
    /// Video and audio copied.
    StreamCopy,
    /// Video copied, audio re-encoded through the planned graph.
    AudioReencode,
    /// Video re-encoded (crop or speed), audio as planned.
    FullReencode,
}

/// The path an export takes: a crop or speed change re-encodes the video;
/// otherwise a planned audio encode re-encodes only the audio.
pub open spec fn export_path(crop: Option<Crop>, speed_changed: bool, needs_audio_encode: bool) -> ExportPath {
    if crop is Some || speed_changed {
        ExportPath::FullReencode
    } else if needs_audio_encode {
        ExportPath::AudioReencode
    } else {
        ExportPath::StreamCopy
    }
}

/// Chooses how to produce an export.
pub fn choose_export_path(crop: Option<Crop>, speed_changed: bool, mux: &AudioMux) -> (p: ExportPath)
    ensures
        p == export_path(crop, speed_changed, mux.needs_encode),
{
    if forces_video_reencode(crop, speed_changed) {
        ExportPath::FullReencode
    } else if mux.needs_encode {
        ExportPath::AudioReencode
    } else {
        ExportPath::StreamCopy
    }
}

/// Common start of a cut: quiet ffmpeg (with machine-readable progress when
/// asked), input seek from `from` to `to` (already printed), the source.
pub open spec fn cut_head(progress: bool, from: Seq<char>, to: Seq<char>, src: Seq<char>) -> Seq<Seq<char>> {
    seq!["-y"@, "-hide_banner"@, "-loglevel"@, "error"@] + (if progress {
        seq!["-progress"@, "pipe:1"@, "-nostats"@]
    } else {
        Seq::empty()
    }) + seq!["-ss"@, from, "-to"@, to, "-i"@, src]
}

pub open spec fn graph_args(graph: Option<Seq<char>>) -> Seq<Seq<char>> {
    match graph {
        Some(g) => seq!["-filter_complex"@, g],
        None => Seq::empty(),
    }
}

/// The middle of an export pass: streams, filters and codecs for `path`.
pub open spec fn export_body(progress: bool, path: ExportPath, mux: MuxPlan, vf: Seq<char>, encoder: Seq<char>) -> Seq<Seq<char>> {
    let audio_out = audio_output_args(mux.needs_encode, mux.downmix, 192);
    match path {
        ExportPath::FullReencode => seq!["-map"@, "0:v:0?"@] + map_args(mux.maps)
            + (if vf.len() > 0 { seq!["-vf"@, vf] } else { Seq::empty() }) + graph_args(mux.graph)
            + hq_encoder_args(encoder) + audio_out,
        ExportPath::AudioReencode => seq!["-map"@, "0:v:0?"@] + map_args(mux.maps) + seq!["-c:v"@, "copy"@]
            + graph_args(mux.graph) + audio_out + seq!["-avoid_negative_ts"@, "make_zero"@],
        ExportPath::StreamCopy => if progress {
            seq!["-c"@, "copy"@, "-avoid_negative_ts"@, "make_zero"@, "-map"@, "0"@]
        } else {
            seq!["-map"@, "0:v:0?"@] + map_args(mux.maps) + seq!["-c"@, "copy"@, "-avoid_negative_ts"@, "make_zero"@]
        },
    }
}

/// The arguments of one export pass. `progress` selects the single-clip
/// form (progress output, `+faststart`, and for a stream copy every source
/// stream mapped); without it, the form that cuts one region of a concat.
pub open spec fn export_args(
    progress: bool,
    path: ExportPath,
    from: Seq<char>,
    to: Seq<char>,
    src: Seq<char>,
    mux: MuxPlan,
    vf: Seq<char>,
    encoder: Seq<char>,
    out: Seq<char>,
) -> Seq<Seq<char>> {
    cut_head(progress, from, to, src) + export_body(progress, path, mux, vf, encoder)
        + (if progress { seq!["-movflags"@, "+faststart"@] } else { Seq::empty() }) + seq!["-map_chapters"@, "-1"@, out]
}

fn push_graph(args: &mut Vec<String>, mux: &AudioMux)
    ensures
        final(args).deep_view() == old(args).deep_view() + graph_args(mux.plan().graph),
{
    match &mux.filter_complex {
        Some(fc) => {
            push_str_arg(args, "-filter_complex");
            push_str_arg(args, fc.as_str());
        },
        None => {},
    }
    assert(args.deep_view() =~= old(args).deep_view() + graph_args(mux.plan().graph));
}

fn push_strs(v: &mut Vec<String>, items: &[&str])
    ensures
        final(v).deep_view() == old(v).deep_view() + items@.map_values(|s: &str| s@),
{
    let mut i: usize = 0;
    while i < items.len()
        invariant
            i <= items@.len(),
            v.deep_view() == old(v).deep_view() + items@.take(i as int).map_values(|s: &str| s@),
        decreases items.len() - i,
    {
        push_str_arg(v, items[i]);
        i = i + 1;
        assert(v.deep_view() =~= old(v).deep_view() + items@.take(i as int).map_values(|s: &str| s@));
    }
    assert(items@.take(items@.len() as int) =~= items@);
}

fn push_full_body(v: &mut Vec<String>, mux: &AudioMux, vf: &str, encoder: &str)
    ensures
        final(v).deep_view() == old(v).deep_view() + export_body(true, ExportPath::FullReencode, mux.plan(), vf@, encoder@),
{
    push_strs(v, &["-map", "0:v:0?"]);
    push_audio_maps(v, mux);
    if vf.unicode_len() > 0 {
        push_str_arg(v, "-vf");
        push_str_arg(v, vf);
    }
    push_graph(v, mux);
    let enc = crate::encoder_cascade::encoder_args_high_quality(encoder);
    let mut i: usize = 0;
    let ghost before_enc = v.deep_view();
    while i < enc.len()
        invariant
            i <= enc@.len(),
            v.deep_view() == before_enc + enc.deep_view().take(i as int),
        decreases enc.len() - i,
    {
        push_str_arg(v, enc[i].as_str());
        i = i + 1;
        assert(v.deep_view() =~= before_enc + enc.deep_view().take(i as int));
    }
    assert(enc.deep_view().take(enc@.len() as int) =~= enc.deep_view());
    push_audio_output_args(v, mux, 192);
    assert(v.deep_view() =~= old(v).deep_view() + export_body(true, ExportPath::FullReencode, mux.plan(), vf@, encoder@));
}

fn push_audio_body(v: &mut Vec<String>, mux: &AudioMux)
    ensures
        forall|p: bool, vf: Seq<char>, e: Seq<char>| final(v).deep_view() == old(v).deep_view() + #[trigger] export_body(p, ExportPath::AudioReencode, mux.plan(), vf, e),
{
    push_strs(v, &["-map", "0:v:0?"]);
    push_audio_maps(v, mux);
    push_strs(v, &["-c:v", "copy"]);
    push_graph(v, mux);
    push_audio_output_args(v, mux, 192);
    push_strs(v, &["-avoid_negative_ts", "make_zero"]);
    assert forall|p: bool, vf: Seq<char>, e: Seq<char>| final(v).deep_view() == old(v).deep_view() + #[trigger] export_body(p, ExportPath::AudioReencode, mux.plan(), vf, e) by {
        assert(v.deep_view() =~= old(v).deep_view() + export_body(p, ExportPath::AudioReencode, mux.plan(), vf, e));
    }
}

fn push_copy_body(v: &mut Vec<String>, progress: bool, mux: &AudioMux)
    ensures
        forall|vf: Seq<char>, e: Seq<char>| final(v).deep_view() == old(v).deep_view() + #[trigger] export_body(progress, ExportPath::StreamCopy, mux.plan(), vf, e),
{
    if progress {
        push_strs(v, &["-c", "copy", "-avoid_negative_ts", "make_zero", "-map", "0"]);
    } else {
        push_strs(v, &["-map", "0:v:0?"]);
        push_audio_maps(v, mux);
        push_strs(v, &["-c", "copy", "-avoid_negative_ts", "make_zero"]);
    }
    assert forall|vf: Seq<char>, e: Seq<char>| final(v).deep_view() == old(v).deep_view() + #[trigger] export_body(progress, ExportPath::StreamCopy, mux.plan(), vf, e) by {
        assert(v.deep_view() =~= old(v).deep_view() + export_body(progress, ExportPath::StreamCopy, mux.plan(), vf, e));
    }
}

/// The ffmpeg arguments of an export pass over `src` from `from` to `to`
/// (seek times already printed) into `out`: `progress` for a single-clip
/// export, without it for one region of a concat.
pub fn export_args_for(
    progress: bool,
    path: ExportPath,
    from: &str,
    to: &str,
    src: &str,
    mux: &AudioMux,
    vf: &str,
    encoder: &str,
    out: &str,
) -> (v: Vec<String>)
    ensures
        v.deep_view() == export_args(progress, path, from@, to@, src@, mux.plan(), vf@, encoder@, out@),
{
    let mut v: Vec<String> = Vec::new();
    push_strs(&mut v, &["-y", "-hide_banner", "-loglevel", "error"]);
    if progress {
        push_strs(&mut v, &["-progress", "pipe:1", "-nostats"]);
    }
    push_str_arg(&mut v, "-ss");
    push_str_arg(&mut v, from);
    push_str_arg(&mut v, "-to");
    push_str_arg(&mut v, to);
    push_str_arg(&mut v, "-i");
    push_str_arg(&mut v, src);
    let ghost head = v.deep_view();
    assert(head =~= cut_head(progress, from@, to@, src@));
    match path {
        ExportPath::FullReencode => {
            push_full_body(&mut v, mux, vf, encoder);
            assert(export_body(progress, path, mux.plan(), vf@, encoder@) == export_body(true, path, mux.plan(), vf@, encoder@));
        },
        ExportPath::AudioReencode => {
            push_audio_body(&mut v, mux);
        },
        ExportPath::StreamCopy => {
            push_copy_body(&mut v, progress, mux);
        },
    }
    let ghost mid = v.deep_view();
    assert(mid == head + export_body(progress, path, mux.plan(), vf@, encoder@));
    if progress {
        push_strs(&mut v, &["-movflags", "+faststart"]);
    }
    push_strs(&mut v, &["-map_chapters", "-1"]);
    push_str_arg(&mut v, out);
    assert(v.deep_view() =~= export_args(progress, path, from@, to@, src@, mux.plan(), vf@, encoder@, out@));
    v
}

/// The concat demuxer list of `segments`: one `file '...'` line each, the
/// path escaped for the demuxer; an error for a path with a line break.
pub open spec fn concat_list_text(segments: Seq<Seq<char>>) -> Result<Seq<char>, Seq<char>>
    decreases segments.len(),
{
    if segments.len() == 0 {
        Ok(Seq::empty())
    } else {
        match concat_list_text(segments.drop_last()) {
            Err(e) => Err(e),
            Ok(prev) => {
                let p = segments.last();
                if p.contains('\n') || p.contains('\r') {
                    Err("path contains newline/CR characters"@)
                } else {
                    Ok(prev + "file '"@ + crate::helpers::concat_escape(p) + "'\n"@)
                }
            },
        }
    }
}

/// Line feeds in `s`.
pub open spec fn newlines(s: Seq<char>) -> nat
    decreases s.len(),
{
    if s.len() == 0 { 0 } else { newlines(s.drop_last()) + if s.last() == '\n' { 1nat } else { 0nat } }
}

proof fn lemma_newlines_add(a: Seq<char>, b: Seq<char>)
    ensures
        newlines(a + b) == newlines(a) + newlines(b),
    decreases b.len(),
{
    if b.len() == 0 {
        assert(a + b =~= a);
    } else {
        lemma_newlines_add(a, b.drop_last());
        assert((a + b).drop_last() =~= a + b.drop_last());
        assert((a + b).last() == b.last());
    }
}

proof fn lemma_no_newlines(s: Seq<char>)
    requires
        forall|i: int| 0 <= i < s.len() ==> s[i] != '\n',
    ensures
        newlines(s) == 0,
    decreases s.len(),
{
    if s.len() > 0 {
        lemma_no_newlines(s.drop_last());
        assert(s.last() == s[s.len() - 1]);
    }
}

proof fn lemma_escape_keeps_lines(p: Seq<char>)
    requires
        !p.contains('\n'),
    ensures
        newlines(crate::helpers::concat_escape(p)) == 0,
    decreases p.len(),
{
    if p.len() > 0 {
        assert(!p.drop_last().contains('\n')) by {
            if p.drop_last().contains('\n') {
                let i = choose|i: int| 0 <= i < p.drop_last().len() && p.drop_last()[i] == '\n';
                assert(p[i] == '\n');
            }
        }
        lemma_escape_keeps_lines(p.drop_last());
        let c = p.last();
        assert(c != '\n') by {
            if c == '\n' {
                assert(p[p.len() - 1] == '\n');
            }
        }
        let e = crate::helpers::concat_escape_char(c);
        lemma_newlines_add(crate::helpers::concat_escape(p.drop_last()), e);
        lemma_no_newlines(e);
    }
}

/// Whether some path of `segs` holds a line break.
pub open spec fn any_line_break(segs: Seq<Seq<char>>) -> bool {
    exists|i: int| 0 <= i < segs.len() && (segs[i].contains('\n') || segs[i].contains('\r'))
}

/// A concat list is refused exactly when one of its paths holds a line
/// break (which could smuggle further directives into the list); otherwise
/// it has exactly one line per path.
pub proof fn law_concat_list_refuses_line_breaks(segs: Seq<Seq<char>>)
    ensures
        concat_list_text(segs) is Err <==> any_line_break(segs),
        concat_list_text(segs) matches Ok(t) ==> newlines(t) == segs.len(),
    decreases segs.len(),
{
    if segs.len() > 0 {
        let init = segs.drop_last();
        let p = segs.last();
        law_concat_list_refuses_line_breaks(init);
        if any_line_break(init) {
            let i = choose|i: int| 0 <= i < init.len() && (init[i].contains('\n') || init[i].contains('\r'));
            assert(segs[i] == init[i]);
        }
        if any_line_break(segs) && !any_line_break(init) {
            let i = choose|i: int| 0 <= i < segs.len() && (segs[i].contains('\n') || segs[i].contains('\r'));
            if i < init.len() {
                assert(init[i] == segs[i]);
            }
            assert(i == segs.len() - 1);
        }
        if p.contains('\n') || p.contains('\r') {
            assert(segs[segs.len() - 1] == p);
        }
        match concat_list_text(init) {
            Ok(prev) => {
                if !(p.contains('\n') || p.contains('\r')) {
                    lemma_escape_keeps_lines(p);
                    let esc = crate::helpers::concat_escape(p);
                    lemma_newlines_add(prev + "file '"@, esc);
                    lemma_newlines_add(prev, "file '"@);
                    lemma_newlines_add(prev + "file '"@ + esc, "'\n"@);
                    reveal_strlit("file '");
                    reveal_strlit("'\n");
                    let f = "file '"@;
                    lemma_no_newlines(f);
                    let g = "'\n"@;
                    assert(g =~= seq!['\''] + seq!['\n']);
                    lemma_newlines_add(seq!['\''], seq!['\n']);
                    lemma_no_newlines(seq!['\'']);
                    assert(seq!['\n'].drop_last() =~= Seq::<char>::empty());
                    assert(newlines(Seq::<char>::empty()) == 0);
                    assert(seq!['\n'].last() == '\n');
                    assert(newlines(seq!['\n']) == 1);
                    assert(newlines(g) == 1);
                    assert(newlines(prev) == init.len());
                    assert(concat_list_text(segs) == Ok::<Seq<char>, Seq<char>>(prev + f + esc + g));
                    assert(newlines(prev + f) == newlines(prev));
                    assert(newlines(prev + f + esc) == newlines(prev));
                    assert(newlines(prev + f + esc + g) == newlines(prev) + 1);
                }
            },
            Err(_) => {},
        }
    } else {
        assert(!any_line_break(segs));
    }
}

proof fn lemma_concat_error_stays(segs: Seq<Seq<char>>, k: int, e: Seq<char>)
    requires
        0 <= k <= segs.len(),
        concat_list_text(segs.take(k)) == Err::<Seq<char>, Seq<char>>(e),
    ensures
        concat_list_text(segs) == Err::<Seq<char>, Seq<char>>(e),
    decreases segs.len() - k,
{
    if k == segs.len() {
        assert(segs.take(k) =~= segs);
    } else {
        assert(segs.take(k + 1).drop_last() =~= segs.take(k));
        lemma_concat_error_stays(segs, k + 1, e);
    }
}

/// The list file for concatenating the cut segments.
pub fn concat_list(segments: &Vec<String>) -> (r: Result<String, String>)
    ensures
        match r { Ok(t) => Ok(t@), Err(e) => Err(e@) } == concat_list_text(segments.deep_view()),
{
    let mut content = String::new();
    let mut i: usize = 0;
    while i < segments.len()
        invariant
            i <= segments@.len(),
            concat_list_text(segments.deep_view().take(i as int)) == Ok::<Seq<char>, Seq<char>>(content@),
        decreases segments.len() - i,
    {
        let ghost before = segments.deep_view().take(i as int);
        assert(segments.deep_view().take((i + 1) as int).drop_last() =~= before);
        match crate::helpers::escape_concat_path(segments[i].as_str()) {
            Ok(e) => {
                content.append("file '");
                content.append(e.as_str());
                content.append("'\n");
            },
            Err(e) => {
                proof {
                    lemma_concat_error_stays(segments.deep_view(), (i + 1) as int, e@);
                }
                return Err(e);
            },
        }
        i = i + 1;
    }
    assert(segments.deep_view().take(segments@.len() as int) =~= segments.deep_view());
    Ok(content)
}

/// Stage two of a concat: glue the segments listed in `list` by stream copy.
pub open spec fn concat_copy_arg_list(list: Seq<char>, out: Seq<char>) -> Seq<Seq<char>> {
    seq![
        "-y"@, "-hide_banner"@, "-loglevel"@, "error"@, "-progress"@, "pipe:1"@, "-nostats"@,
        "-f"@, "concat"@, "-safe"@, "0"@, "-i"@, list,
        "-map"@, "0:v:0?"@, "-map"@, "0:a?"@, "-c"@, "copy"@,
        "-movflags"@, "+faststart"@, "-map_chapters"@, "-1"@, out,
    ]
}

/// The ffmpeg arguments that concatenate the listed segments into `out`.
pub fn concat_copy_args(list: &str, out: &str) -> (v: Vec<String>)
    ensures
        v.deep_view() == concat_copy_arg_list(list@, out@),
{
    let mut v: Vec<String> = Vec::new();
    push_strs(&mut v, &["-y", "-hide_banner", "-loglevel", "error", "-progress", "pipe:1", "-nostats", "-f", "concat", "-safe", "0", "-i"]);
    push_str_arg(&mut v, list);
    push_strs(&mut v, &["-map", "0:v:0?", "-map", "0:a?", "-c", "copy", "-movflags", "+faststart", "-map_chapters", "-1"]);
    push_str_arg(&mut v, out);
    assert(v.deep_view() =~= concat_copy_arg_list(list@, out@));
    v
}

/// Where an audio-only export reads from.
pub enum ExportSource {
    /// One slice of the source: seek from, seek to (printed), path.
    Slice { from: String, to: String, src: String },
    /// A concat demuxer list of slices.
    List { list: String },
}

pub open spec fn audio_source_args(source: ExportSource) -> Seq<Seq<char>> {
    match source {
        ExportSource::Slice { from, to, src } => seq!["-ss"@, from@, "-to"@, to@, "-i"@, src@],
        ExportSource::List { list } => seq!["-f"@, "concat"@, "-safe"@, "0"@, "-i"@, list@],
    }
}

/// An MP3 export: no video, the planned audio streams and graph, LAME at 192 kb/s.
pub open spec fn mp3_arg_list(source: ExportSource, mux: MuxPlan, out: Seq<char>) -> Seq<Seq<char>> {
    seq!["-y"@, "-hide_banner"@, "-loglevel"@, "error"@, "-progress"@, "pipe:1"@, "-nostats"@]
        + audio_source_args(source) + seq!["-vn"@] + map_args(mux.maps) + graph_args(mux.graph)
        + seq!["-c:a"@, "libmp3lame"@, "-b:a"@, "192k"@, "-map_chapters"@, "-1"@, out]
}

/// The ffmpeg arguments of an MP3 export.
pub fn mp3_args(source: &ExportSource, mux: &AudioMux, out: &str) -> (v: Vec<String>)
    ensures
        v.deep_view() == mp3_arg_list(*source, mux.plan(), out@),
{
    let mut v: Vec<String> = Vec::new();
    push_strs(&mut v, &["-y", "-hide_banner", "-loglevel", "error", "-progress", "pipe:1", "-nostats"]);
    match source {
        ExportSource::Slice { from, to, src } => {
            push_str_arg(&mut v, "-ss");
            push_str_arg(&mut v, from.as_str());
            push_str_arg(&mut v, "-to");
            push_str_arg(&mut v, to.as_str());
            push_str_arg(&mut v, "-i");
            push_str_arg(&mut v, src.as_str());
        },
        ExportSource::List { list } => {
            push_strs(&mut v, &["-f", "concat", "-safe", "0", "-i"]);
            push_str_arg(&mut v, list.as_str());
        },
    }
    push_str_arg(&mut v, "-vn");
    push_audio_maps(&mut v, mux);
    push_graph(&mut v, mux);
    push_strs(&mut v, &["-c:a", "libmp3lame", "-b:a", "192k", "-map_chapters", "-1"]);
    push_str_arg(&mut v, out);
    assert(v.deep_view() =~= mp3_arg_list(*source, mux.plan(), out@));
    v
}

/// A GIF export of one slice through the GIF graph `filter`, looping.
pub open spec fn gif_arg_list(from: Seq<char>, to: Seq<char>, src: Seq<char>, filter: Seq<char>, out: Seq<char>) -> Seq<Seq<char>> {
    cut_head(true, from, to, src) + seq!["-an"@, "-filter_complex"@, filter, "-loop"@, "0"@, out]
}

/// The ffmpeg arguments of a GIF export.
pub fn gif_args(from: &str, to: &str, src: &str, filter: &str, out: &str) -> (v: Vec<String>)
    ensures
        v.deep_view() == gif_arg_list(from@, to@, src@, filter@, out@),
{
    let mut v: Vec<String> = Vec::new();
    push_strs(&mut v, &["-y", "-hide_banner", "-loglevel", "error", "-progress", "pipe:1", "-nostats", "-ss"]);
    push_str_arg(&mut v, from);
    push_str_arg(&mut v, "-to");
    push_str_arg(&mut v, to);
    push_str_arg(&mut v, "-i");
    push_str_arg(&mut v, src);
    push_strs(&mut v, &["-an", "-filter_complex"]);
    push_str_arg(&mut v, filter);
    push_strs(&mut v, &["-loop", "0"]);
    push_str_arg(&mut v, out);
    assert(v.deep_view() =~= gif_arg_list(from@, to@, src@, filter@, out@));
    v
}

/// A concat list reading slices of one source: for each slice, the escaped
/// path and its `inpoint` and `outpoint` (already printed); an error for a
/// path with a line break.
pub open spec fn slices_list_text(src: Seq<char>, points: Seq<(Seq<char>, Seq<char>)>) -> Result<Seq<char>, Seq<char>>
    decreases points.len(),
{
    if src.contains('\n') || src.contains('\r') {
        Err("path contains newline/CR characters"@)
    } else if points.len() == 0 {
        Ok(Seq::empty())
    } else {
        match slices_list_text(src, points.drop_last()) {
            Err(e) => Err(e),
            Ok(prev) => Ok(prev + "file '"@ + crate::helpers::concat_escape(src) + "'\n"@ + "inpoint "@
                + points.last().0 + "\n"@ + "outpoint "@ + points.last().1 + "\n"@),
        }
    }
}

/// The list file that feeds slices of `src` to the concat demuxer.
pub fn slices_list(src: &str, points: &Vec<(String, String)>) -> (r: Result<String, String>)
    ensures
        match r { Ok(t) => Ok(t@), Err(e) => Err(e@) } == slices_list_text(src@, points@.map_values(|p: (String, String)| (p.0@, p.1@))),
{
    let ghost ps = points@.map_values(|p: (String, String)| (p.0@, p.1@));
    let escaped = match crate::helpers::escape_concat_path(src) {
        Ok(e) => e,
        Err(e) => {
            proof {
                lemma_slices_error(src@, ps);
            }
            return Err(e);
        },
    };
    let mut content = String::new();
    let mut i: usize = 0;
    while i < points.len()
        invariant
            i <= points@.len(),
            !(src@.contains('\n') || src@.contains('\r')),
            escaped@ == crate::helpers::concat_escape(src@),
            ps == points@.map_values(|p: (String, String)| (p.0@, p.1@)),
            slices_list_text(src@, ps.take(i as int)) == Ok::<Seq<char>, Seq<char>>(content@),
        decreases points.len() - i,
    {
        assert(ps.take((i + 1) as int).drop_last() =~= ps.take(i as int));
        content.append("file '");
        content.append(escaped.as_str());
        content.append("'\n");
        content.append("inpoint ");
        content.append(points[i].0.as_str());
        content.append("\n");
        content.append("outpoint ");
        content.append(points[i].1.as_str());
        content.append("\n");
        i = i + 1;
    }
    assert(ps.take(points@.len() as int) =~= ps);
    Ok(content)
}

proof fn lemma_slices_error(src: Seq<char>, ps: Seq<(Seq<char>, Seq<char>)>)
    requires
        src.contains('\n') || src.contains('\r'),
    ensures
        slices_list_text(src, ps) == Err::<Seq<char>, Seq<char>>("path contains newline/CR characters"@),
{
}

/// Where a size-targeted export reads from: one slice, or a list of slices
/// (read with regenerated timestamps).
pub open spec fn sized_source_args(source: ExportSource) -> Seq<Seq<char>> {
    match source {
        ExportSource::Slice { from, to, src } => seq!["-ss"@, from@, "-to"@, to@, "-i"@, src@],
        ExportSource::List { list } => seq!["-f"@, "concat"@, "-safe"@, "0"@, "-i"@, list@],
    }
}

/// A size-targeted export: constant-bitrate video at `video_kbps`, audio at
/// 96 kb/s, optional crop/speed filter and audio graph.
pub open spec fn sized_arg_list(source: ExportSource, mux: MuxPlan, vf: Seq<char>, encoder: Seq<char>, video_kbps: nat, out: Seq<char>) -> Seq<Seq<char>> {
    seq!["-y"@, "-hide_banner"@, "-loglevel"@, "error"@, "-progress"@, "pipe:1"@, "-nostats"@]
        + sized_source_args(source) + seq!["-map"@, "0:v:0?"@] + map_args(mux.maps)
        + (if source is List { seq!["-fflags"@, "+genpts"@] } else { Seq::empty() })
        + (if vf.len() > 0 { seq!["-vf"@, vf] } else { Seq::empty() }) + graph_args(mux.graph)
        + crate::encoder_cascade::sized_encoder_args(encoder, video_kbps)
        + audio_output_args(mux.needs_encode, mux.downmix, 96)
        + seq!["-movflags"@, "+faststart"@, "-map_chapters"@, "-1"@, out]
}

fn push_source(v: &mut Vec<String>, source: &ExportSource) -> (is_list: bool)
    ensures
        final(v).deep_view() == old(v).deep_view() + sized_source_args(*source),
        is_list == (*source is List),
{
    let r = match source {
        ExportSource::Slice { from, to, src } => {
            push_str_arg(v, "-ss");
            push_str_arg(v, from.as_str());
            push_str_arg(v, "-to");
            push_str_arg(v, to.as_str());
            push_str_arg(v, "-i");
            push_str_arg(v, src.as_str());
            false
        },
        ExportSource::List { list } => {
            push_strs(v, &["-f", "concat", "-safe", "0", "-i"]);
            push_str_arg(v, list.as_str());
            true
        },
    };
    assert(v.deep_view() =~= old(v).deep_view() + sized_source_args(*source));
    r
}

fn push_sized_encoder(v: &mut Vec<String>, encoder: &str, video_kbps: u64)
    requires
        video_kbps <= u64::MAX / 2,
    ensures
        final(v).deep_view() == old(v).deep_view() + crate::encoder_cascade::sized_encoder_args(encoder@, video_kbps as nat),
{
    let enc = crate::encoder_cascade::encoder_args_sized(encoder, video_kbps);
    let mut i: usize = 0;
    while i < enc.len()
        invariant
            i <= enc@.len(),
            v.deep_view() == old(v).deep_view() + enc.deep_view().take(i as int),
        decreases enc.len() - i,
    {
        push_str_arg(v, enc[i].as_str());
        i = i + 1;
        assert(v.deep_view() =~= old(v).deep_view() + enc.deep_view().take(i as int));
    }
    assert(enc.deep_view().take(enc@.len() as int) =~= enc.deep_view());
}

/// The ffmpeg arguments of a size-targeted export.
#[verifier::spinoff_prover]
pub fn sized_args(source: &ExportSource, mux: &AudioMux, vf: &str, encoder: &str, video_kbps: u64, out: &str) -> (v: Vec<String>)
    requires
        video_kbps <= u64::MAX / 2,
    ensures
        v.deep_view() == sized_arg_list(*source, mux.plan(), vf@, encoder@, video_kbps as nat, out@),
{
    let mut v: Vec<String> = Vec::new();
    push_strs(&mut v, &["-y", "-hide_banner", "-loglevel", "error", "-progress", "pipe:1", "-nostats"]);
    let is_list = push_source(&mut v, source);
    push_strs(&mut v, &["-map", "0:v:0?"]);
    push_audio_maps(&mut v, mux);
    if is_list {
        push_strs(&mut v, &["-fflags", "+genpts"]);
    }
    if vf.unicode_len() > 0 {
        push_str_arg(&mut v, "-vf");
        push_str_arg(&mut v, vf);
    }
    push_graph(&mut v, mux);
    push_sized_encoder(&mut v, encoder, video_kbps);
    push_audio_output_args(&mut v, mux, 96);
    push_strs(&mut v, &["-movflags", "+faststart", "-map_chapters", "-1"]);
    push_str_arg(&mut v, out);
    assert(v.deep_view() =~= sized_arg_list(*source, mux.plan(), vf@, encoder@, video_kbps as nat, out@));
    v
}

/// A size-targeted export applies the crop/speed filter `vf` whenever there
/// is one: its arguments are those of the same export without a filter, with
/// the pair `-vf`, `vf` inserted before the encoder's arguments (which follow
/// it unchanged).
pub proof fn law_sized_export_applies_the_filter(
    source: ExportSource,
    mux: MuxPlan,
    vf: Seq<char>,
    encoder: Seq<char>,
    video_kbps: nat,
    out: Seq<char>,
)
    requires
        vf.len() > 0,
    ensures
        exists|p: int, q: int|
            #![trigger sized_arg_list(source, mux, vf, encoder, video_kbps, out)[p],
                sized_arg_list(source, mux, vf, encoder, video_kbps, out).subrange(q, q + crate::encoder_cascade::sized_encoder_args(encoder, video_kbps).len())]
        {
            &&& 0 <= p && p + 2 <= q
            &&& q + crate::encoder_cascade::sized_encoder_args(encoder, video_kbps).len()
                <= sized_arg_list(source, mux, vf, encoder, video_kbps, out).len()
            &&& sized_arg_list(source, mux, vf, encoder, video_kbps, out)[p] == "-vf"@
            &&& sized_arg_list(source, mux, vf, encoder, video_kbps, out)[p + 1] == vf
            &&& sized_arg_list(source, mux, vf, encoder, video_kbps, out).subrange(
                q, q + crate::encoder_cascade::sized_encoder_args(encoder, video_kbps).len())
                == crate::encoder_cascade::sized_encoder_args(encoder, video_kbps)
            &&& sized_arg_list(source, mux, vf, encoder, video_kbps, out).take(p)
                + sized_arg_list(source, mux, vf, encoder, video_kbps, out).skip(p + 2)
                == sized_arg_list(source, mux, Seq::empty(), encoder, video_kbps, out)
        },
{
    let a = sized_arg_list(source, mux, vf, encoder, video_kbps, out);
    let e = sized_arg_list(source, mux, Seq::empty(), encoder, video_kbps, out);
    let enc = crate::encoder_cascade::sized_encoder_args(encoder, video_kbps);
    let front = seq!["-y"@, "-hide_banner"@, "-loglevel"@, "error"@, "-progress"@, "pipe:1"@, "-nostats"@]
        + sized_source_args(source) + seq!["-map"@, "0:v:0?"@] + map_args(mux.maps)
        + (if source is List { seq!["-fflags"@, "+genpts"@] } else { Seq::empty() });
    let back = graph_args(mux.graph) + enc + audio_output_args(mux.needs_encode, mux.downmix, 96)
        + seq!["-movflags"@, "+faststart"@, "-map_chapters"@, "-1"@, out];
    assert(a =~= front + seq!["-vf"@, vf] + back);
    assert(e =~= front + back);
    let p = front.len() as int;
    let q = p + 2 + graph_args(mux.graph).len();
    assert(a[p] == "-vf"@);
    assert(a[p + 1] == vf);
    assert(a.subrange(q, q + enc.len()) =~= enc);
    assert(a.take(p) + a.skip(p + 2) =~= e);
}

// ---------- laws of the audio plan ----------

proof fn lemma_join_len(parts: Seq<Seq<char>>, sep: Seq<char>)
    requires
        parts.len() > 0,
    ensures
        join(parts, sep).len() >= parts.last().len(),
{
    if parts.len() > 1 {
        assert(join(parts, sep) == join(parts.drop_last(), sep) + sep + parts.last());
    }
}

/// Every audio plan maps at least one output stream, and a filter graph,
/// when there is one, is never empty (ffmpeg rejects an empty graph).
pub proof fn law_audio_plan_is_usable(mix: Seq<TrackGain>, total: nat, post: Seq<char>, preserve: bool)
    ensures
        audio_plan(mix, total, post, preserve).maps.len() > 0,
        audio_plan(mix, total, post, preserve).graph matches Some(g) ==> g.len() > 0,
{
    reveal_strlit("[aout]");
    reveal_strlit("[a0]");
    reveal_strlit("]");
    reveal_strlit("amix=inputs=");
    reveal_strlit(":duration=longest:dropout_transition=0:normalize=0");
    reveal_strlit("[m]");
    let def = is_default_mix(mix, total);
    let act = active_tracks(mix, total);
    let plan = audio_plan(mix, total, post, preserve);
    if preserve {
        if !(def && post.len() == 0) && act.len() > 0 {
            let parts = Seq::new(act.len(), |k: int| preserve_part(act[k], k as nat, post));
            lemma_join_len(parts, ";"@);
            assert(parts.last() == preserve_part(act[act.len() - 1], (act.len() - 1) as nat, post));
            assert(a_label((act.len() - 1) as nat).len() > 0);
        }
    } else if !(def && post.len() == 0 && total <= 1) && !(act.len() == 1 && act[0].2 && post.len() == 0) {
        let (parts, tag) = downmix_parts(act, post);
        let all = if post.len() == 0 { parts } else { parts.push(tag + post + "[aout]"@) };
        if post.len() == 0 {
            if act.len() == 0 {
                assert(all == seq![silence_source() + mix_output(post)]);
            } else if act.len() == 1 {
                assert(!act[0].2);
                assert(all == seq![stream_ref(act[0].0) + "volume="@ + act[0].1 + mix_output(post)]);
            } else {
                assert(all.last() == amix_stage(act, mix_output(post)));
            }
            assert(all.len() > 0);
            lemma_join_len(all, ";"@);
            assert(all.last().len() > 0);
        } else {
            assert(all.last() == tag + post + "[aout]"@);
            lemma_join_len(all, ";"@);
        }
    }
}

proof fn lemma_occurs_in_longer(a: Seq<char>, b: Seq<char>, needle: Seq<char>, i: int)
    requires
        occurs_at(a, needle, i),
    ensures
        occurs_at(a + b, needle, i),
        occurs_at(b + a, needle, i + b.len()),
{
    assert((a + b).subrange(i, i + needle.len()) =~= a.subrange(i, i + needle.len()));
    assert((b + a).subrange(i + b.len(), i + b.len() + needle.len()) =~= a.subrange(i, i + needle.len()));
}

proof fn lemma_contains_tail(a: Seq<char>, b: Seq<char>)
    ensures
        contains_seq(a + b, b),
{
    assert((a + b).subrange(a.len() as int, (a.len() + b.len()) as int) =~= b);
    assert(occurs_at(a + b, b, a.len() as int));
}

proof fn lemma_contains_trans(hay: Seq<char>, mid: Seq<char>, needle: Seq<char>)
    requires
        contains_seq(hay, mid),
        contains_seq(mid, needle),
    ensures
        contains_seq(hay, needle),
{
    let i = choose|i: int| occurs_at(hay, mid, i);
    let j = choose|j: int| occurs_at(mid, needle, j);
    assert(hay.subrange(i + j, i + j + needle.len()) =~= mid.subrange(j, j + needle.len()));
    assert(occurs_at(hay, needle, i + j));
}

/// Every part of a joined text occurs in it.
proof fn lemma_join_contains(parts: Seq<Seq<char>>, sep: Seq<char>, k: int)
    requires
        0 <= k < parts.len(),
    ensures
        contains_seq(join(parts, sep), parts[k]),
    decreases parts.len(),
{
    if parts.len() == 1 {
        assert(occurs_at(parts[0], parts[0], 0)) by {
            assert(parts[0].subrange(0, parts[0].len() as int) =~= parts[0]);
        }
    } else {
        let front = join(parts.drop_last(), sep);
        assert(join(parts, sep) == front + sep + parts.last());
        if k == parts.len() - 1 {
            lemma_contains_tail(front + sep, parts.last());
        } else {
            lemma_join_contains(parts.drop_last(), sep, k);
            assert(parts.drop_last()[k] == parts[k]);
            let i = choose|i: int| occurs_at(front, parts[k], i);
            lemma_occurs_in_longer(front, sep + parts.last(), parts[k], i);
            assert(front + sep + parts.last() =~= front + (sep + parts.last()));
        }
    }
}

/// In every audio plan with a filter graph, each mapped label is produced by
/// that graph (it occurs in it), so ffmpeg never meets a dangling `-map`.
pub proof fn law_audio_maps_come_from_the_graph(mix: Seq<TrackGain>, total: nat, post: Seq<char>, preserve: bool)
    ensures
        audio_plan(mix, total, post, preserve).graph matches Some(g) ==> forall|k: int|
            0 <= k < audio_plan(mix, total, post, preserve).maps.len()
                ==> contains_seq(g, #[trigger] audio_plan(mix, total, post, preserve).maps[k]),
{
    let def = is_default_mix(mix, total);
    let act = active_tracks(mix, total);
    let plan = audio_plan(mix, total, post, preserve);
    if preserve {
        if def && post.len() == 0 {
        } else if act.len() == 0 {
            lemma_contains_tail(silence_source() + post_suffix(post), "[a0]"@);
        } else {
            let parts = Seq::new(act.len(), |k: int| preserve_part(act[k], k as nat, post));
            assert forall|k: int| 0 <= k < plan.maps.len() implies contains_seq(plan.graph->0, #[trigger] plan.maps[k]) by {
                lemma_join_contains(parts, ";"@, k);
                let t = act[k];
                lemma_contains_tail(stream_ref(t.0) + "volume="@ + t.1 + post_suffix(post), a_label(k as nat));
                lemma_contains_trans(join(parts, ";"@), parts[k], a_label(k as nat));
            }
        }
    } else if def && post.len() == 0 && total <= 1 {
    } else if act.len() == 1 && act[0].2 && post.len() == 0 {
    } else {
        let (parts, tag) = downmix_parts(act, post);
        let all = if post.len() == 0 { parts } else { parts.push(tag + post + "[aout]"@) };
        let out = mix_output(post);
        if post.len() == 0 {
            assert(out == "[aout]"@);
            if act.len() == 0 {
                assert(all == seq![silence_source() + out]);
                lemma_contains_tail(silence_source(), out);
            } else if act.len() == 1 {
                assert(!act[0].2);
                assert(all == seq![stream_ref(act[0].0) + "volume="@ + act[0].1 + out]);
                lemma_contains_tail(stream_ref(act[0].0) + "volume="@ + act[0].1, out);
            } else {
                assert(all.last() == amix_stage(act, out));
                lemma_contains_tail(amix_tags(act) + "amix=inputs="@ + dec(act.len())
                    + ":duration=longest:dropout_transition=0:normalize=0"@, out);
            }
        } else {
            assert(all.last() == tag + post + "[aout]"@);
            lemma_contains_tail(tag + post, "[aout]"@);
        }
        lemma_join_contains(all, ";"@, all.len() - 1);
        lemma_contains_trans(join(all, ";"@), all.last(), "[aout]"@);
        assert(plan.maps == seq!["[aout]"@]);
    }
}

} // verus!
