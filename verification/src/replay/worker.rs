//! The capture worker's own arithmetic: how long its buffer is kept, the
//! size it encodes at, the timestamps it stamps on frames, which audio it
//! records, and what it reports. The capture and encode pipeline itself runs
//! on the worker thread around these functions.

use vstd::prelude::*;
use std::collections::VecDeque;
use crate::media::{trim_range, trim_spaces};
use crate::replay::audio::{AudioFormat, AudioPacket, CaptureSource};
use crate::text::{chars_of, owned};
use crate::replay::buffer::VideoPacket;
use crate::replay::ResolutionMode;

verus! {

/// What a snapshot of one worker holds: its video and each audio track.
pub struct WorkerSnapshot {
    pub video: Vec<VideoPacket>,
    pub audio_tracks: Vec<AudioTrackSnapshot>,
}

/// One captured audio track: its PCM layout, packets, and friendly name
/// (empty when the device has no custom name).
pub struct AudioTrackSnapshot {
    pub format: AudioFormat,
    pub packets: Vec<AudioPacket>,
    pub name: String,
    /// Endpoint the track was captured from; empty for process audio and
    /// the default-output fallback.
    pub device_id: String,
}

/// What a worker captures: a window (`HWND`) or a whole monitor (`HMONITOR`).
#[derive(Clone, Copy, Debug, PartialEq, Eq, Structural)]
pub enum CaptureTarget {
    Window(isize),
    Monitor(isize),
}

/// One audio capture a worker starts, and the track it becomes.
pub struct PlannedAudio {
    pub source: CaptureSource,
    /// Track title for the saved clip (empty: none given).
    pub name: String,
    /// The endpoint's identifier; empty for process audio and the fallback.
    pub device_id: String,
}

/// Title of the game's own audio track.
pub open spec fn process_track_name(title: Seq<char>) -> Seq<char> {
    if trim_spaces(title).len() == 0 { "Game audio"@ } else { title + " (game audio)"@ }
}

/// Whether a worker tries to capture the game's process audio.
pub open spec fn wants_process_audio(use_process_loopback: bool, target: CaptureTarget, pid: u32) -> bool {
    use_process_loopback && target is Window && pid != 0
}

/// The captures a worker starts, in order: the game's process audio (when
/// enabled, for a window whose process is known), then each selected output
/// device, named by the parallel list of names (empty where it runs short).
/// Any that fail to start are skipped by the caller.
pub fn audio_capture_plan(
    use_process_loopback: bool,
    target: CaptureTarget,
    pid: u32,
    title: &str,
    device_ids: &Vec<String>,
    device_names: &Vec<String>,
) -> (r: Vec<PlannedAudio>)
    ensures
        ({
            let off: int = if wants_process_audio(use_process_loopback, target, pid) { 1 } else { 0 };
            &&& r@.len() == off + device_ids@.len()
            &&& off == 1 ==> r@[0].source == CaptureSource::Process(pid) && r@[0].name@ == process_track_name(title@)
                && r@[0].device_id@.len() == 0
            &&& forall|i: int| 0 <= i < device_ids@.len() ==> {
                let p = #[trigger] r@[off + i];
                &&& p.source matches CaptureSource::Device(Some(id)) && id@ == device_ids@[i]@
                &&& p.device_id@ == device_ids@[i]@
                &&& p.name@ == (if i < device_names@.len() { device_names@[i]@ } else { Seq::empty() })
            }
        }),
{
    let mut r: Vec<PlannedAudio> = Vec::new();
    let with_process = use_process_loopback && pid != 0 && match target {
        CaptureTarget::Window(_) => true,
        CaptureTarget::Monitor(_) => false,
    };
    if with_process {
        let v = chars_of(title);
        let (a, b) = trim_range(&v, 0, v.len());
        assert(v@.subrange(0, v@.len() as int) =~= v@);
        let name = if a == b {
            owned("Game audio")
        } else {
            let mut s = owned(title);
            s.append(" (game audio)");
            s
        };
        r.push(PlannedAudio { source: CaptureSource::Process(pid), name, device_id: String::new() });
    }
    let ghost off: int = if with_process { 1 } else { 0 };
    let mut i: usize = 0;
    while i < device_ids.len()
        invariant
            i <= device_ids@.len(),
            off == (if wants_process_audio(use_process_loopback, target, pid) { 1int } else { 0int }),
            r@.len() == off + i,
            off == 1 ==> r@[0].source == CaptureSource::Process(pid) && r@[0].name@ == process_track_name(title@)
                && r@[0].device_id@.len() == 0,
            forall|j: int| 0 <= j < i ==> {
                let p = #[trigger] r@[off + j];
                &&& p.source matches CaptureSource::Device(Some(id)) && id@ == device_ids@[j]@
                &&& p.device_id@ == device_ids@[j]@
                &&& p.name@ == (if j < device_names@.len() { device_names@[j]@ } else { Seq::empty() })
            },
        decreases device_ids.len() - i,
    {
        let name = if i < device_names.len() { owned(device_names[i].as_str()) } else { String::new() };
        let p = PlannedAudio {
            source: CaptureSource::Device(Some(owned(device_ids[i].as_str()))),
            name,
            device_id: owned(device_ids[i].as_str()),
        };
        r.push(p);
        assert(r@[off + i as int] == p);
        i = i + 1;
    }
    r
}

/// The capture started when none of the planned ones did: the default
/// output device, as track `Default output`.
pub fn fallback_audio() -> (p: PlannedAudio)
    ensures
        p.source == CaptureSource::Device(None),
        p.name@ == "Default output"@,
        p.device_id@.len() == 0,
{
    PlannedAudio { source: CaptureSource::Device(None), name: owned("Default output"), device_id: String::new() }
}

/// Media Foundation time units per second (100 ns each).
pub const PTS_PER_SEC: i64 = 10_000_000;

// ---------- buffer trimming ----------

/// A packet decoding may start from once `cutoff` is the oldest time kept.
pub open spec fn is_anchor(p: VideoPacket, cutoff: int) -> bool {
    p.is_keyframe && p.pts >= cutoff
}

/// Index of the first anchor in `s`, if any.
pub open spec fn first_anchor(s: Seq<VideoPacket>, cutoff: int) -> Option<nat>
    decreases s.len(),
{
    if s.len() == 0 {
        None
    } else if is_anchor(s[0], cutoff) {
        Some(0)
    } else {
        match first_anchor(s.drop_first(), cutoff) {
            Some(i) => Some(i + 1),
            None => None,
        }
    }
}

/// The buffer after trimming to `duration_pts`: everything before the first
/// keyframe at or after `newest - duration_pts` is dropped; with no such
/// keyframe nothing is.
pub open spec fn trimmed(s: Seq<VideoPacket>, duration_pts: int) -> Seq<VideoPacket> {
    if s.len() == 0 {
        s
    } else {
        match first_anchor(s, s.last().pts - duration_pts) {
            Some(i) => s.skip(i as int),
            None => s,
        }
    }
}

proof fn lemma_first_anchor(s: Seq<VideoPacket>, cutoff: int, i: int)
    requires
        0 <= i <= s.len(),
        forall|j: int| 0 <= j < i ==> !is_anchor(#[trigger] s[j], cutoff),
    ensures
        i < s.len() && is_anchor(s[i], cutoff) ==> first_anchor(s, cutoff) == Some(i as nat),
        i == s.len() ==> first_anchor(s, cutoff) is None,
    decreases i,
{
    if i > 0 {
        assert(!is_anchor(s[0], cutoff));
        assert forall|j: int| 0 <= j < i - 1 implies !is_anchor(#[trigger] s.drop_first()[j], cutoff) by {
            assert(s.drop_first()[j] == s[j + 1]);
        }
        lemma_first_anchor(s.drop_first(), cutoff, i - 1);
        if i < s.len() {
            assert(s.drop_first()[i - 1] == s[i]);
        }
    }
}

/// Drops the oldest packets so the buffer covers about `duration_pts`, always
/// starting on a keyframe: the new front is the first keyframe no older than
/// the newest packet's time minus `duration_pts`. When no keyframe is that
/// recent the buffer is left whole rather than made undecodable.
pub fn trim_buffer(buffer: &mut VecDeque<VideoPacket>, duration_pts: i64)
    requires
        old(buffer)@.len() > 0 ==> i64::MIN <= old(buffer)@.last().pts - duration_pts <= i64::MAX,
    ensures
        final(buffer)@ == trimmed(old(buffer)@, duration_pts as int),
{
    let n = buffer.len();
    if n == 0 {
        return;
    }
    let latest = buffer[n - 1].pts;
    let cutoff = latest - duration_pts;
    let ghost s = buffer@;
    let mut i: usize = 0;
    while i < n && !(buffer[i].is_keyframe && buffer[i].pts >= cutoff)
        invariant
            n == s.len(),
            buffer@ == s,
            i <= n,
            forall|j: int| 0 <= j < i ==> !is_anchor(#[trigger] s[j], cutoff as int),
        decreases n - i,
    {
        i = i + 1;
    }
    let drop_before: usize = if i < n { i } else { 0 };
    proof {
        lemma_first_anchor(s, cutoff as int, i as int);
    }
    let mut k: usize = 0;
    while k < drop_before
        invariant
            k <= drop_before <= n,
            n == s.len(),
            buffer@ == s.skip(k as int),
        decreases drop_before - k,
    {
        let ghost before = buffer@;
        buffer.pop_front();
        k = k + 1;
        assert(buffer@ =~= s.skip(k as int));
    }
    assert(s.skip(0) =~= s);
}

// ---------- encode geometry and timing ----------

/// `x` rounded up to a multiple of 16 (the H.264 macroblock).
pub open spec fn align16(x: nat) -> nat {
    ((x + 15) / 16 * 16) as nat
}

/// The size a worker encodes at for a source of `src_w` x `src_h`: the source
/// size, or half of it or the chosen size (each side at least 16), rounded up
/// to whole macroblocks.
pub open spec fn encode_size(src_w: nat, src_h: nat, mode: ResolutionMode) -> (nat, nat) {
    let (w, h) = match mode {
        ResolutionMode::Source => (src_w, src_h),
        ResolutionMode::Half => (
            if src_w / 2 >= 16 { src_w / 2 } else { 16 },
            if src_h / 2 >= 16 { src_h / 2 } else { 16 },
        ),
        ResolutionMode::Custom { width, height } => (
            if width >= 16 { width as nat } else { 16 },
            if height >= 16 { height as nat } else { 16 },
        ),
    };
    (align16(w), align16(h))
}

proof fn lemma_align16(x: nat)
    ensures
        align16(x) % 16 == 0,
        x <= align16(x) < x + 16,
{
    let q = (x + 15) / 16;
    assert(q * 16 <= x + 15 < q * 16 + 16) by (nonlinear_arith)
        requires
            q == (x + 15) / 16;
    assert((q * 16) % 16 == 0) by (nonlinear_arith);
}

/// The encoded frame is whole macroblocks just covering the size asked for:
/// each side a multiple of 16, at least the requested side and less than 16
/// more (for the half and chosen sizes, the request is at least 16).
pub proof fn law_encode_size_covers_in_macroblocks(src_w: nat, src_h: nat, mode: ResolutionMode)
    ensures
        ({
            let (w, h) = encode_size(src_w, src_h, mode);
            let (rw, rh) = match mode {
                ResolutionMode::Source => (src_w, src_h),
                ResolutionMode::Half => (
                    if src_w / 2 >= 16 { src_w / 2 } else { 16 },
                    if src_h / 2 >= 16 { src_h / 2 } else { 16 },
                ),
                ResolutionMode::Custom { width, height } => (
                    if width >= 16 { width as nat } else { 16 },
                    if height >= 16 { height as nat } else { 16 },
                ),
            };
            &&& w % 16 == 0 && h % 16 == 0
            &&& rw <= w < rw + 16
            &&& rh <= h < rh + 16
        }),
{
    let (rw, rh) = match mode {
        ResolutionMode::Source => (src_w, src_h),
        ResolutionMode::Half => (
            if src_w / 2 >= 16 { src_w / 2 } else { 16 },
            if src_h / 2 >= 16 { src_h / 2 } else { 16 },
        ),
        ResolutionMode::Custom { width, height } => (
            if width >= 16 { width as nat } else { 16 },
            if height >= 16 { height as nat } else { 16 },
        ),
    };
    lemma_align16(rw);
    lemma_align16(rh);
}

fn align_up_16(x: u32) -> (r: u32)
    requires
        x <= u32::MAX - 15,
    ensures
        r == align16(x as nat),
{
    let y: u32 = x + 15;
    let r = y & !15u32;
    assert(r == y / 16 * 16) by (bit_vector)
        requires
            r == y & !15u32;
    r
}

/// The encoder's output size for a source of `src_w` x `src_h` under `mode`.
pub fn encode_dimensions(src_w: u32, src_h: u32, mode: ResolutionMode) -> (r: (u32, u32))
    requires
        src_w <= u32::MAX - 15,
        src_h <= u32::MAX - 15,
        mode matches ResolutionMode::Custom { width, height } ==> width <= u32::MAX - 15 && height <= u32::MAX - 15,
    ensures
        (r.0 as nat, r.1 as nat) == encode_size(src_w as nat, src_h as nat, mode),
{
    let (w, h) = match mode {
        ResolutionMode::Source => (src_w, src_h),
        ResolutionMode::Half => (
            if src_w / 2 >= 16 { src_w / 2 } else { 16 },
            if src_h / 2 >= 16 { src_h / 2 } else { 16 },
        ),
        ResolutionMode::Custom { width, height } => (
            if width >= 16 { width } else { 16 },
            if height >= 16 { height } else { 16 },
        ),
    };
    (align_up_16(w), align_up_16(h))
}

/// The frame rate a worker runs at: the setting held to 15..=240.
pub open spec fn worker_fps(fps: u32) -> u32 {
    if fps < 15 { 15 } else if fps > 240 { 240 } else { fps }
}

/// Length of one frame, in 100-ns units, at the clamped frame rate.
pub fn frame_duration_pts(fps: u32) -> (r: i64)
    ensures
        r == PTS_PER_SEC / (worker_fps(fps) as i64),
        r > 0,
{
    let f: u32 = if fps < 15 { 15 } else if fps > 240 { 240 } else { fps };
    let r = PTS_PER_SEC / (f as i64);
    assert(r > 0) by (nonlinear_arith)
        requires
            15 <= f <= 240,
            r == 10_000_000i64 / (f as i64);
    r
}

/// How much footage a worker keeps, in 100-ns units.
pub fn buffer_duration_pts(duration_secs: u32) -> (r: i64)
    ensures
        r == duration_secs as int * PTS_PER_SEC,
{
    duration_secs as i64 * PTS_PER_SEC
}

/// The stamp of a frame submitted `elapsed_pts` after the capture epoch:
/// the elapsed time rounded down to whole frames, moved one frame past the
/// previous stamp `prev` when it would not be later than it.
pub open spec fn frame_stamp(elapsed_pts: int, frame_pts: int, prev: int) -> int {
    let q = elapsed_pts / frame_pts * frame_pts;
    if q <= prev && prev > 0 { prev + frame_pts } else { q }
}

/// The timestamp for the next submitted frame.
pub fn next_frame_pts(elapsed_pts: i64, frame_pts: i64, prev: i64) -> (r: i64)
    requires
        frame_pts > 0,
        elapsed_pts >= 0,
        prev + frame_pts <= i64::MAX,
    ensures
        r == frame_stamp(elapsed_pts as int, frame_pts as int, prev as int),
        prev > 0 ==> r > prev,
{
    let d = elapsed_pts / frame_pts;
    assert(0 <= d * frame_pts <= elapsed_pts) by (nonlinear_arith)
        requires
            frame_pts > 0,
            elapsed_pts >= 0,
            d == elapsed_pts / frame_pts;
    let q = d * frame_pts;
    if q <= prev && prev > 0 {
        prev + frame_pts
    } else {
        q
    }
}

/// The worker's pacing: the encoder is fed one frame per frame interval of
/// wall-clock time once it asks for input. A fresh capture replaces the
/// frame kept for resubmission; without one, the kept frame goes again.
/// Counters of the current reporting window ride along.
pub struct Pacer {
    /// Wall-clock length of one frame, microseconds.
    pub interval_us: u64,
    /// Length of one frame, 100-ns units.
    pub frame_pts: i64,
    /// The encoder has asked for input.
    pub pending_input: bool,
    /// A converted frame is ready to (re)submit.
    pub frame_ready: bool,
    /// Timestamp of the last submitted frame (zero before the first).
    pub last_pts: i64,
    /// When the last frame was submitted, microseconds on the worker's clock.
    pub last_submit_us: u64,
    pub captured: u32,
    pub submitted: u32,
    pub duplicated: u32,
    pub packets: u32,
    pub bytes: u64,
}

impl Pacer {
    pub open spec fn wf(&self) -> bool {
        self.frame_pts > 0 && self.last_pts >= 0
    }

    /// A pacer started at `now_us`, before the encoder asked for anything.
    pub fn new(fps: u32, now_us: u64) -> (p: Pacer)
        ensures
            p.wf(),
            p.interval_us == 1_000_000u64 / (worker_fps(fps) as u64),
            p.frame_pts == PTS_PER_SEC / (worker_fps(fps) as i64),
            !p.pending_input && !p.frame_ready,
            p.last_pts == 0,
            p.last_submit_us == now_us,
            p.captured == 0 && p.submitted == 0 && p.duplicated == 0 && p.packets == 0 && p.bytes == 0,
    {
        let f: u64 = if fps < 15 { 15 } else if fps > 240 { 240 } else { fps as u64 };
        Pacer {
            interval_us: 1_000_000 / f,
            frame_pts: frame_duration_pts(fps),
            pending_input: false,
            frame_ready: false,
            last_pts: 0,
            last_submit_us: now_us,
            captured: 0,
            submitted: 0,
            duplicated: 0,
            packets: 0,
            bytes: 0,
        }
    }

    /// The encoder asked for input.
    pub fn need_input(&mut self)
        ensures
            *final(self) == (Pacer { pending_input: true, ..*old(self) }),
    {
        self.pending_input = true;
    }

    /// The encoder produced a packet of `len` bytes.
    pub fn packet_out(&mut self, len: usize)
        ensures
            *final(self) == (Pacer {
                packets: if old(self).packets == u32::MAX { u32::MAX } else { (old(self).packets + 1) as u32 },
                bytes: if old(self).bytes + len > u64::MAX { u64::MAX } else { (old(self).bytes + len) as u64 },
                ..*old(self)
            }),
    {
        self.packets = self.packets.saturating_add(1);
        self.bytes = self.bytes.saturating_add(len as u64);
    }

    /// Whether a frame is due at `now_us`: input is wanted and a frame
    /// interval has passed since the last submission.
    pub fn due(&self, now_us: u64) -> (b: bool)
        ensures
            b == (self.pending_input && now_us >= self.last_submit_us && now_us - self.last_submit_us >= self.interval_us),
    {
        self.pending_input && now_us >= self.last_submit_us && now_us - self.last_submit_us >= self.interval_us
    }

    /// A capture attempt at a due tick: whether a frame arrived, and whether
    /// it was converted (then it replaces the kept frame).
    pub fn captured_frame(&mut self, arrived: bool, converted: bool)
        ensures
            *final(self) == (Pacer {
                captured: if arrived { if old(self).captured == u32::MAX { u32::MAX } else { (old(self).captured + 1) as u32 } } else { old(self).captured },
                frame_ready: old(self).frame_ready || converted,
                ..*old(self)
            }),
    {
        if arrived {
            self.captured = self.captured.saturating_add(1);
        }
        if converted {
            self.frame_ready = true;
        }
    }

    /// The timestamp to submit the ready frame with, `elapsed_pts` after the
    /// shared epoch; `None` while no frame has been converted yet.
    pub fn stamp(&self, elapsed_pts: i64) -> (r: Option<i64>)
        requires
            self.wf(),
            elapsed_pts >= 0,
            self.last_pts + self.frame_pts <= i64::MAX,
        ensures
            !self.frame_ready ==> r is None,
            self.frame_ready ==> r == Some(frame_stamp(elapsed_pts as int, self.frame_pts as int, self.last_pts as int) as i64),
            r matches Some(p) ==> p >= 0 && p >= self.last_pts && (self.last_pts > 0 ==> p > self.last_pts),
    {
        if self.frame_ready {
            Some(next_frame_pts(elapsed_pts, self.frame_pts, self.last_pts))
        } else {
            None
        }
    }

    /// The encoder took the frame stamped `pts` at `now_us`; `fresh` when it
    /// was captured at this tick rather than repeated.
    pub fn submitted(&mut self, pts: i64, fresh: bool, now_us: u64)
        requires
            old(self).wf(),
            pts >= 0,
        ensures
            final(self).wf(),
            *final(self) == (Pacer {
                last_pts: pts,
                pending_input: false,
                last_submit_us: now_us,
                submitted: if old(self).submitted == u32::MAX { u32::MAX } else { (old(self).submitted + 1) as u32 },
                duplicated: if fresh { old(self).duplicated } else if old(self).duplicated == u32::MAX { u32::MAX } else { (old(self).duplicated + 1) as u32 },
                ..*old(self)
            }),
    {
        self.submitted = self.submitted.saturating_add(1);
        if !fresh {
            self.duplicated = self.duplicated.saturating_add(1);
        }
        self.last_pts = pts;
        self.pending_input = false;
        self.last_submit_us = now_us;
    }

    /// The counters of the window just ended (captured, submitted,
    /// duplicated, packets, bytes); the next window starts from zero.
    pub fn take_counters(&mut self) -> (r: (u32, u32, u32, u32, u64))
        ensures
            r == (old(self).captured, old(self).submitted, old(self).duplicated, old(self).packets, old(self).bytes),
            *final(self) == (Pacer { captured: 0, submitted: 0, duplicated: 0, packets: 0, bytes: 0, ..*old(self) }),
    {
        let r = (self.captured, self.submitted, self.duplicated, self.packets, self.bytes);
        self.captured = 0;
        self.submitted = 0;
        self.duplicated = 0;
        self.packets = 0;
        self.bytes = 0;
        r
    }
}

/// Whole seconds between the oldest and newest buffered packet (zero when
/// the buffer is empty or the span is negative).
pub open spec fn span_secs(s: Seq<VideoPacket>) -> int {
    if s.len() == 0 {
        0
    } else {
        let d = s.last().pts - s[0].pts;
        if d > 0 { d / (PTS_PER_SEC as int) } else { 0 }
    }
}

/// How many seconds the buffer holds, as the worker reports it.
pub fn buffered_secs(buffer: &VecDeque<VideoPacket>) -> (r: u32)
    requires
        buffer@.len() > 0 ==> buffer@.last().pts - buffer@[0].pts <= i64::MAX,
    ensures
        r == span_secs(buffer@) as u32,
{
    let n = buffer.len();
    if n == 0 {
        return 0;
    }
    let first = buffer[0].pts;
    let last = buffer[n - 1].pts;
    if last <= first {
        return 0;
    }
    let d = last - first;
    let s = d / PTS_PER_SEC;
    #[verifier::truncate]
    (s as u32)
}


proof fn lemma_first_anchor_props(s: Seq<VideoPacket>, cutoff: int)
    ensures
        first_anchor(s, cutoff) matches Some(i) ==> i < s.len() && is_anchor(s[i as int], cutoff),
    decreases s.len(),
{
    if s.len() > 0 && !is_anchor(s[0], cutoff) {
        lemma_first_anchor_props(s.drop_first(), cutoff);
        if let Some(i) = first_anchor(s.drop_first(), cutoff) {
            assert(s.drop_first()[i as int] == s[(i + 1) as int]);
        }
    }
}

/// Trimming keeps a suffix of the buffer that still ends with the newest
/// packet; whenever it drops packets the buffer starts on a keyframe no
/// older than the window, and a buffer that started on a keyframe still does.
pub proof fn law_trim_keeps_newest_and_starts_on_keyframe(s: Seq<VideoPacket>, duration_pts: int)
    requires
        s.len() > 0,
    ensures
        trimmed(s, duration_pts).len() > 0,
        trimmed(s, duration_pts).last() == s.last(),
        trimmed(s, duration_pts) == s.skip(s.len() - trimmed(s, duration_pts).len()),
        trimmed(s, duration_pts).len() < s.len() ==> trimmed(s, duration_pts)[0].is_keyframe
            && trimmed(s, duration_pts)[0].pts >= s.last().pts - duration_pts,
        s[0].is_keyframe ==> trimmed(s, duration_pts)[0].is_keyframe,
{
    let cutoff = s.last().pts - duration_pts;
    lemma_first_anchor_props(s, cutoff);
    match first_anchor(s, cutoff) {
        Some(i) => {
            assert(s.skip(i as int)[0] == s[i as int]);
            assert(s.skip(i as int).last() == s.last());
        },
        None => {
            assert(s.skip(0) =~= s);
        },
    }
}

} // verus!
