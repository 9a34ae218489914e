//! Audio endpoints and captured PCM: the data that travels from a capture
//! thread to a save, and how an endpoint is labelled for the user.

use vstd::prelude::*;
use std::collections::VecDeque;
use crate::text::{dec, owned, push_dec};

verus! {

/// Endpoint direction: outputs captured by loopback, or inputs opened directly.
#[derive(Clone, Copy, Debug, PartialEq, Eq, Structural)]
pub enum EndpointKind {
    Render,
    Capture,
}

/// An audio endpoint as the settings UI lists it.
pub struct AudioDevice {
    pub id: String,
    pub name: String,
    pub is_default: bool,
    pub kind: EndpointKind,
}

/// Layout of captured PCM.
#[derive(Clone, Copy, Debug, PartialEq, Eq, Structural)]
pub struct AudioFormat {
    pub sample_rate: u32,
    pub channels: u16,
    pub bits_per_sample: u16,
    /// 32-bit IEEE float samples; otherwise integer PCM.
    pub is_float: bool,
}

/// `WAVEFORMATEX::wFormatTag` of 32-bit IEEE float samples.
pub const WAVE_FORMAT_IEEE_FLOAT: u16 = 3;

/// `WAVEFORMATEX::wFormatTag` of a `WAVEFORMATEXTENSIBLE`, whose sub-format
/// GUID gives the sample type.
pub const WAVE_FORMAT_EXTENSIBLE: u16 = 0xFFFE;

/// `KSDATAFORMAT_SUBTYPE_IEEE_FLOAT` as a 128-bit value (`GUID::to_u128`).
pub const KSDATAFORMAT_SUBTYPE_IEEE_FLOAT: u128 = 0x00000003_0000_0010_8000_00aa00389b71;

/// The capture format an endpoint reports: its sample rate, channel count and
/// sample width, and float samples when the tag says so directly or, for an
/// extensible format, through its sub-format (`subformat` is read only then).
pub fn wave_format(format_tag: u16, subformat: u128, sample_rate: u32, channels: u16, bits_per_sample: u16) -> (f: AudioFormat)
    ensures
        f.sample_rate == sample_rate,
        f.channels == channels,
        f.bits_per_sample == bits_per_sample,
        f.is_float == (format_tag == WAVE_FORMAT_IEEE_FLOAT
            || (format_tag == WAVE_FORMAT_EXTENSIBLE && subformat == KSDATAFORMAT_SUBTYPE_IEEE_FLOAT)),
{
    let mut is_float = format_tag == WAVE_FORMAT_IEEE_FLOAT;
    if format_tag == WAVE_FORMAT_EXTENSIBLE && subformat == KSDATAFORMAT_SUBTYPE_IEEE_FLOAT {
        is_float = true;
    }
    AudioFormat { sample_rate, channels, bits_per_sample, is_float }
}

/// One buffer of PCM bytes.
pub struct AudioPacket {
    pub data: Vec<u8>,
    /// 100-ns units from the capture epoch.
    pub pts: i64,
}

/// Where a capture thread pulls audio from.
pub enum CaptureSource {
    /// Output endpoint loopback; `None` is the default render device.
    Device(Option<String>),
    /// Input endpoint (microphone, line-in); `None` is the default capture device.
    InputDevice(Option<String>),
    /// One process tree's audio, by PID.
    Process(u32),
}

pub open spec fn fallback_label(kind: EndpointKind) -> Seq<char> {
    match kind {
        EndpointKind::Render => seq!['O', 'u', 't', 'p', 'u', 't'],
        EndpointKind::Capture => seq!['I', 'n', 'p', 'u', 't'],
    }
}

pub open spec fn fallback_label_lower(kind: EndpointKind) -> Seq<char> {
    match kind {
        EndpointKind::Render => seq!['o', 'u', 't', 'p', 'u', 't'],
        EndpointKind::Capture => seq!['i', 'n', 'p', 'u', 't'],
    }
}

/// The label of the endpoint at position `index` (from zero) of the
/// enumeration: its friendly name, marked when it is the default; without a
/// friendly name, a numbered fallback.
pub open spec fn endpoint_name(kind: EndpointKind, index: nat, friendly: Option<Seq<char>>, is_default: bool) -> Seq<char> {
    match friendly {
        Some(n) => if is_default {
            n + seq![' ', '(', 'D', 'e', 'f', 'a', 'u', 'l', 't', ')']
        } else {
            n
        },
        None => if is_default {
            seq!['D', 'e', 'f', 'a', 'u', 'l', 't', ' '] + fallback_label_lower(kind) + seq![' ', '(', 'd', 'e', 'v', 'i', 'c', 'e', ' ', '#']
                + dec(index + 1) + seq![')']
        } else {
            fallback_label(kind) + seq![' ', '#'] + dec(index + 1)
        },
    }
}

/// Describes the endpoint with identifier `id` found at position `index`;
/// it is the default when `id` equals `default_id`.
pub fn describe_endpoint(kind: EndpointKind, index: u32, id: String, default_id: &str, friendly: Option<String>) -> (d: AudioDevice)
    ensures
        d.kind == kind,
        d.id@ == id@,
        d.is_default == (id@ == default_id@),
        d.name@ == endpoint_name(kind, index as nat, match friendly { Some(f) => Some(f@), None => None }, id@ == default_id@),
{
    let is_default = crate::text::str_eq(id.as_str(), default_id);
    let n: u64 = index as u64 + 1;
    let name = match friendly {
        Some(f) => {
            if is_default {
                let mut s = f;
                s.append(" (Default)");
                s
            } else {
                f
            }
        },
        None => {
            if is_default {
                let mut s = owned("Default ");
                match kind {
                    EndpointKind::Render => s.append("output"),
                    EndpointKind::Capture => s.append("input"),
                }
                s.append(" (device #");
                push_dec(&mut s, n);
                s.append(")");
                s
            } else {
                let mut s = match kind {
                    EndpointKind::Render => owned("Output"),
                    EndpointKind::Capture => owned("Input"),
                };
                s.append(" #");
                push_dec(&mut s, n);
                s
            }
        },
    };
    proof {
        reveal_strlit(" (Default)");
        reveal_strlit("Default ");
        reveal_strlit("output");
        reveal_strlit("input");
        reveal_strlit(" (device #");
        reveal_strlit(")");
        reveal_strlit("Output");
        reveal_strlit("Input");
        reveal_strlit(" #");
    }
    AudioDevice { id, name, is_default, kind }
}

/// An endpoint as the system enumerates it: its position in the
/// enumeration, its identifier, and its friendly name when one was readable.
pub struct FoundEndpoint {
    pub position: u32,
    pub id: String,
    pub friendly: Option<String>,
}

pub open spec fn device_view(d: AudioDevice) -> (Seq<char>, Seq<char>, bool, EndpointKind) {
    (d.id@, d.name@, d.is_default, d.kind)
}

/// The listing entry of one enumerated endpoint.
pub open spec fn endpoint_entry(kind: EndpointKind, e: FoundEndpoint, default_id: Seq<char>) -> (Seq<char>, Seq<char>, bool, EndpointKind) {
    let is_default = e.id@ == default_id;
    (
        e.id@,
        endpoint_name(kind, e.position as nat, match e.friendly { Some(f) => Some(f@), None => None }, is_default),
        is_default,
        kind,
    )
}

fn describe_all(kind: EndpointKind, found: Vec<FoundEndpoint>, default_id: &str) -> (r: Vec<AudioDevice>)
    ensures
        r@.len() == found@.len(),
        forall|i: int| 0 <= i < r@.len() ==> device_view(#[trigger] r@[i]) == endpoint_entry(kind, found@[i], default_id@),
{
    let ghost f = found@;
    let mut out: Vec<AudioDevice> = Vec::new();
    let mut rest = found;
    // Reverse the endpoints once, then take them back off in order.
    let n = rest.len();
    let mut rev: Vec<FoundEndpoint> = Vec::new();
    while rest.len() > 0
        invariant
            rest@.len() + rev@.len() == n,
            n == f.len(),
            rest@ == f.take(rest@.len() as int),
            forall|j: int| 0 <= j < rev@.len() ==> #[trigger] rev@[j] == f[n - 1 - j],
        decreases rest.len(),
    {
        let e = rest.pop().unwrap();
        rev.push(e);
        assert(rest@ =~= f.take(rest@.len() as int));
    }
    while rev.len() > 0
        invariant
            rev@.len() + out@.len() == n,
            n == f.len(),
            forall|j: int| 0 <= j < rev@.len() ==> #[trigger] rev@[j] == f[n - 1 - j],
            forall|j: int| 0 <= j < out@.len() ==> device_view(#[trigger] out@[j]) == endpoint_entry(kind, f[j], default_id@),
        decreases rev.len(),
    {
        let e = rev.pop().unwrap();
        let k = out.len();
        assert(e == f[k as int]);
        let d = describe_endpoint(kind, e.position, e.id, default_id, e.friendly);
        out.push(d);
    }
    out
}

/// The output devices the settings offer, from the enumerated render
/// endpoints and the default render endpoint's identifier.
pub fn enumerate_render_devices(found: Vec<FoundEndpoint>, default_id: &str) -> (r: Vec<AudioDevice>)
    ensures
        r@.len() == found@.len(),
        forall|i: int| 0 <= i < r@.len() ==> device_view(#[trigger] r@[i]) == endpoint_entry(EndpointKind::Render, found@[i], default_id@),
{
    describe_all(EndpointKind::Render, found, default_id)
}

/// The input devices the settings offer, from the enumerated capture
/// endpoints and the default capture endpoint's identifier.
pub fn enumerate_capture_devices(found: Vec<FoundEndpoint>, default_id: &str) -> (r: Vec<AudioDevice>)
    ensures
        r@.len() == found@.len(),
        forall|i: int| 0 <= i < r@.len() ==> device_view(#[trigger] r@[i]) == endpoint_entry(EndpointKind::Capture, found@[i], default_id@),
{
    describe_all(EndpointKind::Capture, found, default_id)
}


// ---------- the capture thread's buffer ----------

/// `AUDCLNT_BUFFERFLAGS_DATA_DISCONTINUITY`.
pub const FLAG_DATA_DISCONTINUITY: u32 = 0x1;
/// `AUDCLNT_BUFFERFLAGS_SILENT`.
pub const FLAG_SILENT: u32 = 0x2;
/// `AUDCLNT_BUFFERFLAGS_TIMESTAMP_ERROR`.
pub const FLAG_TIMESTAMP_ERROR: u32 = 0x4;

/// A packet's bytes as stored: zeros of the packet's length when the
/// endpoint flagged it silent (so timing holds), else the data read.
pub fn captured_packet(flags: u32, data: Vec<u8>, pts: i64) -> (p: AudioPacket)
    ensures
        p.pts == pts,
        p.data@.len() == data@.len(),
        flags & FLAG_SILENT != 0 ==> forall|i: int| 0 <= i < p.data@.len() ==> p.data@[i] == 0u8,
        flags & FLAG_SILENT == 0 ==> p.data@ == data@,
{
    if flags & FLAG_SILENT != 0 {
        let zeros: Vec<u8> = vec![0u8; data.len()];
        AudioPacket { data: zeros, pts }
    } else {
        AudioPacket { data, pts }
    }
}

/// Stored bytes an audio source keeps at most: its rate in bytes per second
/// times the buffer length plus one second; `None` when that does not fit.
pub open spec fn byte_cap_of(format: AudioFormat, duration_secs: u32) -> Option<usize> {
    let per_frame = (format.channels as int * format.bits_per_sample as int) / 8;
    let per_sec = format.sample_rate as int * per_frame;
    let cap = per_sec * (duration_secs as int + 1);
    if per_sec <= u32::MAX && cap <= usize::MAX { Some(cap as usize) } else { None }
}

/// The byte ceiling of an audio source's buffer.
pub fn audio_byte_cap(format: &AudioFormat, duration_secs: u32) -> (r: Option<usize>)
    ensures
        r == byte_cap_of(*format, duration_secs),
{
    let ch: u64 = format.channels as u64;
    let bits: u64 = format.bits_per_sample as u64;
    assert(ch * bits <= 65535 * 65535) by (nonlinear_arith)
        requires
            ch <= 65535,
            bits <= 65535;
    let per_frame: u64 = (ch * bits) / 8;
    assert(per_frame <= 65535 * 65535);
    let rate: u128 = format.sample_rate as u128;
    let pf: u128 = per_frame as u128;
    assert(rate * pf <= 0xffff_ffff * (65535 * 65535)) by (nonlinear_arith)
        requires
            rate <= 0xffff_ffff,
            pf <= 65535 * 65535;
    let per_sec: u128 = rate * pf;
    if per_sec > u32::MAX as u128 {
        return None;
    }
    let d1: u128 = duration_secs as u128 + 1;
    assert(per_sec * d1 <= 0xffff_ffff * 0x1_0000_0000) by (nonlinear_arith)
        requires
            per_sec <= 0xffff_ffff,
            d1 <= 0x1_0000_0000;
    let cap: u128 = per_sec * d1;
    if cap > usize::MAX as u128 {
        return None;
    }
    Some(cap as usize)
}

/// Total bytes of `s`.
pub open spec fn bytes_of_packets(s: Seq<AudioPacket>) -> nat
    decreases s.len(),
{
    if s.len() == 0 { 0 } else { s[0].data@.len() + bytes_of_packets(s.drop_first()) }
}

/// `s` after dropping, from the front, every packet older than `cutoff` and
/// any more while the total exceeds `cap`.
pub open spec fn audio_trimmed(s: Seq<AudioPacket>, cutoff: int, cap: nat) -> Seq<AudioPacket>
    decreases s.len(),
{
    if s.len() > 0 && (s[0].pts < cutoff || bytes_of_packets(s) > cap) {
        audio_trimmed(s.drop_first(), cutoff, cap)
    } else {
        s
    }
}

proof fn lemma_bytes_push(s: Seq<AudioPacket>, p: AudioPacket)
    ensures
        bytes_of_packets(s.push(p)) == bytes_of_packets(s) + p.data@.len(),
    decreases s.len(),
{
    let t = s.push(p);
    assert(t.len() > 0);
    assert(bytes_of_packets(t) == t[0].data@.len() + bytes_of_packets(t.drop_first()));
    if s.len() > 0 {
        lemma_bytes_push(s.drop_first(), p);
        assert(t.drop_first() =~= s.drop_first().push(p));
        assert(t[0] == s[0]);
        assert(bytes_of_packets(s) == s[0].data@.len() + bytes_of_packets(s.drop_first()));
    } else {
        assert(t.drop_first() =~= Seq::<AudioPacket>::empty());
        assert(t[0] == p);
        assert(bytes_of_packets(Seq::<AudioPacket>::empty()) == 0);
    }
}

/// One audio source's recent packets, oldest first, with their byte total.
pub struct AudioRing {
    pub packets: VecDeque<AudioPacket>,
    pub bytes: usize,
}

impl AudioRing {
    pub open spec fn wf(&self) -> bool {
        self.bytes == bytes_of_packets(self.packets@)
    }

    pub fn new() -> (r: AudioRing)
        ensures
            r.wf(),
            r.packets@ == Seq::<AudioPacket>::empty(),
    {
        let r = AudioRing { packets: VecDeque::new(), bytes: 0 };
        assert(r.packets@ =~= Seq::<AudioPacket>::empty());
        r
    }

    /// Appends a captured packet.
    pub fn push(&mut self, p: AudioPacket)
        requires
            old(self).wf(),
            old(self).bytes + p.data@.len() <= usize::MAX,
        ensures
            final(self).wf(),
            final(self).packets@ == old(self).packets@.push(p),
    {
        let ghost before = self.packets@;
        let ghost pv = p;
        let len = p.data.len();
        self.bytes = self.bytes + len;
        self.packets.push_back(p);
        proof {
            lemma_bytes_push(before, pv);
        }
    }

    /// Drops packets older than `duration_secs` before `now_pts` (100-ns
    /// units on the capture clock), and more while the total stays above
    /// `byte_cap`. Runs on every poll, so an idle endpoint's stale audio
    /// ages out instead of reaching a save.
    pub fn trim(&mut self, now_pts: i64, duration_secs: u32, byte_cap: usize)
        requires
            old(self).wf(),
            now_pts >= 0,
        ensures
            final(self).wf(),
            final(self).packets@ == audio_trimmed(old(self).packets@, now_pts - duration_secs * 10_000_000, byte_cap as nat),
    {
        let duration_pts: i64 = duration_secs as i64 * 10_000_000;
        let cutoff: i64 = now_pts - duration_pts;
        let ghost target = audio_trimmed(self.packets@, cutoff as int, byte_cap as nat);
        while self.packets.len() > 0 && (self.packets[0].pts < cutoff || self.bytes > byte_cap)
            invariant
                self.wf(),
                audio_trimmed(self.packets@, cutoff as int, byte_cap as nat) == target,
            decreases self.packets@.len(),
        {
            let ghost before = self.packets@;
            let removed = self.packets.pop_front().unwrap();
            assert(self.packets@ =~= before.drop_first());
            self.bytes = self.bytes - removed.data.len();
        }
    }
}

/// A trim keeps the newest packets, in order (a suffix of the buffer); what
/// it keeps is either nothing, or starts inside the window with a total
/// within the byte cap.
pub proof fn law_audio_trim_keeps_newest(s: Seq<AudioPacket>, cutoff: int, cap: nat)
    ensures
        exists|k: int| 0 <= k <= s.len() && #[trigger] s.skip(k) == audio_trimmed(s, cutoff, cap),
        audio_trimmed(s, cutoff, cap).len() > 0 ==> audio_trimmed(s, cutoff, cap)[0].pts >= cutoff
            && bytes_of_packets(audio_trimmed(s, cutoff, cap)) <= cap,
    decreases s.len(),
{
    if s.len() > 0 && (s[0].pts < cutoff || bytes_of_packets(s) > cap) {
        law_audio_trim_keeps_newest(s.drop_first(), cutoff, cap);
        let k = choose|k: int| 0 <= k <= s.drop_first().len() && #[trigger] s.drop_first().skip(k) == audio_trimmed(s.drop_first(), cutoff, cap);
        assert(s.skip(k + 1) =~= s.drop_first().skip(k));
    } else {
        assert(s.skip(0) =~= s);
    }
}

// ---------- packet timestamps ----------

/// The endpoint flagged this packet's device timestamp as unreliable.
pub open spec fn timestamp_unreliable(flags: u32) -> bool {
    flags & FLAG_TIMESTAMP_ERROR != 0 || flags & FLAG_DATA_DISCONTINUITY != 0
}

/// Packet timestamps from the device clock (QPC, 100-ns units), anchored at
/// the first reliable packet to the capture clock; unreliable packets take
/// their read time and drop the anchor, so the next reliable one sets a
/// new one.
pub struct QpcClock {
    /// (device time, capture-clock time) of the anchoring packet.
    pub anchor: Option<(u64, i64)>,
}

impl QpcClock {
    pub fn new() -> (c: QpcClock)
        ensures
            c.anchor is None,
    {
        QpcClock { anchor: None }
    }

    /// The timestamp of a packet read at `read_pts` (capture clock) whose
    /// device time is `qpc`.
    pub fn stamp(&mut self, flags: u32, qpc: u64, read_pts: i64) -> (pts: i64)
        requires
            old(self).anchor matches Some((q, p)) ==> i64::MIN <= p + (qpc - q) <= i64::MAX,
        ensures
            timestamp_unreliable(flags) ==> pts == read_pts && final(self).anchor is None,
            !timestamp_unreliable(flags) ==> match old(self).anchor {
                None => pts == read_pts && final(self).anchor == Some((qpc, read_pts)),
                Some((q, p)) => pts == p + (qpc - q) && final(self).anchor == old(self).anchor,
            },
    {
        if flags & FLAG_TIMESTAMP_ERROR != 0 || flags & FLAG_DATA_DISCONTINUITY != 0 {
            self.anchor = None;
            read_pts
        } else {
            match self.anchor {
                None => {
                    self.anchor = Some((qpc, read_pts));
                    read_pts
                },
                Some((q, p)) => {
                    let delta: i128 = qpc as i128 - q as i128;
                    (p as i128 + delta) as i64
                },
            }
        }
    }
}

} // verus!
