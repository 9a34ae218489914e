//! Video encoder selection for exports: which encoders are tried, in which
//! order, and the ffmpeg arguments each is run with.

use vstd::prelude::*;
use crate::text::{contains_seq, dec, owned, push_arg, push_dec, push_str_arg, str_contains, str_eq};

verus! {

/// Audio bitrate (bit/s) reserved in size-targeted exports.
pub const SIZED_AUDIO_BPS: u64 = 96_000;

/// The encoders tried in order: the one known to work (then `libx264` as the
/// fallback, unless it is `libx264`); otherwise NVENC, AMF and QSV where the
/// ffmpeg build lists them, then `libx264`.
pub open spec fn chain_for(working: Option<Seq<char>>, listing: Option<Seq<char>>) -> Seq<Seq<char>> {
    match working {
        Some(w) => if w == "libx264"@ { seq!["libx264"@] } else { seq![w, "libx264"@] },
        None => {
            let l = match listing { Some(s) => s, None => Seq::empty() };
            let listed = |e: Seq<char>| listing is Some && contains_seq(l, e);
            (if listed("h264_nvenc"@) { seq!["h264_nvenc"@] } else { Seq::empty() })
                + (if listed("h264_amf"@) { seq!["h264_amf"@] } else { Seq::empty() })
                + (if listed("h264_qsv"@) { seq!["h264_qsv"@] } else { Seq::empty() })
                + seq!["libx264"@]
        },
    }
}

/// The encoder chain from the encoder that last worked, if any, and the
/// output of `ffmpeg -encoders` when it ran successfully.
pub fn encoder_chain(working: Option<&str>, listing: Option<&str>) -> (r: Vec<String>)
    ensures
        r.deep_view() == chain_for(
            match working { Some(w) => Some(w@), None => None },
            match listing { Some(s) => Some(s@), None => None },
        ),
{
    let mut r: Vec<String> = Vec::new();
    match working {
        Some(w) => {
            if str_eq(w, "libx264") {
                push_str_arg(&mut r, "libx264");
            } else {
                push_str_arg(&mut r, w);
                push_str_arg(&mut r, "libx264");
            }
        },
        None => {
            if let Some(s) = listing {
                if str_contains(s, "h264_nvenc") {
                    push_str_arg(&mut r, "h264_nvenc");
                }
                if str_contains(s, "h264_amf") {
                    push_str_arg(&mut r, "h264_amf");
                }
                if str_contains(s, "h264_qsv") {
                    push_str_arg(&mut r, "h264_qsv");
                }
            }
            push_str_arg(&mut r, "libx264");
        },
    }
    assert(r.deep_view() =~= chain_for(
        match working { Some(w) => Some(w@), None => None },
        match listing { Some(s) => Some(s@), None => None },
    ));
    r
}

/// Arguments of the quick proxy-quality encode (constant quality 28).
pub open spec fn proxy_encoder_args(enc: Seq<char>) -> Seq<Seq<char>> {
    if enc == "h264_nvenc"@ {
        seq!["-c:v"@, "h264_nvenc"@, "-preset"@, "p4"@, "-tune"@, "ll"@, "-rc"@, "vbr"@, "-cq"@, "28"@, "-b:v"@, "0"@]
    } else if enc == "h264_amf"@ {
        seq!["-c:v"@, "h264_amf"@, "-quality"@, "speed"@, "-rc"@, "cqp"@, "-qp_i"@, "28"@, "-qp_p"@, "28"@]
    } else if enc == "h264_qsv"@ {
        seq!["-c:v"@, "h264_qsv"@, "-preset"@, "veryfast"@, "-global_quality"@, "28"@]
    } else {
        seq!["-c:v"@, "libx264"@, "-preset"@, "veryfast"@, "-crf"@, "28"@]
    }
}

/// Arguments of the near-lossless export encode (constant quality 20).
pub open spec fn hq_encoder_args(enc: Seq<char>) -> Seq<Seq<char>> {
    if enc == "h264_nvenc"@ {
        seq!["-c:v"@, "h264_nvenc"@, "-preset"@, "p5"@, "-rc"@, "vbr"@, "-cq"@, "20"@, "-b:v"@, "0"@]
    } else if enc == "h264_amf"@ {
        seq!["-c:v"@, "h264_amf"@, "-quality"@, "balanced"@, "-rc"@, "cqp"@, "-qp_i"@, "20"@, "-qp_p"@, "20"@]
    } else if enc == "h264_qsv"@ {
        seq!["-c:v"@, "h264_qsv"@, "-preset"@, "medium"@, "-global_quality"@, "20"@]
    } else {
        seq!["-c:v"@, "libx264"@, "-preset"@, "medium"@, "-crf"@, "20"@]
    }
}

/// Arguments of a constant-bitrate encode at `kbps` (buffer twice the rate).
pub open spec fn sized_encoder_args(enc: Seq<char>, kbps: nat) -> Seq<Seq<char>> {
    let rate = seq![dec(kbps) + "k"@, "-maxrate"@, dec(kbps) + "k"@, "-bufsize"@, dec(2 * kbps) + "k"@];
    if enc == "h264_nvenc"@ {
        seq!["-c:v"@, "h264_nvenc"@, "-preset"@, "p4"@, "-tune"@, "ll"@, "-rc"@, "cbr"@, "-b:v"@] + rate
    } else if enc == "h264_amf"@ {
        seq!["-c:v"@, "h264_amf"@, "-quality"@, "speed"@, "-rc"@, "cbr"@, "-b:v"@] + rate
    } else if enc == "h264_qsv"@ {
        seq!["-c:v"@, "h264_qsv"@, "-preset"@, "veryfast"@, "-b:v"@] + rate
    } else {
        seq!["-c:v"@, "libx264"@, "-preset"@, "veryfast"@, "-b:v"@] + rate
    }
}

fn push_all(v: &mut Vec<String>, items: &[&str])
    ensures
        final(v).deep_view() == old(v).deep_view() + items@.map_values(|s: &str| s@),
{
    let mut i: usize = 0;
    while i < items.len()
        invariant
            i <= items@.len(),
            v.deep_view() == old(v).deep_view() + items@.take(i as int).map_values(|s: &str| s@),
        decreases items.len() - i,
    {
        push_str_arg(v, items[i]);
        i = i + 1;
        assert(v.deep_view() =~= old(v).deep_view() + items@.take(i as int).map_values(|s: &str| s@));
    }
    assert(items@.take(items@.len() as int) =~= items@);
}

/// The proxy-quality encoder arguments for `encoder`.
pub fn encoder_args(encoder: &str) -> (r: Vec<String>)
    ensures
        r.deep_view() == proxy_encoder_args(encoder@),
{
    let mut r: Vec<String> = Vec::new();
    if str_eq(encoder, "h264_nvenc") {
        push_all(&mut r, &["-c:v", "h264_nvenc", "-preset", "p4", "-tune", "ll", "-rc", "vbr", "-cq", "28", "-b:v", "0"]);
    } else if str_eq(encoder, "h264_amf") {
        push_all(&mut r, &["-c:v", "h264_amf", "-quality", "speed", "-rc", "cqp", "-qp_i", "28", "-qp_p", "28"]);
    } else if str_eq(encoder, "h264_qsv") {
        push_all(&mut r, &["-c:v", "h264_qsv", "-preset", "veryfast", "-global_quality", "28"]);
    } else {
        push_all(&mut r, &["-c:v", "libx264", "-preset", "veryfast", "-crf", "28"]);
    }
    assert(r.deep_view() =~= proxy_encoder_args(encoder@));
    r
}

/// The near-lossless encoder arguments for `encoder`.
pub fn encoder_args_high_quality(encoder: &str) -> (r: Vec<String>)
    ensures
        r.deep_view() == hq_encoder_args(encoder@),
{
    let mut r: Vec<String> = Vec::new();
    if str_eq(encoder, "h264_nvenc") {
        push_all(&mut r, &["-c:v", "h264_nvenc", "-preset", "p5", "-rc", "vbr", "-cq", "20", "-b:v", "0"]);
    } else if str_eq(encoder, "h264_amf") {
        push_all(&mut r, &["-c:v", "h264_amf", "-quality", "balanced", "-rc", "cqp", "-qp_i", "20", "-qp_p", "20"]);
    } else if str_eq(encoder, "h264_qsv") {
        push_all(&mut r, &["-c:v", "h264_qsv", "-preset", "medium", "-global_quality", "20"]);
    } else {
        push_all(&mut r, &["-c:v", "libx264", "-preset", "medium", "-crf", "20"]);
    }
    assert(r.deep_view() =~= hq_encoder_args(encoder@));
    r
}

/// The constant-bitrate encoder arguments for `encoder` at `video_kbps`.
pub fn encoder_args_sized(encoder: &str, video_kbps: u64) -> (r: Vec<String>)
    requires
        video_kbps <= u64::MAX / 2,
    ensures
        r.deep_view() == sized_encoder_args(encoder@, video_kbps as nat),
{
    let mut r: Vec<String> = Vec::new();
    if str_eq(encoder, "h264_nvenc") {
        push_all(&mut r, &["-c:v", "h264_nvenc", "-preset", "p4", "-tune", "ll", "-rc", "cbr", "-b:v"]);
    } else if str_eq(encoder, "h264_amf") {
        push_all(&mut r, &["-c:v", "h264_amf", "-quality", "speed", "-rc", "cbr", "-b:v"]);
    } else if str_eq(encoder, "h264_qsv") {
        push_all(&mut r, &["-c:v", "h264_qsv", "-preset", "veryfast", "-b:v"]);
    } else {
        push_all(&mut r, &["-c:v", "libx264", "-preset", "veryfast", "-b:v"]);
    }
    let ghost head = r.deep_view();
    let mut bv = String::new();
    push_dec(&mut bv, video_kbps);
    bv.append("k");
    push_arg(&mut r, bv);
    push_str_arg(&mut r, "-maxrate");
    let mut mr = String::new();
    push_dec(&mut mr, video_kbps);
    mr.append("k");
    push_arg(&mut r, mr);
    push_str_arg(&mut r, "-bufsize");
    let mut bs = String::new();
    push_dec(&mut bs, video_kbps * 2);
    bs.append("k");
    push_arg(&mut r, bs);
    assert(r.deep_view() =~= sized_encoder_args(encoder@, video_kbps as nat));
    r
}


// ---------- walking the chain ----------

/// What an encode does next: try an encoder, or give up with an error.
pub enum CascadeStep {
    Try(String),
    GiveUp(String),
}

/// An encode walking down the encoder chain: each encoder is tried in turn
/// until one succeeds; when all have failed, the last failure is the error
/// (`no encoders available` for an empty chain).
pub struct EncoderCascade {
    pub chain: Vec<String>,
    /// Encoders already tried and failed.
    pub tried: usize,
    pub last_err: String,
}

impl EncoderCascade {
    pub open spec fn wf(&self) -> bool {
        self.tried <= self.chain@.len()
    }

    /// The walk before its first attempt.
    pub fn new(chain: Vec<String>) -> (c: EncoderCascade)
        ensures
            c.wf(),
            c.chain@ == chain@,
            c.tried == 0,
            c.last_err@ == "no encoders available"@,
    {
        EncoderCascade { chain, tried: 0, last_err: owned("no encoders available") }
    }

    /// The next step: the first encoder not yet tried, else give up with
    /// the last failure.
    pub fn step(&self) -> (s: CascadeStep)
        requires
            self.wf(),
        ensures
            self.tried < self.chain@.len() ==> (s matches CascadeStep::Try(e) && e@ == self.chain@[self.tried as int]@),
            self.tried == self.chain@.len() ==> (s matches CascadeStep::GiveUp(e) && e@ == self.last_err@),
    {
        if self.tried < self.chain.len() {
            CascadeStep::Try(owned(self.chain[self.tried].as_str()))
        } else {
            CascadeStep::GiveUp(owned(self.last_err.as_str()))
        }
    }

    /// The encoder just tried failed with `err`.
    pub fn failed(&mut self, err: String)
        requires
            old(self).wf(),
            old(self).tried < old(self).chain@.len(),
        ensures
            final(self).wf(),
            final(self).chain@ == old(self).chain@,
            final(self).tried == old(self).tried + 1,
            final(self).last_err@ == err@,
    {
        let n = self.chain.len();
        assert(self.tried < n);
        self.tried = self.tried + 1;
        self.last_err = err;
    }
}

} // verus!
