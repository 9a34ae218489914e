//! Waveforms of audio tracks.
//!
//! ffmpeg streams one track as mono 16-bit little-endian PCM, in chunks that
//! may split a sample between them. The decoder turns the chunks back into
//! samples; the peak bins keep, for each slice of the timeline, the largest
//! sample magnitude seen in it. (Which slice a sample falls in depends on the
//! track's duration and is worked out by the caller.)

use vstd::prelude::*;

verus! {

/// Number of slices a waveform divides the timeline into.
pub const WAVEFORM_BINS: usize = 4000;

/// The signed sample stored in two little-endian bytes.
pub open spec fn le_sample(lo: u8, hi: u8) -> int {
    let u = lo + 256 * hi;
    if u >= 32768 { u - 65536 } else { u }
}

/// The samples of a little-endian 16-bit byte stream: one per complete pair.
pub open spec fn s16_samples(b: Seq<u8>) -> Seq<i16> {
    Seq::new(b.len() / 2, |i: int| le_sample(b[2 * i], b[2 * i + 1]) as i16)
}

/// The byte a stream leaves over: its last one when the length is odd.
pub open spec fn s16_leftover(b: Seq<u8>) -> Seq<u8> {
    if b.len() % 2 == 1 { seq![b.last()] } else { Seq::empty() }
}

fn sample_of(lo: u8, hi: u8) -> (s: i16)
    ensures
        s == le_sample(lo, hi),
{
    let u: i32 = lo as i32 + 256 * (hi as i32);
    if u >= 32768 {
        (u - 65536) as i16
    } else {
        u as i16
    }
}

/// Decodes a chunked 16-bit PCM stream, holding a byte split off the end of
/// one chunk until the next arrives.
pub struct S16Decoder {
    pub pending: Option<u8>,
}

impl S16Decoder {
    /// The byte held over from the previous chunk, if any.
    pub open spec fn held(&self) -> Seq<u8> {
        match self.pending {
            Some(b) => seq![b],
            None => Seq::empty(),
        }
    }

    /// A decoder at the start of a stream.
    pub fn new() -> (d: S16Decoder)
        ensures
            d.held() == Seq::<u8>::empty(),
    {
        S16Decoder { pending: None }
    }

    /// The samples completed by the next chunk.
    pub fn feed(&mut self, bytes: &[u8]) -> (out: Vec<i16>)
        ensures
            out@ == s16_samples(old(self).held() + bytes@),
            final(self).held() == s16_leftover(old(self).held() + bytes@),
    {
        let ghost all = old(self).held() + bytes@;
        let ghost off: int = old(self).held().len() as int;
        let n = bytes.len();
        let mut out: Vec<i16> = Vec::new();
        let mut idx: usize = 0;
        proof {
            assert(all.take(0) =~= Seq::<u8>::empty());
            assert(s16_samples(Seq::<u8>::empty()) =~= Seq::<i16>::empty());
        }
        match self.pending {
            Some(lo) => {
                if n == 0 {
                    assert(all =~= seq![lo]);
                    assert(s16_samples(all) =~= Seq::<i16>::empty());
                    return out;
                }
                out.push(sample_of(lo, bytes[0]));
                idx = 1;
                self.pending = None;
                assert(all.take(2) =~= seq![lo, bytes@[0]]);
                assert(s16_samples(all.take(2)) =~= seq![le_sample(lo, bytes@[0]) as i16]);
            },
            None => {},
        }
        while n - idx > 1
            invariant
                all == old(self).held() + bytes@,
                off == old(self).held().len(),
                off <= 1,
                n == bytes@.len(),
                self.pending is None,
                idx <= n,
                off + idx <= all.len(),
                (off + idx) % 2 == 0,
                out@ == s16_samples(all.take(off + idx)),
            decreases n - idx,
        {
            let ghost k: int = off + idx;
            let s = sample_of(bytes[idx], bytes[idx + 1]);
            out.push(s);
            proof {
                assert(all[k] == bytes@[idx as int]);
                assert(all[k + 1] == bytes@[idx + 1]);
                assert(s16_samples(all.take(k + 2)) =~= s16_samples(all.take(k)).push(le_sample(all[k], all[k + 1]) as i16));
            }
            idx = idx + 2;
        }
        if idx < n {
            self.pending = Some(bytes[idx]);
            proof {
                assert(all.len() == off + idx + 1);
                assert(s16_samples(all) =~= s16_samples(all.take(off + idx)));
                assert(all.last() == bytes@[idx as int]);
            }
        } else {
            assert(all.take(off + idx) =~= all);
        }
        out
    }
}

/// Splitting a stream after an even number of bytes splits its samples.
proof fn lemma_samples_split(p: Seq<u8>, q: Seq<u8>)
    requires
        p.len() % 2 == 0,
    ensures
        s16_samples(p + q) == s16_samples(p) + s16_samples(q),
{
    let pq = p + q;
    let h = p.len() / 2;
    assert(p.len() == 2 * h);
    assert(pq.len() / 2 == h + q.len() / 2);
    assert forall|j: int| 0 <= j < pq.len() / 2 implies #[trigger] s16_samples(pq)[j] == (s16_samples(p) + s16_samples(q))[j] by {
        if j < h {
            assert(pq[2 * j] == p[2 * j]);
            assert(pq[2 * j + 1] == p[2 * j + 1]);
        } else {
            let t = j - h;
            assert(2 * j == p.len() + 2 * t);
            assert(pq[2 * j] == q[2 * t]);
            assert(pq[2 * j + 1] == q[2 * t + 1]);
        }
    }
    assert(s16_samples(pq) =~= s16_samples(p) + s16_samples(q));
}

/// A stream has the samples of its even-length front part.
proof fn lemma_samples_even_front(x: Seq<u8>)
    ensures
        x == x.take(x.len() - x.len() % 2) + s16_leftover(x),
        s16_samples(x) == s16_samples(x.take(x.len() - x.len() % 2)),
        (x.len() - x.len() % 2) % 2 == 0,
{
    let k = x.len() - x.len() % 2;
    if x.len() % 2 == 1 {
        assert(x =~= x.take(k) + seq![x.last()]);
    } else {
        assert(x =~= x.take(k) + Seq::<u8>::empty());
    }
    assert(s16_samples(x) =~= s16_samples(x.take(k)));
}

/// Decoding does not depend on where the stream was cut into chunks:
/// feeding `a` then `b` gives the samples, and holds the byte, that feeding
/// `a` and `b` joined does.
pub proof fn law_decoding_ignores_chunk_boundaries(held: Seq<u8>, a: Seq<u8>, b: Seq<u8>)
    requires
        held.len() <= 1,
    ensures
        s16_samples(held + a) + s16_samples(s16_leftover(held + a) + b) == s16_samples(held + a + b),
        s16_leftover(s16_leftover(held + a) + b) == s16_leftover(held + a + b),
{
    let x = held + a;
    let lo = s16_leftover(x);
    let k = x.len() - x.len() % 2;
    lemma_samples_even_front(x);
    assert(held + a + b =~= x.take(k) + (lo + b));
    lemma_samples_split(x.take(k), lo + b);
    let y = lo + b;
    let z = held + a + b;
    assert(z.len() == k + y.len());
    if y.len() % 2 == 1 {
        assert(z.len() % 2 == 1);
        assert(z.last() == y.last());
    } else {
        assert(z.len() % 2 == 0);
    }
}

// ---------- peaks ----------

/// A sample's magnitude (`i16::unsigned_abs`).
pub open spec fn magnitude(s: i16) -> u16 {
    (if s < 0 { -s } else { s as int }) as u16
}

pub open spec fn louder(a: u16, b: u16) -> u16 {
    if a >= b { a } else { b }
}

/// The largest magnitude per bin, updated sample by sample. The bin being
/// filled keeps its running peak aside until the stream moves on.
pub struct PeakBins {
    pub bins: Vec<u16>,
    pub current: usize,
    pub current_max: u16,
}

impl PeakBins {
    pub open spec fn wf(&self) -> bool {
        &&& self.bins@.len() == WAVEFORM_BINS
        &&& self.current < WAVEFORM_BINS
    }

    /// The peaks so far, the running one included.
    pub open spec fn peaks(&self) -> Seq<u16> {
        let c = self.current as int;
        self.bins@.update(c, louder(self.bins@[c], self.current_max))
    }

    /// Peaks of a silent timeline.
    pub fn new() -> (p: PeakBins)
        ensures
            p.wf(),
            p.peaks() == Seq::new(WAVEFORM_BINS as nat, |i: int| 0u16),
    {
        let bins: Vec<u16> = vec![0u16; WAVEFORM_BINS];
        let p = PeakBins { bins, current: 0, current_max: 0 };
        assert(p.peaks() =~= Seq::new(WAVEFORM_BINS as nat, |i: int| 0u16));
        p
    }

    /// Accounts `sample` to `bin`: that bin's peak becomes at least the
    /// sample's magnitude, every other bin keeps its peak.
    pub fn record(&mut self, bin: usize, sample: i16)
        requires
            old(self).wf(),
            bin < WAVEFORM_BINS,
        ensures
            final(self).wf(),
            final(self).peaks() == old(self).peaks().update(bin as int, louder(old(self).peaks()[bin as int], magnitude(sample))),
    {
        let ghost before = self.peaks();
        let amp: u16 = if sample < 0 {
            let w: i32 = -(sample as i32);
            w as u16
        } else {
            sample as u16
        };
        if bin != self.current {
            let c = self.current;
            if self.current_max > self.bins[c] {
                self.bins.set(c, self.current_max);
            }
            self.current = bin;
            self.current_max = 0;
        }
        if amp > self.current_max {
            self.current_max = amp;
        }
        assert(self.peaks() =~= before.update(bin as int, louder(before[bin as int], magnitude(sample))));
    }

    /// The finished waveform: every bin's peak magnitude.
    pub fn finish(self) -> (v: Vec<u16>)
        requires
            self.wf(),
        ensures
            v@ == self.peaks(),
    {
        let mut bins = self.bins;
        let c = self.current;
        if self.current_max > bins[c] {
            bins.set(c, self.current_max);
        }
        assert(bins@ =~= self.peaks());
        bins
    }
}

} // verus!
