//! Choosing the H.264 encoder, and Media Foundation attribute packing for
//! its media types.

use vstd::prelude::*;
use crate::replay::EncoderPreference;
use crate::text::{contains_seq, spec_to_lowercase, str_contains, to_lowercase};

verus! {

/// Two 32-bit halves in one 64-bit attribute: `hi` in the upper word.
pub open spec fn packed(hi: u32, lo: u32) -> u64 {
    (hi as nat * 0x1_0000_0000 + lo as nat) as u64
}

fn pack_halves(hi: u32, lo: u32) -> (r: u64)
    ensures
        r == packed(hi, lo),
        r >> 32u64 == hi as u64,
        r & 0xFFFF_FFFFu64 == lo as u64,
{
    let r = ((hi as u64) << 32u64) | lo as u64;
    assert(r == (hi as u64) * 0x1_0000_0000u64 + lo as u64 && r >> 32u64 == hi as u64
        && r & 0xFFFF_FFFFu64 == lo as u64) by (bit_vector)
        requires
            r == ((hi as u64) << 32u64) | lo as u64;
    r
}

/// `MF_MT_FRAME_SIZE`: width in the upper 32 bits, height in the lower.
pub fn pack_size(w: u32, h: u32) -> (r: u64)
    ensures
        r == packed(w, h),
        r >> 32u64 == w as u64,
        r & 0xFFFF_FFFFu64 == h as u64,
{
    pack_halves(w, h)
}

/// `MF_MT_FRAME_RATE` and aspect ratios: numerator in the upper 32 bits,
/// denominator in the lower.
pub fn pack_ratio(num: u32, den: u32) -> (r: u64)
    ensures
        r == packed(num, den),
        r >> 32u64 == num as u64,
        r & 0xFFFF_FFFFu64 == den as u64,
{
    pack_halves(num, den)
}

// ---------- encoder choice ----------

/// One way of looking for an encoder, tried in order until one activates.
#[derive(Clone, Copy, Debug, PartialEq, Eq, Structural)]
pub enum EncoderSearch {
    /// The first hardware encoder whose friendly name names the preferred vendor.
    ByVendorName,
    /// The first hardware encoder the system lists.
    AnyHardware,
    /// The first software encoder the system lists.
    Software,
}

/// The searches for a preference: a vendor's encoder by name, else any
/// hardware one; `Auto` tries hardware then software; `Software` only software.
pub open spec fn search_order(p: EncoderPreference) -> Seq<EncoderSearch> {
    match p {
        EncoderPreference::Auto => seq![EncoderSearch::AnyHardware, EncoderSearch::Software],
        EncoderPreference::Software => seq![EncoderSearch::Software],
        _ => seq![EncoderSearch::ByVendorName, EncoderSearch::AnyHardware],
    }
}

/// How the encoder for `pref` is looked for.
pub fn encoder_search_order(pref: EncoderPreference) -> (r: Vec<EncoderSearch>)
    ensures
        r@ == search_order(pref),
{
    let r = match pref {
        EncoderPreference::Auto => vec![EncoderSearch::AnyHardware, EncoderSearch::Software],
        EncoderPreference::Software => vec![EncoderSearch::Software],
        _ => vec![EncoderSearch::ByVendorName, EncoderSearch::AnyHardware],
    };
    assert(r@ =~= search_order(pref));
    r
}

/// Lowercase fragments of a vendor's encoder names.
pub open spec fn vendor_needles(p: EncoderPreference) -> Seq<Seq<char>> {
    match p {
        EncoderPreference::Nvenc => seq!["nvidia"@, "nvenc"@],
        EncoderPreference::Amf => seq!["amd"@, "amf"@],
        EncoderPreference::Qsv => seq!["intel"@, "qsv"@, "quick sync"@],
        _ => Seq::empty(),
    }
}

/// A friendly name that is not empty and, lowercased, holds one of `needles`.
pub open spec fn names_vendor(name: Seq<char>, needles: Seq<Seq<char>>) -> bool {
    name.len() > 0 && exists|k: int| 0 <= k < needles.len() && contains_seq(spec_to_lowercase(name), #[trigger] needles[k])
}

/// Positions of the names that name the vendor, in listing order.
pub open spec fn vendor_matches(names: Seq<Seq<char>>, needles: Seq<Seq<char>>) -> Seq<usize>
    decreases names.len(),
{
    if names.len() == 0 {
        Seq::empty()
    } else {
        let prev = vendor_matches(names.drop_last(), needles);
        if names_vendor(names.last(), needles) { prev.push((names.len() - 1) as usize) } else { prev }
    }
}

fn names_any(lower: &str, needles: &Vec<&str>) -> (b: bool)
    ensures
        b == exists|k: int| 0 <= k < needles@.len() && contains_seq(lower@, #[trigger] needles@[k]@),
{
    let mut k: usize = 0;
    while k < needles.len()
        invariant
            k <= needles@.len(),
            forall|j: int| 0 <= j < k ==> !contains_seq(lower@, #[trigger] needles@[j]@),
        decreases needles.len() - k,
    {
        if str_contains(lower, needles[k]) {
            return true;
        }
        k = k + 1;
    }
    false
}

/// Among the enumerated hardware encoders' friendly names, the positions of
/// those that name the preferred vendor, in order: the candidates tried for
/// [`EncoderSearch::ByVendorName`].
pub fn vendor_encoder_candidates(names: &Vec<String>, pref: EncoderPreference) -> (r: Vec<usize>)
    ensures
        r@ == vendor_matches(names.deep_view(), vendor_needles(pref)),
{
    let needles: Vec<&str> = match pref {
        EncoderPreference::Nvenc => vec!["nvidia", "nvenc"],
        EncoderPreference::Amf => vec!["amd", "amf"],
        EncoderPreference::Qsv => vec!["intel", "qsv", "quick sync"],
        _ => Vec::new(),
    };
    let ghost nd = vendor_needles(pref);
    proof {
        assert(needles@.map_values(|s: &str| s@) =~= nd);
        assert forall|k: int| 0 <= k < needles@.len() implies needles@[k]@ == #[trigger] nd[k] by {
            assert(needles@.map_values(|s: &str| s@)[k] == needles@[k]@);
        }
    }
    let ghost ns = names.deep_view();
    let mut out: Vec<usize> = Vec::new();
    let mut i: usize = 0;
    while i < names.len()
        invariant
            i <= names@.len(),
            ns == names.deep_view(),
            nd == vendor_needles(pref),
            needles@.len() == nd.len(),
            forall|k: int| 0 <= k < needles@.len() ==> needles@[k]@ == #[trigger] nd[k],
            out@ == vendor_matches(ns.take(i as int), nd),
        decreases names.len() - i,
    {
        let name = names[i].as_str();
        let lower = to_lowercase(name);
        let hit = names_any(lower.as_str(), &needles);
        proof {
            assert(ns.take(i + 1).drop_last() =~= ns.take(i as int));
            assert(ns.take(i + 1).last() == name@);
            if hit {
                let k = choose|k: int| 0 <= k < needles@.len() && contains_seq(lower@, #[trigger] needles@[k]@);
                assert(contains_seq(spec_to_lowercase(name@), nd[k]));
            }
            if names_vendor(name@, nd) {
                let k = choose|k: int| 0 <= k < nd.len() && contains_seq(spec_to_lowercase(name@), #[trigger] nd[k]);
                assert(contains_seq(lower@, needles@[k]@));
            }
        }
        if name.unicode_len() > 0 && hit {
            out.push(i);
        }
        i = i + 1;
    }
    assert(ns.take(ns.len() as int) =~= ns);
    out
}

} // verus!
