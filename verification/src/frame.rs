//! Single frames out of a source: the ffmpeg commands that grab one (as raw
//! RGBA for the clipboard, or as a PNG file), and the size checks on what
//! comes back.

use vstd::prelude::*;
use crate::text::{dec, owned, push_dec, push_str_arg};

verus! {

/// The start of a one-frame grab at `at` (seek time, already printed).
pub open spec fn grab_head(at: Seq<char>, src: Seq<char>) -> Seq<Seq<char>> {
    seq!["-y"@, "-hide_banner"@, "-loglevel"@, "error"@, "-ss"@, at, "-i"@, src, "-frames:v"@, "1"@, "-vsync"@, "0"@]
}

fn push_grab_head(v: &mut Vec<String>, at: &str, src: &str)
    ensures
        final(v).deep_view() == old(v).deep_view() + grab_head(at@, src@),
{
    let ghost start = v.deep_view();
    push_str_arg(v, "-y");
    push_str_arg(v, "-hide_banner");
    push_str_arg(v, "-loglevel");
    push_str_arg(v, "error");
    push_str_arg(v, "-ss");
    push_str_arg(v, at);
    push_str_arg(v, "-i");
    push_str_arg(v, src);
    push_str_arg(v, "-frames:v");
    push_str_arg(v, "1");
    push_str_arg(v, "-vsync");
    push_str_arg(v, "0");
    assert(v.deep_view() =~= start + grab_head(at@, src@));
}

/// The frame at `at` as raw RGBA on ffmpeg's standard output.
pub fn frame_rgba_args(at: &str, src: &str) -> (v: Vec<String>)
    ensures
        v.deep_view() == grab_head(at@, src@) + seq!["-f"@, "rawvideo"@, "-pix_fmt"@, "rgba"@, "pipe:1"@],
{
    let mut v: Vec<String> = Vec::new();
    push_grab_head(&mut v, at, src);
    let ghost head = v.deep_view();
    push_str_arg(&mut v, "-f");
    push_str_arg(&mut v, "rawvideo");
    push_str_arg(&mut v, "-pix_fmt");
    push_str_arg(&mut v, "rgba");
    push_str_arg(&mut v, "pipe:1");
    assert(v.deep_view() =~= head + seq!["-f"@, "rawvideo"@, "-pix_fmt"@, "rgba"@, "pipe:1"@]);
    v
}

/// The frame at `at` saved as the image file `out` at best quality.
pub fn frame_png_args(at: &str, src: &str, out: &str) -> (v: Vec<String>)
    ensures
        v.deep_view() == grab_head(at@, src@) + seq!["-q:v"@, "1"@, out@],
{
    let mut v: Vec<String> = Vec::new();
    push_grab_head(&mut v, at, src);
    let ghost head = v.deep_view();
    push_str_arg(&mut v, "-q:v");
    push_str_arg(&mut v, "1");
    push_str_arg(&mut v, out);
    assert(v.deep_view() =~= head + seq!["-q:v"@, "1"@, out@]);
    v
}

/// Bytes of a `width` x `height` RGBA frame; refused for an empty size.
pub fn rgba_frame_len(width: u32, height: u32) -> (r: Result<usize, String>)
    requires
        width * height * 4 <= usize::MAX,
    ensures
        (width == 0 || height == 0) ==> (r matches Err(e) && e@ == "invalid source dimensions"@),
        (width > 0 && height > 0) ==> r == Ok::<usize, String>((width * height * 4) as usize),
{
    if width == 0 || height == 0 {
        return Err(owned("invalid source dimensions"));
    }
    let w: u128 = width as u128;
    let h: u128 = height as u128;
    assert(w * h * 4 <= 0xffff_ffff * 0xffff_ffff * 4) by (nonlinear_arith)
        requires
            w <= 0xffff_ffff,
            h <= 0xffff_ffff;
    let n: u128 = w * h * 4;
    Ok(n as usize)
}

/// The check on the grabbed bytes: exactly one frame's worth.
pub fn check_frame_bytes(got: usize, expected: usize) -> (r: Result<(), String>)
    ensures
        got == expected ==> r is Ok,
        got != expected ==> (r matches Err(e)
            && e@ == "raw RGBA pipe returned "@ + dec(got as nat) + " bytes, expected "@ + dec(expected as nat)),
{
    if got == expected {
        Ok(())
    } else {
        let mut e = owned("raw RGBA pipe returned ");
        push_dec(&mut e, got as u64);
        e.append(" bytes, expected ");
        push_dec(&mut e, expected as u64);
        Err(e)
    }
}

} // verus!
