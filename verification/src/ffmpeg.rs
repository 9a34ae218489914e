//! What the diagnostic log says about an ffmpeg run: a one-line summary of
//! its arguments that names the output file only by its base name.

use vstd::prelude::*;
use crate::helpers::{basename, file_name};
use crate::text::{dec, join, join_strings, owned, push_arg, push_dec, str_eq};

verus! {

/// Options whose value the summary shows as `key=value`.
pub open spec fn shown_option(a: Seq<char>) -> bool {
    a == "-c:v"@ || a == "-c:a"@ || a == "-b:v"@ || a == "-b:a"@ || a == "-preset"@ || a == "-crf"@ || a == "-f"@
        || a == "-pix_fmt"@
}

/// `s` without its leading dashes.
pub open spec fn without_dashes(s: Seq<char>) -> Seq<char>
    decreases s.len(),
{
    if s.len() > 0 && s[0] == '-' { without_dashes(s.drop_first()) } else { s }
}

/// The summary items of the arguments from position `i` on.
pub open spec fn summary_items(args: Seq<Seq<char>>, i: int) -> Seq<Seq<char>>
    decreases args.len() - i,
{
    if i < 0 || i + 1 >= args.len() {
        Seq::empty()
    } else if shown_option(args[i]) {
        seq![without_dashes(args[i]) + "="@ + args[i + 1]] + summary_items(args, i + 2)
    } else if args[i] == "-vn"@ {
        seq!["audio-only"@] + summary_items(args, i + 1)
    } else if args[i] == "-filter_complex"@ {
        seq!["filter_complex("@ + dec(vstd::utf8::encode_utf8(args[i + 1]).len()) + "B)"@] + summary_items(args, i + 2)
    } else {
        summary_items(args, i + 1)
    }
}

/// The summary: the output's base name (the last argument), then codec and
/// rate options, `audio-only`, and the size of any filter graph; `ffmpeg`
/// when there is nothing to say.
pub open spec fn invocation_summary(args: Seq<Seq<char>>) -> Seq<char> {
    let head = if args.len() > 0 {
        seq!["out="@ + match file_name(args.last()) { Some(n) => n, None => args.last() }]
    } else {
        Seq::empty()
    };
    let items = head + summary_items(args, 0);
    if items.len() == 0 { "ffmpeg"@ } else { join(items, " "@) }
}

fn strip_dashes(s: &str) -> (r: String)
    ensures
        r@ == without_dashes(s@),
{
    let v = crate::text::chars_of(s);
    let mut i: usize = 0;
    assert(v@.skip(0) =~= v@);
    while i < v.len() && v[i] == '-'
        invariant
            i <= v@.len(),
            without_dashes(v@) == without_dashes(v@.skip(i as int)),
        decreases v.len() - i,
    {
        assert(v@.skip(i as int).drop_first() =~= v@.skip(i + 1));
        i = i + 1;
    }
    proof {
        if i < v@.len() {
            assert(v@.skip(i as int)[0] == v@[i as int]);
        }
        assert(v@.subrange(i as int, v@.len() as int) =~= v@.skip(i as int));
    }
    crate::media::string_of_range(&v, i, v.len())
}

/// One line describing an ffmpeg invocation for the diagnostic log.
pub fn summarize_ffmpeg_invocation(args: &Vec<String>) -> (r: String)
    requires
        forall|k: int| 0 <= k < args@.len() ==> vstd::utf8::encode_utf8(#[trigger] args@[k]@).len() <= usize::MAX,
    ensures
        r@ == invocation_summary(args.deep_view()),
{
    let ghost a = args.deep_view();
    let mut parts: Vec<String> = Vec::new();
    let n = args.len();
    if n > 0 {
        let mut p = owned("out=");
        let b = basename(args[n - 1].as_str());
        p.append(b.as_str());
        push_arg(&mut parts, p);
        assert(parts.deep_view() =~= seq!["out="@ + match file_name(a.last()) { Some(x) => x, None => a.last() }]);
    } else {
        assert(parts.deep_view() =~= Seq::<Seq<char>>::empty());
    }
    let ghost head = parts.deep_view();
    let mut i: usize = 0;
    while i < n && n - i > 1
        invariant
            i <= n,
            forall|k: int| 0 <= k < args@.len() ==> vstd::utf8::encode_utf8(#[trigger] args@[k]@).len() <= usize::MAX,
            n == a.len(),
            a == args.deep_view(),
            parts.deep_view() + summary_items(a, i as int) == head + summary_items(a, 0),
        decreases n - i,
    {
        let ghost before = parts.deep_view();
        let ghost io = i as int;
        let arg = args[i].as_str();
        assert(a[io] == arg@);
        assert(a[io + 1] == args[i + 1]@);
        if str_eq(arg, "-c:v") || str_eq(arg, "-c:a") || str_eq(arg, "-b:v") || str_eq(arg, "-b:a")
            || str_eq(arg, "-preset") || str_eq(arg, "-crf") || str_eq(arg, "-f") || str_eq(arg, "-pix_fmt") {
            let mut p = strip_dashes(arg);
            p.append("=");
            p.append(args[i + 1].as_str());
            let ghost item = p@;
            push_arg(&mut parts, p);
            i = i + 2;
            assert(summary_items(a, io) == seq![item] + summary_items(a, io + 2));
            assert(parts.deep_view() + summary_items(a, i as int) =~= before + summary_items(a, io));
        } else if str_eq(arg, "-vn") {
            push_arg(&mut parts, owned("audio-only"));
            i = i + 1;
            assert(summary_items(a, io) == seq!["audio-only"@] + summary_items(a, io + 1));
            assert(parts.deep_view() + summary_items(a, i as int) =~= before + summary_items(a, io));
        } else if str_eq(arg, "-filter_complex") {
            let mut p = owned("filter_complex(");
            assert(vstd::utf8::encode_utf8(args@[i + 1]@).len() <= usize::MAX);
            let len = args[i + 1].as_str().len();
            push_dec(&mut p, len as u64);
            p.append("B)");
            let ghost item = p@;
            push_arg(&mut parts, p);
            i = i + 2;
            assert(summary_items(a, io) == seq![item] + summary_items(a, io + 2));
            assert(parts.deep_view() + summary_items(a, i as int) =~= before + summary_items(a, io));
        } else {
            i = i + 1;
            assert(summary_items(a, io) == summary_items(a, io + 1));
        }
    }
    assert(summary_items(a, i as int) == Seq::<Seq<char>>::empty());
    assert(parts.deep_view() =~= head + summary_items(a, 0));
    assert(parts@.len() == parts.deep_view().len());
    if parts.len() == 0 {
        return owned("ffmpeg");
    }
    join_strings(&parts, " ")
}

} // verus!
