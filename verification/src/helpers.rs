//! Log-safe path and text helpers: the file name of a path, byte-capped
//! truncation, and escaping for ffmpeg's concat-demuxer list format.

use vstd::prelude::*;
use vstd::utf8::{encode_utf8, is_char_boundary};
use vstd::string::StringSliceAdditionalSpecFns;
use crate::text::{chars_of, owned, string_of};

verus! {

/// `\` or `/`: both separate path components on Windows.
pub open spec fn is_sep(c: char) -> bool {
    c == '/' || c == '\\'
}

/// The characters after the last separator of `p`.
pub open spec fn last_segment(p: Seq<char>) -> Seq<char>
    decreases p.len(),
{
    if p.len() == 0 {
        p
    } else if is_sep(p.last()) {
        Seq::empty()
    } else {
        last_segment(p.drop_last()).push(p.last())
    }
}

/// `p` without its last separator and what follows it (empty when `p`
/// has no separator).
pub open spec fn before_last_segment(p: Seq<char>) -> Seq<char>
    decreases p.len(),
{
    if p.len() == 0 {
        p
    } else if is_sep(p.last()) {
        p.drop_last()
    } else {
        before_last_segment(p.drop_last())
    }
}

/// A segment that names no file: empty or `.`.
pub open spec fn is_skippable(seg: Seq<char>) -> bool {
    seg.len() == 0 || seg == seq!['.']
}

/// A drive prefix such as `C:` at the front of `seg`.
pub open spec fn has_drive_prefix(seg: Seq<char>) -> bool {
    seg.len() >= 2 && seg[1] == ':' && (('a' <= seg[0] && seg[0] <= 'z') || ('A' <= seg[0] && seg[0] <= 'Z'))
}

/// The last component of `p` that names a file, if any: trailing separators
/// and `.` components are passed over, a `..` names none, and a drive prefix
/// such as `C:` on the first component is not part of the name.
pub open spec fn file_name(p: Seq<char>) -> Option<Seq<char>>
    decreases p.len(),
{
    let seg = last_segment(p);
    if is_skippable(seg) {
        if seg.len() >= p.len() {
            None
        } else {
            proof {
                lemma_segments(p);
            }
            file_name(before_last_segment(p))
        }
    } else if seg == seq!['.', '.'] {
        None
    } else if seg.len() == p.len() && has_drive_prefix(seg) {
        if seg.len() == 2 {
            None
        } else {
            Some(seg.skip(2))
        }
    } else {
        Some(seg)
    }
}

pub proof fn lemma_segments(p: Seq<char>)
    ensures
        before_last_segment(p).len() + last_segment(p).len() <= p.len(),
        last_segment(p).len() < p.len() ==> before_last_segment(p).len() + last_segment(p).len() + 1 == p.len(),
        last_segment(p).len() == p.len() ==> before_last_segment(p).len() == 0,
        last_segment(p) == p.skip(p.len() - last_segment(p).len()),
        last_segment(p).len() < p.len() ==> is_sep(p[p.len() - last_segment(p).len() - 1])
            && before_last_segment(p) == p.take(p.len() - last_segment(p).len() - 1),
        forall|i: int| p.len() - last_segment(p).len() <= i < p.len() ==> !is_sep(#[trigger] p[i]),
    decreases p.len(),
{
    if p.len() > 0 && !is_sep(p.last()) {
        lemma_segments(p.drop_last());
        assert forall|i: int| p.len() - last_segment(p).len() <= i < p.len() implies !is_sep(#[trigger] p[i]) by {
            if i < p.len() - 1 {
                assert(p[i] == p.drop_last()[i]);
            }
        }
        assert(last_segment(p) == p.skip(p.len() - last_segment(p).len()));
        if last_segment(p).len() < p.len() {
            assert(before_last_segment(p) =~= p.take(p.len() - last_segment(p).len() - 1));
        }
    }
}

/// Index where the last segment of `v[..end]` starts.
fn segment_start(v: &Vec<char>, end: usize) -> (k: usize)
    requires
        end <= v.len(),
    ensures
        k <= end,
        k == end - last_segment(v@.take(end as int)).len(),
{
    proof {
        lemma_segments(v@.take(end as int));
    }
    let mut k = end;
    while k > 0 && v[k - 1] != '/' && v[k - 1] != '\\'
        invariant
            k <= end <= v.len(),
            forall|i: int| k <= i < end ==> !is_sep(#[trigger] v@[i]),
            last_segment(v@.take(end as int)) == last_segment(v@.take(k as int)) + v@.subrange(k as int, end as int),
        decreases k,
    {
        assert(v@.take(k as int).drop_last() == v@.take(k - 1));
        assert(v@.subrange(k - 1, end as int) == seq![v@[k - 1]] + v@.subrange(k as int, end as int));
        k = k - 1;
    }
    if k > 0 {
        assert(last_segment(v@.take(k as int)).len() == 0);
    }
    assert(v@.subrange(k as int, end as int).len() == end - k);
    k
}

/// Strip the directory from a path so logs never carry the user's home
/// directory or other path components: the file name, or the whole input
/// when the path names no file.
pub fn basename(path: &str) -> (r: String)
    ensures
        r@ == match file_name(path@) {
            Some(n) => n,
            None => path@,
        },
{
    let v = chars_of(path);
    let mut end = v.len();
    assert(v@.take(end as int) == v@);
    loop
        invariant
            end <= v.len(),
            v@ == path@,
            file_name(v@) == file_name(v@.take(end as int)),
        decreases end,
    {
        let ghost p = v@.take(end as int);
        proof {
            lemma_segments(p);
        }
        let k = segment_start(&v, end);
        let seg_len = end - k;
        let is_dot = seg_len == 1 && v[k] == '.';
        if seg_len == 0 || is_dot {
            assert(last_segment(p) =~= v@.subrange(k as int, end as int));
            if is_dot {
                assert(v@.subrange(k as int, end as int) =~= seq!['.']);
            }
            assert(is_skippable(last_segment(p)));
            if k == 0 {
                assert(file_name(p) is None);
                return owned(path);
            }
            assert(before_last_segment(p) =~= v@.take(k - 1));
            end = k - 1;
        } else {
            assert(last_segment(p) =~= v@.subrange(k as int, end as int));
            assert(last_segment(p)[0] == v@[k as int]);
            if seg_len >= 2 {
                assert(last_segment(p)[1] == v@[k + 1]);
            }
            assert(!is_skippable(last_segment(p)));
            if seg_len == 2 && v[k] == '.' && v[k + 1] == '.' {
                assert(last_segment(p) =~= seq!['.', '.']);
                return owned(path);
            }
            let mut start = k;
            let mut stripped = false;
            if k == 0 && seg_len >= 2 && v[1] == ':' && ((v[0] >= 'a' && v[0] <= 'z') || (v[0] >= 'A' && v[0] <= 'Z')) {
                if seg_len == 2 {
                    return owned(path);
                }
                start = 2;
                stripped = true;
            }
            let mut out: Vec<char> = Vec::new();
            let mut i = start;
            while i < end
                invariant
                    start <= i <= end <= v.len(),
                    out@ == v@.subrange(start as int, i as int),
                decreases end - i,
            {
                out.push(v[i]);
                i = i + 1;
                assert(out@ =~= v@.subrange(start as int, i as int));
            }
            proof {
                if stripped {
                    assert(last_segment(p) =~= v@.subrange(0, end as int));
                    assert(last_segment(p).skip(2) =~= v@.subrange(2, end as int));
                }
            }
            return string_of(&out);
        }
    }
}

/// `s` cut to its first `max` bytes with `…` appended, or `s` itself when it
/// already fits.
pub fn trunc(s: &str, max: usize) -> (r: String)
    requires
        s.spec_bytes().len() <= usize::MAX,
        s.spec_bytes().len() <= max || is_char_boundary(s.spec_bytes(), max as int),
    ensures
        s.spec_bytes().len() <= max ==> r@ == s@,
        s.spec_bytes().len() > max ==> encode_utf8(r@) == s.spec_bytes().take(max as int) + "…".spec_bytes(),
{
    if s.len() <= max {
        owned(s)
    } else {
        let (head, _tail) = s.split_at(max);
        let mut r = owned(head);
        r.append("…");
        assert(r@ == head@ + "…"@);
        proof {
            crate::text::lemma_encode_utf8_concat(head@, "…"@);
            assert(head.spec_bytes() == encode_utf8(head@));
            assert(head.spec_bytes() =~= s.spec_bytes().take(max as int));
            assert(encode_utf8(r@) == encode_utf8(head@) + encode_utf8("…"@));
            assert("…".spec_bytes() == encode_utf8("…"@));
        }
        r
    }
}

/// What a character becomes inside a quoted concat-list path.
pub open spec fn concat_escape_char(c: char) -> Seq<char> {
    if c == '\\' {
        seq!['/']
    } else if c == '\'' {
        seq!['\'', '\\', '\'', '\'']
    } else {
        seq![c]
    }
}

pub open spec fn concat_escape(p: Seq<char>) -> Seq<char>
    decreases p.len(),
{
    if p.len() == 0 {
        Seq::empty()
    } else {
        concat_escape(p.drop_last()) + concat_escape_char(p.last())
    }
}

/// Escape a path for ffmpeg's concat-demuxer text format (`file '...'`):
/// backslashes become `/` and each `'` becomes `'\''`. A path holding a
/// newline or carriage return is refused, since it could smuggle extra
/// directives into the list.
pub fn escape_concat_path(p: &str) -> (r: Result<String, String>)
    ensures
        r is Err <==> (p@.contains('\n') || p@.contains('\r')),
        r matches Ok(e) ==> e@ == concat_escape(p@),
        r matches Err(m) ==> m@ == "path contains newline/CR characters"@,
{
    let v = chars_of(p);
    let mut out: Vec<char> = Vec::new();
    let mut i: usize = 0;
    while i < v.len()
        invariant
            i <= v.len(),
            v@ == p@,
            forall|j: int| 0 <= j < i ==> v@[j] != '\n' && v@[j] != '\r',
            out@ == concat_escape(v@.take(i as int)),
        decreases v.len() - i,
    {
        let c = v[i];
        if c == '\n' || c == '\r' {
            assert(p@[i as int] == c);
            return Err(owned("path contains newline/CR characters"));
        }
        if c == '\\' {
            out.push('/');
        } else if c == '\'' {
            out.push('\'');
            out.push('\\');
            out.push('\'');
            out.push('\'');
        } else {
            out.push(c);
        }
        assert(v@.take(i + 1).drop_last() == v@.take(i as int));
        i = i + 1;
        assert(out@ =~= concat_escape(v@.take(i as int)));
    }
    assert(v@.take(v.len() as int) == v@);
    assert(!p@.contains('\n') && !p@.contains('\r'));
    Ok(string_of(&out))
}

} // verus!
