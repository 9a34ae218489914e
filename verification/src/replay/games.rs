//! The game allowlist: which executables replay captures.
//!
//! Entries are compared by a key: the path with `.` and `..` folded away
//! under Windows path rules, lowercased, with every separator written as a
//! backslash. Two spellings of one executable therefore give one entry.
//! Resolving a path against the disk (symlinks, existence) is the caller's
//! part: it hands in the canonical path when it has one.

use vstd::prelude::*;
use crate::helpers::is_sep;
use crate::text::{chars_of, owned, push_arg, spec_to_lowercase, str_eq, to_lowercase, string_of};
use crate::media::is_space;

verus! {

// ---------- path keys ----------

/// The pieces of `s` between separators, in order (`a\b/c` gives `a`, `b`, `c`;
/// an empty piece stands where two separators meet or at either end).
pub open spec fn split_segments(s: Seq<char>) -> Seq<Seq<char>>
    decreases s.len(),
{
    if s.len() == 0 {
        seq![Seq::<char>::empty()]
    } else {
        let prev = split_segments(s.drop_last());
        if is_sep(s.last()) {
            prev.push(Seq::<char>::empty())
        } else {
            prev.update(prev.len() - 1, prev.last().push(s.last()))
        }
    }
}

pub open spec fn dot() -> Seq<char> {
    seq!['.']
}

pub open spec fn dot_dot() -> Seq<char> {
    seq!['.', '.']
}

/// One segment applied to the folded list: empty pieces and `.` vanish, `..`
/// removes the last real directory (or stays when there is none to remove).
pub open spec fn fold_segment(out: Seq<Seq<char>>, seg: Seq<char>) -> Seq<Seq<char>> {
    if seg.len() == 0 || seg == dot() {
        out
    } else if seg == dot_dot() {
        if out.len() > 0 && out.last() != dot_dot() {
            out.drop_last()
        } else {
            out.push(dot_dot())
        }
    } else {
        out.push(seg)
    }
}

/// The segments that survive folding, left to right.
pub open spec fn fold_segments(segs: Seq<Seq<char>>) -> Seq<Seq<char>>
    decreases segs.len(),
{
    if segs.len() == 0 {
        Seq::empty()
    } else {
        fold_segment(fold_segments(segs.drop_last()), segs.last())
    }
}

/// Length of the drive prefix (`C:`) at the start of `s`, or zero.
pub open spec fn drive_prefix_len(s: Seq<char>) -> int {
    if s.len() >= 2 && s[1] == ':' && (('a' <= s[0] && s[0] <= 'z') || ('A' <= s[0] && s[0] <= 'Z')) {
        2
    } else {
        0
    }
}

/// `parts` joined with one backslash between neighbours.
pub open spec fn join_backslash(parts: Seq<Seq<char>>) -> Seq<char>
    decreases parts.len(),
{
    if parts.len() == 0 {
        Seq::empty()
    } else if parts.len() == 1 {
        parts[0]
    } else {
        join_backslash(parts.drop_last()) + seq!['\\'] + parts.last()
    }
}

/// `path` with `.` and `..` folded: the drive prefix, a backslash where the
/// path is rooted, then the surviving segments joined by backslashes.
pub open spec fn collapsed(path: Seq<char>) -> Seq<char> {
    let p = drive_prefix_len(path);
    let rest = path.skip(p);
    let rooted = rest.len() > 0 && is_sep(rest[0]);
    path.take(p) + (if rooted { seq!['\\'] } else { Seq::empty() }) + join_backslash(
        fold_segments(split_segments(rest)),
    )
}

/// Every `/` of `s` written as `\`.
pub open spec fn backslashed(s: Seq<char>) -> Seq<char> {
    s.map_values(|c: char| if c == '/' { '\\' } else { c })
}

/// The allowlist key of a path.
pub open spec fn path_key(path: Seq<char>) -> Seq<char> {
    backslashed(spec_to_lowercase(collapsed(path)))
}

/// The allowlist key of `path` when the caller resolved it on disk to
/// `canonical`: the canonical form (verbatim prefix stripped) when there is
/// one, else `path` with `.`/`..` folded; then lowercased and backslashed.
pub open spec fn resolved_key(path: Seq<char>, canonical: Option<Seq<char>>) -> Seq<char> {
    match canonical {
        Some(c) => backslashed(spec_to_lowercase(collapsed(unc_stripped(c)))),
        None => path_key(path),
    }
}

/// The verbatim prefix that `fs::canonicalize` puts before a Windows path.
pub open spec fn verbatim_prefix() -> Seq<char> {
    seq!['\\', '\\', '?', '\\']
}

pub open spec fn unc_stripped(p: Seq<char>) -> Seq<char> {
    if p.len() >= 4 && p.take(4) == verbatim_prefix() {
        p.skip(4)
    } else {
        p
    }
}

proof fn lemma_split_nonempty(s: Seq<char>)
    ensures
        split_segments(s).len() >= 1,
    decreases s.len(),
{
    if s.len() > 0 {
        lemma_split_nonempty(s.drop_last());
    }
}

proof fn lemma_chars_deep_view(v: Vec<char>)
    ensures
        v.deep_view() == v@,
{
    assert(v.deep_view() =~= v@);
}

fn is_dot(v: &Vec<char>) -> (b: bool)
    ensures
        b == (v@ == dot()),
{
    let b = v.len() == 1 && v[0] == '.';
    if b {
        assert(v@ =~= dot());
    }
    b
}

fn is_dot_dot(v: &Vec<char>) -> (b: bool)
    ensures
        b == (v@ == dot_dot()),
{
    let b = v.len() == 2 && v[0] == '.' && v[1] == '.';
    if b {
        assert(v@ =~= dot_dot());
    }
    b
}

fn fold_into(out: &mut Vec<Vec<char>>, seg: Vec<char>)
    ensures
        final(out).deep_view() == fold_segment(old(out).deep_view(), seg@),
{
    let ghost before = out.deep_view();
    if seg.len() == 0 || is_dot(&seg) {
        return;
    }
    if is_dot_dot(&seg) {
        let n = out.len();
        proof { if n > 0 { lemma_chars_deep_view(out@[n - 1]); } }
        if n > 0 && !is_dot_dot(&out[n - 1]) {
            out.pop();
            assert(out.deep_view() =~= before.drop_last());
        } else {
            proof { lemma_chars_deep_view(seg); }
            out.push(seg);
            assert(out.deep_view() =~= before.push(dot_dot()));
        }
    } else {
        let ghost sv = seg@;
        proof { lemma_chars_deep_view(seg); }
        out.push(seg);
        assert(out.deep_view() =~= before.push(sv));
    }
}

fn push_chars(out: &mut String, v: &Vec<char>)
    ensures
        final(out)@ == old(out)@ + v@,
{
    let mut i: usize = 0;
    while i < v.len()
        invariant
            i <= v.len(),
            out@ == old(out)@ + v@.take(i as int),
        decreases v.len() - i,
    {
        out.push(v[i]);
        i = i + 1;
        assert(v@.take(i as int) =~= v@.take((i - 1) as int).push(v@[i - 1]));
    }
    assert(v@.take(v.len() as int) =~= v@);
}

/// Folds `.` and `..` out of `path` under Windows path rules.
pub fn collapse_dots(path: &str) -> (r: String)
    ensures
        r@ == collapsed(path@),
{
    let v = chars_of(path);
    let n = v.len();
    let p: usize = if n >= 2 && v[1] == ':' && (('a' <= v[0] && v[0] <= 'z') || ('A' <= v[0] && v[0] <= 'Z')) {
        2
    } else {
        0
    };
    assert(p == drive_prefix_len(v@));
    let ghost rest = v@.skip(p as int);
    let mut out: Vec<Vec<char>> = Vec::new();
    let mut cur: Vec<char> = Vec::new();
    let mut i: usize = p;
    proof {
        assert(v@.subrange(p as int, p as int) =~= Seq::<char>::empty());
        assert(split_segments(Seq::<char>::empty()).drop_last() =~= Seq::<Seq<char>>::empty());
    }
    while i < n
        invariant
            p <= i <= n,
            n == v@.len(),
            out.deep_view() == fold_segments(split_segments(v@.subrange(p as int, i as int)).drop_last()),
            cur@ == split_segments(v@.subrange(p as int, i as int)).last(),
        decreases n - i,
    {
        let c = v[i];
        let ghost before = v@.subrange(p as int, i as int);
        let ghost after = v@.subrange(p as int, (i + 1) as int);
        proof {
            assert(after.drop_last() =~= before);
            assert(after.last() == c);
            lemma_split_nonempty(before);
        }
        if c == '/' || c == '\\' {
            let ghost segs = split_segments(before);
            let seg = cur;
            cur = Vec::new();
            fold_into(&mut out, seg);
            proof {
                assert(segs.drop_last().push(segs.last()) =~= segs);
                assert(segs.drop_last().push(segs.last()).drop_last() =~= segs.drop_last());
                assert(split_segments(after).drop_last() =~= segs);
                assert(cur@ =~= split_segments(after).last());
            }
        } else {
            let ghost segs = split_segments(before);
            cur.push(c);
            proof {
                assert(split_segments(after).drop_last() =~= segs.drop_last());
            }
        }
        i = i + 1;
    }
    let ghost all = split_segments(v@.subrange(p as int, n as int));
    proof {
        lemma_split_nonempty(v@.subrange(p as int, n as int));
        assert(v@.subrange(p as int, n as int) =~= rest);
        assert(all.drop_last().push(all.last()) =~= all);
        assert(all.drop_last().push(all.last()).drop_last() =~= all.drop_last());
    }
    fold_into(&mut out, cur);
    assert(out.deep_view() == fold_segments(split_segments(rest)));
    let mut r = String::new();
    let mut k: usize = 0;
    while k < p
        invariant
            k <= p <= n,
            n == v@.len(),
            r@ == v@.take(k as int),
        decreases p - k,
    {
        r.push(v[k]);
        k = k + 1;
        assert(v@.take(k as int) =~= v@.take((k - 1) as int).push(v@[k - 1]));
    }
    let rooted = p < n && (v[p] == '/' || v[p] == '\\');
    if rooted {
        r.push('\\');
    }
    let ghost head = r@;
    assert(head == v@.take(p as int) + (if rooted { seq!['\\'] } else { Seq::<char>::empty() }));
    let mut j: usize = 0;
    while j < out.len()
        invariant
            j <= out.len(),
            r@ == head + join_backslash(out.deep_view().take(j as int)),
        decreases out.len() - j,
    {
        let ghost prev = out.deep_view().take(j as int);
        if j > 0 {
            r.push('\\');
        }
        push_chars(&mut r, &out[j]);
        j = j + 1;
        proof {
            let now = out.deep_view().take(j as int);
            assert(now.drop_last() =~= prev);
            lemma_chars_deep_view(out@[j - 1]);
            assert(now.last() == out[j - 1]@);
            if j == 1 {
                assert(join_backslash(now) == now[0]);
                assert(prev.len() == 0);
            } else {
                assert(join_backslash(now) == join_backslash(prev) + seq!['\\'] + now.last());
            }
        }
    }
    assert(out.deep_view().take(out.len() as int) =~= out.deep_view());
    r
}

/// `p` without the `\\?\` verbatim prefix, when it has one.
pub fn strip_unc_prefix(p: &str) -> (r: String)
    ensures
        r@ == unc_stripped(p@),
{
    let v = chars_of(p);
    if v.len() >= 4 && v[0] == '\\' && v[1] == '\\' && v[2] == '?' && v[3] == '\\' {
        assert(v@.take(4) =~= verbatim_prefix());
        let mut r = String::new();
        let mut i: usize = 4;
        while i < v.len()
            invariant
                4 <= i <= v@.len(),
                r@ == v@.subrange(4, i as int),
            decreases v.len() - i,
        {
            r.push(v[i]);
            i = i + 1;
            assert(v@.subrange(4, i as int) =~= v@.subrange(4, (i - 1) as int).push(v@[i - 1]));
        }
        r
    } else {
        proof {
            if v@.len() >= 4 && v@.take(4) == verbatim_prefix() {
                assert(v@[0] == v@.take(4)[0]);
                assert(v@[1] == v@.take(4)[1]);
                assert(v@[2] == v@.take(4)[2]);
                assert(v@[3] == v@.take(4)[3]);
            }
        }
        string_of(&v)
    }
}

fn backslash_all(s: &str) -> (r: String)
    ensures
        r@ == backslashed(s@),
{
    let v = chars_of(s);
    let mut r = String::new();
    let mut i: usize = 0;
    while i < v.len()
        invariant
            i <= v@.len(),
            r@ == backslashed(v@.take(i as int)),
        decreases v.len() - i,
    {
        let c = v[i];
        if c == '/' {
            r.push('\\');
        } else {
            r.push(c);
        }
        i = i + 1;
        assert(backslashed(v@.take(i as int)) =~= backslashed(v@.take((i - 1) as int)).push(
            if c == '/' { '\\' } else { c },
        ));
    }
    assert(v@.take(v@.len() as int) =~= v@);
    r
}

/// The allowlist key of `path`: `.`/`..` folded, lowercased, backslashed.
pub fn normalize(path: &str) -> (r: String)
    ensures
        r@ == path_key(path@),
{
    let c = collapse_dots(path);
    let l = to_lowercase(c.as_str());
    backslash_all(l.as_str())
}

/// The key of `path` where the caller resolved it on disk: the canonical
/// form (verbatim prefix stripped) when there is one, else the path as given.
pub fn canonicalize_or_collapse(path: &str, canonical: Option<&str>) -> (r: String)
    ensures
        r@ == match canonical {
            Some(c) => collapsed(unc_stripped(c@)),
            None => collapsed(path@),
        },
{
    match canonical {
        Some(c) => {
            let s = strip_unc_prefix(c);
            collapse_dots(s.as_str())
        },
        None => collapse_dots(path),
    }
}

/// The allowlist key of `path`, given what resolving it on disk gave
/// (`None` when the file does not exist or could not be resolved).
pub fn normalize_resolved(path: &str, canonical: Option<&str>) -> (r: String)
    ensures
        r@ == resolved_key(path@, match canonical { Some(c) => Some(c@), None => None }),
{
    let c = canonicalize_or_collapse(path, canonical);
    let l = to_lowercase(c.as_str());
    backslash_all(l.as_str())
}

// ---------- ordering of keys ----------

/// Lexicographic order of character sequences, by code point: the order of
/// `String`'s `<`.
pub open spec fn lex_lt(a: Seq<char>, b: Seq<char>) -> bool
    decreases a.len(),
{
    if a.len() == 0 {
        b.len() > 0
    } else if b.len() == 0 {
        false
    } else if a[0] != b[0] {
        a[0] < b[0]
    } else {
        lex_lt(a.drop_first(), b.drop_first())
    }
}

/// Strictly ascending under `lex_lt` (hence free of repeats).
pub open spec fn strictly_sorted(s: Seq<Seq<char>>) -> bool {
    forall|i: int, j: int| 0 <= i < j < s.len() ==> lex_lt(#[trigger] s[i], #[trigger] s[j])
}

pub proof fn lemma_lex_irreflexive(a: Seq<char>)
    ensures
        !lex_lt(a, a),
    decreases a.len(),
{
    if a.len() > 0 {
        lemma_lex_irreflexive(a.drop_first());
    }
}

pub proof fn lemma_lex_transitive(a: Seq<char>, b: Seq<char>, c: Seq<char>)
    requires
        lex_lt(a, b),
        lex_lt(b, c),
    ensures
        lex_lt(a, c),
    decreases a.len(),
{
    if a.len() > 0 && b.len() > 0 && c.len() > 0 && a[0] == b[0] && b[0] == c[0] {
        lemma_lex_transitive(a.drop_first(), b.drop_first(), c.drop_first());
    }
}

pub proof fn lemma_lex_total(a: Seq<char>, b: Seq<char>)
    ensures
        a == b || lex_lt(a, b) || lex_lt(b, a),
    decreases a.len(),
{
    if a.len() > 0 && b.len() > 0 {
        if a[0] == b[0] {
            lemma_lex_total(a.drop_first(), b.drop_first());
            if a.drop_first() == b.drop_first() {
                assert(a =~= seq![a[0]] + a.drop_first());
                assert(b =~= seq![b[0]] + b.drop_first());
            }
        }
    } else if a.len() == 0 && b.len() == 0 {
        assert(a =~= b);
    }
}

proof fn lemma_lex_skip(a: Seq<char>, b: Seq<char>, i: int)
    requires
        0 <= i <= a.len(),
        i <= b.len(),
        a.take(i) == b.take(i),
    ensures
        lex_lt(a, b) == lex_lt(a.skip(i), b.skip(i)),
    decreases i,
{
    if i > 0 {
        assert(a[0] == a.take(i)[0]);
        assert(b[0] == b.take(i)[0]);
        assert(a.drop_first().take(i - 1) =~= a.take(i).drop_first());
        assert(b.drop_first().take(i - 1) =~= b.take(i).drop_first());
        lemma_lex_skip(a.drop_first(), b.drop_first(), i - 1);
        assert(a.drop_first().skip(i - 1) =~= a.skip(i));
        assert(b.drop_first().skip(i - 1) =~= b.skip(i));
    } else {
        assert(a.skip(0) =~= a);
        assert(b.skip(0) =~= b);
    }
}

/// Whether `a` sorts before `b`.
pub fn str_lt(a: &str, b: &str) -> (r: bool)
    ensures
        r == lex_lt(a@, b@),
{
    let x = chars_of(a);
    let y = chars_of(b);
    let mut i: usize = 0;
    while i < x.len() && i < y.len() && x[i] == y[i]
        invariant
            i <= x@.len(),
            i <= y@.len(),
            x@.take(i as int) == y@.take(i as int),
        decreases x.len() - i,
    {
        i = i + 1;
        assert(x@.take(i as int) =~= x@.take((i - 1) as int).push(x@[i - 1]));
        assert(y@.take(i as int) =~= y@.take((i - 1) as int).push(y@[i - 1]));
    }
    proof {
        lemma_lex_skip(x@, y@, i as int);
    }
    if i == x.len() {
        i < y.len()
    } else if i == y.len() {
        false
    } else {
        assert(x@.skip(i as int)[0] == x@[i as int]);
        assert(y@.skip(i as int)[0] == y@[i as int]);
        x[i] < y[i]
    }
}

// ---------- the allowlist ----------

/// Executables whose windows replay captures, held by key.
pub struct GameAllowlist {
    paths: Vec<String>,
}

impl View for GameAllowlist {
    type V = Set<Seq<char>>;

    closed spec fn view(&self) -> Set<Seq<char>> {
        self.paths.deep_view().to_set()
    }
}

proof fn lemma_push_to_set(s: Seq<Seq<char>>, x: Seq<char>)
    ensures
        s.push(x).to_set() == s.to_set().insert(x),
{
    assert forall|y: Seq<char>| s.push(x).to_set().contains(y) == s.to_set().insert(x).contains(y) by {
        if s.push(x).contains(y) {
            let j = choose|j: int| 0 <= j < s.push(x).len() && s.push(x)[j] == y;
            if j < s.len() {
                assert(s[j] == y);
            }
        }
        if s.contains(y) {
            let j = choose|j: int| 0 <= j < s.len() && s[j] == y;
            assert(s.push(x)[j] == y);
        }
        if y == x {
            assert(s.push(x)[s.len() as int] == y);
        }
    }
    assert(s.push(x).to_set() =~= s.to_set().insert(x));
}

/// `k` with `x` placed at `i` stays strictly sorted when everything before
/// `i` sorts before `x` and everything from `i` on sorts after it.
proof fn lemma_sorted_insert(k: Seq<Seq<char>>, i: int, x: Seq<char>)
    requires
        0 <= i <= k.len(),
        strictly_sorted(k),
        forall|j: int| 0 <= j < i ==> lex_lt(#[trigger] k[j], x),
        forall|j: int| i <= j < k.len() ==> lex_lt(x, #[trigger] k[j]),
    ensures
        strictly_sorted(k.insert(i, x)),
        k.insert(i, x).to_set() == k.to_set().insert(x),
{
    let k2 = k.insert(i, x);
    assert forall|a: int, b: int| 0 <= a < b < k2.len() implies lex_lt(#[trigger] k2[a], #[trigger] k2[b]) by {
        if b < i {
            assert(k2[a] == k[a] && k2[b] == k[b]);
        } else if b == i {
            assert(k2[a] == k[a]);
        } else if a < i {
            assert(k2[a] == k[a] && k2[b] == k[b - 1]);
            lemma_lex_transitive(k[a], x, k[b - 1]);
        } else if a == i {
            assert(k2[b] == k[b - 1]);
        } else {
            assert(k2[a] == k[a - 1] && k2[b] == k[b - 1]);
        }
    }
    assert forall|y: Seq<char>| k2.to_set().contains(y) == k.to_set().insert(x).contains(y) by {
        if k2.contains(y) {
            let j = choose|j: int| 0 <= j < k2.len() && k2[j] == y;
            if j < i {
                assert(k[j] == y);
            } else if j > i {
                assert(k[j - 1] == y);
            }
        }
        if k.contains(y) {
            let j = choose|j: int| 0 <= j < k.len() && k[j] == y;
            if j < i {
                assert(k2[j] == y);
            } else {
                assert(k2[j + 1] == y);
            }
        }
        if y == x {
            assert(k2[i] == y);
        }
    }
    assert(k2.to_set() =~= k.to_set().insert(x));
}

proof fn lemma_sorted_remove(k: Seq<Seq<char>>, i: int)
    requires
        0 <= i < k.len(),
        strictly_sorted(k),
    ensures
        strictly_sorted(k.remove(i)),
        k.remove(i).to_set() == k.to_set().remove(k[i]),
{
    let k2 = k.remove(i);
    assert forall|a: int, b: int| 0 <= a < b < k2.len() implies lex_lt(#[trigger] k2[a], #[trigger] k2[b]) by {
        let a2 = if a < i { a } else { a + 1 };
        let b2 = if b < i { b } else { b + 1 };
        assert(k2[a] == k[a2] && k2[b] == k[b2]);
    }
    assert forall|y: Seq<char>| k2.to_set().contains(y) == k.to_set().remove(k[i]).contains(y) by {
        if k2.contains(y) {
            let j = choose|j: int| 0 <= j < k2.len() && k2[j] == y;
            let j2 = if j < i { j } else { j + 1 };
            assert(k[j2] == y);
            if j < i {
                assert(lex_lt(k[j], k[i]));
            } else {
                assert(lex_lt(k[i], k[j + 1]));
            }
            lemma_lex_irreflexive(y);
        }
        if k.contains(y) && y != k[i] {
            let j = choose|j: int| 0 <= j < k.len() && k[j] == y;
            if j < i {
                assert(k2[j] == y);
            } else {
                assert(k2[j - 1] == y);
            }
        }
    }
    assert(k2.to_set() =~= k.to_set().remove(k[i]));
}

impl GameAllowlist {
    /// The keys are held in strictly ascending order.
    pub closed spec fn wf(&self) -> bool {
        strictly_sorted(self.paths.deep_view())
    }

    proof fn lemma_view_facts(&self)
        requires
            self.wf(),
        ensures
            self.paths.deep_view().no_duplicates(),
            self@.finite(),
            self@.len() == self.paths@.len(),
    {
        let k = self.paths.deep_view();
        assert forall|i: int, j: int| 0 <= i < k.len() && 0 <= j < k.len() && i != j implies k[i] != k[j] by {
            if i < j {
                assert(lex_lt(k[i], k[j]));
                lemma_lex_irreflexive(k[i]);
            } else {
                assert(lex_lt(k[j], k[i]));
                lemma_lex_irreflexive(k[j]);
            }
        }
        k.unique_seq_to_set();
        vstd::seq_lib::seq_to_set_is_finite(k);
    }

    /// Position of the first key not before `key`, and whether it is `key`.
    fn locate(&self, key: &str) -> (r: (usize, bool))
        requires
            self.wf(),
        ensures
            r.0 <= self.paths@.len(),
            forall|j: int| 0 <= j < r.0 ==> lex_lt(#[trigger] self.paths.deep_view()[j], key@),
            !r.1 ==> forall|j: int| r.0 <= j < self.paths@.len() ==> lex_lt(key@, #[trigger] self.paths.deep_view()[j]),
            r.1 ==> r.0 < self.paths@.len() && self.paths.deep_view()[r.0 as int] == key@,
            r.1 == self@.contains(key@),
    {
        let ghost k = self.paths.deep_view();
        let mut i: usize = 0;
        while i < self.paths.len() && str_lt(self.paths[i].as_str(), key)
            invariant
                i <= self.paths@.len(),
                k == self.paths.deep_view(),
                forall|j: int| 0 <= j < i ==> lex_lt(#[trigger] k[j], key@),
            decreases self.paths.len() - i,
        {
            i = i + 1;
        }
        let found = i < self.paths.len() && !str_lt(key, self.paths[i].as_str());
        proof {
            if i < k.len() {
                lemma_lex_total(k[i as int], key@);
                if !found {
                    assert forall|j: int| i <= j < k.len() implies lex_lt(key@, #[trigger] k[j]) by {
                        if j > i {
                            lemma_lex_transitive(key@, k[i as int], k[j]);
                        }
                    }
                }
            }
            if found {
                assert(k[i as int] == key@);
                assert(k.contains(k[i as int]));
            }
            if k.contains(key@) {
                let j = choose|j: int| 0 <= j < k.len() && k[j] == key@;
                lemma_lex_irreflexive(key@);
                if j > i && !found {
                    assert(lex_lt(key@, k[j]));
                }
            }
        }
        (i, found)
    }

    fn insert_key(&mut self, key: String)
        requires
            old(self).wf(),
        ensures
            final(self).wf(),
            final(self)@ == old(self)@.insert(key@),
    {
        let (i, found) = self.locate(key.as_str());
        if found {
            assert(old(self)@.insert(key@) =~= old(self)@);
            return;
        }
        let ghost k = self.paths.deep_view();
        let ghost kv = key@;
        proof {
            lemma_sorted_insert(k, i as int, kv);
        }
        self.paths.insert(i, key);
        assert(self.paths.deep_view() =~= k.insert(i as int, kv));
    }

    fn remove_key(&mut self, key: &str) -> (r: bool)
        requires
            old(self).wf(),
        ensures
            final(self).wf(),
            r == old(self)@.contains(key@),
            final(self)@ == old(self)@.remove(key@),
    {
        let (i, found) = self.locate(key);
        if !found {
            assert(old(self)@.remove(key@) =~= old(self)@);
            return false;
        }
        let ghost k = self.paths.deep_view();
        proof {
            lemma_sorted_remove(k, i as int);
        }
        self.paths.remove(i);
        assert(self.paths.deep_view() =~= k.remove(i as int));
        true
    }

    /// An empty allowlist.
    pub fn new() -> (g: GameAllowlist)
        ensures
            g.wf(),
            g@ == Set::<Seq<char>>::empty(),
            g@.finite(),
    {
        let g = GameAllowlist { paths: Vec::new() };
        assert(g.paths.deep_view().to_set() =~= Set::<Seq<char>>::empty());
        g
    }

    /// Adds the key of `exe`.
    pub fn add(&mut self, exe: &str)
        requires
            old(self).wf(),
        ensures
            final(self).wf(),
            final(self)@ == old(self)@.insert(path_key(exe@)),
            final(self)@.finite(),
            final(self)@.len() == old(self)@.len() + (if old(self)@.contains(path_key(exe@)) { 0int } else { 1int }),
    {
        proof {
            self.lemma_view_facts();
        }
        let key = normalize(exe);
        self.insert_key(key);
        proof {
            self.lemma_view_facts();
        }
    }

    /// Removes the key of `exe`; whether it was there.
    pub fn remove(&mut self, exe: &str) -> (r: bool)
        requires
            old(self).wf(),
        ensures
            final(self).wf(),
            r == old(self)@.contains(path_key(exe@)),
            final(self)@ == old(self)@.remove(path_key(exe@)),
            final(self)@.finite(),
            final(self)@.len() == old(self)@.len() - (if r { 1int } else { 0int }),
    {
        proof {
            self.lemma_view_facts();
        }
        let key = normalize(exe);
        let r = self.remove_key(key.as_str());
        proof {
            self.lemma_view_facts();
        }
        r
    }

    /// Whether the key of `exe` is listed.
    pub fn contains(&self, exe: &str) -> (r: bool)
        requires
            self.wf(),
        ensures
            r == self@.contains(path_key(exe@)),
    {
        let key = normalize(exe);
        self.locate(key.as_str()).1
    }

    /// Adds the key of `exe` as resolved on disk to `canonical`.
    pub fn add_resolved(&mut self, exe: &str, canonical: Option<&str>)
        requires
            old(self).wf(),
        ensures
            final(self).wf(),
            final(self)@ == old(self)@.insert(resolved_key(exe@, match canonical { Some(c) => Some(c@), None => None })),
            final(self)@.finite(),
            final(self)@.len() == old(self)@.len() + (if old(self)@.contains(
                resolved_key(exe@, match canonical { Some(c) => Some(c@), None => None })) { 0int } else { 1int }),
    {
        proof {
            self.lemma_view_facts();
        }
        let key = normalize_resolved(exe, canonical);
        self.insert_key(key);
        proof {
            self.lemma_view_facts();
        }
    }

    /// Removes the key of `exe` as resolved on disk to `canonical`; whether
    /// it was there.
    pub fn remove_resolved(&mut self, exe: &str, canonical: Option<&str>) -> (r: bool)
        requires
            old(self).wf(),
        ensures
            final(self).wf(),
            r == old(self)@.contains(resolved_key(exe@, match canonical { Some(c) => Some(c@), None => None })),
            final(self)@ == old(self)@.remove(resolved_key(exe@, match canonical { Some(c) => Some(c@), None => None })),
            final(self)@.finite(),
            final(self)@.len() == old(self)@.len() - (if r { 1int } else { 0int }),
    {
        proof {
            self.lemma_view_facts();
        }
        let key = normalize_resolved(exe, canonical);
        let r = self.remove_key(key.as_str());
        proof {
            self.lemma_view_facts();
        }
        r
    }

    /// Whether the key of `exe`, as resolved on disk to `canonical`, is listed.
    pub fn contains_resolved(&self, exe: &str, canonical: Option<&str>) -> (r: bool)
        requires
            self.wf(),
        ensures
            r == self@.contains(resolved_key(exe@, match canonical { Some(c) => Some(c@), None => None })),
    {
        let key = normalize_resolved(exe, canonical);
        self.locate(key.as_str()).1
    }

    /// Every key, in ascending order.
    pub fn entries(&self) -> (v: Vec<String>)
        requires
            self.wf(),
        ensures
            strictly_sorted(v.deep_view()),
            v.deep_view().to_set() == self@,
            v@.len() == self@.len(),
    {
        proof {
            self.lemma_view_facts();
        }
        let mut v: Vec<String> = Vec::new();
        let mut i: usize = 0;
        while i < self.paths.len()
            invariant
                i <= self.paths@.len(),
                v.deep_view() == self.paths.deep_view().take(i as int),
            decreases self.paths.len() - i,
        {
            let ghost before = v.deep_view();
            let s = owned(self.paths[i].as_str());
            assert(s@ == self.paths.deep_view()[i as int]);
            v.push(s);
            i = i + 1;
            assert(v.deep_view() =~= before.push(self.paths.deep_view()[i - 1]));
            assert(v.deep_view() =~= self.paths.deep_view().take(i as int));
        }
        assert(self.paths.deep_view().take(self.paths@.len() as int) =~= self.paths.deep_view());
        v
    }

    /// Adds the key of each path.
    pub fn extend(&mut self, paths: Vec<String>)
        requires
            old(self).wf(),
        ensures
            final(self).wf(),
            final(self)@ == old(self)@.union(paths.deep_view().map_values(|p: Seq<char>| path_key(p)).to_set()),
            final(self)@.finite(),
    {
        let ghost ks = paths.deep_view().map_values(|p: Seq<char>| path_key(p));
        let mut i: usize = 0;
        while i < paths.len()
            invariant
                i <= paths@.len(),
                self.wf(),
                ks == paths.deep_view().map_values(|p: Seq<char>| path_key(p)),
                self@ == old(self)@.union(ks.take(i as int).to_set()),
            decreases paths.len() - i,
        {
            self.add(paths[i].as_str());
            i = i + 1;
            assert(ks.take(i as int) =~= ks.take((i - 1) as int).push(ks[i - 1]));
            proof { lemma_push_to_set(ks.take((i - 1) as int), ks[i - 1]); }
            assert(self@ =~= old(self)@.union(ks.take(i as int).to_set()));
        }
        assert(ks.take(paths@.len() as int) =~= ks);
        proof {
            self.lemma_view_facts();
        }
    }

    /// Number of keys.
    pub fn len(&self) -> (n: usize)
        requires
            self.wf(),
        ensures
            n == self@.len(),
    {
        proof {
            self.lemma_view_facts();
        }
        self.paths.len()
    }

    /// Whether no key is listed.
    pub fn is_empty(&self) -> (b: bool)
        requires
            self.wf(),
        ensures
            b == (self@.len() == 0),
    {
        proof {
            self.lemma_view_facts();
        }
        self.paths.len() == 0
    }
}

// ---------- recently added games ----------

/// How many recently added games the settings list keeps.
pub const RECENT_ADDS_LIMIT: usize = 5;

/// `entries` without those equal to `path` ignoring case.
pub open spec fn without_path(entries: Seq<Seq<char>>, path: Seq<char>) -> Seq<Seq<char>>
    decreases entries.len(),
{
    if entries.len() == 0 {
        Seq::empty()
    } else {
        let prev = without_path(entries.drop_last(), path);
        if spec_to_lowercase(entries.last()) == spec_to_lowercase(path) { prev } else { prev.push(entries.last()) }
    }
}

/// The recents list after adding `path`: it goes first, any earlier entry for
/// the same path (ignoring case) leaves, and the list keeps five.
pub open spec fn recents_after_add(entries: Seq<Seq<char>>, path: Seq<char>) -> Seq<Seq<char>> {
    let l = seq![path] + without_path(entries, path);
    if l.len() > RECENT_ADDS_LIMIT { l.take(RECENT_ADDS_LIMIT as int) } else { l }
}

fn filter_out_path(entries: &Vec<String>, path: &str) -> (r: Vec<String>)
    ensures
        r.deep_view() == without_path(entries.deep_view(), path@),
{
    let lower = to_lowercase(path);
    let mut r: Vec<String> = Vec::new();
    let mut i: usize = 0;
    while i < entries.len()
        invariant
            i <= entries@.len(),
            lower@ == spec_to_lowercase(path@),
            r.deep_view() == without_path(entries.deep_view().take(i as int), path@),
        decreases entries.len() - i,
    {
        let ghost before = entries.deep_view().take(i as int);
        let e = to_lowercase(entries[i].as_str());
        if !str_eq(e.as_str(), lower.as_str()) {
            push_arg(&mut r, owned(entries[i].as_str()));
        }
        i = i + 1;
        assert(entries.deep_view().take(i as int).drop_last() =~= before);
    }
    assert(entries.deep_view().take(entries@.len() as int) =~= entries.deep_view());
    r
}

/// The recents list after the user added `path`.
pub fn track_recent_add(entries: &Vec<String>, path: &str) -> (r: Vec<String>)
    ensures
        r.deep_view() == recents_after_add(entries.deep_view(), path@),
{
    let rest = filter_out_path(entries, path);
    let mut r: Vec<String> = Vec::new();
    push_arg(&mut r, owned(path));
    assert(r.deep_view().len() == 1);
    assert(r@.len() == r.deep_view().len());
    let mut i: usize = 0;
    while i < rest.len() && r.len() < RECENT_ADDS_LIMIT
        invariant
            i <= rest@.len(),
            r@.len() == i + 1,
            r@.len() <= RECENT_ADDS_LIMIT,
            r.deep_view() == seq![path@] + rest.deep_view().take(i as int),
        decreases rest.len() - i,
    {
        push_arg(&mut r, owned(rest[i].as_str()));
        i = i + 1;
        assert(r.deep_view() =~= seq![path@] + rest.deep_view().take(i as int));
        assert(r@.len() == r.deep_view().len());
    }
    proof {
        let l = seq![path@] + rest.deep_view();
        if l.len() > RECENT_ADDS_LIMIT {
            assert(l.take(RECENT_ADDS_LIMIT as int) =~= seq![path@] + rest.deep_view().take(i as int));
        } else {
            assert(rest.deep_view().take(i as int) =~= rest.deep_view());
        }
    }
    r
}

/// The recents list after the user removed `path`, and whether it changed.
pub fn untrack_recent_add(entries: &Vec<String>, path: &str) -> (r: (Vec<String>, bool))
    ensures
        r.0.deep_view() == without_path(entries.deep_view(), path@),
        r.1 == (r.0@.len() != entries@.len()),
{
    let rest = filter_out_path(entries, path);
    let changed = rest.len() != entries.len();
    (rest, changed)
}

// ---------- manual entries ----------

/// The key under which a scanned path is compared with the allowlist's
/// entries: lowercased, separators as backslashes.
pub open spec fn scanned_key(p: Seq<char>) -> Seq<char> {
    backslashed(spec_to_lowercase(p))
}

/// The entries the user added by hand: those that are not the key of a
/// path the launcher scan found.
pub open spec fn manual_only(entries: Seq<Seq<char>>, scanned: Seq<Seq<char>>) -> Seq<Seq<char>>
    decreases entries.len(),
{
    if entries.len() == 0 {
        Seq::empty()
    } else {
        let prev = manual_only(entries.drop_last(), scanned);
        let e = entries.last();
        if exists|j: int| 0 <= j < scanned.len() && scanned_key(#[trigger] scanned[j]) == e { prev } else { prev.push(e) }
    }
}

fn is_scanned(e: &str, keys: &Vec<String>, scanned: Ghost<Seq<Seq<char>>>) -> (b: bool)
    requires
        keys@.len() == scanned@.len(),
        forall|j: int| 0 <= j < keys@.len() ==> #[trigger] keys@[j]@ == scanned_key(scanned@[j]),
    ensures
        b == exists|j: int| 0 <= j < scanned@.len() && scanned_key(#[trigger] scanned@[j]) == e@,
{
    let mut i: usize = 0;
    while i < keys.len()
        invariant
            i <= keys@.len(),
            keys@.len() == scanned@.len(),
            forall|j: int| 0 <= j < keys@.len() ==> #[trigger] keys@[j]@ == scanned_key(scanned@[j]),
            forall|j: int| 0 <= j < i ==> scanned_key(#[trigger] scanned@[j]) != e@,
        decreases keys.len() - i,
    {
        if str_eq(keys[i].as_str(), e) {
            assert(scanned_key(scanned@[i as int]) == e@);
            return true;
        }
        i = i + 1;
    }
    false
}

/// The allowlist entries to persist: every entry that is not one of the
/// scanned launcher paths (those are found again each session).
pub fn manual_entries(entries: &Vec<String>, scanned: &Vec<String>) -> (r: Vec<String>)
    ensures
        r.deep_view() == manual_only(entries.deep_view(), scanned.deep_view()),
{
    let ghost sc = scanned.deep_view();
    let mut keys: Vec<String> = Vec::new();
    let mut k: usize = 0;
    while k < scanned.len()
        invariant
            k <= scanned@.len(),
            sc == scanned.deep_view(),
            keys@.len() == k,
            forall|j: int| 0 <= j < k ==> #[trigger] keys@[j]@ == scanned_key(sc[j]),
        decreases scanned.len() - k,
    {
        let l = to_lowercase(scanned[k].as_str());
        let key = backslash_all(l.as_str());
        keys.push(key);
        k = k + 1;
    }
    let mut r: Vec<String> = Vec::new();
    let mut i: usize = 0;
    while i < entries.len()
        invariant
            i <= entries@.len(),
            keys@.len() == sc.len(),
            forall|j: int| 0 <= j < keys@.len() ==> #[trigger] keys@[j]@ == scanned_key(sc[j]),
            r.deep_view() == manual_only(entries.deep_view().take(i as int), sc),
        decreases entries.len() - i,
    {
        let ghost before = entries.deep_view().take(i as int);
        if !is_scanned(entries[i].as_str(), &keys, Ghost(sc)) {
            push_arg(&mut r, owned(entries[i].as_str()));
        }
        i = i + 1;
        assert(entries.deep_view().take(i as int).drop_last() =~= before);
    }
    assert(entries.deep_view().take(entries@.len() as int) =~= entries.deep_view());
    r
}

// ---------- Steam library folders ----------

/// The lines of `s` as `str::lines` yields them: split at `\n`, the `\r` of
/// a `\r\n` ending removed, and no final empty line after a last `\n`.
pub open spec fn text_lines(s: Seq<char>) -> Seq<Seq<char>> {
    let pieces = crate::media::split_on(s, '\n');
    let ended = pieces.drop_last().map_values(|l: Seq<char>| if l.len() > 0 && l.last() == '\r' { l.drop_last() } else { l });
    if pieces.last().len() == 0 { ended } else { ended.push(pieces.last()) }
}

/// `s` with every `\\` (two backslashes, as VDF escapes one) read as one.
pub open spec fn vdf_unescape(s: Seq<char>) -> Seq<char>
    decreases s.len(),
{
    if s.len() >= 2 && s[0] == '\\' && s[1] == '\\' {
        seq!['\\'] + vdf_unescape(s.skip(2))
    } else if s.len() >= 1 {
        seq![s[0]] + vdf_unescape(s.skip(1))
    } else {
        Seq::empty()
    }
}

/// `s` without leading whitespace.
pub open spec fn trim_start_spaces(s: Seq<char>) -> Seq<char>
    decreases s.len(),
{
    if s.len() > 0 && is_space(s[0]) { trim_start_spaces(s.drop_first()) } else { s }
}

/// The library path a `libraryfolders.vdf` line declares: a trimmed line
/// `"path"`, optional whitespace, then a quoted value, unescaped.
pub open spec fn vdf_path(line: Seq<char>) -> Option<Seq<char>> {
    let t = crate::media::trim_spaces(line);
    if t.len() >= 6 && t.take(6) == "\"path\""@ {
        let rest = trim_start_spaces(t.skip(6));
        if rest.len() > 0 && rest[0] == '"' {
            let after = rest.skip(1);
            if exists|e: int| 0 <= e < after.len() && after[e] == '"' {
                let e = choose|e: int| 0 <= e < after.len() && after[e] == '"' && forall|k: int| 0 <= k < e ==> after[k] != '"';
                Some(vdf_unescape(after.take(e)))
            } else {
                None
            }
        } else {
            None
        }
    } else {
        None
    }
}

/// `line` with one trailing carriage return removed.
pub open spec fn strip_cr(l: Seq<char>) -> Seq<char> {
    if l.len() > 0 && l.last() == '\r' { l.drop_last() } else { l }
}

/// The lines of `s` (as `str::lines` splits them).
pub fn lines_of(s: &str) -> (r: Vec<String>)
    ensures
        r.deep_view() == text_lines(s@),
{
    let v = chars_of(s);
    let n = v.len();
    let mut out: Vec<String> = Vec::new();
    let mut seg: usize = 0;
    let mut i: usize = 0;
    proof {
        assert(v@.take(0) =~= Seq::<char>::empty());
        assert(crate::media::split_on(Seq::<char>::empty(), '\n').drop_last().map_values(|l: Seq<char>| strip_cr(l)) =~= Seq::<Seq<char>>::empty());
    }
    while i < n
        invariant
            n == v@.len(),
            seg <= i <= n,
            crate::media::split_on(v@.take(i as int), '\n').last() == v@.subrange(seg as int, i as int),
            out.deep_view() == crate::media::split_on(v@.take(i as int), '\n').drop_last().map_values(|l: Seq<char>| strip_cr(l)),
        decreases n - i,
    {
        let ghost before = v@.take(i as int);
        let ghost after = v@.take((i + 1) as int);
        let ghost pb = crate::media::split_on(before, '\n');
        proof {
            assert(after.drop_last() =~= before);
            crate::media::lemma_split_nonempty(before, '\n');
        }
        if v[i] == '\n' {
            let end = if i > seg && v[i - 1] == '\r' { i - 1 } else { i };
            let ghost line = v@.subrange(seg as int, i as int);
            assert(strip_cr(line) =~= v@.subrange(seg as int, end as int));
            push_arg(&mut out, crate::media::string_of_range(&v, seg, end));
            proof {
                let pa = crate::media::split_on(after, '\n');
                assert(pa == pb.push(Seq::<char>::empty()));
                assert(pa.drop_last() =~= pb);
                assert(pb =~= pb.drop_last().push(line));
                assert(pb.map_values(|l: Seq<char>| strip_cr(l)) =~= pb.drop_last().map_values(|l: Seq<char>| strip_cr(l)).push(strip_cr(line)));
                assert(v@.subrange((i + 1) as int, (i + 1) as int) =~= Seq::<char>::empty());
            }
            seg = i + 1;
        } else {
            proof {
                let pa = crate::media::split_on(after, '\n');
                assert(pa.drop_last() =~= pb.drop_last());
                assert(pa.last() =~= v@.subrange(seg as int, (i + 1) as int));
            }
        }
        i = i + 1;
    }
    let ghost all = crate::media::split_on(v@, '\n');
    proof {
        assert(v@.take(n as int) =~= v@);
        crate::media::lemma_split_nonempty(v@, '\n');
    }
    if seg < n {
        push_arg(&mut out, crate::media::string_of_range(&v, seg, n));
        assert(all.last().len() > 0);
    } else {
        assert(all.last().len() == 0);
    }
    assert(all.drop_last().map_values(|l: Seq<char>| strip_cr(l))
        =~= all.drop_last().map_values(|l: Seq<char>| if l.len() > 0 && l.last() == '\r' { l.drop_last() } else { l }));
    out
}

/// The library roots: the install directory, then each distinct path the
/// `libraryfolders.vdf` text declares, in order.
pub open spec fn roots_from(lines: Seq<Seq<char>>, install: Seq<char>) -> Seq<Seq<char>>
    decreases lines.len(),
{
    if lines.len() == 0 {
        seq![install]
    } else {
        let r = roots_from(lines.drop_last(), install);
        match vdf_path(lines.last()) {
            Some(p) => if r.contains(p) { r } else { r.push(p) },
            None => r,
        }
    }
}

proof fn lemma_unescape_step(s: Seq<char>, i: int)
    requires
        0 <= i < s.len(),
    ensures
        s.skip(i).len() >= 2 && s[i] == '\\' && s[i + 1] == '\\' ==> vdf_unescape(s.skip(i)) == seq!['\\'] + vdf_unescape(s.skip(i + 2)),
        !(s.skip(i).len() >= 2 && s[i] == '\\' && s[i + 1] == '\\') ==> vdf_unescape(s.skip(i)) == seq![s[i]] + vdf_unescape(s.skip(i + 1)),
{
    let t = s.skip(i);
    assert(t[0] == s[i]);
    if t.len() >= 2 {
        assert(t[1] == s[i + 1]);
        assert(t.skip(2) =~= s.skip(i + 2));
    }
    assert(t.skip(1) =~= s.skip(i + 1));
}

fn unescape_range(v: &Vec<char>, a: usize, b: usize) -> (r: String)
    requires
        a <= b <= v@.len(),
    ensures
        r@ == vdf_unescape(v@.subrange(a as int, b as int)),
{
    let ghost s = v@.subrange(a as int, b as int);
    let mut r = String::new();
    let mut i = a;
    assert(s.skip(0) =~= s);
    while i < b
        invariant
            a <= i <= b <= v@.len(),
            s == v@.subrange(a as int, b as int),
            r@ + vdf_unescape(s.skip(i - a)) == vdf_unescape(s),
        decreases b - i,
    {
        let ghost k = i - a;
        proof {
            lemma_unescape_step(s, k as int);
            assert(s[k as int] == v@[i as int]);
            if k + 1 < s.len() {
                assert(s[k + 1] == v@[i + 1]);
            }
        }
        let ghost before = r@;
        if v[i] == '\\' && i + 1 < b && v[i + 1] == '\\' {
            r.push('\\');
            i = i + 2;
            assert(r@ + vdf_unescape(s.skip(i - a)) =~= before + vdf_unescape(s.skip(k as int)));
        } else {
            r.push(v[i]);
            i = i + 1;
            assert(r@ + vdf_unescape(s.skip(i - a)) =~= before + vdf_unescape(s.skip(k as int)));
        }
    }
    assert(vdf_unescape(s.skip(s.len() as int)) =~= Seq::<char>::empty());
    assert(r@ + Seq::<char>::empty() =~= r@);
    r
}

proof fn lemma_trim_start(s: Seq<char>, z: int, y: int)
    requires
        0 <= z < y <= s.len(),
        is_space(s[z]),
    ensures
        trim_start_spaces(s.subrange(z, y)) == trim_start_spaces(s.subrange(z + 1, y)),
{
    assert(s.subrange(z, y).drop_first() =~= s.subrange(z + 1, y));
}

/// The path a `libraryfolders.vdf` line `v[a..b]` declares, if any.
fn vdf_line_path(v: &Vec<char>, a: usize, b: usize) -> (r: Option<String>)
    requires
        a <= b <= v@.len(),
    ensures
        match r { Some(p) => Some(p@), None => None::<Seq<char>> } == vdf_path(v@.subrange(a as int, b as int)),
{
    let ghost s = v@;
    let (x, y) = crate::media::trim_range(v, a, b);
    let ghost t = s.subrange(x as int, y as int);
    if !(y - x >= 6 && crate::media::range_is(v, x, x + 6, "\"path\"")) {
        proof {
            if y - x >= 6 {
                assert(t.take(6) =~= s.subrange(x as int, x + 6));
            }
        }
        return None;
    }
    assert(t.take(6) =~= s.subrange(x as int, x + 6));
    let mut z = x + 6;
    assert(t.skip(6) =~= s.subrange(z as int, y as int));
    while z < y && crate::media::char_is_space(v[z])
        invariant
            x + 6 <= z <= y <= s.len(),
            s == v@,
            trim_start_spaces(t.skip(6)) == trim_start_spaces(s.subrange(z as int, y as int)),
        decreases y - z,
    {
        proof {
            lemma_trim_start(s, z as int, y as int);
        }
        z = z + 1;
    }
    let ghost rest = s.subrange(z as int, y as int);
    proof {
        if rest.len() > 0 {
            assert(rest[0] == s[z as int]);
        }
        assert(trim_start_spaces(rest) == rest);
    }
    if !(z < y && v[z] == '"') {
        return None;
    }
    assert(rest[0] == s[z as int]);
    let ghost after = rest.skip(1);
    assert(after =~= s.subrange(z + 1, y as int));
    let mut q = z + 1;
    while q < y && v[q] != '"'
        invariant
            z + 1 <= q <= y <= s.len(),
            s == v@,
            after == s.subrange(z + 1, y as int),
            forall|k: int| 0 <= k < q - (z + 1) ==> after[k] != '"',
        decreases y - q,
    {
        assert(after[q - (z + 1)] == s[q as int]);
        q = q + 1;
    }
    if q == y {
        proof {
            if exists|e: int| 0 <= e < after.len() && after[e] == '"' {
                let e = choose|e: int| 0 <= e < after.len() && after[e] == '"';
                assert(after[e] != '"');
            }
        }
        return None;
    }
    let ghost e = q - (z + 1);
    proof {
        assert(after[e] == s[q as int]);
        assert(after[e] == '"');
        let c = choose|c: int| 0 <= c < after.len() && after[c] == '"' && forall|k: int| 0 <= k < c ==> after[k] != '"';
        if c < e {
            assert(after[c] != '"');
        } else if c > e {
            assert(after[e] != '"');
        }
        assert(after.take(e) =~= s.subrange(z + 1, q as int));
    }
    Some(unescape_range(v, z + 1, q))
}

pub fn contains_string(v: &Vec<String>, x: &str) -> (b: bool)
    ensures
        b == v.deep_view().contains(x@),
{
    let mut i: usize = 0;
    while i < v.len()
        invariant
            i <= v@.len(),
            forall|j: int| 0 <= j < i ==> v.deep_view()[j] != x@,
        decreases v.len() - i,
    {
        if str_eq(v[i].as_str(), x) {
            assert(v.deep_view()[i as int] == x@);
            return true;
        }
        i = i + 1;
    }
    false
}

/// The Steam library roots: the install directory and every library path
/// listed in the `libraryfolders.vdf` text, without repeats.
#[verifier::spinoff_prover]
#[verifier::rlimit(60)]
pub fn steam_library_roots(install: &str, vdf: &str) -> (r: Vec<String>)
    ensures
        r.deep_view() == roots_from(text_lines(vdf@), install@),
{
    let v = chars_of(vdf);
    let n = v.len();
    let mut roots: Vec<String> = Vec::new();
    push_arg(&mut roots, owned(install));
    assert(roots.deep_view() =~= seq![install@]);
    let mut seg: usize = 0;
    let mut i: usize = 0;
    proof {
        assert(v@.take(0) =~= Seq::<char>::empty());
        assert(crate::media::split_on(Seq::<char>::empty(), '\n').drop_last().map_values(|l: Seq<char>| strip_cr(l)) =~= Seq::<Seq<char>>::empty());
    }
    while i < n
        invariant
            n == v@.len(),
            seg <= i <= n,
            crate::media::split_on(v@.take(i as int), '\n').last() == v@.subrange(seg as int, i as int),
            roots.deep_view() == roots_from(
                crate::media::split_on(v@.take(i as int), '\n').drop_last().map_values(|l: Seq<char>| strip_cr(l)),
                install@,
            ),
        decreases n - i,
    {
        let ghost before = v@.take(i as int);
        let ghost after = v@.take((i + 1) as int);
        let ghost pb = crate::media::split_on(before, '\n');
        proof {
            assert(after.drop_last() =~= before);
            crate::media::lemma_split_nonempty(before, '\n');
        }
        if v[i] == '\n' {
            let end = if i > seg && v[i - 1] == '\r' { i - 1 } else { i };
            let ghost line = v@.subrange(seg as int, i as int);
            assert(strip_cr(line) =~= v@.subrange(seg as int, end as int));
            let p = vdf_line_path(&v, seg, end);
            match p {
                Some(path) => {
                    if !contains_string(&roots, path.as_str()) {
                        push_arg(&mut roots, path);
                    }
                },
                None => {},
            }
            proof {
                let pa = crate::media::split_on(after, '\n');
                assert(pa == pb.push(Seq::<char>::empty()));
                assert(pa.drop_last() =~= pb);
                assert(pb =~= pb.drop_last().push(line));
                assert(pb.map_values(|l: Seq<char>| strip_cr(l)) =~= pb.drop_last().map_values(|l: Seq<char>| strip_cr(l)).push(strip_cr(line)));
                assert(pb.map_values(|l: Seq<char>| strip_cr(l)).drop_last() =~= pb.drop_last().map_values(|l: Seq<char>| strip_cr(l)));
                assert(v@.subrange((i + 1) as int, (i + 1) as int) =~= Seq::<char>::empty());
            }
            seg = i + 1;
        } else {
            proof {
                let pa = crate::media::split_on(after, '\n');
                assert(pa.drop_last() =~= pb.drop_last());
                assert(pa.last() =~= v@.subrange(seg as int, (i + 1) as int));
            }
        }
        i = i + 1;
    }
    let ghost all = crate::media::split_on(v@, '\n');
    proof {
        assert(v@.take(n as int) =~= v@);
        crate::media::lemma_split_nonempty(v@, '\n');
    }
    let ghost ended = all.drop_last().map_values(|l: Seq<char>| strip_cr(l));
    assert(ended =~= all.drop_last().map_values(|l: Seq<char>| if l.len() > 0 && l.last() == '\r' { l.drop_last() } else { l }));
    if seg < n {
        let ghost line = v@.subrange(seg as int, n as int);
        let p = vdf_line_path(&v, seg, n);
        match p {
            Some(path) => {
                if !contains_string(&roots, path.as_str()) {
                    push_arg(&mut roots, path);
                }
            },
            None => {},
        }
        proof {
            assert(line.len() > 0);
            assert(all.last() == line);
            let lines = ended.push(line);
            assert(text_lines(vdf@) == lines);
            assert(lines.drop_last() =~= ended);
            assert(lines.last() == line);
            assert(lines.len() > 0);
        }
    } else {
        assert(all.last().len() == 0);
        assert(text_lines(vdf@) == ended);
    }
    roots
}

/// ASCII letters lowercased, everything else unchanged.
pub open spec fn ascii_lower(c: char) -> char {
    if 'A' <= c && c <= 'Z' { ((c as u32) + 32) as char } else { c }
}

/// Whether a file name's extension (after its last `.`, which must not be
/// its first character) is `exe` in any ASCII case.
pub open spec fn exe_name(name: Seq<char>) -> bool {
    let n = name.len();
    n >= 5 && name[n - 4] == '.' && ascii_lower(name[n - 3]) == 'e' && ascii_lower(name[n - 2]) == 'x'
        && ascii_lower(name[n - 1]) == 'e'
}

fn lower_ascii(c: char) -> (r: char)
    ensures
        r == ascii_lower(c),
{
    if 'A' <= c && c <= 'Z' {
        let u: u32 = c as u32 + 32;
        #[verifier::truncate]
        let b = u as u8;
        b as char
    } else {
        c
    }
}

/// Whether the launcher scan takes a file as a game executable.
pub fn is_exe_name(name: &str) -> (b: bool)
    ensures
        b == exe_name(name@),
{
    let v = chars_of(name);
    let n = v.len();
    n >= 5 && v[n - 4] == '.' && lower_ascii(v[n - 3]) == 'e' && lower_ascii(v[n - 2]) == 'x'
        && lower_ascii(v[n - 1]) == 'e'
}


// ---------- laws of the allowlist ----------

/// After adding `added`, a path is listed exactly when it has the same key
/// as `added` or was listed before.
pub proof fn law_add_then_contains(before: Set<Seq<char>>, added: Seq<char>, probe: Seq<char>)
    ensures
        before.insert(path_key(added)).contains(path_key(probe))
            == (path_key(probe) == path_key(added) || before.contains(path_key(probe))),
{
}

/// After removing `removed`, no path with its key is listed, and every other
/// path is listed as before.
pub proof fn law_remove_then_contains(before: Set<Seq<char>>, removed: Seq<char>, probe: Seq<char>)
    ensures
        before.remove(path_key(removed)).contains(path_key(probe))
            == (path_key(probe) != path_key(removed) && before.contains(path_key(probe))),
{
}

/// Adding a path whose key is already listed changes nothing (so the count
/// does not grow).
pub proof fn law_add_is_idempotent(before: Set<Seq<char>>, added: Seq<char>)
    ensures
        before.insert(path_key(added)).insert(path_key(added)) == before.insert(path_key(added)),
        before.contains(path_key(added)) ==> before.insert(path_key(added)) == before,
{
    assert(before.insert(path_key(added)).insert(path_key(added)) =~= before.insert(path_key(added)));
    if before.contains(path_key(added)) {
        assert(before.insert(path_key(added)) =~= before);
    }
}

proof fn lemma_split_same_separators(s: Seq<char>)
    ensures
        split_segments(backslashed(s)) == split_segments(s),
    decreases s.len(),
{
    if s.len() > 0 {
        lemma_split_same_separators(s.drop_last());
        assert(backslashed(s).drop_last() =~= backslashed(s.drop_last()));
        assert(backslashed(s).last() == (if s.last() == '/' { '\\' } else { s.last() }));
    }
}

/// Forward slashes and backslashes separate path segments alike: writing
/// every `/` as `\` does not change how a path folds.
pub proof fn law_slashes_fold_alike(path: Seq<char>)
    ensures
        collapsed(backslashed(path)) == collapsed(path),
{
    let b = backslashed(path);
    let p = drive_prefix_len(path);
    if path.len() >= 2 {
        assert(b[0] == (if path[0] == '/' { '\\' } else { path[0] }));
        assert(b[1] == (if path[1] == '/' { '\\' } else { path[1] }));
    }
    assert(drive_prefix_len(b) == p);
    assert(b.take(p) =~= path.take(p));
    assert(b.skip(p) =~= backslashed(path.skip(p)));
    lemma_split_same_separators(path.skip(p));
    if path.skip(p).len() > 0 {
        assert(b.skip(p)[0] == (if path.skip(p)[0] == '/' { '\\' } else { path.skip(p)[0] }));
    }
}


/// No character of `s` separates path segments.
pub open spec fn sep_free(s: Seq<char>) -> bool {
    forall|i: int| 0 <= i < s.len() ==> !is_sep(#[trigger] s[i])
}

/// A segment that names something: not empty, `.` or `..`.
pub open spec fn real_segment(s: Seq<char>) -> bool {
    s.len() > 0 && s != dot() && s != dot_dot()
}

/// The shape of a folded segment list: separator-free segments, each `..`
/// or real, every `..` before every real one.
pub open spec fn folded_form(f: Seq<Seq<char>>) -> bool {
    &&& forall|i: int| 0 <= i < f.len() ==> sep_free(#[trigger] f[i]) && (f[i] == dot_dot() || real_segment(f[i]))
    &&& forall|i: int, j: int| 0 <= j < i < f.len() && #[trigger] f[i] == dot_dot() ==> #[trigger] f[j] == dot_dot()
}

proof fn lemma_split_pieces_sep_free(s: Seq<char>)
    ensures
        forall|i: int| 0 <= i < split_segments(s).len() ==> sep_free(#[trigger] split_segments(s)[i]),
    decreases s.len(),
{
    if s.len() > 0 {
        lemma_split_pieces_sep_free(s.drop_last());
        lemma_split_nonempty(s.drop_last());
        let prev = split_segments(s.drop_last());
        if !is_sep(s.last()) {
            let l = prev.last().push(s.last());
            assert(sep_free(prev[prev.len() - 1]));
            assert forall|k: int| 0 <= k < l.len() implies !is_sep(#[trigger] l[k]) by {
                if k < prev.last().len() {
                    assert(l[k] == prev[prev.len() - 1][k]);
                }
            }
        }
    }
}

proof fn lemma_split_sep_free(y: Seq<char>)
    requires
        sep_free(y),
    ensures
        split_segments(y) == seq![y],
    decreases y.len(),
{
    if y.len() == 0 {
        assert(y =~= Seq::<char>::empty());
        assert(split_segments(y) =~= seq![y]);
    } else {
        assert(sep_free(y.drop_last()));
        lemma_split_sep_free(y.drop_last());
        assert(!is_sep(y[y.len() - 1]));
        assert(y.last() == y[y.len() - 1]);
        let prev = split_segments(y.drop_last());
        assert(prev == seq![y.drop_last()]);
        assert(prev.len() == 1);
        assert(prev.last() == y.drop_last());
        assert(y.drop_last().push(y.last()) =~= y);
        assert(split_segments(y) == prev.update(0, y));
        assert(split_segments(y) =~= seq![y]);
    }
}

proof fn lemma_split_around_sep(a: Seq<char>, c: char, b: Seq<char>)
    requires
        is_sep(c),
    ensures
        split_segments(a + seq![c] + b) == split_segments(a) + split_segments(b),
    decreases b.len(),
{
    let w = a + seq![c] + b;
    if b.len() == 0 {
        assert(w.drop_last() =~= a);
        assert(w.last() == c);
        assert(split_segments(w) =~= split_segments(a) + split_segments(b));
    } else {
        let b2 = b.drop_last();
        lemma_split_around_sep(a, c, b2);
        lemma_split_nonempty(b2);
        assert(w.drop_last() =~= a + seq![c] + b2);
        assert(w.last() == b.last());
        assert(split_segments(w) =~= split_segments(a) + split_segments(b));
    }
}

proof fn lemma_split_join(f: Seq<Seq<char>>)
    requires
        f.len() > 0,
        forall|i: int| 0 <= i < f.len() ==> sep_free(#[trigger] f[i]),
    ensures
        split_segments(join_backslash(f)) == f,
    decreases f.len(),
{
    if f.len() == 1 {
        lemma_split_sep_free(f[0]);
        assert(seq![f[0]] =~= f);
    } else {
        let g = f.drop_last();
        assert forall|i: int| 0 <= i < g.len() implies sep_free(#[trigger] g[i]) by {
            assert(g[i] == f[i]);
        }
        lemma_split_join(g);
        lemma_split_around_sep(join_backslash(g), '\\', f.last());
        lemma_split_sep_free(f.last());
        assert(g + seq![f.last()] =~= f);
    }
}

/// The first character of joined segments is that of the first segment.
proof fn lemma_join_first(f: Seq<Seq<char>>)
    requires
        f.len() > 0,
        f[0].len() > 0,
    ensures
        join_backslash(f).len() > 0,
        join_backslash(f)[0] == f[0][0],
    decreases f.len(),
{
    if f.len() > 1 {
        let g = f.drop_last();
        assert(g[0] == f[0]);
        lemma_join_first(g);
    }
}

proof fn lemma_fold_form(segs: Seq<Seq<char>>)
    requires
        forall|i: int| 0 <= i < segs.len() ==> sep_free(#[trigger] segs[i]),
    ensures
        folded_form(fold_segments(segs)),
    decreases segs.len(),
{
    if segs.len() > 0 {
        let g = segs.drop_last();
        assert forall|i: int| 0 <= i < g.len() implies sep_free(#[trigger] g[i]) by {
            assert(g[i] == segs[i]);
        }
        lemma_fold_form(g);
        let out = fold_segments(g);
        let seg = segs.last();
        assert(sep_free(segs[segs.len() - 1]));
        if seg.len() == 0 || seg == dot() {
        } else if seg == dot_dot() {
            if out.len() > 0 && out.last() != dot_dot() {
                let r = out.drop_last();
                assert forall|i: int, j: int| 0 <= j < i < r.len() && #[trigger] r[i] == dot_dot() implies #[trigger] r[j] == dot_dot() by {
                    assert(out[i] == r[i] && out[j] == r[j]);
                }
                assert forall|i: int| 0 <= i < r.len() implies sep_free(#[trigger] r[i]) && (r[i] == dot_dot() || real_segment(r[i])) by {
                    assert(out[i] == r[i]);
                }
            } else {
                let r = out.push(dot_dot());
                assert(sep_free(dot_dot())) by {
                    assert forall|k: int| 0 <= k < dot_dot().len() implies !is_sep(#[trigger] dot_dot()[k]) by {
                    }
                }
                assert forall|i: int, j: int| 0 <= j < i < r.len() && #[trigger] r[i] == dot_dot() implies #[trigger] r[j] == dot_dot() by {
                    if i == out.len() {
                        if j < out.len() - 1 {
                            assert(out[out.len() - 1] == dot_dot());
                        }
                        assert(r[j] == out[j]);
                    } else {
                        assert(r[i] == out[i] && r[j] == out[j]);
                    }
                }
                assert forall|i: int| 0 <= i < r.len() implies sep_free(#[trigger] r[i]) && (r[i] == dot_dot() || real_segment(r[i])) by {
                    if i < out.len() {
                        assert(r[i] == out[i]);
                    }
                }
            }
        } else {
            let r = out.push(seg);
            assert forall|i: int, j: int| 0 <= j < i < r.len() && #[trigger] r[i] == dot_dot() implies #[trigger] r[j] == dot_dot() by {
                assert(i < out.len());
                assert(r[i] == out[i] && r[j] == out[j]);
            }
            assert forall|i: int| 0 <= i < r.len() implies sep_free(#[trigger] r[i]) && (r[i] == dot_dot() || real_segment(r[i])) by {
                if i < out.len() {
                    assert(r[i] == out[i]);
                }
            }
        }
    }
}

proof fn lemma_fold_stable(f: Seq<Seq<char>>)
    requires
        folded_form(f),
    ensures
        fold_segments(f) == f,
    decreases f.len(),
{
    if f.len() > 0 {
        let g = f.drop_last();
        assert forall|i: int, j: int| 0 <= j < i < g.len() && #[trigger] g[i] == dot_dot() implies #[trigger] g[j] == dot_dot() by {
            assert(f[i] == g[i] && f[j] == g[j]);
        }
        assert forall|i: int| 0 <= i < g.len() implies sep_free(#[trigger] g[i]) && (g[i] == dot_dot() || real_segment(g[i])) by {
            assert(f[i] == g[i]);
        }
        lemma_fold_stable(g);
        let last = f[f.len() - 1];
        if last == dot_dot() && g.len() > 0 {
            assert(f[g.len() - 1] == dot_dot());
        }
        assert(g.push(f.last()) =~= f);
    }
}

proof fn lemma_fold_single_empty()
    ensures
        fold_segments(seq![Seq::<char>::empty()]) == Seq::<Seq<char>>::empty(),
{
    let s = seq![Seq::<char>::empty()];
    assert(s.len() == 1);
    assert(s.drop_last() =~= Seq::<Seq<char>>::empty());
    assert(s.last() == Seq::<char>::empty());
    assert(fold_segments(s.drop_last()) == Seq::<Seq<char>>::empty());
}

proof fn lemma_fold_leading_empty(f: Seq<Seq<char>>)
    ensures
        fold_segments(seq![Seq::<char>::empty()] + f) == fold_segments(f),
    decreases f.len(),
{
    let e = seq![Seq::<char>::empty()];
    if f.len() == 0 {
        assert(e + f =~= e);
        lemma_fold_single_empty();
    } else {
        lemma_fold_leading_empty(f.drop_last());
        assert((e + f).drop_last() =~= e + f.drop_last());
        assert((e + f).last() == f.last());
    }
}

/// The segments of a separator-led remainder `\` + `join(f)` fold back to `f`.
proof fn lemma_rooted_refold(f: Seq<Seq<char>>)
    requires
        folded_form(f),
    ensures
        fold_segments(split_segments(seq!['\\'] + join_backslash(f))) == f,
{
    let j = join_backslash(f);
    lemma_split_around_sep(Seq::<char>::empty(), '\\', j);
    assert(Seq::<char>::empty() + seq!['\\'] + j =~= seq!['\\'] + j);
    assert(split_segments(Seq::<char>::empty()) =~= seq![Seq::<char>::empty()]);
    if f.len() > 0 {
        lemma_split_join(f);
        lemma_fold_leading_empty(f);
        lemma_fold_stable(f);
    } else {
        assert(j =~= Seq::<char>::empty());
        assert(split_segments(j) =~= seq![Seq::<char>::empty()]);
        lemma_fold_leading_empty(seq![Seq::<char>::empty()]);
        lemma_fold_single_empty();
    }
}

/// Folding `.` and `..` out of an absolute path (one that starts with a drive
/// such as `C:` or with a separator, as an executable's full path does) a
/// second time changes nothing.
pub proof fn law_collapse_is_idempotent(path: Seq<char>)
    requires
        drive_prefix_len(path) == 2 || (path.len() > 0 && is_sep(path[0])),
    ensures
        collapsed(collapsed(path)) == collapsed(path),
{
    let d = drive_prefix_len(path);
    let rest = path.skip(d);
    let rooted = rest.len() > 0 && is_sep(rest[0]);
    let segs = split_segments(rest);
    lemma_split_pieces_sep_free(rest);
    lemma_fold_form(segs);
    let f = fold_segments(segs);
    let j = join_backslash(f);
    let r: Seq<char> = if rooted { seq!['\\'] } else { Seq::empty() };
    let q = collapsed(path);
    assert(q == path.take(d) + r + j);
    if f.len() > 0 {
        assert(f[0].len() > 0);
        lemma_join_first(f);
        assert(sep_free(f[0]));
        assert(!is_sep(j[0]));
    } else {
        assert(j =~= Seq::<char>::empty());
    }
    if d == 2 {
        assert(q[0] == path[0] && q[1] == path[1]);
        assert(drive_prefix_len(q) == 2);
        assert(q.take(2) =~= path.take(2));
        assert(q.skip(2) =~= r + j);
        if rooted {
            assert(q.skip(2) =~= seq!['\\'] + j);
            lemma_rooted_refold(f);
        } else {
            assert(q.skip(2) =~= j);
            if f.len() > 0 {
                lemma_split_join(f);
                lemma_fold_stable(f);
            } else {
                assert(split_segments(j) =~= seq![Seq::<char>::empty()]);
                lemma_fold_single_empty();
            }
        }
    } else {
        assert(rooted);
        assert(rest =~= path);
        assert(q =~= seq!['\\'] + j);
        assert(drive_prefix_len(q) == 0);
        assert(q.skip(0) =~= q);
        assert(q.take(0) =~= Seq::<char>::empty());
        lemma_rooted_refold(f);
    }
}

} // verus!
