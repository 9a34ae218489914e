//! The media side of the editor: how a source is made playable (played as
//! is, remuxed, or re-encoded), the cache names derived from a source's
//! fingerprint, and the decisions of the localhost media server (who may
//! fetch, which URL names a file, which byte range is answered).

use vstd::prelude::*;
use sha2::Digest;
use crate::text::{chars_of, dec, hex_lower, owned, push_arg, push_dec, push_str_arg, str_eq, to_hex_lower, to_lowercase, spec_to_lowercase};

verus! {

// ---------- outside crates ----------

/// SHA-256 of a byte string (a function of its input alone).
pub uninterp spec fn spec_sha256(data: Seq<u8>) -> Seq<u8>;

/// Calls `sha2::Sha256::digest`. The contract names the digest and states
/// its documented length of 32 bytes; nothing of the hash function itself.
#[verifier::external_body]
fn sha256(data: &[u8]) -> (r: Vec<u8>)
    ensures
        r@ == spec_sha256(data@),
        r@.len() == 32,
{
    sha2::Sha256::digest(data).to_vec()
}

#[verifier::external_type_specification]
#[verifier::external_body]
pub struct ExRandomError(getrandom::Error);

/// Calls `getrandom::getrandom` to fill `buf` from the operating system's
/// generator. The bytes depend on chance; the contract says only that the
/// buffer keeps its length.
#[verifier::external_body]
fn os_random(buf: &mut Vec<u8>) -> (r: Result<(), getrandom::Error>)
    ensures
        final(buf)@.len() == old(buf)@.len(),
{
    getrandom::getrandom(buf.as_mut_slice())
}

/// Bytes that `urlencoding` leaves as they are: ASCII letters and digits and `-_.~`.
pub open spec fn url_safe(b: u8) -> bool {
    (48 <= b <= 57) || (65 <= b <= 90) || (97 <= b <= 122) || b == 45 || b == 46 || b == 95 || b == 126
}

/// Uppercase hexadecimal digit of `d` (below sixteen).
pub open spec fn hex_upper_digit(d: nat) -> char {
    if d < 10 { ((d + 48) as u8) as char } else { ((d + 55) as u8) as char }
}

/// Percent-encoding: safe bytes as themselves, every other byte as `%XY`.
pub open spec fn percent_encoded(bytes: Seq<u8>) -> Seq<char>
    decreases bytes.len(),
{
    if bytes.len() == 0 {
        Seq::empty()
    } else {
        let b = bytes.last();
        percent_encoded(bytes.drop_last()) + if url_safe(b) {
            seq![b as char]
        } else {
            seq!['%', hex_upper_digit((b / 16) as nat), hex_upper_digit((b % 16) as nat)]
        }
    }
}

/// Calls `urlencoding::encode`, which percent-encodes every byte of the
/// UTF-8 form except ASCII letters, digits and `-_.~`, with uppercase hex.
#[verifier::external_body]
fn url_encode(s: &str) -> (r: String)
    ensures
        r@ == percent_encoded(vstd::utf8::encode_utf8(s@)),
{
    urlencoding::encode(s).into_owned()
}

/// The MIME type `mime_guess` gives a path (by its extension).
pub uninterp spec fn spec_mime_for(path: Seq<char>) -> Seq<char>;

/// Calls `mime_guess::from_path(..).first_or_octet_stream()` and takes the
/// essence string. The guess is a function of the path's text; the contract
/// names it.
#[verifier::external_body]
pub fn mime_type_for(path: &str) -> (r: String)
    ensures
        r@ == spec_mime_for(path@),
{
    mime_guess::from_path(path).first_or_octet_stream().essence_str().to_string()
}

// ---------- playback strategy ----------

/// What the probe found that decides playback.
pub struct MediaCodecs {
    pub video_codec: String,
    pub audio_codec: Option<String>,
    /// ffprobe's format name list, comma separated (`mov,mp4,m4a,...`).
    pub container: String,
}

/// How a source is made playable in the editor.
#[derive(Clone, Copy, Debug, PartialEq, Eq, Structural)]
pub enum Strategy {
    /// Already H.264/HEVC with AAC (or no audio) in an MP4-family container.
    Direct,
    /// Right codecs, other container: copy the streams into MP4.
    Remux,
    /// Anything else: re-encode.
    Encode,
}

/// The pieces of `s` between occurrences of `sep` (`str::split`).
pub open spec fn split_on(s: Seq<char>, sep: char) -> Seq<Seq<char>>
    decreases s.len(),
{
    if s.len() == 0 {
        seq![Seq::<char>::empty()]
    } else {
        let prev = split_on(s.drop_last(), sep);
        if s.last() == sep {
            prev.push(Seq::<char>::empty())
        } else {
            prev.update(prev.len() - 1, prev.last().push(s.last()))
        }
    }
}

/// The comma-separated pieces of `s`.
pub open spec fn split_commas(s: Seq<char>) -> Seq<Seq<char>> {
    split_on(s, ',')
}

/// Unicode `White_Space` (`char::is_whitespace`).
pub open spec fn is_space(c: char) -> bool {
    let u = c as u32;
    (9 <= u <= 13) || u == 32 || u == 0x85 || u == 0xa0 || u == 0x1680 || (0x2000 <= u <= 0x200a)
        || u == 0x2028 || u == 0x2029 || u == 0x202f || u == 0x205f || u == 0x3000
}

/// `s` without leading and trailing whitespace (`str::trim`).
pub open spec fn trim_spaces(s: Seq<char>) -> Seq<char>
    decreases s.len(),
{
    if s.len() > 0 && is_space(s[0]) {
        trim_spaces(s.drop_first())
    } else if s.len() > 0 && is_space(s.last()) {
        trim_spaces(s.drop_last())
    } else {
        s
    }
}

pub open spec fn mp4_family(name: Seq<char>) -> bool {
    name == "mp4"@ || name == "mov"@ || name == "m4v"@ || name == "3gp"@ || name == "3g2"@
}

/// The strategy for a source with these codecs.
pub open spec fn strategy_for(video: Seq<char>, audio: Option<Seq<char>>, container: Seq<char>) -> Strategy {
    let video_ok = video == "h264"@ || video == "hevc"@;
    let audio_ok = match audio { Some(a) => a == "aac"@, None => true };
    if !video_ok || !audio_ok {
        Strategy::Encode
    } else if exists|i: int| 0 <= i < split_commas(spec_to_lowercase(container)).len()
        && mp4_family(trim_spaces(#[trigger] split_commas(spec_to_lowercase(container))[i])) {
        Strategy::Direct
    } else {
        Strategy::Remux
    }
}

pub fn char_is_space(c: char) -> (b: bool)
    ensures
        b == is_space(c),
{
    let u = c as u32;
    (9 <= u && u <= 13) || u == 32 || u == 0x85 || u == 0xa0 || u == 0x1680 || (0x2000 <= u && u <= 0x200a)
        || u == 0x2028 || u == 0x2029 || u == 0x202f || u == 0x205f || u == 0x3000
}

/// Whether `v[a..b]` holds exactly the characters of `lit`.
pub fn range_is(v: &Vec<char>, a: usize, b: usize, lit: &str) -> (r: bool)
    requires
        a <= b <= v@.len(),
    ensures
        r == (v@.subrange(a as int, b as int) == lit@),
{
    let l = chars_of(lit);
    if b - a != l.len() {
        assert(v@.subrange(a as int, b as int).len() != lit@.len());
        return false;
    }
    let mut i: usize = 0;
    while i < l.len()
        invariant
            a <= b <= v@.len(),
            b - a == l@.len(),
            l@ == lit@,
            i <= l@.len(),
            forall|j: int| 0 <= j < i ==> v@[a + j] == l@[j],
        decreases l.len() - i,
    {
        if v[a + i] != l[i] {
            assert(v@.subrange(a as int, b as int)[i as int] != lit@[i as int]);
            return false;
        }
        i = i + 1;
    }
    assert(v@.subrange(a as int, b as int) =~= lit@);
    true
}

proof fn lemma_trim_front(s: Seq<char>, a: int, b: int)
    requires
        0 <= a < b <= s.len(),
        is_space(s[a]),
    ensures
        trim_spaces(s.subrange(a, b)) == trim_spaces(s.subrange(a + 1, b)),
{
    assert(s.subrange(a, b).drop_first() =~= s.subrange(a + 1, b));
}

proof fn lemma_trim_back(s: Seq<char>, a: int, b: int)
    requires
        0 <= a < b <= s.len(),
        !is_space(s[a]),
        is_space(s[b - 1]),
    ensures
        trim_spaces(s.subrange(a, b)) == trim_spaces(s.subrange(a, b - 1)),
{
    assert(s.subrange(a, b).drop_last() =~= s.subrange(a, b - 1));
}

/// The bounds of `v[a..b]` with surrounding whitespace removed.
pub fn trim_range(v: &Vec<char>, a: usize, b: usize) -> (r: (usize, usize))
    requires
        a <= b <= v@.len(),
    ensures
        a <= r.0 <= r.1 <= b,
        trim_spaces(v@.subrange(a as int, b as int)) == v@.subrange(r.0 as int, r.1 as int),
{
    let ghost s = v@;
    let mut x = a;
    while x < b && char_is_space(v[x])
        invariant
            a <= x <= b <= s.len(),
            s == v@,
            trim_spaces(s.subrange(a as int, b as int)) == trim_spaces(s.subrange(x as int, b as int)),
        decreases b - x,
    {
        proof {
            lemma_trim_front(s, x as int, b as int);
        }
        x = x + 1;
    }
    let mut y = b;
    while y > x && char_is_space(v[y - 1])
        invariant
            a <= x <= y <= b <= s.len(),
            s == v@,
            x < y ==> !is_space(s[x as int]),
            trim_spaces(s.subrange(a as int, b as int)) == trim_spaces(s.subrange(x as int, y as int)),
        decreases y - x,
    {
        proof {
            if y - 1 > x {
                lemma_trim_back(s, x as int, y as int);
            }
        }
        y = y - 1;
    }
    proof {
        let t = s.subrange(x as int, y as int);
        if t.len() > 0 {
            assert(t[0] == s[x as int]);
            assert(t.last() == s[y - 1]);
        }
        assert(trim_spaces(t) == t);
    }
    (x, y)
}

/// Whether `v[a..b]`, trimmed, names an MP4-family container.
fn trimmed_is_mp4_family(v: &Vec<char>, a: usize, b: usize) -> (r: bool)
    requires
        a <= b <= v@.len(),
    ensures
        r == mp4_family(trim_spaces(v@.subrange(a as int, b as int))),
{
    let (x, y) = trim_range(v, a, b);
    range_is(v, x, y, "mp4") || range_is(v, x, y, "mov") || range_is(v, x, y, "m4v")
        || range_is(v, x, y, "3gp") || range_is(v, x, y, "3g2")
}

pub proof fn lemma_split_nonempty(s: Seq<char>, sep: char)
    ensures
        split_on(s, sep).len() >= 1,
    decreases s.len(),
{
    if s.len() > 0 {
        lemma_split_nonempty(s.drop_last(), sep);
    }
}

/// Whether one of the comma-separated names in `s` is an MP4-family container.
fn lists_mp4_family(s: &str) -> (r: bool)
    ensures
        r == exists|i: int| 0 <= i < split_commas(s@).len() && mp4_family(trim_spaces(#[trigger] split_commas(s@)[i])),
{
    let v = chars_of(s);
    let n = v.len();
    let mut seg_start: usize = 0;
    let mut found = false;
    let mut i: usize = 0;
    while i < n
        invariant
            n == v@.len(),
            seg_start <= i <= n,
            split_commas(v@.take(i as int)).last() == v@.subrange(seg_start as int, i as int),
            found == exists|j: int| 0 <= j < split_commas(v@.take(i as int)).len() - 1
                && mp4_family(trim_spaces(#[trigger] split_commas(v@.take(i as int))[j])),
        decreases n - i,
    {
        let ghost before = v@.take(i as int);
        let ghost after = v@.take((i + 1) as int);
        proof {
            assert(after.drop_last() =~= before);
            lemma_split_nonempty(before, ',');
        }
        if v[i] == ',' {
            let hit = trimmed_is_mp4_family(&v, seg_start, i);
            proof {
                let sb = split_commas(before);
                let sa = split_commas(after);
                assert(sa == sb.push(Seq::<char>::empty()));
                assert(sa.len() - 1 == sb.len());
                assert forall|j: int| 0 <= j < sb.len() implies sa[j] == sb[j] by {}
                if hit {
                    assert(sa[sb.len() - 1] == sb.last());
                }
                if found {
                    let j = choose|j: int| 0 <= j < sb.len() - 1 && mp4_family(trim_spaces(#[trigger] sb[j]));
                    assert(sa[j] == sb[j]);
                }
                if exists|j: int| 0 <= j < sa.len() - 1 && mp4_family(trim_spaces(#[trigger] sa[j])) {
                    let j = choose|j: int| 0 <= j < sa.len() - 1 && mp4_family(trim_spaces(#[trigger] sa[j]));
                    assert(sa[j] == sb[j]);
                }
                assert(v@.subrange((i + 1) as int, (i + 1) as int) =~= Seq::<char>::empty());
            }
            found = found || hit;
            seg_start = i + 1;
        } else {
            proof {
                let sb = split_commas(before);
                let sa = split_commas(after);
                assert(sa.len() == sb.len());
                assert forall|j: int| 0 <= j < sb.len() - 1 implies sa[j] == sb[j] by {}
                assert(sa.last() =~= v@.subrange(seg_start as int, (i + 1) as int));
                if found {
                    let j = choose|j: int| 0 <= j < sb.len() - 1 && mp4_family(trim_spaces(#[trigger] sb[j]));
                    assert(sa[j] == sb[j]);
                }
                if exists|j: int| 0 <= j < sa.len() - 1 && mp4_family(trim_spaces(#[trigger] sa[j])) {
                    let j = choose|j: int| 0 <= j < sa.len() - 1 && mp4_family(trim_spaces(#[trigger] sa[j]));
                    assert(sa[j] == sb[j]);
                }
            }
        }
        i = i + 1;
    }
    let last_hit = trimmed_is_mp4_family(&v, seg_start, n);
    proof {
        assert(v@.take(n as int) =~= s@);
        let sg = split_commas(s@);
        lemma_split_nonempty(s@, ',');
        if last_hit {
            assert(sg[sg.len() - 1] == sg.last());
        }
        if exists|j: int| 0 <= j < sg.len() && mp4_family(trim_spaces(#[trigger] sg[j])) {
            let j = choose|j: int| 0 <= j < sg.len() && mp4_family(trim_spaces(#[trigger] sg[j]));
            if j < sg.len() - 1 {
                assert(found);
            } else {
                assert(last_hit);
            }
        }
    }
    found || last_hit
}

/// How the editor plays a source with these codecs and container.
pub fn classify_strategy(info: &MediaCodecs) -> (s: Strategy)
    ensures
        s == strategy_for(info.video_codec@, match info.audio_codec { Some(a) => Some(a@), None => None }, info.container@),
{
    let video_ok = str_eq(info.video_codec.as_str(), "h264") || str_eq(info.video_codec.as_str(), "hevc");
    let audio_ok = match &info.audio_codec {
        None => true,
        Some(c) => str_eq(c.as_str(), "aac"),
    };
    if !video_ok || !audio_ok {
        return Strategy::Encode;
    }
    let lower = to_lowercase(info.container.as_str());
    if lists_mp4_family(lower.as_str()) {
        Strategy::Direct
    } else {
        Strategy::Remux
    }
}

// ---------- cache fingerprint ----------

/// The `k` little-endian bytes of `n` (the low ones when `n` needs more).
pub open spec fn le_bytes(n: nat, k: nat) -> Seq<u8>
    decreases k,
{
    if k == 0 {
        Seq::empty()
    } else {
        seq![(n % 256) as u8] + le_bytes(n / 256, (k - 1) as nat)
    }
}

/// `u64::to_le_bytes`.
fn u64_le_bytes(n: u64) -> (r: Vec<u8>)
    ensures
        r@ == le_bytes(n as nat, 8),
{
    let mut r: Vec<u8> = Vec::new();
    let mut x = n;
    let mut i: usize = 0;
    while i < 8
        invariant
            i <= 8,
            r@ + le_bytes(x as nat, (8 - i) as nat) == le_bytes(n as nat, 8),
        decreases 8 - i,
    {
        let ghost before = r@;
        let ghost xo = x;
        r.push((x % 256) as u8);
        x = x / 256;
        i = i + 1;
        assert(le_bytes(xo as nat, (8 - (i - 1)) as nat) == seq![(xo % 256) as u8] + le_bytes(x as nat, (8 - i) as nat));
        assert(r@ + le_bytes(x as nat, (8 - i) as nat) =~= before + le_bytes(xo as nat, (8 - (i - 1)) as nat));
    }
    assert(le_bytes(x as nat, 0) =~= Seq::<u8>::empty());
    assert(r@ + Seq::<u8>::empty() =~= r@);
    r
}

/// The cache fingerprint of a source: SHA-256, in lowercase hex, of its
/// path (UTF-8), then its modification time (Unix seconds) and its size, each
/// as eight little-endian bytes.
pub open spec fn cache_key_of(path: Seq<char>, mtime_secs: u64, size: u64) -> Seq<char> {
    hex_lower(spec_sha256(vstd::utf8::encode_utf8(path) + le_bytes(mtime_secs as nat, 8) + le_bytes(size as nat, 8)))
}

/// The fingerprint that names a source's cached proxies, tracks and
/// waveforms; it changes when the file is modified or resized.
pub fn proxy_cache_key(src_path: &str, mtime_secs: u64, size: u64) -> (r: String)
    ensures
        r@ == cache_key_of(src_path@, mtime_secs, size),
        r@.len() == 64,
{
    let mut data: Vec<u8> = Vec::new();
    let pb = src_path.as_bytes();
    let mut i: usize = 0;
    while i < pb.len()
        invariant
            i <= pb@.len(),
            data@ == pb@.take(i as int),
        decreases pb.len() - i,
    {
        data.push(pb[i]);
        i = i + 1;
        assert(data@ =~= pb@.take(i as int));
    }
    assert(pb@.take(pb@.len() as int) =~= pb@);
    let mut m = u64_le_bytes(mtime_secs);
    let mut z = u64_le_bytes(size);
    let ghost mv = m@;
    let ghost zv = z@;
    data.append(&mut m);
    data.append(&mut z);
    assert(data@ =~= vstd::utf8::encode_utf8(src_path@) + mv + zv);
    let digest = sha256(data.as_slice());
    to_hex_lower(digest.as_slice())
}

/// Cached artifacts of a source, each named by the first 32 characters of
/// its fingerprint.
pub enum CacheFile {
    /// Streams copied into MP4 (`.remux.mp4`).
    Remux,
    /// Re-encoded playback proxy (`.proxy.mp4`).
    Proxy,
    /// One extracted audio track (`.track-N.m4a`).
    Track(u32),
    /// Keyframe times (`.kf.f32`).
    Keyframes,
    /// One track's waveform peaks (`.wave-N.f32`).
    Waveform(u32),
    /// The editing session saved for the source (`.project.json`).
    Project,
}

pub open spec fn cache_suffix(kind: CacheFile) -> Seq<char> {
    match kind {
        CacheFile::Remux => ".remux.mp4"@,
        CacheFile::Proxy => ".proxy.mp4"@,
        CacheFile::Track(n) => ".track-"@ + dec(n as nat) + ".m4a"@,
        CacheFile::Keyframes => ".kf.f32"@,
        CacheFile::Waveform(n) => ".wave-"@ + dec(n as nat) + ".f32"@,
        CacheFile::Project => ".project.json"@,
    }
}

/// The file name of a cached artifact for fingerprint `key` (ASCII, at
/// least 32 characters, as fingerprints are).
pub fn cache_file_name(key: &str, kind: CacheFile) -> (r: String)
    requires
        key@.len() >= 32,
    ensures
        r@ == key@.take(32) + cache_suffix(kind),
{
    let v = chars_of(key);
    let mut r = String::new();
    let mut i: usize = 0;
    while i < 32
        invariant
            i <= 32 <= v@.len(),
            r@ == v@.take(i as int),
        decreases 32 - i,
    {
        r.push(v[i]);
        i = i + 1;
        assert(r@ =~= v@.take(i as int));
    }
    match kind {
        CacheFile::Remux => r.append(".remux.mp4"),
        CacheFile::Proxy => r.append(".proxy.mp4"),
        CacheFile::Track(n) => {
            r.append(".track-");
            push_dec(&mut r, n as u64);
            r.append(".m4a");
        },
        CacheFile::Keyframes => r.append(".kf.f32"),
        CacheFile::Waveform(n) => {
            r.append(".wave-");
            push_dec(&mut r, n as u64);
            r.append(".f32");
        },
        CacheFile::Project => r.append(".project.json"),
    }
    r
}

/// The file name of one extracted audio track of a source.
pub fn cache_path_for(key: &str, track_index: u32) -> (r: String)
    requires
        key@.len() >= 32,
    ensures
        r@ == key@.take(32) + cache_suffix(CacheFile::Track(track_index)),
{
    cache_file_name(key, CacheFile::Track(track_index))
}

// ---------- media server ----------

/// The URL under which the media server serves `path`.
pub open spec fn media_url_text(port: u16, token: Seq<char>, path: Seq<char>) -> Seq<char> {
    "http://127.0.0.1:"@ + dec(port as nat) + "/vid?token="@ + token + "&p="@
        + percent_encoded(vstd::utf8::encode_utf8(path))
}

/// The URL of `path` on the media server at `port` with session `token`.
pub fn media_url(port: u16, token: &str, path: &str) -> (r: String)
    ensures
        r@ == media_url_text(port, token@, path@),
{
    let mut r = owned("http://127.0.0.1:");
    push_dec(&mut r, port as u64);
    r.append("/vid?token=");
    r.append(token);
    r.append("&p=");
    let e = url_encode(path);
    r.append(e.as_str());
    r
}

/// The `Host` values the server answers: its loopback address or
/// `localhost`, each with its port.
pub open spec fn host_ok(host: Option<Seq<char>>, port: u16) -> bool {
    match host {
        Some(h) => h == "127.0.0.1:"@ + dec(port as nat) || h == "localhost:"@ + dec(port as nat),
        None => false,
    }
}

/// Why the server refuses a request, or `None` when it may serve it: a
/// foreign `Host` (DNS rebinding), a wrong session token, or a path never
/// registered.
pub open spec fn refusal(host: Option<Seq<char>>, port: u16, token: Seq<char>, session_token: Seq<char>, registered: bool) -> Option<Seq<char>> {
    if !host_ok(host, port) {
        Some("bad host"@)
    } else if token != session_token {
        Some("bad token"@)
    } else if !registered {
        Some("not allowed"@)
    } else {
        None
    }
}

/// Whether the media server answers a request: the refusal text, or `None`
/// when the request may be served.
pub fn check_request(host: Option<&str>, port: u16, token: &str, session_token: &str, registered: bool) -> (r: Option<&'static str>)
    ensures
        match r { Some(m) => Some(m@), None => None::<Seq<char>> } == refusal(
            match host { Some(h) => Some(h@), None => None },
            port,
            token@,
            session_token@,
            registered,
        ),
{
    let ok = match host {
        Some(h) => {
            let mut a = owned("127.0.0.1:");
            push_dec(&mut a, port as u64);
            let mut b = owned("localhost:");
            push_dec(&mut b, port as u64);
            str_eq(h, a.as_str()) || str_eq(h, b.as_str())
        },
        None => false,
    };
    if !ok {
        Some("bad host")
    } else if !str_eq(token, session_token) {
        Some("bad token")
    } else if !registered {
        Some("not allowed")
    } else {
        None
    }
}

/// Value of a run of decimal digits.
pub open spec fn digits_value(s: Seq<char>) -> nat
    decreases s.len(),
{
    if s.len() == 0 {
        0
    } else {
        digits_value(s.drop_last()) * 10 + ((s.last() as u32) - 48) as nat
    }
}

pub open spec fn all_digits(s: Seq<char>) -> bool {
    forall|i: int| 0 <= i < s.len() ==> '0' <= #[trigger] s[i] <= '9'
}

/// `u64::from_str`: an optional `+`, then one or more ASCII digits, whose
/// value fits in 64 bits.
pub open spec fn parsed_u64(s: Seq<char>) -> Option<u64> {
    let body = if s.len() > 0 && s[0] == '+' { s.drop_first() } else { s };
    if body.len() == 0 || !all_digits(body) || digits_value(body) > u64::MAX {
        None
    } else {
        Some(digits_value(body) as u64)
    }
}

proof fn lemma_digits_monotone(s: Seq<char>, i: int)
    requires
        0 <= i <= s.len(),
        all_digits(s),
    ensures
        digits_value(s.take(i)) <= digits_value(s),
    decreases s.len() - i,
{
    if i < s.len() {
        lemma_digits_monotone(s, i + 1);
        assert(s.take(i + 1).drop_last() =~= s.take(i));
        assert(s.take(i + 1).last() == s[i]);
        assert(digits_value(s.take(i + 1)) >= digits_value(s.take(i))) by (nonlinear_arith)
            requires
                digits_value(s.take(i + 1)) == digits_value(s.take(i)) * 10 + ((s[i] as u32) - 48) as nat;
    } else {
        assert(s.take(i) =~= s);
    }
}

/// Parses an unsigned decimal as `str::parse::<u64>` does.
pub fn parse_u64(s: &str) -> (r: Option<u64>)
    ensures
        r == parsed_u64(s@),
{
    let v = chars_of(s);
    let start: usize = if v.len() > 0 && v[0] == '+' { 1 } else { 0 };
    let ghost body = if s@.len() > 0 && s@[0] == '+' { s@.drop_first() } else { s@ };
    assert(body =~= v@.skip(start as int));
    if start == v.len() {
        return None;
    }
    let mut acc: u64 = 0;
    let mut i: usize = start;
    while i < v.len()
        invariant
            start <= i <= v@.len(),
            v@ == s@,
            body == v@.skip(start as int),
            body == (if s@.len() > 0 && s@[0] == '+' { s@.drop_first() } else { s@ }),
            body.len() > 0,
            acc as nat == digits_value(body.take(i - start)),
            all_digits(body.take(i - start)),
        decreases v.len() - i,
    {
        let c = v[i];
        let ghost pre = body.take(i - start);
        let ghost post = body.take(i + 1 - start);
        proof {
            assert(post.drop_last() =~= pre);
            assert(post.last() == c);
        }
        if !('0' <= c && c <= '9') {
            proof {
                assert(body[i - start] == c);
            }
            return None;
        }
        let d = (c as u32 - 48) as u64;
        if acc > (u64::MAX - d) / 10 {
            proof {
                assert(digits_value(post) > u64::MAX) by (nonlinear_arith)
                    requires
                        acc > (u64::MAX - d) / 10,
                        digits_value(post) == acc * 10 + d,
                        d <= 9;
                if all_digits(body) {
                    lemma_digits_monotone(body, i + 1 - start);
                    assert(body.take(i + 1 - start) == post);
                }
            }
            return None;
        }
        assert(acc * 10 + d <= u64::MAX) by (nonlinear_arith)
            requires
                acc <= (u64::MAX - d) / 10,
                d <= 9;
        acc = acc * 10 + d;
        i = i + 1;
        assert(all_digits(post));
    }
    assert(body.take(v@.len() - start) =~= body);
    Some(acc)
}

/// Why `str::parse` refused an integer (`std::num::IntErrorKind`).
#[derive(Clone, Copy, Debug, PartialEq, Eq, Structural)]
pub enum IntParseFailure {
    Empty,
    InvalidDigit,
    PosOverflow,
    NegOverflow,
}

/// The largest magnitude a parsed `isize` may have: `isize::MAX`, one more
/// when negative.
pub open spec fn isize_limit(neg: bool) -> nat {
    if neg { (isize::MAX + 1) as nat } else { isize::MAX as nat }
}

/// Reading the digits of `body` from position `i` on, those before it read
/// without trouble.
pub open spec fn scan_isize(body: Seq<char>, neg: bool, i: nat) -> Result<isize, IntParseFailure>
    decreases body.len() - i,
{
    if i >= body.len() {
        Ok((if neg { -(digits_value(body) as int) } else { digits_value(body) as int }) as isize)
    } else if !('0' <= body[i as int] <= '9') {
        Err(IntParseFailure::InvalidDigit)
    } else if digits_value(body.take(i + 1 as int)) > isize_limit(neg) {
        Err(if neg { IntParseFailure::NegOverflow } else { IntParseFailure::PosOverflow })
    } else {
        scan_isize(body, neg, i + 1)
    }
}

/// `str::parse::<isize>`: an optional `+` or `-`, then ASCII digits. Read
/// left to right, the first character that is no digit, or the first digit
/// that takes the value out of range, decides the error.
pub open spec fn parsed_isize(s: Seq<char>) -> Result<isize, IntParseFailure> {
    if s.len() == 0 {
        Err(IntParseFailure::Empty)
    } else {
        let body = if s[0] == '+' || s[0] == '-' { s.drop_first() } else { s };
        if body.len() == 0 { Err(IntParseFailure::InvalidDigit) } else { scan_isize(body, s[0] == '-', 0) }
    }
}

/// Parses a signed decimal as `str::parse::<isize>` does.
pub fn parse_isize(s: &str) -> (r: Result<isize, IntParseFailure>)
    ensures
        r == parsed_isize(s@),
{
    let v = chars_of(s);
    if v.len() == 0 {
        return Err(IntParseFailure::Empty);
    }
    let neg = v[0] == '-';
    let start: usize = if v[0] == '+' || v[0] == '-' { 1 } else { 0 };
    let ghost body = if s@[0] == '+' || s@[0] == '-' { s@.drop_first() } else { s@ };
    assert(body =~= v@.skip(start as int));
    if start == v.len() {
        return Err(IntParseFailure::InvalidDigit);
    }
    let limit: u64 = if neg { (isize::MAX as u64) + 1 } else { isize::MAX as u64 };
    let mut acc: u64 = 0;
    let mut i: usize = start;
    assert(body.take(0) =~= Seq::<char>::empty());
    assert(parsed_isize(s@) == scan_isize(body, neg, 0));
    while i < v.len()
        invariant
            start <= i <= v@.len(),
            v@ == s@,
            start == (if s@[0] == '+' || s@[0] == '-' { 1int } else { 0int }),
            neg == (s@[0] == '-'),
            body == v@.skip(start as int),
            body.len() > 0,
            limit == isize_limit(neg),
            acc as nat == digits_value(body.take(i - start)),
            acc <= limit,
            scan_isize(body, neg, 0) == scan_isize(body, neg, (i - start) as nat),
            parsed_isize(s@) == scan_isize(body, neg, 0),
        decreases v.len() - i,
    {
        let c = v[i];
        let ghost k: nat = (i - start) as nat;
        let ghost post = body.take(k + 1 as int);
        proof {
            assert(body[k as int] == c);
            assert(post.drop_last() =~= body.take(k as int));
            assert(post.last() == c);
        }
        if !('0' <= c && c <= '9') {
            assert(scan_isize(body, neg, k) == Err::<isize, IntParseFailure>(IntParseFailure::InvalidDigit));
            return Err(IntParseFailure::InvalidDigit);
        }
        let d = (c as u32 - 48) as u64;
        assert(digits_value(post) == acc * 10 + d);
        if acc > (limit - d) / 10 {
            assert(digits_value(post) > limit) by (nonlinear_arith)
                requires
                    acc > (limit - d) / 10,
                    digits_value(post) == acc * 10 + d,
                    d <= 9,
                    limit >= 9;
            assert(scan_isize(body, neg, k) == Err::<isize, IntParseFailure>(
                if neg { IntParseFailure::NegOverflow } else { IntParseFailure::PosOverflow }));
            return Err(if neg { IntParseFailure::NegOverflow } else { IntParseFailure::PosOverflow });
        }
        assert(acc * 10 + d <= limit) by (nonlinear_arith)
            requires
                acc <= (limit - d) / 10,
                d <= 9,
                limit >= 9;
        acc = acc * 10 + d;
        i = i + 1;
    }
    assert(body.take(body.len() as int) =~= body);
    if neg {
        Ok((0i128 - acc as i128) as isize)
    } else {
        Ok(acc as isize)
    }
}

/// The message `ParseIntError` displays for each failure.
pub open spec fn int_failure_text(k: IntParseFailure) -> Seq<char> {
    match k {
        IntParseFailure::Empty => "cannot parse integer from empty string"@,
        IntParseFailure::InvalidDigit => "invalid digit found in string"@,
        IntParseFailure::PosOverflow => "number too large to fit in target type"@,
        IntParseFailure::NegOverflow => "number too small to fit in target type"@,
    }
}

/// The message of a failed integer parse.
pub fn int_failure_message(k: IntParseFailure) -> (r: String)
    ensures
        r@ == int_failure_text(k),
{
    match k {
        IntParseFailure::Empty => owned("cannot parse integer from empty string"),
        IntParseFailure::InvalidDigit => owned("invalid digit found in string"),
        IntParseFailure::PosOverflow => owned("number too large to fit in target type"),
        IntParseFailure::NegOverflow => owned("number too small to fit in target type"),
    }
}

/// How the server answers a request for a file of `total` bytes.
#[derive(Clone, Copy, Debug, PartialEq, Eq, Structural)]
pub enum RangeReply {
    /// `200`: the whole file.
    Whole,
    /// `206`: bytes `start..=end` of the file.
    Partial { start: u64, end: u64 },
    /// `416`: the range cannot be met.
    Unsatisfiable,
}

/// Position of the only `-` in `s`, when there is exactly one.
pub open spec fn single_dash(s: Seq<char>) -> Option<int> {
    if exists|i: int| 0 <= i < s.len() && s[i] == '-' && forall|j: int| 0 <= j < s.len() && j != i ==> s[j] != '-' {
        Some(choose|i: int| 0 <= i < s.len() && s[i] == '-' && forall|j: int| 0 <= j < s.len() && j != i ==> s[j] != '-')
    } else {
        None
    }
}

/// The reply to a `Range` header (`bytes=START-END`, either bound optional in
/// the way the server reads it): unparseable starts count as 0, an empty or
/// unparseable end as the last byte, and the end is held to the last byte.
/// Headers of another shape get the whole file.
pub open spec fn range_reply(range: Option<Seq<char>>, total: u64) -> RangeReply {
    let last: u64 = if total > 0 { (total - 1) as u64 } else { 0 };
    match range {
        Some(r) => if r.len() >= 6 && r.take(6) == "bytes="@ {
            let rest = r.skip(6);
            match single_dash(rest) {
                Some(d) => {
                    let start = match parsed_u64(rest.take(d)) { Some(v) => v, None => 0 };
                    let tail = rest.skip(d + 1);
                    let end = if tail.len() == 0 { last } else {
                        match parsed_u64(tail) { Some(v) => if v < last { v } else { last }, None => last }
                    };
                    if total == 0 || start > end {
                        RangeReply::Unsatisfiable
                    } else {
                        RangeReply::Partial { start, end }
                    }
                },
                None => RangeReply::Whole,
            }
        } else {
            RangeReply::Whole
        },
        None => RangeReply::Whole,
    }
}

pub fn string_of_range(v: &Vec<char>, a: usize, b: usize) -> (r: String)
    requires
        a <= b <= v@.len(),
    ensures
        r@ == v@.subrange(a as int, b as int),
{
    let mut r = String::new();
    let mut i = a;
    while i < b
        invariant
            a <= i <= b <= v@.len(),
            r@ == v@.subrange(a as int, i as int),
        decreases b - i,
    {
        r.push(v[i]);
        i = i + 1;
        assert(r@ =~= v@.subrange(a as int, i as int));
    }
    r
}

/// The reply to a request for a file of `total` bytes with this `Range` header.
pub fn plan_range(range: Option<&str>, total: u64) -> (r: RangeReply)
    ensures
        r == range_reply(match range { Some(h) => Some(h@), None => None }, total),
{
    let last: u64 = if total > 0 { total - 1 } else { 0 };
    let h = match range {
        Some(h) => h,
        None => return RangeReply::Whole,
    };
    let v = chars_of(h);
    let n = v.len();
    if !(n >= 6 && range_is(&v, 0, 6, "bytes=")) {
        proof {
            if n >= 6 {
                assert(v@.subrange(0, 6) =~= v@.take(6));
            }
        }
        return RangeReply::Whole;
    }
    assert(v@.subrange(0, 6) =~= v@.take(6));
    let ghost rest = v@.skip(6);
    let mut dashes: usize = 0;
    let mut pos: usize = 6;
    let mut i: usize = 6;
    while i < n
        invariant
            6 <= i <= n,
            n == v@.len(),
            rest == v@.skip(6),
            dashes <= i - 6,
            dashes == 0 ==> forall|j: int| 6 <= j < i ==> v@[j] != '-',
            dashes >= 1 ==> 6 <= pos < i && v@[pos as int] == '-',
            dashes == 1 ==> forall|j: int| 6 <= j < i && j != pos ==> v@[j] != '-',
            dashes >= 2 ==> exists|j: int| 6 <= j < i && j != pos && v@[j] == '-',
        decreases n - i,
    {
        if v[i] == '-' {
            if dashes == 0 {
                pos = i;
            }
            dashes = dashes + 1;
        }
        i = i + 1;
    }
    let ghost d = pos - 6;
    if dashes != 1 {
        proof {
            if dashes == 0 {
                assert forall|k: int| 0 <= k < rest.len() implies rest[k] != '-' by {
                    assert(rest[k] == v@[k + 6]);
                }
            } else {
                let j = choose|j: int| 6 <= j < n && j != pos && v@[j] == '-';
                assert(rest[j - 6] == '-' && rest[d] == '-');
            }
            assert(single_dash(rest) is None);
        }
        return RangeReply::Whole;
    }
    proof {
        assert(rest[d] == '-');
        assert forall|k: int| 0 <= k < rest.len() && k != d implies rest[k] != '-' by {
            assert(rest[k] == v@[k + 6]);
        }
        let c = choose|k: int| 0 <= k < rest.len() && rest[k] == '-' && forall|j: int| 0 <= j < rest.len() && j != k ==> rest[j] != '-';
        assert(c == d);
        assert(single_dash(rest) == Some(d));
    }
    let head = string_of_range(&v, 6, pos);
    assert(head@ =~= rest.take(d));
    let start: u64 = match parse_u64(head.as_str()) {
        Some(x) => x,
        None => 0,
    };
    let tail = string_of_range(&v, pos + 1, n);
    assert(tail@ =~= rest.skip(d + 1));
    let end: u64 = if tail.unicode_len() == 0 {
        last
    } else {
        match parse_u64(tail.as_str()) {
            Some(x) => if x < last { x } else { last },
            None => last,
        }
    };
    if total == 0 || start > end {
        RangeReply::Unsatisfiable
    } else {
        RangeReply::Partial { start, end }
    }
}

/// Why a session token could not be made.
#[derive(Clone, Copy, Debug, PartialEq, Eq, Structural)]
pub enum TokenError {
    /// The operating system's random source failed.
    RandomSourceUnavailable,
}

/// A fresh session token: 32 bytes from the operating system's generator,
/// as 64 lowercase hex characters.
pub fn generate_session_token() -> (r: Result<String, TokenError>)
    ensures
        r matches Ok(t) ==> exists|bytes: Seq<u8>| bytes.len() == 32 && t@ == #[trigger] hex_lower(bytes),
{
    let mut buf: Vec<u8> = Vec::new();
    let mut i: usize = 0;
    while i < 32
        invariant
            i <= 32,
            buf@.len() == i,
        decreases 32 - i,
    {
        buf.push(0u8);
        i = i + 1;
    }
    match os_random(&mut buf) {
        Ok(()) => {
            let t = to_hex_lower(buf.as_slice());
            assert(buf@.len() == 32 && t@ == hex_lower(buf@));
            Ok(t)
        },
        Err(_) => Err(TokenError::RandomSourceUnavailable),
    }
}

// ---------- playback proxies ----------

/// The outcome of preparing a source for playback.
pub struct ProxyResult {
    /// What the player opens.
    pub play_path: String,
    /// It already existed (or the source plays as is).
    pub cached: bool,
    /// `direct`, `remux`, `encode (ENCODER)` or `encode (cached)`.
    pub strategy: String,
}

/// The result of a proxy step: the file played, whether it was cached, and
/// the strategy label.
pub open spec fn proxy_label(strategy: Strategy, encoder: Option<Seq<char>>) -> Seq<char> {
    match strategy {
        Strategy::Direct => "direct"@,
        Strategy::Remux => "remux"@,
        Strategy::Encode => match encoder {
            Some(e) => "encode ("@ + e + ")"@,
            None => "encode (cached)"@,
        },
    }
}

/// The report of a proxy step. `encoder` is the encoder that produced a new
/// proxy, or `None` for a cached one.
pub fn proxy_result(play_path: String, cached: bool, strategy: Strategy, encoder: Option<&str>) -> (r: ProxyResult)
    ensures
        r.play_path@ == play_path@,
        r.cached == cached,
        r.strategy@ == proxy_label(strategy, match encoder { Some(e) => Some(e@), None => None }),
{
    let label = match strategy {
        Strategy::Direct => owned("direct"),
        Strategy::Remux => owned("remux"),
        Strategy::Encode => match encoder {
            Some(e) => {
                let mut l = owned("encode (");
                l.append(e);
                l.append(")");
                l
            },
            None => owned("encode (cached)"),
        },
    };
    ProxyResult { play_path, cached, strategy: label }
}

/// The remux pass: video and first audio stream copied into MP4.
pub open spec fn remux_arg_list(src: Seq<char>, out: Seq<char>) -> Seq<Seq<char>> {
    seq![
        "-y"@, "-hide_banner"@, "-loglevel"@, "error"@, "-progress"@, "pipe:1"@, "-nostats"@, "-i"@, src,
        "-map"@, "0:v:0?"@, "-map"@, "0:a:0?"@, "-c"@, "copy"@, "-map_chapters"@, "-1"@, out,
    ]
}

/// The ffmpeg arguments of the remux pass.
pub fn remux_args(src: &str, out: &str) -> (v: Vec<String>)
    ensures
        v.deep_view() == remux_arg_list(src@, out@),
{
    let mut v: Vec<String> = Vec::new();
    push_str_arg(&mut v, "-y");
    push_str_arg(&mut v, "-hide_banner");
    push_str_arg(&mut v, "-loglevel");
    push_str_arg(&mut v, "error");
    push_str_arg(&mut v, "-progress");
    push_str_arg(&mut v, "pipe:1");
    push_str_arg(&mut v, "-nostats");
    push_str_arg(&mut v, "-i");
    push_str_arg(&mut v, src);
    push_str_arg(&mut v, "-map");
    push_str_arg(&mut v, "0:v:0?");
    push_str_arg(&mut v, "-map");
    push_str_arg(&mut v, "0:a:0?");
    push_str_arg(&mut v, "-c");
    push_str_arg(&mut v, "copy");
    push_str_arg(&mut v, "-map_chapters");
    push_str_arg(&mut v, "-1");
    push_str_arg(&mut v, out);
    assert(v.deep_view() =~= remux_arg_list(src@, out@));
    v
}

/// The proxy encode: scaled to at most 1280 wide, quick-quality video with
/// a keyframe every 15 frames (for scrubbing), 96 kb/s AAC, `+faststart`.
pub open spec fn proxy_arg_list(src: Seq<char>, encoder: Seq<char>, out: Seq<char>) -> Seq<Seq<char>> {
    seq![
        "-y"@, "-hide_banner"@, "-loglevel"@, "error"@, "-progress"@, "pipe:1"@, "-nostats"@, "-i"@, src,
        "-vf"@, "scale='min(1280,iw)':-2"@,
    ] + crate::encoder_cascade::proxy_encoder_args(encoder) + seq![
        "-g"@, "15"@, "-keyint_min"@, "15"@, "-sc_threshold"@, "0"@, "-c:a"@, "aac"@, "-b:a"@, "96k"@,
        "-movflags"@, "+faststart"@, out,
    ]
}

/// The ffmpeg arguments of the proxy encode with `encoder`.
pub fn proxy_args(src: &str, encoder: &str, out: &str) -> (v: Vec<String>)
    ensures
        v.deep_view() == proxy_arg_list(src@, encoder@, out@),
{
    let mut v: Vec<String> = Vec::new();
    push_str_arg(&mut v, "-y");
    push_str_arg(&mut v, "-hide_banner");
    push_str_arg(&mut v, "-loglevel");
    push_str_arg(&mut v, "error");
    push_str_arg(&mut v, "-progress");
    push_str_arg(&mut v, "pipe:1");
    push_str_arg(&mut v, "-nostats");
    push_str_arg(&mut v, "-i");
    push_str_arg(&mut v, src);
    push_str_arg(&mut v, "-vf");
    push_str_arg(&mut v, "scale='min(1280,iw)':-2");
    let ghost head = v.deep_view();
    let enc = crate::encoder_cascade::encoder_args(encoder);
    let mut i: usize = 0;
    while i < enc.len()
        invariant
            i <= enc@.len(),
            v.deep_view() == head + enc.deep_view().take(i as int),
        decreases enc.len() - i,
    {
        push_str_arg(&mut v, enc[i].as_str());
        i = i + 1;
        assert(v.deep_view() =~= head + enc.deep_view().take(i as int));
    }
    assert(enc.deep_view().take(enc@.len() as int) =~= enc.deep_view());
    push_str_arg(&mut v, "-g");
    push_str_arg(&mut v, "15");
    push_str_arg(&mut v, "-keyint_min");
    push_str_arg(&mut v, "15");
    push_str_arg(&mut v, "-sc_threshold");
    push_str_arg(&mut v, "0");
    push_str_arg(&mut v, "-c:a");
    push_str_arg(&mut v, "aac");
    push_str_arg(&mut v, "-b:a");
    push_str_arg(&mut v, "96k");
    push_str_arg(&mut v, "-movflags");
    push_str_arg(&mut v, "+faststart");
    push_str_arg(&mut v, out);
    assert(v.deep_view() =~= proxy_arg_list(src@, encoder@, out@));
    v
}


/// A partial reply names a non-empty range inside the file.
pub proof fn law_range_reply_within_file(range: Option<Seq<char>>, total: u64)
    ensures
        range_reply(range, total) matches RangeReply::Partial { start, end } ==> start <= end && end < total,
{
}

proof fn lemma_digit_char_value(k: nat)
    requires
        k < 10,
    ensures
        (crate::text::digit_char(k) as u32) == k + 48,
        '0' <= crate::text::digit_char(k) <= '9',
{
    let b = (k + 48) as u8;
    assert(b as int == k + 48);
    assert((b as char) as u32 == b as u32);
}

proof fn lemma_dec_digits(n: nat)
    ensures
        all_digits(dec(n)),
        digits_value(dec(n)) == n,
        dec(n).len() > 0,
    decreases n,
{
    if n >= 10 {
        lemma_dec_digits(n / 10);
        let d = dec(n / 10);
        lemma_digit_char_value(n % 10);
        assert(dec(n) == d.push(crate::text::digit_char(n % 10)));
        assert(dec(n).drop_last() =~= d);
        assert(dec(n).last() == crate::text::digit_char(n % 10));
        assert(digits_value(dec(n)) == digits_value(d) * 10 + (n % 10));
        assert(n == (n / 10) * 10 + n % 10) by (nonlinear_arith);
        assert forall|i: int| 0 <= i < dec(n).len() implies '0' <= #[trigger] dec(n)[i] <= '9' by {
            if i < d.len() {
                assert(dec(n)[i] == d[i]);
            }
        }
    } else {
        lemma_digit_char_value(n);
        assert(dec(n) == seq![crate::text::digit_char(n)]);
        assert(dec(n).drop_last() =~= Seq::<char>::empty());
        assert(dec(n).last() == crate::text::digit_char(n));
        assert(digits_value(dec(n)) == digits_value(Seq::<char>::empty()) * 10 + n);
    }
}

/// Reading back a printed number gives the number.
pub proof fn law_parse_reads_printed_numbers(n: u64)
    ensures
        parsed_u64(dec(n as nat)) == Some(n),
{
    lemma_dec_digits(n as nat);
    assert(dec(n as nat)[0] != '+');
}

proof fn lemma_requested_range(s: u64, tail: Seq<char>, total: u64)
    requires
        forall|j: int| 0 <= j < tail.len() ==> tail[j] != '-',
    ensures ({
        let rest = dec(s as nat) + "-"@ + tail;
        &&& ("bytes="@ + rest).len() >= 6
        &&& ("bytes="@ + rest).take(6) == "bytes="@
        &&& ("bytes="@ + rest).skip(6) == rest
        &&& single_dash(rest) == Some(dec(s as nat).len() as int)
        &&& rest.take(dec(s as nat).len() as int) == dec(s as nat)
        &&& rest.skip(dec(s as nat).len() as int + 1) == tail
        &&& parsed_u64(dec(s as nat)) == Some(s)
    }),
{
    reveal_strlit("bytes=");
    reveal_strlit("-");
    let d = dec(s as nat);
    let rest = d + "-"@ + tail;
    let r = "bytes="@ + rest;
    lemma_dec_digits(s as nat);
    law_parse_reads_printed_numbers(s);
    assert(r.take(6) =~= "bytes="@);
    assert(r.skip(6) =~= rest);
    assert(rest.take(d.len() as int) =~= d);
    assert(rest.skip(d.len() as int + 1) =~= tail);
    let k = d.len() as int;
    assert(rest[k] == '-');
    assert forall|j: int| 0 <= j < rest.len() && j != k implies rest[j] != '-' by {
        if j < k {
            assert(rest[j] == d[j]);
        } else {
            assert(rest[j] == tail[j - k - 1]);
        }
    }
    assert(exists|i: int| 0 <= i < rest.len() && rest[i] == '-' && forall|j: int| 0 <= j < rest.len() && j != i ==> rest[j] != '-');
    let c = choose|i: int| 0 <= i < rest.len() && rest[i] == '-' && forall|j: int| 0 <= j < rest.len() && j != i ==> rest[j] != '-';
    if c != k {
        assert(rest[k] != '-');
    }
}

/// A request for `bytes=S-` is answered from byte `S` to the file's last
/// byte, and one for `bytes=S-E` from byte `S` to `E` (held to the last
/// byte); a start past the end, or an empty file, cannot be met.
pub proof fn law_range_reply_reads_the_requested_bytes(s: u64, e: u64, total: u64)
    ensures
        range_reply(Some("bytes="@ + dec(s as nat) + "-"@), total) == (if s < total {
            RangeReply::Partial { start: s, end: (total - 1) as u64 }
        } else {
            RangeReply::Unsatisfiable
        }),
        range_reply(Some("bytes="@ + dec(s as nat) + "-"@ + dec(e as nat)), total) == (if total > 0 && s <= e && s < total {
            RangeReply::Partial { start: s, end: if e < total { e } else { (total - 1) as u64 } }
        } else {
            RangeReply::Unsatisfiable
        }),
{
    lemma_dec_digits(e as nat);
    assert forall|j: int| 0 <= j < dec(e as nat).len() implies dec(e as nat)[j] != '-' by {
        assert('0' <= dec(e as nat)[j] <= '9');
    }
    lemma_requested_range(s, Seq::empty(), total);
    lemma_requested_range(s, dec(e as nat), total);
    law_parse_reads_printed_numbers(e);
    assert("bytes="@ + dec(s as nat) + "-"@ =~= "bytes="@ + (dec(s as nat) + "-"@ + Seq::<char>::empty()));
    assert("bytes="@ + dec(s as nat) + "-"@ + dec(e as nat) =~= "bytes="@ + (dec(s as nat) + "-"@ + dec(e as nat)));
}

/// Largest project file the editor loads (bytes).
pub const PROJECT_FILE_MAX_BYTES: u64 = 1_000_000;

/// Whether a project file of `len` bytes may be loaded: refused, with its
/// size in the message, above one million bytes.
pub fn check_project_size(len: u64) -> (r: Result<(), String>)
    ensures
        r is Ok <==> len <= PROJECT_FILE_MAX_BYTES,
        r matches Err(m) ==> m@ == "project file unreasonably large ("@ + dec(len as nat) + " bytes); refusing to load"@,
{
    if len > PROJECT_FILE_MAX_BYTES {
        let mut m = owned("project file unreasonably large (");
        push_dec(&mut m, len);
        m.append(" bytes); refusing to load");
        Err(m)
    } else {
        Ok(())
    }
}

} // verus!
