//! The diagnostic log: a bounded ring of timestamped lines that the user
//! copies on request, and the UTC calendar arithmetic its timestamps use.

use vstd::prelude::*;
use std::collections::VecDeque;
use std::sync::atomic::AtomicBool;
use crate::replay::audio::AudioDevice;
use crate::replay::capture::MonitorInfo;
use crate::text::{dec, dec_padded, owned, push_dec, push_dec_padded};

verus! {

/// Most entries the ring keeps; older ones fall off the front.
pub const DIAG_CAP: usize = 1000;

/// The in-memory diagnostic ring, oldest entry first.
pub struct DiagLog {
    entries: VecDeque<String>,
}

impl View for DiagLog {
    type V = Seq<Seq<char>>;

    closed spec fn view(&self) -> Seq<Seq<char>> {
        self.entries.deep_view()
    }
}

/// The ring after appending `e`: the oldest entry drops when it is full.
pub open spec fn ring_push(log: Seq<Seq<char>>, e: Seq<char>) -> Seq<Seq<char>> {
    if log.len() >= DIAG_CAP {
        log.drop_first().push(e)
    } else {
        log.push(e)
    }
}

/// Each entry followed by a newline.
pub open spec fn lines(log: Seq<Seq<char>>) -> Seq<char>
    decreases log.len(),
{
    if log.len() == 0 {
        Seq::empty()
    } else {
        lines(log.drop_last()) + log.last() + seq!['\n']
    }
}

impl DiagLog {
    /// Holds at most `DIAG_CAP` entries.
    pub open spec fn wf(&self) -> bool {
        self@.len() <= DIAG_CAP
    }

    /// An empty log.
    pub fn new() -> (l: DiagLog)
        ensures
            l.wf(),
            l@ == Seq::<Seq<char>>::empty(),
    {
        let l = DiagLog { entries: VecDeque::new() };
        assert(l@ =~= Seq::<Seq<char>>::empty());
        l
    }

    /// Number of entries.
    pub fn len(&self) -> (n: usize)
        ensures
            n == self@.len(),
    {
        self.entries.len()
    }

    /// Appends `entry`, dropping the oldest when the ring is full.
    pub fn push(&mut self, entry: String)
        requires
            old(self).wf(),
        ensures
            final(self).wf(),
            final(self)@ == ring_push(old(self)@, entry@),
    {
        let ghost before = self@;
        let ghost ev = entry@;
        if self.entries.len() >= DIAG_CAP {
            self.entries.pop_front();
            assert(self@ =~= before.drop_first());
        }
        let ghost mid = self@;
        self.entries.push_back(entry);
        assert(self@ =~= mid.push(ev));
    }

    /// The whole log as text, one line per entry.
    pub fn snapshot(&self) -> (s: String)
        ensures
            s@ == lines(self@),
    {
        let mut out = String::new();
        let mut i: usize = 0;
        let n = self.entries.len();
        while i < n
            invariant
                n == self@.len(),
                i <= n,
                out@ == lines(self@.take(i as int)),
            decreases n - i,
        {
            out.append(self.entries[i].as_str());
            out.push('\n');
            i = i + 1;
            assert(self@.take(i as int).drop_last() =~= self@.take((i - 1) as int));
        }
        assert(self@.take(n as int) =~= self@);
        out
    }
}

/// The switch for verbose diagnostics (window titles of non-game windows).
/// Read and written from several threads; nothing is known of its value
/// beyond what each read returns.
pub struct DiagVerbose {
    flag: AtomicBool,
}

impl DiagVerbose {
    pub fn new(enabled: bool) -> (d: DiagVerbose) {
        DiagVerbose { flag: AtomicBool::new(enabled) }
    }

    /// The current setting.
    pub fn enabled(&self) -> bool {
        self.flag.load(std::sync::atomic::Ordering::SeqCst)
    }

    /// Changes the setting.
    pub fn set(&self, enabled: bool) {
        self.flag.store(enabled, std::sync::atomic::Ordering::SeqCst);
    }
}

/// Longest message, in characters, that the front end may log.
pub const FRONTEND_MSG_CAP: usize = 512;

/// A front-end message as logged: `[fe] ` and at most the first 512 characters.
pub open spec fn frontend_entry(msg: Seq<char>) -> Seq<char> {
    "[fe] "@ + if msg.len() > FRONTEND_MSG_CAP { msg.take(FRONTEND_MSG_CAP as int) } else { msg }
}

/// The log line for a message from the front end.
pub fn frontend_message(msg: &str) -> (r: String)
    ensures
        r@ == frontend_entry(msg@),
{
    let v = crate::text::chars_of(msg);
    let mut r = owned("[fe] ");
    let ghost head = r@;
    let n: usize = if v.len() > FRONTEND_MSG_CAP { FRONTEND_MSG_CAP } else { v.len() };
    let mut i: usize = 0;
    while i < n
        invariant
            i <= n <= v@.len(),
            r@ == head + v@.take(i as int),
        decreases n - i,
    {
        r.push(v[i]);
        i = i + 1;
        assert(v@.take(i as int) =~= v@.take((i - 1) as int).push(v@[i - 1]));
    }
    assert(v@.take(v@.len() as int) =~= v@);
    r
}

// ---------- UTC calendar ----------

/// The proleptic Gregorian date `(year, month, day)` of day `z` counted from
/// 0000-03-01 (Hinnant's `civil_from_days`, for days on or after that date).
pub open spec fn civil_from_shifted_days(z: nat) -> (int, nat, nat) {
    let era = z / 146_097;
    let doe = z % 146_097;
    let yoe = ((doe - doe / 1460 + doe / 36_524 - doe / 146_096) / 365) as nat;
    let doy = (doe - (365 * yoe + yoe / 4 - yoe / 100)) as nat;
    let mp = (5 * doy + 2) / 153;
    let d = (doy - (153 * mp + 2) / 5 + 1) as nat;
    let m = if mp < 10 { mp + 3 } else { (mp - 9) as nat };
    let y = yoe + era * 400 + if m <= 2 { 1int } else { 0int };
    (y, m, d)
}

/// The UTC calendar date of Unix time `secs`.
pub open spec fn utc_date(secs: nat) -> (int, nat, nat) {
    civil_from_shifted_days(secs / 86_400 + 719_468)
}

/// The UTC date of Unix time `secs` as `(year, month, day)`.
pub fn epoch_to_ymd(secs: u64) -> (r: (i32, u32, u32))
    ensures
        r.0 == utc_date(secs as nat).0 as i32,
        r.1 as nat == utc_date(secs as nat).1,
        r.2 as nat == utc_date(secs as nat).2,
        1 <= r.1 <= 12,
        1 <= r.2 <= 31,
{
    let z: u64 = secs / 86_400 + 719_468;
    let era: u64 = z / 146_097;
    let doe: u64 = z % 146_097;
    assert(doe / 1460 + doe / 146_096 <= doe + doe / 36_524) by (nonlinear_arith)
        requires
            doe < 146_097;
    let yoe: u64 = (doe - doe / 1460 + doe / 36_524 - doe / 146_096) / 365;
    assert(yoe <= 399 && 365 * yoe + yoe / 4 - yoe / 100 <= doe) by (nonlinear_arith)
        requires
            doe < 146_097,
            yoe == (doe - doe / 1460 + doe / 36_524 - doe / 146_096) / 365;
    let doy: u64 = doe - (365 * yoe + yoe / 4 - yoe / 100);
    assert(doy <= 365) by (nonlinear_arith)
        requires
            doe < 146_097,
            yoe == (doe - doe / 1460 + doe / 36_524 - doe / 146_096) / 365,
            doy == doe - (365 * yoe + yoe / 4 - yoe / 100);
    let mp: u64 = (5 * doy + 2) / 153;
    assert(mp <= 11 && (153 * mp + 2) / 5 <= doy && doy - (153 * mp + 2) / 5 + 1 <= 31) by (nonlinear_arith)
        requires
            doy <= 365,
            mp == (5 * doy + 2) / 153;
    let d: u64 = doy - (153 * mp + 2) / 5 + 1;
    let m: u64 = if mp < 10 { mp + 3 } else { mp - 9 };
    let y: u64 = yoe + era * 400 + if m <= 2 { 1 } else { 0 };
    assert(y as int == utc_date(secs as nat).0);
    #[verifier::truncate]
    let yi: i32 = y as i32;
    (yi, m as u32, d as u32)
}

/// Year, month and day of Unix time `secs` (for file-name stamps).
pub fn epoch_to_ymd_for_filename(secs: u64) -> (r: (i32, u32, u32))
    ensures
        r == epoch_to_ymd_spec(secs),
{
    epoch_to_ymd(secs)
}

/// What `epoch_to_ymd` returns for `secs`.
pub open spec fn epoch_to_ymd_spec(secs: u64) -> (i32, u32, u32) {
    let (y, m, d) = utc_date(secs as nat);
    (y as i32, m as u32, d as u32)
}

/// `{:04}` of a signed year: four digits at least, a minus sign counting
/// toward the width.
pub open spec fn year_text(y: int) -> Seq<char> {
    if y < 0 {
        "-"@ + dec_padded((-y) as nat, 3)
    } else {
        dec_padded(y as nat, 4)
    }
}

/// `YYYY-MM-DD HH:MM:SS` of Unix time `secs` in UTC.
pub open spec fn utc_text(secs: nat) -> Seq<char> {
    let (y, m, d) = epoch_to_ymd_spec(secs as u64);
    year_text(y as int) + "-"@ + dec_padded(m as nat, 2) + "-"@ + dec_padded(d as nat, 2) + " "@
        + dec_padded((secs / 3600) % 24, 2) + ":"@ + dec_padded((secs / 60) % 60, 2) + ":"@
        + dec_padded(secs % 60, 2)
}

/// Formats Unix time `secs` as `YYYY-MM-DD HH:MM:SS` (UTC).
pub fn fmt_utc(secs: u64) -> (r: String)
    ensures
        r@ == utc_text(secs as nat),
{
    let (y, mo, d) = epoch_to_ymd(secs);
    let mut out = String::new();
    if y < 0 {
        out.push('-');
        let a: u64 = if y == i32::MIN { 2_147_483_648 } else { (-y) as u64 };
        push_dec_padded(&mut out, a, 3);
    } else {
        push_dec_padded(&mut out, y as u64, 4);
    }
    out.push('-');
    push_dec_padded(&mut out, mo as u64, 2);
    out.push('-');
    push_dec_padded(&mut out, d as u64, 2);
    out.push(' ');
    push_dec_padded(&mut out, (secs / 3600) % 24, 2);
    out.push(':');
    push_dec_padded(&mut out, (secs / 60) % 60, 2);
    out.push(':');
    push_dec_padded(&mut out, secs % 60, 2);
    proof {
        reveal_strlit("-");
        reveal_strlit(" ");
        reveal_strlit(":");
    }
    assert(out@ =~= utc_text(secs as nat));
    out
}

/// A diagnostic entry: `[YYYY-MM-DD HH:MM:SS] message`.
pub fn timestamped(secs: u64, msg: &str) -> (r: String)
    ensures
        r@ == "["@ + utc_text(secs as nat) + "] "@ + msg@,
{
    let mut r = owned("[");
    let t = fmt_utc(secs);
    r.append(t.as_str());
    r.append("] ");
    r.append(msg);
    r
}


/// The ring never holds more than `DIAG_CAP` entries, and a push always
/// keeps the new entry as the newest, after the previous entries (less the
/// oldest when it was full).
pub proof fn law_ring_push(log: Seq<Seq<char>>, e: Seq<char>)
    requires
        log.len() <= DIAG_CAP,
    ensures
        ring_push(log, e).len() <= DIAG_CAP,
        ring_push(log, e).last() == e,
        ring_push(log, e).drop_last() == (if log.len() >= DIAG_CAP { log.drop_first() } else { log }),
{
    assert(ring_push(log, e).drop_last() =~= (if log.len() >= DIAG_CAP { log.drop_first() } else { log }));
}


/// Day number (from 1970-01-01) of a proleptic Gregorian date, for dates on
/// or after 0000-03-01 (Hinnant's `days_from_civil`).
pub open spec fn days_from_civil(y: int, m: nat, d: nat) -> int {
    let yy = if m <= 2 { y - 1 } else { y };
    let era = yy / 400;
    let yoe = yy - era * 400;
    let mp: int = if m > 2 { m - 3 } else { (m + 9) as int };
    let doy = (153 * mp + 2) / 5 + d - 1;
    let doe = yoe * 365 + yoe / 4 - yoe / 100 + doy;
    era * 146_097 + doe - 719_468
}

/// The date `epoch_to_ymd` gives for a time names the day that time falls
/// on: counting days from 1970-01-01 back from the date gives the time's
/// whole days.
pub proof fn law_utc_date_round_trip(secs: nat)
    ensures
        days_from_civil(utc_date(secs).0, utc_date(secs).1, utc_date(secs).2) == (secs / 86_400) as int,
{
    let z: nat = secs / 86_400 + 719_468;
    let era: nat = z / 146_097;
    let doe: nat = z % 146_097;
    assert(z == era * 146_097 + doe) by (nonlinear_arith)
        requires
            era == z / 146_097,
            doe == z % 146_097;
    assert(doe < 146_097);
    let t: int = doe - doe / 1460 + doe / 36_524 - doe / 146_096;
    assert(doe / 1460 + doe / 146_096 <= doe + doe / 36_524) by (nonlinear_arith)
        requires
            doe < 146_097;
    let yoe: nat = (t / 365) as nat;
    assert(yoe <= 399 && 365 * yoe + yoe / 4 - yoe / 100 <= doe) by (nonlinear_arith)
        requires
            doe < 146_097,
            t == doe - doe / 1460 + doe / 36_524 - doe / 146_096,
            yoe == t / 365;
    let doy: nat = (doe - (365 * yoe + yoe / 4 - yoe / 100)) as nat;
    assert(doy <= 365) by (nonlinear_arith)
        requires
            doe < 146_097,
            t == doe - doe / 1460 + doe / 36_524 - doe / 146_096,
            yoe == t / 365,
            doy == doe - (365 * yoe + yoe / 4 - yoe / 100);
    let mp: nat = (5 * doy + 2) / 153;
    assert(mp <= 11 && (153 * mp + 2) / 5 <= doy) by (nonlinear_arith)
        requires
            doy <= 365,
            mp == (5 * doy + 2) / 153;
    let d: nat = (doy - (153 * mp + 2) / 5 + 1) as nat;
    let m: nat = if mp < 10 { mp + 3 } else { (mp - 9) as nat };
    let y: int = yoe + era * 400 + if m <= 2 { 1int } else { 0int };
    assert(utc_date(secs) == (y, m, d));
    let yy: int = if m <= 2 { y - 1 } else { y };
    assert(yy == yoe + era * 400);
    assert(yy / 400 == era && yy - (yy / 400) * 400 == yoe) by (nonlinear_arith)
        requires
            yy == yoe + era * 400,
            yoe <= 399;
    let mp2: int = if m > 2 { m - 3 } else { (m + 9) as int };
    assert(mp2 == mp);
    assert(days_from_civil(y, m, d) == era * 146_097 + doe - 719_468);
}


// ---------- the diagnostic snapshot ----------

/// The header written before a session's log is appended to the log file.
pub open spec fn session_header_text(version: Seq<char>, secs: nat) -> Seq<char> {
    "===== Clippy v"@ + version + " session ended "@ + utc_text(secs) + " UTC =====\n"@
}

/// The header of a persisted session log, for app version `version`,
/// written at Unix time `secs`.
pub fn session_header(version: &str, secs: u64) -> (r: String)
    ensures
        r@ == session_header_text(version@, secs as nat),
{
    let mut r = owned("===== Clippy v");
    r.append(version);
    r.append(" session ended ");
    let t = fmt_utc(secs);
    r.append(t.as_str());
    r.append(" UTC =====\n");
    r
}

/// The opening of a diagnostic snapshot: version and build, capture time,
/// target platform, and the replay buffer's state.
pub open spec fn preamble_text(
    version: Seq<char>,
    release: bool,
    secs: nat,
    os: Seq<char>,
    arch: Seq<char>,
    coordinator_running: bool,
    allowlist_size: nat,
) -> Seq<char> {
    "Clippy v"@ + version + " ("@ + (if release { "release"@ } else { "dev build"@ }) + ") \u{2014} diagnostic snapshot\n"@
        + "Captured: "@ + utc_text(secs) + " UTC (epoch "@ + dec(secs) + ")\n"@
        + "Target: "@ + os + " "@ + arch + "\n"@
        + "\n--- Replay buffer ---\n"@
        + "Coordinator running: "@ + (if coordinator_running { "true"@ } else { "false"@ }) + "\n"@
        + "Game allowlist size: "@ + dec(allowlist_size) + "\n"@
}

/// The opening lines of the diagnostic snapshot.
pub fn diagnostics_preamble(
    version: &str,
    release: bool,
    secs: u64,
    os: &str,
    arch: &str,
    coordinator_running: bool,
    allowlist_size: usize,
) -> (r: String)
    ensures
        r@ == preamble_text(version@, release, secs as nat, os@, arch@, coordinator_running, allowlist_size as nat),
{
    let mut r = owned("Clippy v");
    r.append(version);
    r.append(" (");
    if release {
        r.append("release");
    } else {
        r.append("dev build");
    }
    r.append(") \u{2014} diagnostic snapshot\n");
    r.append("Captured: ");
    let t = fmt_utc(secs);
    r.append(t.as_str());
    r.append(" UTC (epoch ");
    push_dec(&mut r, secs);
    r.append(")\n");
    r.append("Target: ");
    r.append(os);
    r.append(" ");
    r.append(arch);
    r.append("\n");
    r.append("\n--- Replay buffer ---\n");
    r.append("Coordinator running: ");
    if coordinator_running {
        r.append("true");
    } else {
        r.append("false");
    }
    r.append("\n");
    r.append("Game allowlist size: ");
    push_dec(&mut r, allowlist_size as u64);
    r.append("\n");
    r
}

/// One display in the snapshot.
pub open spec fn monitor_line(m: MonitorInfo) -> Seq<char> {
    "  \u{b7} "@ + m.label@ + " ("@ + dec(m.width as nat) + "x"@ + dec(m.height as nat)
        + (if m.primary { ", primary"@ } else { Seq::empty() }) + ")\n"@
}

/// One audio output in the snapshot.
pub open spec fn device_line(d: AudioDevice) -> Seq<char> {
    "  \u{b7} "@ + d.name@ + (if d.is_default { " (default)"@ } else { Seq::empty() }) + "\n"@
}

pub open spec fn monitor_lines(ms: Seq<MonitorInfo>) -> Seq<char>
    decreases ms.len(),
{
    if ms.len() == 0 { Seq::empty() } else { monitor_lines(ms.drop_last()) + monitor_line(ms.last()) }
}

pub open spec fn device_lines(ds: Seq<AudioDevice>) -> Seq<char>
    decreases ds.len(),
{
    if ds.len() == 0 { Seq::empty() } else { device_lines(ds.drop_last()) + device_line(ds.last()) }
}

/// The hardware part of the snapshot: the displays, then the audio outputs.
pub open spec fn hardware_text(ms: Seq<MonitorInfo>, ds: Seq<AudioDevice>) -> Seq<char> {
    "Monitors detected: "@ + dec(ms.len()) + "\n"@ + monitor_lines(ms) + "Audio render devices: "@ + dec(ds.len())
        + "\n"@ + device_lines(ds)
}

/// The displays and audio outputs as the snapshot lists them.
pub fn diagnostics_hardware(monitors: &Vec<MonitorInfo>, devices: &Vec<AudioDevice>) -> (r: String)
    ensures
        r@ == hardware_text(monitors@, devices@),
{
    let mut r = owned("Monitors detected: ");
    push_dec(&mut r, monitors.len() as u64);
    r.append("\n");
    let ghost head = r@;
    let mut i: usize = 0;
    while i < monitors.len()
        invariant
            i <= monitors@.len(),
            r@ == head + monitor_lines(monitors@.take(i as int)),
        decreases monitors.len() - i,
    {
        let m = &monitors[i];
        r.append("  \u{b7} ");
        r.append(m.label.as_str());
        r.append(" (");
        push_dec(&mut r, m.width as u64);
        r.append("x");
        push_dec(&mut r, m.height as u64);
        if m.primary {
            r.append(", primary");
        }
        r.append(")\n");
        assert(monitors@.take(i + 1).drop_last() =~= monitors@.take(i as int));
        i = i + 1;
    }
    assert(monitors@.take(monitors@.len() as int) =~= monitors@);
    r.append("Audio render devices: ");
    push_dec(&mut r, devices.len() as u64);
    r.append("\n");
    let ghost mid = r@;
    let mut j: usize = 0;
    while j < devices.len()
        invariant
            j <= devices@.len(),
            r@ == mid + device_lines(devices@.take(j as int)),
        decreases devices.len() - j,
    {
        let d = &devices[j];
        r.append("  \u{b7} ");
        r.append(d.name.as_str());
        if d.is_default {
            r.append(" (default)");
        }
        r.append("\n");
        assert(devices@.take(j + 1).drop_last() =~= devices@.take(j as int));
        j = j + 1;
    }
    assert(devices@.take(devices@.len() as int) =~= devices@);
    r
}

impl DiagLog {
    /// The event-log part of the snapshot: a heading, the entry count, then
    /// every entry on its own line.
    pub fn event_log_section(&self) -> (r: String)
        ensures
            r@ == "\n--- Event log ---\n("@ + dec(self@.len()) + " entries)\n"@ + lines(self@),
    {
        let mut r = owned("\n--- Event log ---\n(");
        push_dec(&mut r, self.entries.len() as u64);
        r.append(" entries)\n");
        let body = self.snapshot();
        r.append(body.as_str());
        r
    }
}

} // verus!
