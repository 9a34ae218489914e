//! Monitors as the capture-display setting lists them.

use vstd::prelude::*;
use crate::text::{dec, owned, push_dec};

verus! {

/// A display the user can pick for full-screen capture.
pub struct MonitorInfo {
    /// `HMONITOR` as decimal text (it must survive a JavaScript number).
    pub hmonitor: String,
    /// Position in enumeration order, from 1.
    pub index: u32,
    /// `Display N`, with ` (Primary)` on the primary display.
    pub label: String,
    /// Device path, such as `\\.\DISPLAY1`.
    pub device: String,
    pub primary: bool,
    pub width: u32,
    pub height: u32,
}

/// A monitor as the system enumerates it.
pub struct FoundMonitor {
    pub handle: isize,
    pub device: String,
    /// `MONITORINFO::dwFlags`; bit 0 marks the primary display.
    pub flags: u32,
    pub left: i32,
    pub top: i32,
    pub right: i32,
    pub bottom: i32,
}

/// Signed decimal (the `{}` format of an integer).
pub open spec fn idec(n: int) -> Seq<char> {
    if n < 0 { "-"@ + dec((-n) as nat) } else { dec(n as nat) }
}

pub open spec fn display_label(index: nat, primary: bool) -> Seq<char> {
    "Display "@ + dec(index) + if primary { " (Primary)"@ } else { Seq::empty() }
}

/// The listing entry of the monitor found at position `pos` (from zero).
pub open spec fn monitor_entry(pos: nat, m: FoundMonitor) -> (Seq<char>, u32, Seq<char>, Seq<char>, bool, u32, u32) {
    let primary = m.flags % 2 == 1;
    (
        idec(m.handle as int),
        (pos + 1) as u32,
        display_label(pos + 1, primary),
        m.device@,
        primary,
        (m.right - m.left) as u32,
        (m.bottom - m.top) as u32,
    )
}

pub open spec fn monitor_view(m: MonitorInfo) -> (Seq<char>, u32, Seq<char>, Seq<char>, bool, u32, u32) {
    (m.hmonitor@, m.index, m.label@, m.device@, m.primary, m.width, m.height)
}

fn push_idec(out: &mut String, n: isize)
    ensures
        final(out)@ == old(out)@ + idec(n as int),
{
    if n < 0 {
        out.push('-');
        let a: u64 = if n == isize::MIN { (isize::MAX as u64) + 1 } else { (-n) as u64 };
        push_dec(out, a);
        proof {
            reveal_strlit("-");
        }
        assert(final(out)@ =~= old(out)@ + idec(n as int)) by {
            assert("-"@ =~= seq!['-']);
        }
    } else {
        push_dec(out, n as u64);
    }
}

fn wrap_span(hi: i32, lo: i32) -> (r: u32)
    ensures
        r == (hi - lo) as u32,
{
    let d: i64 = hi as i64 - lo as i64;
    #[verifier::truncate]
    (d as u32)
}

/// The display list, from the monitors in enumeration order: each is
/// numbered from 1 and labelled `Display N`, the primary one marked.
pub fn list_monitors(found: Vec<FoundMonitor>) -> (r: Vec<MonitorInfo>)
    requires
        found@.len() < u32::MAX,
    ensures
        r@.len() == found@.len(),
        forall|i: int| 0 <= i < r@.len() ==> monitor_view(#[trigger] r@[i]) == monitor_entry(i as nat, found@[i]),
{
    let mut out: Vec<MonitorInfo> = Vec::new();
    let mut i: usize = 0;
    while i < found.len()
        invariant
            i <= found@.len() < u32::MAX,
            out@.len() == i,
            forall|j: int| 0 <= j < i ==> monitor_view(#[trigger] out@[j]) == monitor_entry(j as nat, found@[j]),
        decreases found.len() - i,
    {
        let m = &found[i];
        let primary = m.flags % 2 == 1;
        let index: u32 = (i + 1) as u32;
        let mut hm = String::new();
        push_idec(&mut hm, m.handle);
        let mut label = owned("Display ");
        push_dec(&mut label, index as u64);
        if primary {
            label.append(" (Primary)");
        }
        let info = MonitorInfo {
            hmonitor: hm,
            index,
            label,
            device: owned(m.device.as_str()),
            primary,
            width: wrap_span(m.right, m.left),
            height: wrap_span(m.bottom, m.top),
        };
        assert(info.label@ =~= display_label((i + 1) as nat, primary));
        out.push(info);
        i = i + 1;
    }
    out
}


/// The label of the first listed display whose handle is `key`, else `Display`.
pub open spec fn label_for_handle(ms: Seq<MonitorInfo>, key: Seq<char>) -> Seq<char>
    decreases ms.len(),
{
    if ms.len() == 0 {
        "Display"@
    } else if ms[0].hmonitor@ == key {
        ms[0].label@
    } else {
        label_for_handle(ms.drop_first(), key)
    }
}

/// What a full-screen capture of monitor `hmon` is called in saves and
/// diagnostics: its label in the display list, or `Display`.
pub fn monitor_label(monitors: &Vec<MonitorInfo>, hmon: isize) -> (r: String)
    ensures
        r@ == label_for_handle(monitors@, idec(hmon as int)),
{
    let mut key = String::new();
    push_idec(&mut key, hmon);
    let ghost ms = monitors@;
    let mut i: usize = 0;
    assert(ms.skip(0) =~= ms);
    while i < monitors.len()
        invariant
            i <= ms.len(),
            ms == monitors@,
            key@ == idec(hmon as int),
            label_for_handle(ms, key@) == label_for_handle(ms.skip(i as int), key@),
        decreases monitors.len() - i,
    {
        let ghost rest = ms.skip(i as int);
        assert(rest[0] == ms[i as int]);
        if crate::text::str_eq(monitors[i].hmonitor.as_str(), key.as_str()) {
            return owned(monitors[i].label.as_str());
        }
        assert(rest.drop_first() =~= ms.skip(i + 1));
        i = i + 1;
    }
    assert(ms.skip(i as int).len() == 0);
    owned("Display")
}

} // verus!
