//! Bookkeeping of the per-window replay coordinator.
//!
//! The coordinator keeps one capture worker per game window it has seen
//! focused, at most `cap` of them. The workers are held here as slots ordered
//! by recency of focus (front = most recent), so the order is also the
//! eviction order. The worker threads themselves live with the caller, which
//! performs the actions these transitions return: stop the evicted workers,
//! spawn a new one, and report whether the spawn succeeded.

use vstd::prelude::*;
use crate::replay::buffer::VideoPacket;
use crate::replay::worker::AudioTrackSnapshot;
use crate::text::{contains_seq, dec, owned, push_dec, spec_to_lowercase, str_contains, to_lowercase};

verus! {

/// Top-level capture strategy: follow the focused game window, or capture
/// one monitor (`HMONITOR`) throughout.
#[derive(Clone, Copy, Debug, PartialEq, Eq, Structural)]
pub enum CaptureMode {
    PerWindow,
    Monitor(isize),
}

/// What a save takes from the coordinator: the target's video and audio,
/// the frame rate it was captured at, and its title.
pub struct SaveSnapshot {
    pub packets: Vec<VideoPacket>,
    pub audio_tracks: Vec<AudioTrackSnapshot>,
    pub fps: u32,
    pub window_title: String,
    /// Friendly name of the encoder that produced the video (empty when the
    /// system did not report one).
    pub encoder_name: String,
}

/// One live worker: the captured window and its title.
pub struct WorkerSlot {
    pub hwnd: isize,
    pub title: String,
}

/// What a focus change on a game window asks of the caller.
pub enum FocusDecision {
    /// A worker already captures this window; it moved to the front.
    AlreadyCapturing,
    /// No worker yet: stop the listed workers (least recently focused first),
    /// then spawn one and report the outcome with `worker_spawned`.
    Spawn { evicted: Vec<WorkerSlot> },
}

/// The coordinator's worker set.
pub struct Coordination {
    /// Live workers, most recently focused first.
    pub slots: Vec<WorkerSlot>,
    /// Ceiling on simultaneous workers (at least one).
    pub cap: usize,
    /// The window a save captures: the game captured or focused last.
    pub last_game: Option<isize>,
    /// Non-game focus logging: the window last logged and when (ms).
    pub last_nongame_logged: Option<(isize, u64)>,
}

/// Window of time within which repeated non-game focus of one window is logged once.
pub const NONGAME_DEDUP_MS: u64 = 2000;

pub open spec fn slot_view(s: WorkerSlot) -> (isize, Seq<char>) {
    (s.hwnd, s.title@)
}

pub open spec fn hwnds(slots: Seq<(isize, Seq<char>)>) -> Seq<isize> {
    slots.map_values(|s: (isize, Seq<char>)| s.0)
}

impl Coordination {
    pub open spec fn view_slots(&self) -> Seq<(isize, Seq<char>)> {
        self.slots@.map_values(|s: WorkerSlot| slot_view(s))
    }

    /// Well-formed: windows are distinct, at most `cap` of them, and the save
    /// target, when set, is one of them.
    pub open spec fn wf(&self) -> bool {
        &&& self.cap >= 1
        &&& self.slots@.len() <= self.cap
        &&& hwnds(self.view_slots()).no_duplicates()
        &&& (self.last_game matches Some(h) ==> hwnds(self.view_slots()).contains(h))
    }

    /// A coordinator with no workers; `max_workers` below one counts as one.
    pub fn new(max_workers: u32) -> (c: Coordination)
        ensures
            c.wf(),
            c.view_slots() == Seq::<(isize, Seq<char>)>::empty(),
            c.cap == if max_workers == 0 { 1 } else { max_workers as usize },
            c.last_game is None,
            c.last_nongame_logged is None,
    {
        let cap: usize = if max_workers == 0 { 1 } else { max_workers as usize };
        let c = Coordination { slots: Vec::new(), cap, last_game: None, last_nongame_logged: None };
        assert(c.view_slots() =~= Seq::<(isize, Seq<char>)>::empty());
        c
    }

    /// Position of `hwnd` among the live workers.
    pub fn position(&self, hwnd: isize) -> (r: Option<usize>)
        ensures
            r matches Some(i) ==> i < self.slots@.len() && self.slots@[i as int].hwnd == hwnd,
            r is None ==> !hwnds(self.view_slots()).contains(hwnd),
    {
        let mut i: usize = 0;
        while i < self.slots.len()
            invariant
                i <= self.slots@.len(),
                forall|j: int| 0 <= j < i ==> self.slots@[j].hwnd != hwnd,
            decreases self.slots.len() - i,
        {
            if self.slots[i].hwnd == hwnd {
                return Some(i);
            }
            i = i + 1;
        }
        proof {
            if hwnds(self.view_slots()).contains(hwnd) {
                let j = choose|j: int| 0 <= j < hwnds(self.view_slots()).len() && hwnds(self.view_slots())[j] == hwnd;
                assert(self.slots@[j].hwnd == hwnd);
            }
        }
        None
    }

    /// The window a save should snapshot; an error when no game has been
    /// captured (or the last one's worker is gone).
    pub fn save_target(&self) -> (r: Result<isize, String>)
        requires
            self.wf(),
        ensures
            match self.last_game {
                Some(h) => r == Ok::<isize, String>(h),
                None => r matches Err(e) && e@ == "no game has been captured this session \u{2014} focus a game in the allowlist first"@,
            },
    {
        match self.last_game {
            Some(h) => Ok(h),
            None => Err(owned("no game has been captured this session \u{2014} focus a game in the allowlist first")),
        }
    }
}

/// A snapshot is worth saving only once its target has buffered some video;
/// the snapshot itself is handed back unchanged.
pub fn ready_to_save(snap: SaveSnapshot) -> (r: Result<SaveSnapshot, String>)
    ensures
        r is Ok <==> snap.packets@.len() > 0,
        r matches Ok(s) ==> s == snap,
        r matches Err(e) ==> e@ == "active window's buffer is empty \u{2014} give it a few seconds of capture first"@,
{
    if snap.packets.len() == 0 {
        Err(owned("active window's buffer is empty \u{2014} give it a few seconds of capture first"))
    } else {
        Ok(snap)
    }
}

impl Coordination {

    /// A game window gained focus.
    ///
    /// A window already captured moves to the front. Otherwise the least
    /// recently focused workers are evicted until one slot is free; the caller
    /// stops them and spawns the new worker.
    pub fn focus_game(&mut self, hwnd: isize) -> (d: FocusDecision)
        requires
            old(self).wf(),
        ensures
            final(self).wf(),
            final(self).cap == old(self).cap,
            final(self).last_nongame_logged == old(self).last_nongame_logged,
            hwnds(old(self).view_slots()).contains(hwnd) ==> {
                &&& d is AlreadyCapturing
                &&& final(self).last_game == Some(hwnd)
                &&& final(self).view_slots()[0].0 == hwnd
                &&& final(self).view_slots().len() == old(self).view_slots().len()
                &&& final(self).view_slots().to_multiset() == old(self).view_slots().to_multiset()
                &&& exists|i: int| 0 <= i < old(self).view_slots().len() && #[trigger] old(self).view_slots()[i].0 == hwnd
                    && final(self).view_slots() == seq![old(self).view_slots()[i]] + old(self).view_slots().remove(i)
            },
            !hwnds(old(self).view_slots()).contains(hwnd) ==> {
                let keep = if old(self).slots@.len() >= old(self).cap { old(self).cap - 1 } else { old(self).slots@.len() as int };
                &&& d matches FocusDecision::Spawn { evicted } && evicted@.map_values(|s: WorkerSlot| slot_view(s))
                    == old(self).view_slots().skip(keep).reverse()
                &&& final(self).view_slots() == old(self).view_slots().take(keep)
                &&& final(self).slots@.len() < final(self).cap
                &&& final(self).last_game == (match old(self).last_game {
                    Some(g) => if hwnds(old(self).view_slots().take(keep)).contains(g) { Some(g) } else { None },
                    None => None,
                })
            },
    {
        let ghost old_view = self.view_slots();
        let ghost old_last = self.last_game;
        let ghost old_logged = self.last_nongame_logged;
        let ghost old_cap = self.cap;
        match self.position(hwnd) {
            Some(i) => {
                let slot = self.slots.remove(i);
                self.slots.insert(0, slot);
                self.last_game = Some(hwnd);
                proof {
                    assert(self.view_slots() =~= seq![old_view[i as int]] + old_view.remove(i as int));
                    lemma_move_front_multiset(old_view, i as int);
                    lemma_move_front_hwnds(old_view, i as int);
                    assert(old_view[i as int].0 == hwnd);
                    assert(hwnds(self.view_slots())[0] == hwnd);
                }
                FocusDecision::AlreadyCapturing
            },
            None => {
                let mut evicted: Vec<WorkerSlot> = Vec::new();
                let keep: usize = if self.slots.len() >= self.cap { self.cap - 1 } else { self.slots.len() };
                while self.slots.len() > keep
                    invariant
                        self.cap == old_cap,
                        self.last_game == old_last,
                        self.last_nongame_logged == old_logged,
                        keep <= self.slots@.len() <= old_view.len(),
                        keep == (if old_view.len() >= self.cap { self.cap - 1 } else { old_view.len() as int }),
                        self.view_slots() == old_view.take(self.slots@.len() as int),
                        evicted@.map_values(|s: WorkerSlot| slot_view(s)) == old_view.skip(self.slots@.len() as int).reverse(),
                    decreases self.slots.len(),
                {
                    let ghost n = self.slots@.len();
                    let ghost prev_ev = evicted@.map_values(|s: WorkerSlot| slot_view(s));
                    assert(slot_view(self.slots@[n - 1]) == self.view_slots()[n - 1]);
                    let s = self.slots.pop().unwrap();
                    assert(slot_view(s) == old_view[n - 1]);
                    evicted.push(s);
                    assert(evicted@.map_values(|s: WorkerSlot| slot_view(s)) =~= prev_ev.push(old_view[n - 1]));
                    assert(self.view_slots() =~= old_view.take(n - 1));
                    assert(old_view.skip(n - 1) =~= seq![old_view[n - 1]] + old_view.skip(n as int));
                    assert(evicted@.map_values(|s: WorkerSlot| slot_view(s)) =~= old_view.skip(n - 1).reverse());
                }
                proof {
                    assert(self.slots@.len() == keep);
                    assert(self.view_slots() == old_view.take(keep as int));
                    lemma_take_hwnds_unique(old_view, keep as int);
                }
                match self.last_game {
                    Some(g) => {
                        match self.position(g) {
                            Some(j) => {
                                assert(hwnds(self.view_slots())[j as int] == g);
                            },
                            None => {
                                self.last_game = None;
                            },
                        }
                    },
                    None => {},
                }
                FocusDecision::Spawn { evicted }
            },
        }
    }

    /// The worker for `hwnd` started; it becomes the most recent and the save target.
    pub fn worker_spawned(&mut self, hwnd: isize, title: String)
        requires
            old(self).wf(),
            !hwnds(old(self).view_slots()).contains(hwnd),
            old(self).slots@.len() < old(self).cap,
        ensures
            final(self).wf(),
            final(self).cap == old(self).cap,
            final(self).view_slots() == seq![(hwnd, title@)] + old(self).view_slots(),
            final(self).last_game == Some(hwnd),
            final(self).last_nongame_logged == old(self).last_nongame_logged,
    {
        let ghost old_view = self.view_slots();
        let ghost tv = title@;
        self.slots.insert(0, WorkerSlot { hwnd, title });
        self.last_game = Some(hwnd);
        assert(self.view_slots() =~= seq![(hwnd, tv)] + old_view);
        assert(hwnds(self.view_slots()) =~= seq![hwnd] + hwnds(old_view));
        assert(hwnds(self.view_slots())[0] == hwnd);
    }

    /// A worker was found dead: drop it, and clear the save target if it was that window.
    pub fn worker_died(&mut self, hwnd: isize) -> (removed: Option<WorkerSlot>)
        requires
            old(self).wf(),
        ensures
            final(self).wf(),
            final(self).cap == old(self).cap,
            final(self).last_nongame_logged == old(self).last_nongame_logged,
            !hwnds(final(self).view_slots()).contains(hwnd),
            removed is None <==> !hwnds(old(self).view_slots()).contains(hwnd),
            removed is None ==> final(self).view_slots() == old(self).view_slots(),
            removed matches Some(s) ==> s.hwnd == hwnd && exists|i: int| 0 <= i < old(self).view_slots().len()
                && old(self).view_slots()[i] == slot_view(s)
                && final(self).view_slots() == old(self).view_slots().remove(i),
            final(self).last_game == (if old(self).last_game == Some(hwnd) { None } else { old(self).last_game }),
    {
        let ghost old_view = self.view_slots();
        let r = match self.position(hwnd) {
            Some(i) => {
                assert(hwnds(old_view)[i as int] == hwnd);
                let s = self.slots.remove(i);
                proof {
                    assert(self.view_slots() =~= old_view.remove(i as int));
                    lemma_remove_hwnds(old_view, i as int);
                }
                Some(s)
            },
            None => None,
        };
        if self.last_game == Some(hwnd) {
            self.last_game = None;
        }
        r
    }

    /// Focus went to a window that is not a game: whether to log it. Repeats
    /// of the window logged last, within [`NONGAME_DEDUP_MS`], are not.
    pub fn note_non_game(&mut self, hwnd: isize, now_ms: u64) -> (log: bool)
        ensures
            log == !(old(self).last_nongame_logged matches Some((h, at)) && h == hwnd
                && (if now_ms >= at { now_ms - at } else { 0 }) < NONGAME_DEDUP_MS),
            log ==> final(self).last_nongame_logged == Some((hwnd, now_ms)),
            !log ==> final(self).last_nongame_logged == old(self).last_nongame_logged,
            final(self).slots == old(self).slots,
            final(self).cap == old(self).cap,
            final(self).last_game == old(self).last_game,
    {
        let suppress = match self.last_nongame_logged {
            Some((h, at)) => h == hwnd && now_ms.saturating_sub(at) < NONGAME_DEDUP_MS,
            None => false,
        };
        if !suppress {
            self.last_nongame_logged = Some((hwnd, now_ms));
        }
        !suppress
    }
}

proof fn lemma_move_front_multiset(v: Seq<(isize, Seq<char>)>, i: int)
    requires
        0 <= i < v.len(),
    ensures
        (seq![v[i]] + v.remove(i)).to_multiset() == v.to_multiset(),
{
    broadcast use vstd::seq_lib::group_to_multiset_ensures;
    assert(v.remove(i).insert(0, v[i]) =~= seq![v[i]] + v.remove(i));
    v.remove(i).to_multiset_ensures();
    assert(v.to_multiset() =~= v.remove(i).to_multiset().insert(v[i]));
}

proof fn lemma_move_front_hwnds(v: Seq<(isize, Seq<char>)>, i: int)
    requires
        0 <= i < v.len(),
        hwnds(v).no_duplicates(),
    ensures
        hwnds(seq![v[i]] + v.remove(i)).no_duplicates(),
        hwnds(seq![v[i]] + v.remove(i))[0] == v[i].0,
        forall|h: isize| hwnds(seq![v[i]] + v.remove(i)).contains(h) == hwnds(v).contains(h),
{
    let w = seq![v[i]] + v.remove(i);
    assert(hwnds(w) =~= seq![v[i].0] + hwnds(v).remove(i));
    assert forall|a: int, b: int| 0 <= a < hwnds(w).len() && 0 <= b < hwnds(w).len() && a != b implies hwnds(w)[a] != hwnds(w)[b] by {
        let a2 = if a == 0 { i } else if a - 1 < i { a - 1 } else { a };
        let b2 = if b == 0 { i } else if b - 1 < i { b - 1 } else { b };
        assert(hwnds(w)[a] == hwnds(v)[a2]);
        assert(hwnds(w)[b] == hwnds(v)[b2]);
        assert(hwnds(v)[a2] != hwnds(v)[b2]);
    }
    assert forall|h: isize| hwnds(w).contains(h) == hwnds(v).contains(h) by {
        if hwnds(v).contains(h) {
            let j = choose|j: int| 0 <= j < hwnds(v).len() && hwnds(v)[j] == h;
            if j == i {
                assert(hwnds(w)[0] == h);
            } else if j < i {
                assert(hwnds(w)[j + 1] == h);
            } else {
                assert(hwnds(w)[j] == h);
            }
        }
        if hwnds(w).contains(h) {
            let j = choose|j: int| 0 <= j < hwnds(w).len() && hwnds(w)[j] == h;
            if j == 0 {
                assert(hwnds(v)[i] == h);
            } else if j - 1 < i {
                assert(hwnds(v)[j - 1] == h);
            } else {
                assert(hwnds(v)[j] == h);
            }
        }
    }
}

proof fn lemma_take_hwnds_unique(v: Seq<(isize, Seq<char>)>, k: int)
    requires
        0 <= k <= v.len(),
        hwnds(v).no_duplicates(),
    ensures
        hwnds(v.take(k)).no_duplicates(),
{
    assert(hwnds(v.take(k)) =~= hwnds(v).take(k));
    assert forall|a: int, b: int| 0 <= a < k && 0 <= b < k && a != b implies hwnds(v).take(k)[a] != hwnds(v).take(k)[b] by {
        assert(hwnds(v).take(k)[a] == hwnds(v)[a]);
        assert(hwnds(v).take(k)[b] == hwnds(v)[b]);
        assert(hwnds(v)[a] != hwnds(v)[b]);
    }
}

proof fn lemma_remove_hwnds(v: Seq<(isize, Seq<char>)>, i: int)
    requires
        0 <= i < v.len(),
        hwnds(v).no_duplicates(),
    ensures
        hwnds(v.remove(i)).no_duplicates(),
        !hwnds(v.remove(i)).contains(v[i].0),
        forall|h: isize| h != v[i].0 ==> (hwnds(v.remove(i)).contains(h) == hwnds(v).contains(h)),
{
    let w = v.remove(i);
    assert(hwnds(w) =~= hwnds(v).remove(i));
    assert forall|a: int, b: int| 0 <= a < hwnds(w).len() && 0 <= b < hwnds(w).len() && a != b implies hwnds(w)[a] != hwnds(w)[b] by {
        let a2 = if a < i { a } else { a + 1 };
        let b2 = if b < i { b } else { b + 1 };
        assert(hwnds(w)[a] == hwnds(v)[a2]);
        assert(hwnds(w)[b] == hwnds(v)[b2]);
        assert(hwnds(v)[a2] != hwnds(v)[b2]);
    }
    assert forall|h: isize| h != v[i].0 implies (hwnds(w).contains(h) == hwnds(v).contains(h)) by {
        if hwnds(v).contains(h) {
            let j = choose|j: int| 0 <= j < hwnds(v).len() && hwnds(v)[j] == h;
            if j < i {
                assert(hwnds(w)[j] == h);
            } else {
                assert(j != i);
                assert(hwnds(w)[j - 1] == h);
            }
        }
        if hwnds(w).contains(h) {
            let j = choose|j: int| 0 <= j < hwnds(w).len() && hwnds(w)[j] == h;
            if j < i {
                assert(hwnds(v)[j] == h);
            } else {
                assert(hwnds(v)[j + 1] == h);
            }
        }
    }
    if hwnds(w).contains(v[i].0) {
        let j = choose|j: int| 0 <= j < hwnds(w).len() && hwnds(w)[j] == v[i].0;
        if j < i {
            assert(hwnds(v)[j] == hwnds(v)[i]);
        } else {
            assert(hwnds(v)[j + 1] == hwnds(v)[i]);
        }
    }
}

// ---------- messages ----------

/// How a focused window's title appears in the diagnostic log: quoted for a
/// game or in verbose mode, otherwise a placeholder so that a shared log
/// carries no private window titles.
pub open spec fn focus_title_text(is_game: bool, verbose: bool, title: Seq<char>) -> Seq<char> {
    if is_game || verbose {
        "\""@ + title + "\""@
    } else {
        "<non-game window>"@
    }
}

/// The title of a focused window as the diagnostic log shows it.
pub fn focus_title_for_log(is_game: bool, verbose: bool, title: &str) -> (r: String)
    ensures
        r@ == focus_title_text(is_game, verbose, title@),
{
    if is_game || verbose {
        let mut s = owned("\"");
        s.append(title);
        s.append("\"");
        s
    } else {
        owned("<non-game window>")
    }
}

/// Error texts that point at the hardware encoder (checked lowercased).
pub open spec fn encoder_related(err: Seq<char>) -> bool {
    let l = spec_to_lowercase(err);
    contains_seq(l, "hw encoder"@) || contains_seq(l, "nvenc"@) || contains_seq(l, "mft"@)
        || contains_seq(l, "0x80004003"@) || contains_seq(l, "0x80070008"@)
}

/// The hint appended to a worker start failure: when the error points at the
/// encoder and at least two games are already capturing, a note that
/// consumer cards limit concurrent encoder sessions; otherwise nothing.
pub open spec fn failure_hint(err: Seq<char>, prior_worker_count: nat) -> Seq<char> {
    if encoder_related(err) && prior_worker_count >= 2 {
        " (hint: "@ + dec(prior_worker_count)
            + " game(s) already capturing \u{2014} NVENC consumer cards cap at ~3 concurrent encoder sessions; close another captured game or restart the buffer)"@
    } else {
        Seq::empty()
    }
}

/// The hint for a failed worker start, given the error text and how many
/// workers were already running.
pub fn encoder_failure_hint(err: &str, prior_worker_count: usize) -> (r: String)
    ensures
        r@ == failure_hint(err@, prior_worker_count as nat),
{
    let lower = to_lowercase(err);
    let l = lower.as_str();
    let related = str_contains(l, "hw encoder") || str_contains(l, "nvenc") || str_contains(l, "mft")
        || str_contains(l, "0x80004003") || str_contains(l, "0x80070008");
    if related && prior_worker_count >= 2 {
        let mut s = owned(" (hint: ");
        push_dec(&mut s, prior_worker_count as u64);
        s.append(" game(s) already capturing \u{2014} NVENC consumer cards cap at ~3 concurrent encoder sessions; close another captured game or restart the buffer)");
        s
    } else {
        String::new()
    }
}

/// How a failed worker start is reported to the user: `nvenc_ceiling` when
/// the encoder-session hint applies, else `encoder_init`; the message is the
/// error followed by the hint.
pub fn spawn_failure_report(err: &str, prior_worker_count: usize) -> (r: (String, String))
    ensures
        r.0@ == (if failure_hint(err@, prior_worker_count as nat).len() > 0 { "nvenc_ceiling"@ } else { "encoder_init"@ }),
        r.1@ == err@ + failure_hint(err@, prior_worker_count as nat),
{
    let hint = encoder_failure_hint(err, prior_worker_count);
    let kind = if hint.unicode_len() > 0 { owned("nvenc_ceiling") } else { owned("encoder_init") };
    let mut msg = owned(err);
    msg.append(hint.as_str());
    (kind, msg)
}

} // verus!
