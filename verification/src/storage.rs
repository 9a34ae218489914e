//! Storage policy for saved replays: which files count as videos, the
//! newest-first listing, and which files a prune removes (unkept files past
//! their age limit, then the oldest until the cap is met). Reading the save
//! directory and deleting files happen around these functions.

use vstd::prelude::*;
use crate::text::{ends_with_seq, owned, spec_to_lowercase, str_ends_with, to_lowercase};

verus! {

// ---------- video files ----------

/// Whether `name`, lowercased, ends in a video extension the app saves or opens.
pub open spec fn video_name(name: Seq<char>) -> bool {
    let l = spec_to_lowercase(name);
    ends_with_seq(l, ".mp4"@) || ends_with_seq(l, ".mkv"@) || ends_with_seq(l, ".mov"@)
        || ends_with_seq(l, ".webm"@) || ends_with_seq(l, ".m4v"@)
}

/// Whether a file name is a video (`.mp4`, `.mkv`, `.mov`, `.webm`, `.m4v`,
/// in any case).
pub fn is_video_file(name: &str) -> (b: bool)
    ensures
        b == video_name(name@),
{
    let lower = to_lowercase(name);
    let l = lower.as_str();
    str_ends_with(l, ".mp4") || str_ends_with(l, ".mkv") || str_ends_with(l, ".mov")
        || str_ends_with(l, ".webm") || str_ends_with(l, ".m4v")
}

// ---------- report types ----------

/// Storage use by bucket, for the settings panel.
pub struct StorageUsage {
    pub save_dir: String,
    pub saved_replays_bytes: u64,
    pub saved_replays_count: u64,
    pub cache_bytes: u64,
    pub other_bytes: u64,
    pub total_bytes: u64,
}

/// `a + b`, or `u64::MAX` when that does not fit.
pub open spec fn sat_add(a: u64, b: u64) -> u64 {
    if a + b > u64::MAX { u64::MAX } else { (a + b) as u64 }
}

/// `a - b`, or zero when `b` is larger.
pub open spec fn sat_sub(a: u64, b: u64) -> u64 {
    if a >= b { (a - b) as u64 } else { 0 }
}

impl StorageUsage {
    /// The usage report from the measured sizes: `other` is the app-data
    /// total without the cache, and the total adds the three buckets (each
    /// sum saturating).
    pub fn from_measurements(
        save_dir: String,
        saved_replays_bytes: u64,
        saved_replays_count: u64,
        cache_bytes: u64,
        app_data_bytes: u64,
    ) -> (u: StorageUsage)
        ensures
            u.save_dir@ == save_dir@,
            u.saved_replays_bytes == saved_replays_bytes,
            u.saved_replays_count == saved_replays_count,
            u.cache_bytes == cache_bytes,
            u.other_bytes == sat_sub(app_data_bytes, cache_bytes),
            u.total_bytes == sat_add(sat_add(saved_replays_bytes, cache_bytes), sat_sub(app_data_bytes, cache_bytes)),
    {
        let other_bytes = app_data_bytes.saturating_sub(cache_bytes);
        let total_bytes = saved_replays_bytes.saturating_add(cache_bytes).saturating_add(other_bytes);
        StorageUsage {
            save_dir,
            saved_replays_bytes,
            saved_replays_count,
            cache_bytes,
            other_bytes,
            total_bytes,
        }
    }
}

/// One saved replay as the Recent list shows it.
pub struct SavedReplay {
    pub path: String,
    pub name: String,
    pub size_bytes: u64,
    /// Unix seconds of the last modification.
    pub modified_secs: i64,
}

/// What a prune removed (or, in a dry run, would remove).
pub struct StoragePruneResult {
    pub freed_bytes: u64,
    pub removed_count: u64,
    pub removed_paths: Vec<String>,
    pub dry_run: bool,
}

// ---------- stable ordering ----------

/// `(key, index)` pairs in lexicographic order.
pub open spec fn pair_lt(ka: int, ia: int, kb: int, ib: int) -> bool {
    ka < kb || (ka == kb && ia < ib)
}

/// `order` lists every index of `keys` once, by ascending key and, among
/// equal keys, by ascending index (the order a stable sort gives).
pub open spec fn stable_sorted(keys: Seq<i128>, order: Seq<usize>) -> bool {
    &&& order.len() == keys.len()
    &&& forall|a: int| 0 <= a < order.len() ==> #[trigger] order[a] < keys.len()
    &&& forall|a: int, b: int| 0 <= a < b < order.len() ==> pair_lt(
        keys[#[trigger] order[a] as int] as int,
        order[a] as int,
        keys[#[trigger] order[b] as int] as int,
        order[b] as int,
    )
}

/// The indices of `keys` in stable ascending order of their keys.
pub fn stable_order(keys: &Vec<i128>) -> (order: Vec<usize>)
    ensures
        stable_sorted(keys@, order@),
{
    let n = keys.len();
    let mut order: Vec<usize> = Vec::new();
    let mut i: usize = 0;
    while i < n
        invariant
            n == keys@.len(),
            i <= n,
            order@.len() == i,
            forall|a: int| 0 <= a < order@.len() ==> #[trigger] order@[a] < i,
            forall|a: int, b: int| 0 <= a < b < order@.len() ==> pair_lt(
                keys@[#[trigger] order@[a] as int] as int,
                order@[a] as int,
                keys@[#[trigger] order@[b] as int] as int,
                order@[b] as int,
            ),
        decreases n - i,
    {
        let k = keys[i];
        let mut p: usize = 0;
        while p < order.len() && keys[order[p]] <= k
            invariant
                n == keys@.len(),
                i < n,
                k == keys@[i as int],
                p <= order@.len(),
                forall|a: int| 0 <= a < order@.len() ==> #[trigger] order@[a] < i,
                forall|a: int| 0 <= a < p ==> keys@[#[trigger] order@[a] as int] <= k,
            decreases order.len() - p,
        {
            p = p + 1;
        }
        let ghost o = order@;
        proof {
            assert forall|a: int| p <= a < o.len() implies keys@[#[trigger] o[a] as int] > k by {
                if a > p {
                    assert(pair_lt(keys@[o[p as int] as int] as int, o[p as int] as int, keys@[o[a] as int] as int, o[a] as int));
                }
            }
        }
        order.insert(p, i);
        proof {
            let o2 = order@;
            assert(o2 == o.insert(p as int, i));
            assert forall|a: int, b: int| 0 <= a < b < o2.len() implies pair_lt(
                keys@[#[trigger] o2[a] as int] as int,
                o2[a] as int,
                keys@[#[trigger] o2[b] as int] as int,
                o2[b] as int,
            ) by {
                if b < p {
                    assert(o2[a] == o[a] && o2[b] == o[b]);
                } else if b == p {
                    assert(o2[a] == o[a]);
                } else if a < p {
                    assert(o2[a] == o[a] && o2[b] == o[b - 1]);
                } else if a == p {
                    assert(o2[b] == o[b - 1]);
                } else {
                    assert(o2[a] == o[a - 1] && o2[b] == o[b - 1]);
                }
            }
        }
        i = i + 1;
    }
    order
}

// ---------- listing ----------

/// A saved replay as plain values: path, name, size, modification time.
pub open spec fn replay_view(r: SavedReplay) -> (Seq<char>, Seq<char>, u64, i64) {
    (r.path@, r.name@, r.size_bytes, r.modified_secs)
}

/// Sort key of the listing: later modification first.
pub open spec fn recency_key(r: SavedReplay) -> i128 {
    (-(r.modified_secs as int)) as i128
}

/// The items taken in `order`, at most `limit` of them when a limit is given.
pub open spec fn listed(items: Seq<SavedReplay>, order: Seq<usize>, limit: Option<u32>) -> Seq<(Seq<char>, Seq<char>, u64, i64)> {
    let all = order.map_values(|i: usize| replay_view(items[i as int]));
    match limit {
        Some(n) => if (n as int) < all.len() { all.take(n as int) } else { all },
        None => all,
    }
}

impl SavedReplay {
    /// A copy with the same fields.
    pub fn duplicate(&self) -> (r: SavedReplay)
        ensures
            replay_view(r) == replay_view(*self),
    {
        SavedReplay {
            path: owned(self.path.as_str()),
            name: owned(self.name.as_str()),
            size_bytes: self.size_bytes,
            modified_secs: self.modified_secs,
        }
    }
}

/// Orders the found replays newest first (a stable sort, so equal times keep
/// the order they were found in) and keeps the first `limit`.
pub fn list_newest_first(items: &Vec<SavedReplay>, limit: Option<u32>) -> (r: Vec<SavedReplay>)
    ensures
        exists|order: Seq<usize>|
            stable_sorted(items@.map_values(|x: SavedReplay| recency_key(x)), order)
            && r@.map_values(|x: SavedReplay| replay_view(x)) == listed(items@, order, limit),
{
    let ghost ks = items@.map_values(|x: SavedReplay| recency_key(x));
    let mut keys: Vec<i128> = Vec::new();
    let mut i: usize = 0;
    while i < items.len()
        invariant
            i <= items@.len(),
            ks == items@.map_values(|x: SavedReplay| recency_key(x)),
            keys@ == ks.take(i as int),
        decreases items.len() - i,
    {
        keys.push(-(items[i].modified_secs as i128));
        i = i + 1;
        assert(keys@ =~= ks.take(i as int));
    }
    assert(ks.take(items@.len() as int) =~= ks);
    let order = stable_order(&keys);
    let n = items.len();
    let cap: usize = match limit {
        Some(l) => if (l as usize) < n { l as usize } else { n },
        None => n,
    };
    let ghost all = order@.map_values(|i: usize| replay_view(items@[i as int]));
    let mut out: Vec<SavedReplay> = Vec::new();
    let mut j: usize = 0;
    while j < cap
        invariant
            j <= cap <= n,
            n == items@.len(),
            stable_sorted(ks, order@),
            ks == items@.map_values(|x: SavedReplay| recency_key(x)),
            all == order@.map_values(|i: usize| replay_view(items@[i as int])),
            out@.map_values(|x: SavedReplay| replay_view(x)) == all.take(j as int),
        decreases cap - j,
    {
        let ghost before = out@;
        assert(order@[j as int] < ks.len());
        let x = items[order[j]].duplicate();
        out.push(x);
        j = j + 1;
        assert(out@ == before.push(x));
        assert(all[j - 1] == replay_view(items@[order@[j - 1] as int]));
        assert(out@.map_values(|x: SavedReplay| replay_view(x)) =~= before.map_values(|x: SavedReplay| replay_view(x)).push(replay_view(x)));
        assert(all.take(j as int) =~= all.take(j - 1).push(all[j - 1]));
    }
    proof {
        assert(listed(items@, order@, limit) == all.take(cap as int)) by {
            if cap == n {
                assert(all.take(n as int) =~= all);
            }
        }
    }
    out
}

// ---------- pruning ----------

/// A video file in the save directory, as the prune policy sees it.
pub struct PruneCandidate {
    pub path: String,
    pub size: u64,
    /// Last modification, milliseconds since the Unix epoch.
    pub mtime_ms: u64,
    /// The user has opened it in the editor (it is "kept").
    pub opened: bool,
}

/// Files modified within this many milliseconds may still be being written.
pub const IN_FLIGHT_MS: u64 = 30_000;

pub open spec fn in_flight(c: PruneCandidate, now_ms: u64) -> bool {
    c.mtime_ms <= now_ms && now_ms - c.mtime_ms < IN_FLIGHT_MS
}

/// Start of the unkept window: `now` less the age limit, the limit in whole
/// seconds saturating at `u64::MAX` seconds.
pub open spec fn unkept_cutoff(now_ms: u64, max_days: u64) -> int {
    let secs = if max_days * 86_400 > u64::MAX { u64::MAX as int } else { max_days * 86_400 };
    now_ms - secs * 1000
}

/// Removed by the unkept pass: never opened, and older than the limit.
pub open spec fn unkept(c: PruneCandidate, now_ms: u64, unkept_max_days: Option<u64>) -> bool {
    match unkept_max_days {
        Some(d) => !c.opened && (c.mtime_ms as int) < unkept_cutoff(now_ms, d),
        None => false,
    }
}

/// Indices `i < n` of `c`, in order, whose file satisfies `f`.
pub open spec fn pick(c: Seq<PruneCandidate>, n: nat, f: spec_fn(PruneCandidate) -> bool) -> Seq<usize>
    decreases n,
{
    if n == 0 {
        Seq::empty()
    } else {
        let prev = pick(c, (n - 1) as nat, f);
        if f(c[n - 1]) { prev.push((n - 1) as usize) } else { prev }
    }
}

/// Settled files the unkept pass removes.
pub open spec fn removed_as_unkept(now_ms: u64, unkept_max_days: Option<u64>) -> spec_fn(PruneCandidate) -> bool {
    |x: PruneCandidate| !in_flight(x, now_ms) && unkept(x, now_ms, unkept_max_days)
}

/// Settled files the unkept pass leaves.
pub open spec fn left_for_cap(now_ms: u64, unkept_max_days: Option<u64>) -> spec_fn(PruneCandidate) -> bool {
    |x: PruneCandidate| !in_flight(x, now_ms) && !unkept(x, now_ms, unkept_max_days)
}

/// Files the unkept pass removes.
pub open spec fn unkept_victims(c: Seq<PruneCandidate>, now_ms: u64, unkept_max_days: Option<u64>) -> Seq<usize> {
    pick(c, c.len(), removed_as_unkept(now_ms, unkept_max_days))
}

/// Files left for the cap pass.
pub open spec fn cap_pool(c: Seq<PruneCandidate>, now_ms: u64, unkept_max_days: Option<u64>) -> Seq<usize> {
    pick(c, c.len(), left_for_cap(now_ms, unkept_max_days))
}

/// Total bytes of the files at `idx`.
pub open spec fn bytes_of(c: Seq<PruneCandidate>, idx: Seq<usize>) -> int
    decreases idx.len(),
{
    if idx.len() == 0 {
        0
    } else {
        bytes_of(c, idx.drop_last()) + c[idx.last() as int].size
    }
}

/// How many files, taken in `idx` order, must go before `total` bytes is at
/// most `cap`: none once it is, otherwise the first one and so on.
pub open spec fn cap_count(c: Seq<PruneCandidate>, idx: Seq<usize>, total: int, cap: u64) -> nat
    decreases idx.len(),
{
    if idx.len() == 0 || total <= cap {
        0
    } else {
        1 + cap_count(c, idx.drop_first(), total - c[idx[0] as int].size, cap)
    }
}

/// The files a prune removes, in order: the unkept pass, then (with a cap)
/// the oldest of the rest, stably by modification time, until the rest fits.
pub open spec fn prune_plan(
    c: Seq<PruneCandidate>,
    now_ms: u64,
    cap: Option<u64>,
    unkept_max_days: Option<u64>,
    order: Seq<usize>,
) -> Seq<usize> {
    let pool = cap_pool(c, now_ms, unkept_max_days);
    let by_age = order.map_values(|j: usize| pool[j as int]);
    unkept_victims(c, now_ms, unkept_max_days) + match cap {
        Some(limit) => by_age.take(cap_count(c, by_age, bytes_of(c, pool), limit) as int),
        None => Seq::empty(),
    }
}

proof fn lemma_pick_bound(c: Seq<PruneCandidate>, n: nat, f: spec_fn(PruneCandidate) -> bool)
    requires
        n <= c.len(),
    ensures
        forall|a: int| 0 <= a < pick(c, n, f).len() ==> #[trigger] pick(c, n, f)[a] < n,
        pick(c, n, f).len() <= n,
    decreases n,
{
    if n > 0 {
        lemma_pick_bound(c, (n - 1) as nat, f);
    }
}

proof fn lemma_cap_count_bound(c: Seq<PruneCandidate>, idx: Seq<usize>, total: int, cap: u64)
    ensures
        cap_count(c, idx, total, cap) <= idx.len(),
    decreases idx.len(),
{
    if idx.len() > 0 && total > cap {
        lemma_cap_count_bound(c, idx.drop_first(), total - c[idx[0] as int].size, cap);
    }
}

fn is_in_flight(c: &PruneCandidate, now_ms: u64) -> (b: bool)
    ensures
        b == in_flight(*c, now_ms),
{
    c.mtime_ms <= now_ms && now_ms - c.mtime_ms < IN_FLIGHT_MS
}

fn is_unkept(c: &PruneCandidate, now_ms: u64, unkept_max_days: Option<u64>) -> (b: bool)
    ensures
        b == unkept(*c, now_ms, unkept_max_days),
{
    match unkept_max_days {
        Some(d) => {
            let secs: u64 = if d > u64::MAX / 86_400 { u64::MAX } else { d * 86_400 };
            if c.opened {
                false
            } else if secs > now_ms / 1000 {
                assert((c.mtime_ms as int) >= unkept_cutoff(now_ms, d)) by (nonlinear_arith)
                    requires
                        secs > now_ms / 1000,
                        unkept_cutoff(now_ms, d) == now_ms - secs * 1000;
                false
            } else {
                assert(secs * 1000 <= now_ms) by (nonlinear_arith)
                    requires
                        secs <= now_ms / 1000;
                c.mtime_ms < now_ms - secs * 1000
            }
        },
        None => false,
    }
}

/// The files a prune removes, as indices into `candidates` in removal
/// order: first every file (not being written in the last 30 s) that was
/// never opened and is older than `unkept_max_days`; then, with a cap, the
/// remaining files oldest first until their total is at most `cap`.
pub fn plan_prune(candidates: &Vec<PruneCandidate>, now_ms: u64, cap: Option<u64>, unkept_max_days: Option<u64>) -> (victims: Vec<usize>)
    requires
        bytes_of(candidates@, cap_pool(candidates@, now_ms, unkept_max_days)) <= u64::MAX,
    ensures
        exists|order: Seq<usize>|
            stable_sorted(
                cap_pool(candidates@, now_ms, unkept_max_days).map_values(|i: usize| candidates@[i as int].mtime_ms as i128),
                order,
            ) && victims@ == prune_plan(candidates@, now_ms, cap, unkept_max_days, order),
{
    let ghost c = candidates@;
    let ghost fu = removed_as_unkept(now_ms, unkept_max_days);
    let ghost fk = left_for_cap(now_ms, unkept_max_days);
    let mut first: Vec<usize> = Vec::new();
    let mut pool: Vec<usize> = Vec::new();
    let mut total: u64 = 0;
    let n = candidates.len();
    let mut i: usize = 0;
    while i < n
        invariant
            n == c.len(),
            c == candidates@,
            i <= n,
            fu == removed_as_unkept(now_ms, unkept_max_days),
            fk == left_for_cap(now_ms, unkept_max_days),
            first@ == pick(c, i as nat, fu),
            pool@ == pick(c, i as nat, fk),
            total == bytes_of(c, pool@),
            bytes_of(c, pick(c, n as nat, fk)) <= u64::MAX,
        decreases n - i,
    {
        proof {
            lemma_pick_prefix_bytes(c, i as nat, n as nat, fk);
        }
        let cand = &candidates[i];
        let ghost before_first = first@;
        let ghost before_pool = pool@;
        if !is_in_flight(cand, now_ms) {
            if is_unkept(cand, now_ms, unkept_max_days) {
                assert(fu(c[i as int]) && !fk(c[i as int]));
                first.push(i);
            } else {
                assert(fk(c[i as int]) && !fu(c[i as int]));
                pool.push(i);
                assert(pool@.drop_last() =~= before_pool);
                total = total + cand.size;
            }
        } else {
            assert(!fk(c[i as int]) && !fu(c[i as int]));
        }
        i = i + 1;
        assert(first@ =~= pick(c, i as nat, fu));
        assert(pool@ =~= pick(c, i as nat, fk));
    }
    let mut victims = first;
    let ghost mut order_g: Seq<usize> = Seq::empty();
    let ghost pool_s = pool@;
    proof {
        lemma_pick_bound(c, n as nat, fk);
    }
    let mut keys: Vec<i128> = Vec::new();
    let mut j: usize = 0;
    while j < pool.len()
        invariant
            j <= pool@.len(),
            pool@ == pool_s,
            forall|a: int| 0 <= a < pool_s.len() ==> #[trigger] pool_s[a] < c.len(),
            c == candidates@,
            keys@ == pool_s.take(j as int).map_values(|i: usize| c[i as int].mtime_ms as i128),
        decreases pool.len() - j,
    {
        keys.push(candidates[pool[j]].mtime_ms as i128);
        j = j + 1;
        assert(keys@ =~= pool_s.take(j as int).map_values(|i: usize| c[i as int].mtime_ms as i128));
    }
    assert(pool_s.take(pool_s.len() as int) =~= pool_s);
    let order = stable_order(&keys);
    proof {
        order_g = order@;
    }
    let ghost by_age = order@.map_values(|j: usize| pool_s[j as int]);
    match cap {
        Some(limit) => {
            let ghost head = victims@;
            let mut rem: u64 = total;
            let mut k: usize = 0;
            assert(by_age.skip(0) =~= by_age);
            while k < order.len() && rem > limit
                invariant
                    k <= order@.len(),
                    order@.len() == pool_s.len(),
                    forall|a: int| 0 <= a < order@.len() ==> #[trigger] order@[a] < pool_s.len(),
                    forall|a: int| 0 <= a < pool_s.len() ==> #[trigger] pool_s[a] < c.len(),
                    pool@ == pool_s,
                    c == candidates@,
                    by_age == order@.map_values(|j: usize| pool_s[j as int]),
                    victims@ == head + by_age.take(k as int),
                    cap_count(c, by_age, bytes_of(c, pool_s), limit)
                        == k + cap_count(c, by_age.skip(k as int), rem as int, limit),
                decreases order.len() - k,
            {
                let idx = pool[order[k]];
                let sz = candidates[idx].size;
                proof {
                    assert(by_age.skip(k as int)[0] == idx);
                    assert(by_age.skip(k as int).drop_first() =~= by_age.skip(k + 1));
                }
                let ghost sk = by_age.skip(k as int);
                let ghost old_rem = rem as int;
                assert(cap_count(c, sk, old_rem, limit) == 1 + cap_count(c, sk.drop_first(), old_rem - sz, limit));
                victims.push(idx);
                rem = if rem >= sz { rem - sz } else { 0 };
                proof {
                    if old_rem < sz {
                        assert(cap_count(c, sk.drop_first(), old_rem - sz, limit) == 0);
                        assert(cap_count(c, sk.drop_first(), 0, limit) == 0);
                    }
                }
                k = k + 1;
                assert(victims@ =~= head + by_age.take(k as int));
            }
            proof {
                if k == order@.len() {
                    assert(by_age.skip(k as int).len() == 0);
                }
                assert(victims@ == prune_plan(c, now_ms, cap, unkept_max_days, order@));
            }
        },
        None => {
            assert(victims@ =~= prune_plan(c, now_ms, cap, unkept_max_days, order@));
        },
    }
    victims
}

proof fn lemma_pick_prefix_bytes(c: Seq<PruneCandidate>, i: nat, n: nat, f: spec_fn(PruneCandidate) -> bool)
    requires
        i <= n <= c.len(),
        c.len() <= usize::MAX,
    ensures
        bytes_of(c, pick(c, i, f)) <= bytes_of(c, pick(c, n, f)),
        i < n && f(c[i as int]) ==> bytes_of(c, pick(c, i, f)) + c[i as int].size <= bytes_of(c, pick(c, n, f)),
    decreases n - i,
{
    if i < n {
        lemma_pick_prefix_bytes(c, i + 1, n, f);
        if f(c[i as int]) {
            assert(pick(c, i + 1, f) == pick(c, i, f).push(i as usize));
            assert(pick(c, i + 1, f).drop_last() =~= pick(c, i, f));
            assert(pick(c, i + 1, f).last() == i);
            assert(bytes_of(c, pick(c, i + 1, f)) == bytes_of(c, pick(c, i, f)) + c[i as int].size);
        } else {
            assert(pick(c, i + 1, f) == pick(c, i, f));
        }
    }
}

/// What a prune reports: each planned file that was removed (every one in
/// a dry run) counts its bytes (the sum saturating) and its path, in order.
pub open spec fn outcome_paths(c: Seq<PruneCandidate>, victims: Seq<usize>, removed: Seq<bool>, dry_run: bool) -> Seq<Seq<char>>
    decreases victims.len(),
{
    if victims.len() == 0 {
        Seq::empty()
    } else {
        let prev = outcome_paths(c, victims.drop_last(), removed, dry_run);
        let k = victims.len() - 1;
        if dry_run || removed[k] { prev.push(c[victims.last() as int].path@) } else { prev }
    }
}

pub open spec fn outcome_bytes(c: Seq<PruneCandidate>, victims: Seq<usize>, removed: Seq<bool>, dry_run: bool) -> u64
    decreases victims.len(),
{
    if victims.len() == 0 {
        0
    } else {
        let prev = outcome_bytes(c, victims.drop_last(), removed, dry_run);
        let k = victims.len() - 1;
        if dry_run || removed[k] { sat_add(prev, c[victims.last() as int].size) } else { prev }
    }
}

/// The report of a prune that planned `victims` and, outside a dry run,
/// succeeded in removing those marked in `removed` (parallel to `victims`).
pub fn prune_outcome(candidates: &Vec<PruneCandidate>, victims: &Vec<usize>, removed: &Vec<bool>, dry_run: bool) -> (r: StoragePruneResult)
    requires
        removed@.len() == victims@.len(),
        forall|k: int| 0 <= k < victims@.len() ==> #[trigger] victims@[k] < candidates@.len(),
    ensures
        r.dry_run == dry_run,
        r.removed_paths.deep_view() == outcome_paths(candidates@, victims@, removed@, dry_run),
        r.removed_count == r.removed_paths@.len(),
        r.freed_bytes == outcome_bytes(candidates@, victims@, removed@, dry_run),
{
    let mut freed: u64 = 0;
    let mut paths: Vec<String> = Vec::new();
    let mut k: usize = 0;
    while k < victims.len()
        invariant
            k <= victims@.len(),
            removed@.len() == victims@.len(),
            forall|j: int| 0 <= j < victims@.len() ==> #[trigger] victims@[j] < candidates@.len(),
            paths.deep_view() == outcome_paths(candidates@, victims@.take(k as int), removed@, dry_run),
            freed == outcome_bytes(candidates@, victims@.take(k as int), removed@, dry_run),
        decreases victims.len() - k,
    {
        let ghost pv = victims@.take(k as int);
        let v = victims[k];
        if dry_run || removed[k] {
            freed = freed.saturating_add(candidates[v].size);
            crate::text::push_str_arg(&mut paths, candidates[v].path.as_str());
        }
        k = k + 1;
        assert(victims@.take(k as int).drop_last() =~= pv);
    }
    assert(victims@.take(victims@.len() as int) =~= victims@);
    let n = paths.len();
    StoragePruneResult { freed_bytes: freed, removed_count: n as u64, removed_paths: paths, dry_run }
}

// ---------- laws of the prune plan ----------

proof fn lemma_bytes_prepend(c: Seq<PruneCandidate>, x: usize, s: Seq<usize>)
    ensures
        bytes_of(c, seq![x] + s) == c[x as int].size + bytes_of(c, s),
    decreases s.len(),
{
    if s.len() == 0 {
        assert((seq![x] + s).drop_last() =~= Seq::<usize>::empty());
        assert((seq![x] + s).last() == x);
        assert(s =~= Seq::<usize>::empty());
    } else {
        lemma_bytes_prepend(c, x, s.drop_last());
        assert((seq![x] + s).drop_last() =~= seq![x] + s.drop_last());
        assert((seq![x] + s).last() == s.last());
    }
}

proof fn lemma_cap_count_stops(c: Seq<PruneCandidate>, idx: Seq<usize>, total: int, cap: u64)
    ensures
        total - bytes_of(c, idx.take(cap_count(c, idx, total, cap) as int)) <= cap
            || cap_count(c, idx, total, cap) == idx.len(),
    decreases idx.len(),
{
    if idx.len() == 0 || total <= cap {
        assert(idx.take(0) =~= Seq::<usize>::empty());
    } else {
        let rest = idx.drop_first();
        let t2 = total - c[idx[0] as int].size;
        lemma_cap_count_stops(c, rest, t2, cap);
        let k2 = cap_count(c, rest, t2, cap);
        lemma_cap_count_bound(c, rest, t2, cap);
        assert(idx.take((k2 + 1) as int) =~= seq![idx[0]] + rest.take(k2 as int));
        lemma_bytes_prepend(c, idx[0], rest.take(k2 as int));
    }
}

proof fn lemma_pick_satisfies(c: Seq<PruneCandidate>, n: nat, f: spec_fn(PruneCandidate) -> bool)
    requires
        n <= c.len(),
        c.len() <= usize::MAX,
    ensures
        forall|a: int| 0 <= a < pick(c, n, f).len() ==> f(c[#[trigger] pick(c, n, f)[a] as int]),
    decreases n,
{
    if n > 0 {
        lemma_pick_satisfies(c, (n - 1) as nat, f);
        let prev = pick(c, (n - 1) as nat, f);
        let p = pick(c, n, f);
        if f(c[n - 1]) {
            assert(p == prev.push((n - 1) as usize));
            assert(((n - 1) as usize) as int == n - 1);
            assert forall|a: int| 0 <= a < p.len() implies f(c[#[trigger] p[a] as int]) by {
                if a < prev.len() {
                    assert(p[a] == prev[a]);
                }
            }
        }
    }
}

/// With a cap, what the plan leaves of the files the cap pass considers fits
/// within the cap, unless the cap pass removes every one of them.
pub proof fn law_prune_meets_cap(
    c: Seq<PruneCandidate>,
    now_ms: u64,
    cap: u64,
    unkept_max_days: Option<u64>,
    order: Seq<usize>,
)
    requires
        stable_sorted(cap_pool(c, now_ms, unkept_max_days).map_values(|i: usize| c[i as int].mtime_ms as i128), order),
    ensures
        ({
            let pool = cap_pool(c, now_ms, unkept_max_days);
            let by_age = order.map_values(|j: usize| pool[j as int]);
            let removed = prune_plan(c, now_ms, Some(cap), unkept_max_days, order).skip(
                unkept_victims(c, now_ms, unkept_max_days).len() as int,
            );
            removed == by_age.take(removed.len() as int)
                && (bytes_of(c, pool) - bytes_of(c, removed) <= cap || removed.len() == pool.len())
        }),
{
    let pool = cap_pool(c, now_ms, unkept_max_days);
    let by_age = order.map_values(|j: usize| pool[j as int]);
    let k = cap_count(c, by_age, bytes_of(c, pool), cap);
    lemma_cap_count_bound(c, by_age, bytes_of(c, pool), cap);
    lemma_cap_count_stops(c, by_age, bytes_of(c, pool), cap);
    let u = unkept_victims(c, now_ms, unkept_max_days);
    let plan = prune_plan(c, now_ms, Some(cap), unkept_max_days, order);
    assert(plan.skip(u.len() as int) =~= by_age.take(k as int));
}

/// No plan removes a file modified in the last 30 seconds, and the unkept
/// pass removes only files never opened and older than the age limit.
pub proof fn law_prune_spares_recent_and_opened(
    c: Seq<PruneCandidate>,
    now_ms: u64,
    cap: Option<u64>,
    unkept_max_days: Option<u64>,
    order: Seq<usize>,
)
    requires
        c.len() <= usize::MAX,
        stable_sorted(cap_pool(c, now_ms, unkept_max_days).map_values(|i: usize| c[i as int].mtime_ms as i128), order),
    ensures
        forall|a: int| 0 <= a < prune_plan(c, now_ms, cap, unkept_max_days, order).len() ==>
            !in_flight(c[#[trigger] prune_plan(c, now_ms, cap, unkept_max_days, order)[a] as int], now_ms),
        forall|a: int| 0 <= a < unkept_victims(c, now_ms, unkept_max_days).len() ==>
            unkept(c[#[trigger] unkept_victims(c, now_ms, unkept_max_days)[a] as int], now_ms, unkept_max_days),
{
    let pool = cap_pool(c, now_ms, unkept_max_days);
    let u = unkept_victims(c, now_ms, unkept_max_days);
    let by_age = order.map_values(|j: usize| pool[j as int]);
    let plan = prune_plan(c, now_ms, cap, unkept_max_days, order);
    lemma_pick_satisfies(c, c.len(), removed_as_unkept(now_ms, unkept_max_days));
    lemma_pick_satisfies(c, c.len(), left_for_cap(now_ms, unkept_max_days));
    lemma_cap_count_bound(c, by_age, bytes_of(c, pool), match cap { Some(l) => l, None => 0 });
    assert forall|a: int| 0 <= a < plan.len() implies !in_flight(c[#[trigger] plan[a] as int], now_ms) by {
        if a < u.len() {
            assert(plan[a] == u[a]);
            assert(removed_as_unkept(now_ms, unkept_max_days)(c[u[a] as int]));
        } else {
            let j = a - u.len();
            assert(plan[a] == by_age[j]);
            assert(order[j] < pool.len());
            assert(left_for_cap(now_ms, unkept_max_days)(c[pool[order[j] as int] as int]));
        }
    }
    assert forall|a: int| 0 <= a < u.len() implies unkept(c[#[trigger] u[a] as int], now_ms, unkept_max_days) by {
        assert(removed_as_unkept(now_ms, unkept_max_days)(c[u[a] as int]));
    }
}

proof fn lemma_pick_contains(c: Seq<PruneCandidate>, n: nat, f: spec_fn(PruneCandidate) -> bool, i: int)
    requires
        0 <= i < n <= c.len(),
        c.len() <= usize::MAX,
        f(c[i]),
    ensures
        pick(c, n, f).contains(i as usize),
    decreases n,
{
    let prev = pick(c, (n - 1) as nat, f);
    if i == n - 1 {
        assert(pick(c, n, f) == prev.push((n - 1) as usize));
        assert(pick(c, n, f)[prev.len() as int] == i as usize);
    } else {
        lemma_pick_contains(c, (n - 1) as nat, f, i);
        let k = choose|k: int| 0 <= k < prev.len() && prev[k] == i as usize;
        if f(c[n - 1]) {
            assert(pick(c, n, f)[k] == prev[k]);
        }
    }
}

/// The unkept pass measures its limit in whole days: a never-opened file
/// that is no longer being written goes when it was last modified more than
/// `days` days (of 86 400 000 ms) before `now_ms`, whatever the cap; and with
/// no cap nothing else goes, so a never-opened file modified within `days`
/// days, and every opened file, is kept.
pub proof fn law_unkept_limit_counts_whole_days(
    c: Seq<PruneCandidate>,
    now_ms: u64,
    cap: Option<u64>,
    days: u64,
    order: Seq<usize>,
)
    requires
        c.len() <= usize::MAX,
    ensures
        forall|i: int| 0 <= i < c.len() && !c[i].opened
            && !(c[i].mtime_ms <= now_ms && now_ms - c[i].mtime_ms < 30_000)
            && c[i].mtime_ms + days * 86_400_000 < now_ms
            ==> #[trigger] prune_plan(c, now_ms, cap, Some(days), order).contains(i as usize),
        cap is None ==> forall|a: int| 0 <= a < prune_plan(c, now_ms, cap, Some(days), order).len() ==> {
            let x = c[#[trigger] prune_plan(c, now_ms, cap, Some(days), order)[a] as int];
            !x.opened && x.mtime_ms + days * 86_400_000 < now_ms
        },
{
    let fu = removed_as_unkept(now_ms, Some(days));
    let u = unkept_victims(c, now_ms, Some(days));
    let plan = prune_plan(c, now_ms, cap, Some(days), order);
    assert forall|x: PruneCandidate| #[trigger] unkept(x, now_ms, Some(days))
        == (!x.opened && x.mtime_ms + days * 86_400_000 < now_ms) by {
        if days * 86_400 > u64::MAX {
            assert(days * 86_400_000 == (days * 86_400) * 1000);
        }
    }
    assert forall|i: int| 0 <= i < c.len() && !c[i].opened
        && !(c[i].mtime_ms <= now_ms && now_ms - c[i].mtime_ms < 30_000)
        && c[i].mtime_ms + days * 86_400_000 < now_ms
        implies #[trigger] plan.contains(i as usize) by {
        assert(unkept(c[i], now_ms, Some(days)));
        assert(fu(c[i]));
        lemma_pick_contains(c, c.len(), fu, i);
        let k = choose|k: int| 0 <= k < u.len() && u[k] == i as usize;
        assert(plan[k] == u[k]);
    }
    if cap is None {
        lemma_pick_satisfies(c, c.len(), fu);
        assert(plan =~= u);
        assert forall|a: int| 0 <= a < plan.len() implies {
            let x = c[#[trigger] plan[a] as int];
            !x.opened && x.mtime_ms + days * 86_400_000 < now_ms
        } by {
            assert(fu(c[u[a] as int]));
            assert(unkept(c[u[a] as int], now_ms, Some(days)));
        }
    }
}

// ---------- files passed on the command line ----------

/// Command-line arguments the app opens at start: not an option (`-...`),
/// and a video by extension (`.mp4`, `.mkv`, `.mov`, `.webm`, `.m4v`, `.avi`,
/// in any case).
pub open spec fn openable_arg(arg: Seq<char>) -> bool {
    let l = spec_to_lowercase(arg);
    !(arg.len() > 0 && arg[0] == '-') && (ends_with_seq(l, ".mp4"@) || ends_with_seq(l, ".mkv"@)
        || ends_with_seq(l, ".mov"@) || ends_with_seq(l, ".webm"@) || ends_with_seq(l, ".m4v"@)
        || ends_with_seq(l, ".avi"@))
}

/// Whether a command-line argument names a video the app may open.
pub fn is_openable_arg(arg: &str) -> (b: bool)
    ensures
        b == openable_arg(arg@),
{
    let v = crate::text::chars_of(arg);
    if v.len() > 0 && v[0] == '-' {
        return false;
    }
    let lower = to_lowercase(arg);
    let l = lower.as_str();
    str_ends_with(l, ".mp4") || str_ends_with(l, ".mkv") || str_ends_with(l, ".mov")
        || str_ends_with(l, ".webm") || str_ends_with(l, ".m4v") || str_ends_with(l, ".avi")
}

/// The file opened at start: the first argument after the program name that
/// is an openable video and exists as a file (`is_file`, parallel to `args`).
pub fn initial_path(args: &Vec<String>, is_file: &Vec<bool>) -> (r: Option<String>)
    requires
        is_file@.len() == args@.len(),
    ensures
        match r {
            Some(p) => exists|i: int| 1 <= i < args@.len() && p@ == args@[i]@ && openable_arg(args@[i]@) && is_file@[i]
                && forall|j: int| 1 <= j < i ==> !(openable_arg(#[trigger] args@[j]@) && is_file@[j]),
            None => forall|j: int| 1 <= j < args@.len() ==> !(openable_arg(#[trigger] args@[j]@) && is_file@[j]),
        },
{
    let mut i: usize = 1;
    while i < args.len()
        invariant
            1 <= i,
            is_file@.len() == args@.len(),
            forall|j: int| 1 <= j < i && j < args@.len() ==> !(openable_arg(#[trigger] args@[j]@) && is_file@[j]),
        decreases args.len() - i,
    {
        if is_openable_arg(args[i].as_str()) && is_file[i] {
            return Some(owned(args[i].as_str()));
        }
        i = i + 1;
    }
    None
}


// ---------- the opened index ----------

/// Whether a save-folder file counts as kept: its path as listed, or its
/// canonical path when that resolved, is in the opened index.
pub fn was_opened(index: &Vec<String>, raw: &str, canonical: Option<&str>) -> (b: bool)
    ensures
        b == (index.deep_view().contains(raw@) || (canonical matches Some(c) && index.deep_view().contains(c@))),
{
    if crate::replay::games::contains_string(index, raw) {
        return true;
    }
    match canonical {
        Some(c) => crate::replay::games::contains_string(index, c),
        None => false,
    }
}

/// The opened index after marking `key` opened, or `None` when it already
/// held `key` (so nothing needs writing).
pub fn mark_opened(index: &Vec<String>, key: &str) -> (r: Option<Vec<String>>)
    ensures
        index.deep_view().contains(key@) ==> r is None,
        !index.deep_view().contains(key@) ==> (r matches Some(v) && v.deep_view() == index.deep_view().push(key@)),
{
    if crate::replay::games::contains_string(index, key) {
        return None;
    }
    let mut v: Vec<String> = Vec::new();
    let mut i: usize = 0;
    while i < index.len()
        invariant
            i <= index@.len(),
            v.deep_view() == index.deep_view().take(i as int),
        decreases index.len() - i,
    {
        crate::text::push_arg(&mut v, owned(index[i].as_str()));
        assert(index.deep_view().take(i + 1) =~= index.deep_view().take(i as int).push(index@[i as int]@));
        i = i + 1;
    }
    assert(index.deep_view().take(index@.len() as int) =~= index.deep_view());
    crate::text::push_arg(&mut v, owned(key));
    Some(v)
}

// ---------- the proxy cache ----------

/// Milliseconds in a day.
pub const DAY_MS: u64 = 86_400_000;

/// A cache file untouched for `days` days: modified before that many days
/// ago (nothing is, when that reaches back before the epoch).
pub open spec fn cache_stale(mtime_ms: u64, now_ms: u64, days: u64) -> bool {
    days * DAY_MS <= now_ms && mtime_ms < now_ms - days * DAY_MS
}

/// Positions of the stale files among `mtimes`, in order.
pub open spec fn stale_positions(mtimes: Seq<u64>, now_ms: u64, days: u64) -> Seq<usize>
    decreases mtimes.len(),
{
    if mtimes.len() == 0 {
        Seq::empty()
    } else {
        let prev = stale_positions(mtimes.drop_last(), now_ms, days);
        if cache_stale(mtimes.last(), now_ms, days) { prev.push((mtimes.len() - 1) as usize) } else { prev }
    }
}

/// The cache files the startup sweep removes, given each file's modification
/// time (milliseconds since the epoch).
pub fn stale_cache_files(mtimes: &Vec<u64>, now_ms: u64, days: u64) -> (r: Vec<usize>)
    requires
        days * DAY_MS <= u64::MAX,
    ensures
        r@ == stale_positions(mtimes@, now_ms, days),
{
    let span: u64 = days * DAY_MS;
    let mut r: Vec<usize> = Vec::new();
    let mut i: usize = 0;
    while i < mtimes.len()
        invariant
            i <= mtimes@.len(),
            span == days * DAY_MS,
            r@ == stale_positions(mtimes@.take(i as int), now_ms, days),
        decreases mtimes.len() - i,
    {
        assert(mtimes@.take(i + 1).drop_last() =~= mtimes@.take(i as int));
        if span <= now_ms && mtimes[i] < now_ms - span {
            r.push(i);
        }
        i = i + 1;
    }
    assert(mtimes@.take(mtimes@.len() as int) =~= mtimes@);
    r
}

} // verus!
