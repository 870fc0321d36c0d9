use vstd::prelude::*;

use crate::expiration::{is_live, live_at, BlockInfo, Expiration};

verus! {

/// An entry of an active list: the id of a live item and, optionally, when it
/// stops being live.
pub type ActiveEntry = (u64, Option<Expiration>);

/// One version of a key's active list, with the height it was written at.
pub type Version = (u64, Vec<ActiveEntry>);

/// A version as the contracts see it.
pub type VersionView = (u64, Seq<ActiveEntry>);

/// The versions of a history as the contracts see them.
pub open spec fn history_view(hist: Seq<Version>) -> Seq<VersionView> {
    hist.map_values(|v: Version| (v.0, v.1@))
}

/// Holds of an entry that is live at the block.
pub open spec fn live_pred(block: BlockInfo) -> spec_fn(ActiveEntry) -> bool {
    |e: ActiveEntry| live_at(e.1, block)
}

/// Holds of an entry that is live at the block and is not `id`.
pub open spec fn live_without_pred(id: u64, block: BlockInfo) -> spec_fn(ActiveEntry) -> bool {
    |e: ActiveEntry| e.0 != id && live_at(e.1, block)
}

/// The entries of `s` that are live at the block, in order.
pub open spec fn live_entries(s: Seq<ActiveEntry>, block: BlockInfo) -> Seq<ActiveEntry> {
    s.filter(live_pred(block))
}

/// The entries of `s` that are live at the block and are not `id`, in order.
pub open spec fn live_entries_without(
    s: Seq<ActiveEntry>,
    id: u64,
    block: BlockInfo,
) -> Seq<ActiveEntry> {
    s.filter(live_without_pred(id, block))
}

/// The window of `s` that skipping `offset` elements and then taking at most
/// `limit` leaves.
pub open spec fn window<A>(s: Seq<A>, offset: nat, limit: nat) -> Seq<A> {
    let lo = if offset <= s.len() { offset as int } else { s.len() as int };
    let hi = if lo + limit <= s.len() { lo + limit } else { s.len() as int };
    s.subrange(lo, hi)
}

/// The index of the last of the first `n` versions written at or before
/// `height`, or -1 where there is none.
pub open spec fn latest_before(hist: Seq<VersionView>, height: u64, n: nat) -> int
    decreases n,
{
    if n == 0 {
        -1
    } else if hist[n - 1].0 <= height {
        n - 1
    } else {
        latest_before(hist, height, (n - 1) as nat)
    }
}

/// The index of the version that is current at `height`: the last one
/// written at or before it, or -1 where there is none.
pub open spec fn version_index(hist: Seq<VersionView>, height: u64) -> int {
    latest_before(hist, height, hist.len())
}

/// The active list as of `height`: that of the last version written at or
/// before it, or the empty list.
pub open spec fn active_at(hist: Seq<VersionView>, height: u64) -> Seq<ActiveEntry> {
    let i = version_index(hist, height);
    if i < 0 {
        Seq::empty()
    } else {
        hist[i].1
    }
}

/// The most recent active list, or the empty list before the first write.
pub open spec fn latest(hist: Seq<VersionView>) -> Seq<ActiveEntry> {
    if hist.len() == 0 {
        Seq::empty()
    } else {
        hist.last().1
    }
}

pub proof fn lemma_latest_before_range(hist: Seq<VersionView>, height: u64, n: nat)
    requires
        n <= hist.len(),
    ensures
        -1 <= latest_before(hist, height, n) < n,
        latest_before(hist, height, n) >= 0 ==> hist[latest_before(hist, height, n)].0 <= height,
    decreases n,
{
    if n > 0 && hist[n - 1].0 > height {
        lemma_latest_before_range(hist, height, (n - 1) as nat);
    }
}

/// Appending a version written after `height` leaves the version current at
/// `height` where it was.
pub proof fn lemma_latest_before_push(hist: Seq<VersionView>, v: VersionView, height: u64, n: nat)
    requires
        n <= hist.len(),
    ensures
        latest_before(hist.push(v), height, n) == latest_before(hist, height, n),
    decreases n,
{
    if n > 0 {
        assert(hist.push(v)[n - 1] == hist[n - 1]);
        lemma_latest_before_push(hist, v, height, (n - 1) as nat);
    }
}

/// Filtering keeps every id below a bound that all of them were below.
pub proof fn lemma_filter_ids_below(s: Seq<ActiveEntry>, p: spec_fn(ActiveEntry) -> bool, n: nat)
    requires
        forall|y: int| 0 <= y < s.len() ==> (#[trigger] s[y]).0 < n,
    ensures
        forall|x: int| 0 <= x < s.filter(p).len() ==> (#[trigger] s.filter(p)[x]).0 < n,
{
    assert forall|x: int| 0 <= x < s.filter(p).len() implies (#[trigger] s.filter(p)[x]).0 < n by {
        let e = s.filter(p)[x];
        assert(s.filter(p).contains(e));
        s.lemma_filter_contains_rev(p, e);
    }
}

/// The index of the version current at `height`, if any.
pub fn find_version(hist: &Vec<Version>, height: u64) -> (r: Option<usize>)
    ensures
        match r {
            Some(i) => i as int == version_index(history_view(hist@), height) && i < hist@.len(),
            None => version_index(history_view(hist@), height) == -1,
        },
{
    let mut i: usize = hist.len();
    while i > 0
        invariant
            i <= hist@.len(),
            version_index(history_view(hist@), height) == latest_before(
                history_view(hist@),
                height,
                i as nat,
            ),
        decreases i,
    {
        if hist[i - 1].0 <= height {
            return Some(i - 1);
        }
        i = i - 1;
    }
    None
}

/// The entries of `active` that are live at the block, in order.
pub fn evict_expired(active: &Vec<ActiveEntry>, block: &BlockInfo) -> (r: Vec<ActiveEntry>)
    ensures
        r@ == live_entries(active@, *block),
{
    let ghost pred = live_pred(*block);
    let mut out: Vec<ActiveEntry> = Vec::new();
    let mut i: usize = 0;
    while i < active.len()
        invariant
            i <= active@.len(),
            out@ == active@.take(i as int).filter(pred),
            pred == live_pred(*block),
        decreases active@.len() - i,
    {
        let e = active[i];
        proof {
            assert(active@.take(i + 1) == active@.take(i as int).push(e));
            active@.take(i as int).lemma_filter_push(e, pred);
            assert(pred(e) == live_at(e.1, *block));
        }
        if is_live(&e.1, block) {
            out.push(e);
        }
        i = i + 1;
    }
    assert(active@.take(active@.len() as int) == active@);
    out
}

/// The entries of `active` that are live at the block, leaving out `id`.
pub fn evict_with(active: &Vec<ActiveEntry>, id: u64, block: &BlockInfo) -> (r: Vec<ActiveEntry>)
    ensures
        r@ == live_entries_without(active@, id, *block),
{
    let ghost pred = live_without_pred(id, *block);
    let mut out: Vec<ActiveEntry> = Vec::new();
    let mut i: usize = 0;
    while i < active.len()
        invariant
            i <= active@.len(),
            out@ == active@.take(i as int).filter(pred),
            pred == live_without_pred(id, *block),
        decreases active@.len() - i,
    {
        let e = active[i];
        proof {
            assert(active@.take(i + 1) == active@.take(i as int).push(e));
            active@.take(i as int).lemma_filter_push(e, pred);
            assert(pred(e) == (e.0 != id && live_at(e.1, *block)));
        }
        if e.0 != id && is_live(&e.1, block) {
            out.push(e);
        }
        i = i + 1;
    }
    assert(active@.take(active@.len() as int) == active@);
    out
}

/// The window of `s` left by skipping `offset` entries and taking at most
/// `limit`.
pub fn page(s: &Vec<ActiveEntry>, offset: u64, limit: u64) -> (r: Vec<ActiveEntry>)
    ensures
        r@ == window(s@, offset as nat, limit as nat),
{
    let len = s.len();
    let lo: usize = if (offset as u128) <= (len as u128) { offset as usize } else { len };
    let hi: usize = if (lo as u128) + (limit as u128) <= (len as u128) {
        lo + limit as usize
    } else {
        len
    };
    let mut out: Vec<ActiveEntry> = Vec::new();
    let mut j: usize = lo;
    while j < hi
        invariant
            lo <= j <= hi,
            hi <= s@.len(),
            out@ == s@.subrange(lo as int, j as int),
        decreases hi - j,
    {
        out.push(s[j]);
        j = j + 1;
        assert(out@ == s@.subrange(lo as int, j as int));
    }
    out
}

} // verus!
