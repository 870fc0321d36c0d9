use vstd::prelude::*;

use crate::active::{
    active_at, latest, lemma_latest_before_push, lemma_latest_before_range,
    live_entries, live_entries_without, live_pred, live_without_pred, version_index, window,
    ActiveEntry, VersionView,
};
use crate::expiration::{expire_from, live_at, BlockInfo, Duration, Expiration};
use crate::vector_map::{empty_model, KeyModel};

verus! {

/// A write to one key of the map.
pub enum Op<T> {
    Push { data: T, block: BlockInfo, expire_in: Option<Duration> },
    Remove { id: u64, block: BlockInfo },
}

/// The block a write runs at.
pub open spec fn op_block<T>(op: Op<T>) -> BlockInfo {
    match op {
        Op::Push { block, .. } => block,
        Op::Remove { block, .. } => block,
    }
}

/// The key after one write.
pub open spec fn apply<T>(m: KeyModel<T>, op: Op<T>) -> KeyModel<T> {
    match op {
        Op::Push { data, block, expire_in } => m.pushed(data, block, expire_in),
        Op::Remove { id, block } => m.removed(id, block),
    }
}

/// The key after a sequence of writes, in order.
pub open spec fn apply_all<T>(m: KeyModel<T>, ops: Seq<Op<T>>) -> KeyModel<T>
    decreases ops.len(),
{
    if ops.len() == 0 {
        m
    } else {
        apply(apply_all(m, ops.drop_last()), ops.last())
    }
}

/// The items that the pushes among the writes carry, in order.
pub open spec fn pushed_items<T>(ops: Seq<Op<T>>) -> Seq<T>
    decreases ops.len(),
{
    if ops.len() == 0 {
        Seq::empty()
    } else {
        let rest = pushed_items(ops.drop_last());
        match ops.last() {
            Op::Push { data, .. } => rest.push(data),
            Op::Remove { .. } => rest,
        }
    }
}

/// Pushes to a fresh key store their items under ids 0, 1, 2, ... in the
/// order of the calls, whatever removals come between them: the item under
/// id `i` is the item of the `i`-th push, and the next id is the number of
/// pushes.
pub proof fn law_sequential_ids<T>(ops: Seq<Op<T>>)
    ensures
        apply_all(empty_model::<T>(), ops).items == pushed_items(ops),
        apply_all(empty_model::<T>(), ops).next_id() == pushed_items(ops).len(),
    decreases ops.len(),
{
    if ops.len() > 0 {
        law_sequential_ids(ops.drop_last());
    }
}

/// A version written above `height` leaves the active list as of `height`
/// alone.
proof fn lemma_active_at_push(hist: Seq<VersionView>, v: VersionView, height: u64)
    requires
        v.0 > height,
    ensures
        active_at(hist.push(v), height) == active_at(hist, height),
{
    lemma_latest_before_push(hist, v, height, hist.len());
    lemma_latest_before_range(hist, height, hist.len());
    let h2 = hist.push(v);
    assert(h2[h2.len() - 1] == v);
    assert(version_index(h2, height) == version_index(hist, height));
    let i = version_index(hist, height);
    if i >= 0 {
        assert(h2[i] == hist[i]);
    }
}

/// Writes keep every item already stored, under the same id.
pub proof fn law_items_kept<T>(m: KeyModel<T>, ops: Seq<Op<T>>)
    ensures
        apply_all(m, ops).items.len() >= m.items.len(),
        apply_all(m, ops).items.take(m.items.len() as int) == m.items,
    decreases ops.len(),
{
    if ops.len() > 0 {
        law_items_kept(m, ops.drop_last());
        let p = apply_all(m, ops.drop_last());
        assert(apply_all(m, ops).items.take(m.items.len() as int) =~= p.items.take(
            m.items.len() as int,
        ));
    }
}

/// Once written, what a load at a height returns does not change: writes at
/// greater heights leave the loaded entries and their items as they were.
pub proof fn law_history_fixed<T>(
    m: KeyModel<T>,
    ops: Seq<Op<T>>,
    block: BlockInfo,
    limit: Option<u64>,
    offset: Option<u64>,
)
    requires
        forall|j: int| 0 <= j < ops.len() ==> (#[trigger] op_block(ops[j])).height > block.height,
    ensures
        apply_all(m, ops).loaded(block, limit, offset) == m.loaded(block, limit, offset),
        apply_all(m, ops).items.take(m.items.len() as int) == m.items,
    decreases ops.len(),
{
    law_items_kept(m, ops);
    if ops.len() > 0 {
        let init = ops.drop_last();
        assert forall|j: int| 0 <= j < init.len() implies (#[trigger] op_block(init[j])).height
            > block.height by {
            assert(init[j] == ops[j]);
        }
        law_history_fixed(m, init, block, limit, offset);
        let p = apply_all(m, init);
        let last = ops.last();
        assert(op_block(ops[ops.len() - 1]).height > block.height);
        match last {
            Op::Push { data, block: b, expire_in } => {
                let v = (b.height, live_entries(latest(p.history), b).push(
                    (p.items.len() as u64, expire_from(expire_in, b)),
                ));
                lemma_active_at_push(p.history, v, block.height);
            },
            Op::Remove { id, block: b } => {
                let v = (b.height, live_entries_without(latest(p.history), id, b));
                lemma_active_at_push(p.history, v, block.height);
            },
        }
    }
}

/// A load returns only entries that are live at its block: an entry drops
/// out of every load from the first block at or past its expiration, though
/// its item stays readable by id.
pub proof fn law_expired_not_loaded<T>(
    m: KeyModel<T>,
    block: BlockInfo,
    limit: Option<u64>,
    offset: Option<u64>,
)
    ensures
        forall|j: int|
            0 <= j < m.loaded(block, limit, offset).len() ==> live_at(
                (#[trigger] m.loaded(block, limit, offset)[j]).1,
                block,
            ),
{
    let s = live_entries(active_at(m.history, block.height), block);
    let sel = m.loaded(block, limit, offset);
    assert forall|j: int| 0 <= j < sel.len() implies live_at((#[trigger] sel[j]).1, block) by {
        let o: u64 = match offset {
            Some(x) => x,
            None => 0,
        };
        let lo = if o <= s.len() { o as int } else { s.len() as int };
        assert(sel[j] == s[lo + j]);
        active_at(m.history, block.height).lemma_filter_pred(live_pred(block), lo + j);
    }
}

/// Filtering by two predicates that agree on every element gives the same
/// sequence.
proof fn lemma_filter_agree(s: Seq<ActiveEntry>, p: spec_fn(ActiveEntry) -> bool, q: spec_fn(ActiveEntry) -> bool)
    requires
        forall|i: int| 0 <= i < s.len() ==> p(#[trigger] s[i]) == q(s[i]),
    ensures
        s.filter(p) == s.filter(q),
    decreases s.len(),
{
    if s.len() == 0 {
        assert(s.filter(p) =~= s.filter(q)) by {
            reveal(Seq::filter);
        }
    } else {
        let init = s.drop_last();
        assert forall|i: int| 0 <= i < init.len() implies p(#[trigger] init[i]) == q(init[i]) by {
            assert(init[i] == s[i]);
        }
        lemma_filter_agree(init, p, q);
        assert(s == init.push(s.last()));
        init.lemma_filter_push(s.last(), p);
        init.lemma_filter_push(s.last(), q);
    }
}

/// Filtering by a predicate that every element meets changes nothing.
proof fn lemma_filter_all(s: Seq<ActiveEntry>, p: spec_fn(ActiveEntry) -> bool)
    requires
        forall|i: int| 0 <= i < s.len() ==> p(#[trigger] s[i]),
    ensures
        s.filter(p) == s,
    decreases s.len(),
{
    if s.len() == 0 {
        assert(s.filter(p) =~= s) by {
            reveal(Seq::filter);
        }
    } else {
        let init = s.drop_last();
        assert forall|i: int| 0 <= i < init.len() implies p(#[trigger] init[i]) by {
            assert(init[i] == s[i]);
        }
        lemma_filter_all(init, p);
        assert(s == init.push(s.last()));
        init.lemma_filter_push(s.last(), p);
    }
}

/// The active list as of the height of the latest version is that version.
proof fn lemma_active_at_last(hist: Seq<VersionView>, height: u64)
    requires
        hist.len() > 0,
        hist.last().0 <= height,
    ensures
        active_at(hist, height) == hist.last().1,
{
}

/// Removing an id a second time, at the same or a later block, leaves what
/// a load at that block returns as after the first removal.
pub proof fn law_remove_idempotent<T>(
    m: KeyModel<T>,
    id: u64,
    b1: BlockInfo,
    b2: BlockInfo,
    limit: Option<u64>,
    offset: Option<u64>,
)
    requires
        b1.height <= b2.height,
        b1.time <= b2.time,
    ensures
        m.removed(id, b1).removed(id, b2).loaded(b2, limit, offset) == m.removed(id, b1).loaded(
            b2,
            limit,
            offset,
        ),
{
    let m1 = m.removed(id, b1);
    let m2 = m1.removed(id, b2);
    let v1 = live_entries_without(latest(m.history), id, b1);
    lemma_active_at_last(m1.history, b2.height);
    lemma_active_at_last(m2.history, b2.height);
    assert(latest(m1.history) == v1);
    assert forall|i: int| 0 <= i < v1.len() implies live_without_pred(id, b2)(#[trigger] v1[i])
        == live_pred(b2)(v1[i]) by {
        latest(m.history).lemma_filter_pred(live_without_pred(id, b1), i);
    }
    lemma_filter_agree(v1, live_without_pred(id, b2), live_pred(b2));
    let w = v1.filter(live_pred(b2));
    assert forall|i: int| 0 <= i < w.len() implies live_pred(b2)(#[trigger] w[i]) by {
        v1.lemma_filter_pred(live_pred(b2), i);
    }
    lemma_filter_all(w, live_pred(b2));
}

/// Pages tile the full result: the page of `l1` entries at offset `o`
/// followed by the page of `l2` entries at offset `o + l1` is the page of
/// `l1 + l2` entries at offset `o`, with no entry repeated or left out.
pub proof fn law_paging<T>(m: KeyModel<T>, block: BlockInfo, o: u64, l1: u64, l2: u64)
    requires
        o + l1 + l2 <= u64::MAX,
    ensures
        m.loaded(block, Some(l1), Some(o)) + m.loaded(block, Some(l2), Some((o + l1) as u64))
            == m.loaded(block, Some((l1 + l2) as u64), Some(o)),
{
    let s = live_entries(active_at(m.history, block.height), block);
    assert(window(s, o as nat, l1 as nat) + window(s, (o + l1) as nat, l2 as nat) =~= window(
        s,
        o as nat,
        (l1 + l2) as nat,
    ));
}

/// A page at offset 0 whose limit reaches the end is the unpaged result.
pub proof fn law_paging_whole<T>(m: KeyModel<T>, block: BlockInfo, l: u64)
    requires
        l >= m.loaded(block, None, None).len(),
    ensures
        m.loaded(block, Some(l), Some(0)) == m.loaded(block, None, None),
{
    let s = live_entries(active_at(m.history, block.height), block);
    assert(window(s, 0, l as nat) =~= window(s, 0, u64::MAX as nat));
}

/// The `j`-th write is a push whose entry in the active list is `e`.
pub open spec fn pushed_at<T>(ops: Seq<Op<T>>, j: int, e: ActiveEntry) -> bool {
    match ops[j] {
        Op::Push { block, expire_in, .. } => e == (
            pushed_items(ops.take(j)).len() as u64,
            expire_from(expire_in, block),
        ),
        Op::Remove { .. } => false,
    }
}

/// No write after the `j`-th and before the `n`-th removes the id.
pub open spec fn kept_after<T>(ops: Seq<Op<T>>, j: int, n: int, id: u64) -> bool {
    forall|k: int|
        j < k < n ==> !(#[trigger] ops[k] matches Op::Remove { id: r, .. } && r == id)
}

/// The block `a` comes no later than `b`, in height and in time.
pub open spec fn no_later(a: BlockInfo, b: BlockInfo) -> bool {
    a.height <= b.height && a.time <= b.time
}

/// An entry live at a block was live at every block no later than it.
proof fn lemma_live_earlier(e: Option<Expiration>, a: BlockInfo, b: BlockInfo)
    requires
        no_later(a, b),
        live_at(e, b),
    ensures
        live_at(e, a),
{
}

/// The latest active list after the first `n` writes to a fresh key holds
/// only entries pushed and not removed since, and holds each such entry that
/// is live at the block of the last of them.
proof fn lemma_latest_entries<T>(ops: Seq<Op<T>>, n: nat)
    requires
        n <= ops.len(),
        forall|j: int, k: int|
            0 <= j < k < ops.len() ==> no_later(
                #[trigger] op_block(ops[j]),
                #[trigger] op_block(ops[k]),
            ),
    ensures
        latest(apply_all(empty_model::<T>(), ops.take(n as int)).history).len() <= n,
        forall|e: ActiveEntry|
            #[trigger] latest(apply_all(empty_model::<T>(), ops.take(n as int)).history).contains(e)
                ==> exists|j: int| 0 <= j < n && pushed_at(ops, j, e) && kept_after(ops, j, n as int, e.0),
        n > 0 ==> forall|e: ActiveEntry, j: int|
            0 <= j < n && pushed_at(ops, j, e) && kept_after(ops, j, n as int, e.0) && live_at(
                e.1,
                op_block(ops[n - 1]),
            ) ==> #[trigger] latest(apply_all(empty_model::<T>(), ops.take(n as int)).history).contains(e) && #[trigger] pushed_at(ops, j, e),
    decreases n,
{
    if n == 0 {
        assert(ops.take(0) =~= Seq::<Op<T>>::empty());
        return;
    }
    let pn = (n - 1) as nat;
    lemma_latest_entries(ops, pn);
    let prev = apply_all(empty_model::<T>(), ops.take(pn as int));
    let l = latest(prev.history);
    assert(ops.take(n as int).drop_last() =~= ops.take(pn as int));
    assert(ops.take(n as int).last() == ops[pn as int]);
    let cur = apply_all(empty_model::<T>(), ops.take(n as int));
    assert(cur == apply(prev, ops[pn as int]));
    let bn = op_block(ops[pn as int]);
    assert(latest(cur.history) == cur.history.last().1);
    law_sequential_ids(ops.take(pn as int));
    match ops[pn as int] {
        Op::Push { data, block, expire_in } => {
            let fl = l.filter(live_pred(block));
            let new_e = (prev.items.len() as u64, expire_from(expire_in, block));
            assert(latest(cur.history) == fl.push(new_e));
            l.lemma_filter_len(live_pred(block));
            assert forall|e: ActiveEntry| #[trigger] latest(cur.history).contains(e) implies exists|j: int|
                0 <= j < n && pushed_at(ops, j, e) && kept_after(ops, j, n as int, e.0) by {
                let i = choose|i: int| 0 <= i < latest(cur.history).len() && latest(cur.history)[i] == e;
                if i == fl.len() {
                    assert(pushed_at(ops, pn as int, e));
                } else {
                    assert(fl[i] == e);
                    assert(fl.contains(e));
                    l.lemma_filter_contains_rev(live_pred(block), e);
                    let j = choose|j: int| 0 <= j < pn && pushed_at(ops, j, e) && kept_after(ops, j, pn as int, e.0);
                    assert(kept_after(ops, j, n as int, e.0));
                }
            }
            assert forall|e: ActiveEntry, j: int|
                0 <= j < n && pushed_at(ops, j, e) && kept_after(ops, j, n as int, e.0) && live_at(e.1, bn)
                implies #[trigger] latest(cur.history).contains(e) && #[trigger] pushed_at(ops, j, e) by {
                if j == pn {
                    assert(ops.take(j) == ops.take(pn as int));
                    assert(latest(cur.history)[fl.len() as int] == e);
                } else {
                    assert(kept_after(ops, j, pn as int, e.0));
                    lemma_live_earlier(e.1, op_block(ops[pn - 1]), bn);
                    assert(l.contains(e));
                    let i = choose|i: int| 0 <= i < l.len() && l[i] == e;
                    l.lemma_filter_contains(live_pred(block), i);
                    let k = choose|k: int| 0 <= k < fl.len() && fl[k] == e;
                    assert(latest(cur.history)[k] == e);
                }
            }
        },
        Op::Remove { id, block } => {
            let fl = l.filter(live_without_pred(id, block));
            assert(latest(cur.history) == fl);
            l.lemma_filter_len(live_without_pred(id, block));
            assert forall|e: ActiveEntry| #[trigger] latest(cur.history).contains(e) implies exists|j: int|
                0 <= j < n && pushed_at(ops, j, e) && kept_after(ops, j, n as int, e.0) by {
                let i = choose|i: int| 0 <= i < fl.len() && fl[i] == e;
                l.lemma_filter_pred(live_without_pred(id, block), i);
                l.lemma_filter_contains_rev(live_without_pred(id, block), e);
                let j = choose|j: int| 0 <= j < pn && pushed_at(ops, j, e) && kept_after(ops, j, pn as int, e.0);
                assert(kept_after(ops, j, n as int, e.0));
            }
            assert forall|e: ActiveEntry, j: int|
                0 <= j < n && pushed_at(ops, j, e) && kept_after(ops, j, n as int, e.0) && live_at(e.1, bn)
                implies #[trigger] latest(cur.history).contains(e) && #[trigger] pushed_at(ops, j, e) by {
                assert(j != pn);
                assert(kept_after(ops, j, pn as int, e.0));
                assert(!(ops[pn as int] matches Op::Remove { id: r, .. } && r == e.0));
                lemma_live_earlier(e.1, op_block(ops[pn - 1]), bn);
                assert(l.contains(e));
                let i = choose|i: int| 0 <= i < l.len() && l[i] == e;
                l.lemma_filter_contains(live_without_pred(id, block), i);
            }
        },
    }
}

/// The active set over time: after writes to a fresh key at blocks that never
/// go back, a load at a block no earlier than any of them returns exactly
/// the entries that were pushed, have not been removed since, and are live
/// at that block.
pub proof fn law_active_set<T>(ops: Seq<Op<T>>, block: BlockInfo)
    requires
        ops.len() <= u64::MAX,
        forall|j: int, k: int|
            0 <= j < k < ops.len() ==> no_later(
                #[trigger] op_block(ops[j]),
                #[trigger] op_block(ops[k]),
            ),
        forall|j: int| 0 <= j < ops.len() ==> no_later(#[trigger] op_block(ops[j]), block),
    ensures
        forall|e: ActiveEntry|
            #[trigger] apply_all(empty_model::<T>(), ops).loaded(block, None, None).contains(e) <==> (
            exists|j: int|
                0 <= j < ops.len() && pushed_at(ops, j, e) && kept_after(ops, j, ops.len() as int, e.0)
                    && live_at(e.1, block)),
{
    let m = apply_all(empty_model::<T>(), ops);
    let n = ops.len();
    assert(ops.take(n as int) =~= ops);
    if n == 0 {
        assert(m.loaded(block, None, None) =~= Seq::<ActiveEntry>::empty()) by {
            reveal(Seq::filter);
        }
        return;
    }
    lemma_latest_entries(ops, n);
    let l = latest(m.history);
    assert(op_block(ops[n - 1]).height <= block.height);
    assert(m.history.last().0 == op_block(ops[n - 1]).height);
    lemma_active_at_last(m.history, block.height);
    let s = l.filter(live_pred(block));
    l.lemma_filter_len(live_pred(block));
    assert(m.loaded(block, None, None) =~= s);
    assert forall|e: ActiveEntry| #[trigger] m.loaded(block, None, None).contains(e) <==> (
        exists|j: int|
            0 <= j < n && pushed_at(ops, j, e) && kept_after(ops, j, n as int, e.0)
                && live_at(e.1, block)) by {
        if s.contains(e) {
            let i = choose|i: int| 0 <= i < s.len() && s[i] == e;
            l.lemma_filter_pred(live_pred(block), i);
            l.lemma_filter_contains_rev(live_pred(block), e);
        }
        if exists|j: int|
            0 <= j < n && pushed_at(ops, j, e) && kept_after(ops, j, n as int, e.0)
                && live_at(e.1, block) {
            let j = choose|j: int|
                0 <= j < n && pushed_at(ops, j, e) && kept_after(ops, j, n as int, e.0)
                    && live_at(e.1, block);
            lemma_live_earlier(e.1, op_block(ops[n - 1]), block);
            assert(l.contains(e));
            let i = choose|i: int| 0 <= i < l.len() && l[i] == e;
            l.lemma_filter_contains(live_pred(block), i);
        }
    }
}

/// Applying two runs of writes in turn is applying them joined.
proof fn lemma_apply_all_append<T>(m: KeyModel<T>, a: Seq<Op<T>>, b: Seq<Op<T>>)
    ensures
        apply_all(m, a + b) == apply_all(apply_all(m, a), b),
    decreases b.len(),
{
    if b.len() == 0 {
        assert(a + b =~= a);
    } else {
        lemma_apply_all_append(m, a, b.drop_last());
        assert((a + b).drop_last() =~= a + b.drop_last());
        assert((a + b).last() == b.last());
    }
}

/// The active set as of a height is fixed once the height has passed: a
/// load at a block returns exactly the entries pushed by the writes up to it,
/// not removed by them since, and live at the block, whatever writes come
/// later at greater heights.
pub proof fn law_active_set_over_time<T>(
    before: Seq<Op<T>>,
    after: Seq<Op<T>>,
    block: BlockInfo,
)
    requires
        before.len() <= u64::MAX,
        forall|j: int, k: int|
            0 <= j < k < before.len() ==> no_later(
                #[trigger] op_block(before[j]),
                #[trigger] op_block(before[k]),
            ),
        forall|j: int| 0 <= j < before.len() ==> no_later(#[trigger] op_block(before[j]), block),
        forall|j: int| 0 <= j < after.len() ==> (#[trigger] op_block(after[j])).height > block.height,
    ensures
        forall|e: ActiveEntry|
            #[trigger] apply_all(empty_model::<T>(), before + after).loaded(block, None, None).contains(e)
                <==> (exists|j: int|
                0 <= j < before.len() && pushed_at(before, j, e) && kept_after(
                    before,
                    j,
                    before.len() as int,
                    e.0,
                ) && live_at(e.1, block)),
{
    let m = apply_all(empty_model::<T>(), before);
    lemma_apply_all_append(empty_model::<T>(), before, after);
    law_history_fixed(m, after, block, None, None);
    law_active_set(before, block);
}

} // verus!
