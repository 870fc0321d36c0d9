use vstd::pervasive::cloned;
use vstd::prelude::*;

use crate::active::{
    active_at, evict_expired, evict_with, find_version, history_view, latest,
    lemma_filter_ids_below, live_entries, live_entries_without, live_pred, live_without_pred, page,
    window, ActiveEntry, Version, VersionView,
};
use crate::expiration::{expire_from, fits_after_opt, BlockInfo, Duration, Expiration};

verus! {

/// What the map holds for one key: every item pushed, indexed by id, and
/// every version of the active list in the order written.
pub struct KeyModel<T> {
    pub items: Seq<T>,
    pub history: Seq<VersionView>,
}

/// The model of a key that was never written.
pub open spec fn empty_model<T>() -> KeyModel<T> {
    KeyModel { items: Seq::empty(), history: Seq::empty() }
}

impl<T> KeyModel<T> {
    /// Every id in every version of the active list names a stored item, and
    /// every id fits in a `u64`.
    pub open spec fn wf(self) -> bool {
        &&& self.items.len() <= u64::MAX
        &&& forall|j: int, x: int|
            0 <= j < self.history.len() && 0 <= x < self.history[j].1.len() ==> (
            #[trigger] self.history[j].1[x]).0 < self.items.len()
    }

    /// The id that the next push assigns.
    pub open spec fn next_id(self) -> nat {
        self.items.len()
    }

    /// The key after `push`: the item is stored under the next id, and a new
    /// version of the active list is written at the block's height holding
    /// the live entries of the latest version followed by the new entry.
    pub open spec fn pushed(
        self,
        data: T,
        block: BlockInfo,
        expire_in: Option<Duration>,
    ) -> KeyModel<T> {
        KeyModel {
            items: self.items.push(data),
            history: self.history.push(
                (
                    block.height,
                    live_entries(latest(self.history), block).push(
                        (self.items.len() as u64, expire_from(expire_in, block)),
                    ),
                ),
            ),
        }
    }

    /// The key after `remove`: a new version of the active list is written at
    /// the block's height holding the live entries of the latest version
    /// other than `id`. Items are kept.
    pub open spec fn removed(self, id: u64, block: BlockInfo) -> KeyModel<T> {
        KeyModel {
            items: self.items,
            history: self.history.push(
                (block.height, live_entries_without(latest(self.history), id, block)),
            ),
        }
    }

    /// The entries that `load` returns: those of the version current at the
    /// block's height that are live at the block, skipping `offset` (none by
    /// default) and taking at most `limit` (all by default).
    pub open spec fn loaded(
        self,
        block: BlockInfo,
        limit: Option<u64>,
        offset: Option<u64>,
    ) -> Seq<ActiveEntry> {
        let o: u64 = match offset {
            Some(x) => x,
            None => 0,
        };
        let l: u64 = match limit {
            Some(x) => x,
            None => u64::MAX,
        };
        window(live_entries(active_at(self.history, block.height), block), o as nat, l as nat)
    }
}

/// An item read back from the map, with its id and expiration.
#[derive(Clone, Debug, PartialEq, Eq)]
pub struct LoadedItem<T> {
    /// The id of the item within its key's vector.
    pub id: u64,
    /// The item.
    pub item: T,
    /// When the item expires, if set.
    pub expiration: Option<Expiration>,
}

/// Why a lookup by id failed.
#[derive(Clone, Copy, Debug, PartialEq, Eq, Structural)]
pub enum VectorMapError {
    /// No item was ever stored under the key and id.
    NotFound,
}

/// The stored state of one key.
struct KeyState<T> {
    key: Vec<u8>,
    items: Vec<T>,
    versions: Vec<Version>,
}

impl<T> KeyState<T> {
    spec fn model(self) -> KeyModel<T> {
        KeyModel { items: self.items@, history: history_view(self.versions@) }
    }
}

/// The index of the last of the first `n` states whose key is `k`, or -1.
spec fn slot_before<T>(states: Seq<KeyState<T>>, k: Seq<u8>, n: nat) -> int
    decreases n,
{
    if n == 0 {
        -1
    } else if states[n - 1].key@ == k {
        n - 1
    } else {
        slot_before(states, k, (n - 1) as nat)
    }
}

proof fn lemma_slot_before_range<T>(states: Seq<KeyState<T>>, k: Seq<u8>, n: nat)
    requires
        n <= states.len(),
    ensures
        -1 <= slot_before(states, k, n) < n,
        slot_before(states, k, n) >= 0 ==> states[slot_before(states, k, n)].key@ == k,
        slot_before(states, k, n) == -1 ==> forall|i: int|
            0 <= i < n ==> #[trigger] states[i].key@ != k,
    decreases n,
{
    if n > 0 {
        lemma_slot_before_range(states, k, (n - 1) as nat);
    }
}

/// Updating the state at slot `i` without changing its key, or appending a
/// state, leaves the slot of every key other than the appended one alone.
proof fn lemma_slot_frame<T>(a: Seq<KeyState<T>>, b: Seq<KeyState<T>>, k: Seq<u8>, n: nat)
    requires
        n <= a.len(),
        n <= b.len(),
        forall|i: int| 0 <= i < n ==> #[trigger] b[i].key@ == a[i].key@,
    ensures
        slot_before(b, k, n) == slot_before(a, k, n),
    decreases n,
{
    if n > 0 {
        lemma_slot_frame(a, b, k, (n - 1) as nat);
    }
}

/// Compares two byte strings.
fn bytes_eq(a: &[u8], b: &[u8]) -> (r: bool)
    ensures
        r == (a@ == b@),
{
    if a.len() != b.len() {
        return false;
    }
    let mut i: usize = 0;
    while i < a.len()
        invariant
            a@.len() == b@.len(),
            i <= a@.len(),
            a@.take(i as int) == b@.take(i as int),
        decreases a@.len() - i,
    {
        if a[i] != b[i] {
            assert(a@[i as int] != b@[i as int]);
            return false;
        }
        assert(a@.take(i + 1) == a@.take(i as int).push(a@[i as int]));
        assert(b@.take(i + 1) == b@.take(i as int).push(b@[i as int]));
        i = i + 1;
    }
    assert(a@.take(a@.len() as int) == a@);
    assert(b@.take(b@.len() as int) == b@);
    true
}

/// A map from byte-string keys to vectors of items whose active subset is
/// versioned by block height.
pub struct SnapshotVectorMap<T> {
    states: Vec<KeyState<T>>,
}

impl<T: Clone> SnapshotVectorMap<T> {
    spec fn slot(self, k: Seq<u8>) -> int {
        slot_before(self.states@, k, self.states@.len())
    }

    /// What the map holds for the key.
    pub closed spec fn key_model(self, k: Seq<u8>) -> KeyModel<T> {
        let i = self.slot(k);
        if i < 0 {
            empty_model()
        } else {
            self.states@[i].model()
        }
    }

    /// The map's internal consistency: every active id names a stored item.
    pub closed spec fn wf(self) -> bool {
        forall|i: int| 0 <= i < self.states@.len() ==> (#[trigger] self.states@[i]).model().wf()
    }

    /// An empty map.
    pub fn new() -> (r: Self)
        ensures
            r.wf(),
            forall|k: Seq<u8>| #[trigger] r.key_model(k) == empty_model::<T>(),
    {
        SnapshotVectorMap { states: Vec::new() }
    }

    fn find_slot(&self, k: &[u8]) -> (r: Option<usize>)
        ensures
            match r {
                Some(i) => i as int == self.slot(k@) && i < self.states@.len(),
                None => self.slot(k@) == -1,
            },
    {
        let mut i: usize = self.states.len();
        while i > 0
            invariant
                i <= self.states@.len(),
                self.slot(k@) == slot_before(self.states@, k@, i as nat),
            decreases i,
        {
            if bytes_eq(self.states[i - 1].key.as_slice(), k) {
                return Some(i - 1);
            }
            i = i - 1;
        }
        None
    }

    /// The slot of the key, creating an empty one where there is none.
    fn slot_for(&mut self, k: &[u8]) -> (r: usize)
        requires
            old(self).wf(),
        ensures
            final(self).wf(),
            r < final(self).states@.len(),
            r as int == final(self).slot(k@),
            final(self).key_model(k@) == old(self).key_model(k@),
            forall|k2: Seq<u8>| k2 != k@ ==> #[trigger] final(self).key_model(k2) == old(self).key_model(k2),
    {
        match self.find_slot(k) {
            Some(i) => i,
            None => {
                let ghost before = self.states@;
                let n: usize = self.states.len();
                let st = KeyState { key: vstd::slice::slice_to_vec(k), items: Vec::new(), versions: Vec::new() };
                assert(st.model().items =~= Seq::<T>::empty());
                assert(st.model().history =~= Seq::<VersionView>::empty());
                self.states.push(st);
                proof {
                    assert forall|k2: Seq<u8>| k2 != k@ implies #[trigger] self.slot(k2) == slot_before(before, k2, n as nat) by {
                        lemma_slot_frame(before, self.states@, k2, n as nat);
                    }
                    assert forall|k2: Seq<u8>| k2 != k@ implies #[trigger] self.key_model(k2) == old(self).key_model(k2) by {
                        lemma_slot_frame(before, self.states@, k2, n as nat);
                        lemma_slot_before_range(before, k2, n as nat);
                    }
                    lemma_slot_before_range(before, k@, n as nat);
                    assert(self.states@[n as int] == st);
                }
                n
            },
        }
    }

    /// Takes the state at slot `i` out, leaving an empty one in its place.
    fn take_state(&mut self, i: usize) -> (r: KeyState<T>)
        requires
            i < old(self).states@.len(),
        ensures
            r == old(self).states@[i as int],
            final(self).states@.len() == old(self).states@.len(),
            forall|j: int| 0 <= j < old(self).states@.len() && j != i ==> #[trigger] final(self).states@[j] == old(self).states@[j],
    {
        let mut st = KeyState { key: Vec::new(), items: Vec::new(), versions: Vec::new() };
        self.states.set_and_swap(i, &mut st);
        st
    }

    /// Puts back at slot `i` a state taken out of a map `before`, with the
    /// same key.
    fn put_state(&mut self, i: usize, st: KeyState<T>, Ghost(before): Ghost<Self>)
        requires
            i < before.states@.len(),
            old(self).states@.len() == before.states@.len(),
            forall|j: int| 0 <= j < before.states@.len() && j != i ==> #[trigger] old(self).states@[j] == before.states@[j],
            st.key@ == before.states@[i as int].key@,
            before.wf(),
            st.model().wf(),
        ensures
            final(self).wf(),
            forall|k: Seq<u8>| #[trigger] final(self).key_model(k) == if before.slot(k) == i {
                st.model()
            } else {
                before.key_model(k)
            },
    {
        self.states.set(i, st);
        proof {
            assert forall|k: Seq<u8>| #[trigger] self.key_model(k) == if before.slot(k) == i {
                st.model()
            } else {
                before.key_model(k)
            } by {
                lemma_slot_frame(before.states@, self.states@, k, before.states@.len());
                lemma_slot_before_range(before.states@, k, before.states@.len());
                let s = before.slot(k);
                if s >= 0 && s != i {
                    assert(self.states@[s] == before.states@[s]);
                }
            }
            assert forall|j: int| 0 <= j < self.states@.len() implies (#[trigger] self.states@[j]).model().wf() by {
                if j != i {
                    assert(self.states@[j] == before.states@[j]);
                }
            }
        }
    }

    /// The id that the next push for the key assigns.
    pub fn next_id(&self, k: &[u8]) -> (r: u64)
        requires
            self.wf(),
        ensures
            r as nat == self.key_model(k@).next_id(),
    {
        match self.find_slot(k) {
            Some(i) => {
                proof {
                    assert(self.states@[i as int].model().wf());
                }
                self.states[i].items.len() as u64
            },
            None => 0,
        }
    }

    /// Adds an item to the key's vector at the block, optionally expiring the
    /// given duration after it, and returns the item's id. Entries of the
    /// latest active list that have expired at the block are dropped from the
    /// new version.
    pub fn push(&mut self, k: &[u8], data: T, block: &BlockInfo, expire_in: Option<Duration>) -> (r: u64)
        requires
            old(self).wf(),
            old(self).key_model(k@).next_id() < u64::MAX,
            fits_after_opt(expire_in, *block),
        ensures
            final(self).wf(),
            r as nat == old(self).key_model(k@).next_id(),
            final(self).key_model(k@) == old(self).key_model(k@).pushed(data, *block, expire_in),
            forall|k2: Seq<u8>| k2 != k@ ==> #[trigger] final(self).key_model(k2) == old(self).key_model(k2),
    {
        let i = self.slot_for(k);
        let ghost before = *self;
        let mut st = self.take_state(i);
        let ghost m0 = st.model();
        proof {
            assert(before.states@[i as int].model().wf());
            lemma_slot_before_range(before.states@, k@, before.states@.len());
            assert(m0 == old(self).key_model(k@));
        }
        let id = st.items.len() as u64;
        st.items.push(data);
        let nv = st.versions.len();
        let mut active = if nv == 0 {
            Vec::new()
        } else {
            evict_expired(&st.versions[nv - 1].1, block)
        };
        proof {
            assert(active@ == live_entries(latest(m0.history), *block)) by {
                if nv == 0 {
                    assert(active@ =~= live_entries(Seq::empty(), *block)) by {
                        reveal(Seq::filter);
                    }
                }
            }
            let l = latest(m0.history);
            assert forall|y: int| 0 <= y < l.len() implies (#[trigger] l[y]).0 < m0.items.len() by {
                assert(m0.history[m0.history.len() - 1].1[y] == l[y]);
            }
            lemma_filter_ids_below(l, live_pred(*block), m0.items.len());
        }
        let exp = match expire_in {
            Some(d) => Some(d.after(block)),
            None => None,
        };
        active.push((id, exp));
        st.versions.push((block.height, active));
        proof {
            let m1 = m0.pushed(data, *block, expire_in);
            assert(st.model().items =~= m1.items);
            assert(st.model().history =~= m1.history);
            assert(st.model().wf()) by {
                assert forall|j: int, x: int|
                    0 <= j < m1.history.len() && 0 <= x < m1.history[j].1.len() implies (
                    #[trigger] m1.history[j].1[x]).0 < m1.items.len() by {
                    if j < m0.history.len() {
                        assert(m1.history[j] == m0.history[j]);
                    }
                }
            }
            lemma_slot_before_range(before.states@, k@, before.states@.len());
        }
        self.put_state(i, st, Ghost(before));
        proof {
            assert forall|k2: Seq<u8>| k2 != k@ implies #[trigger] self.key_model(k2) == old(self).key_model(k2) by {
                lemma_slot_before_range(before.states@, k2, before.states@.len());
                assert(before.key_model(k2) == old(self).key_model(k2));
            }
        }
        id
    }

    /// Removes the item with the id from the key's active list at the block,
    /// together with every entry that has expired at the block. The item
    /// itself stays readable by id. Removing an absent id only drops expired
    /// entries.
    pub fn remove(&mut self, k: &[u8], id: u64, block: &BlockInfo)
        requires
            old(self).wf(),
        ensures
            final(self).wf(),
            final(self).key_model(k@) == old(self).key_model(k@).removed(id, *block),
            forall|k2: Seq<u8>| k2 != k@ ==> #[trigger] final(self).key_model(k2) == old(self).key_model(k2),
    {
        let i = self.slot_for(k);
        let ghost before = *self;
        let mut st = self.take_state(i);
        let ghost m0 = st.model();
        proof {
            assert(before.states@[i as int].model().wf());
        }
        let nv = st.versions.len();
        let active = if nv == 0 {
            Vec::new()
        } else {
            evict_with(&st.versions[nv - 1].1, id, block)
        };
        proof {
            assert(active@ == live_entries_without(latest(m0.history), id, *block)) by {
                if nv == 0 {
                    assert(active@ =~= live_entries_without(Seq::empty(), id, *block)) by {
                        reveal(Seq::filter);
                    }
                }
            }
            let l = latest(m0.history);
            assert forall|y: int| 0 <= y < l.len() implies (#[trigger] l[y]).0 < m0.items.len() by {
                assert(m0.history[m0.history.len() - 1].1[y] == l[y]);
            }
            lemma_filter_ids_below(l, live_without_pred(id, *block), m0.items.len());
        }
        st.versions.push((block.height, active));
        proof {
            let m1 = m0.removed(id, *block);
            assert(st.model().items =~= m1.items);
            assert(st.model().history =~= m1.history);
            assert(st.model().wf()) by {
                assert forall|j: int, x: int|
                    0 <= j < m1.history.len() && 0 <= x < m1.history[j].1.len() implies (
                    #[trigger] m1.history[j].1[x]).0 < m1.items.len() by {
                    if j < m0.history.len() {
                        assert(m1.history[j] == m0.history[j]);
                    }
                }
            }
            lemma_slot_before_range(before.states@, k@, before.states@.len());
        }
        self.put_state(i, st, Ghost(before));
        proof {
            assert forall|k2: Seq<u8>| k2 != k@ implies #[trigger] self.key_model(k2) == old(self).key_model(k2) by {
                lemma_slot_before_range(before.states@, k2, before.states@.len());
                assert(before.key_model(k2) == old(self).key_model(k2));
            }
        }
    }

    /// The items of the key active at the block: those of the version
    /// current at the block's height that have not expired at the block, in
    /// the order pushed, skipping `offset` and taking at most `limit`.
    pub fn load(
        &self,
        k: &[u8],
        block: &BlockInfo,
        limit: Option<u64>,
        offset: Option<u64>,
    ) -> (r: Vec<LoadedItem<T>>)
        requires
            self.wf(),
        ensures
            r@.len() == self.key_model(k@).loaded(*block, limit, offset).len(),
            forall|j: int|
                0 <= j < r@.len() ==> {
                    let e = #[trigger] self.key_model(k@).loaded(*block, limit, offset)[j];
                    &&& r@[j].id == e.0
                    &&& r@[j].expiration == e.1
                    &&& e.0 < self.key_model(k@).items.len()
                    &&& cloned(self.key_model(k@).items[e.0 as int], r@[j].item)
                },
    {
        let o: u64 = match offset {
            Some(x) => x,
            None => 0,
        };
        let l: u64 = match limit {
            Some(x) => x,
            None => u64::MAX,
        };
        let mut out: Vec<LoadedItem<T>> = Vec::new();
        let i = match self.find_slot(k) {
            Some(i) => i,
            None => {
                proof {
                    let m: KeyModel<T> = empty_model();
                    assert(m.loaded(*block, limit, offset) =~= Seq::<ActiveEntry>::empty()) by {
                        reveal(Seq::filter);
                    }
                }
                return out;
            },
        };
        let st = &self.states[i];
        let ghost m = st.model();
        proof {
            assert(m == self.key_model(k@));
            assert(m.wf());
        }
        let v = match find_version(&st.versions, block.height) {
            Some(v) => v,
            None => {
                proof {
                    assert(m.loaded(*block, limit, offset) =~= Seq::<ActiveEntry>::empty()) by {
                        reveal(Seq::filter);
                    }
                }
                return out;
            },
        };
        let live = evict_expired(&st.versions[v].1, block);
        let sel = page(&live, o, l);
        proof {
            let a = m.history[v as int].1;
            assert(a == st.versions@[v as int].1@);
            assert forall|y: int| 0 <= y < a.len() implies (#[trigger] a[y]).0 < m.items.len() by {
                assert(m.history[v as int].1[y] == a[y]);
            }
            lemma_filter_ids_below(a, live_pred(*block), m.items.len());
            assert(sel@ == m.loaded(*block, limit, offset));
        }
        let mut j: usize = 0;
        while j < sel.len()
            invariant
                j <= sel@.len(),
                out@.len() == j,
                sel@ == m.loaded(*block, limit, offset),
                m == st.model(),
                forall|y: int| 0 <= y < sel@.len() ==> (#[trigger] sel@[y]).0 < m.items.len(),
                forall|y: int|
                    0 <= y < j ==> {
                        let e = #[trigger] sel@[y];
                        &&& out@[y].id == e.0
                        &&& out@[y].expiration == e.1
                        &&& cloned(m.items[e.0 as int], out@[y].item)
                    },
            decreases sel@.len() - j,
        {
            let e = sel[j];
            let ghost before = out@;
            let n_items: usize = st.items.len();
            proof {
                assert(e == sel@[j as int]);
                assert(m.items.len() == n_items);
            }
            let idx: usize = e.0 as usize;
            let item = st.items[idx].clone();
            proof {
                assert(cloned(m.items[e.0 as int], item));
            }
            out.push(LoadedItem { id: e.0, item, expiration: e.1 });
            proof {
                assert forall|y: int| 0 <= y < j implies out@[y] == before[y] by {}
            }
            j = j + 1;
        }
        out
    }

    /// The item stored under the key and id, whether or not it is still
    /// active.
    pub fn load_item(&self, k: &[u8], id: u64) -> (r: Result<T, VectorMapError>)
        requires
            self.wf(),
        ensures
            r is Ok <==> id < self.key_model(k@).items.len(),
            r matches Ok(x) ==> cloned(self.key_model(k@).items[id as int], x),
            r matches Err(e) ==> e == VectorMapError::NotFound,
    {
        match self.may_load_item(k, id) {
            Some(x) => Ok(x),
            None => Err(VectorMapError::NotFound),
        }
    }

    /// The item stored under the key and id, if there is one.
    pub fn may_load_item(&self, k: &[u8], id: u64) -> (r: Option<T>)
        requires
            self.wf(),
        ensures
            r is Some <==> id < self.key_model(k@).items.len(),
            r matches Some(x) ==> cloned(self.key_model(k@).items[id as int], x),
    {
        match self.find_slot(k) {
            Some(i) => {
                if (id as u128) < (self.states[i].items.len() as u128) {
                    Some(self.states[i].items[id as usize].clone())
                } else {
                    None
                }
            },
            None => None,
        }
    }
}

} // verus!
