//! The table core: a flat open-addressed map over parallel control-byte and
//! slot arrays, probed chunk by chunk with a double-hashing step.
//!
//! The model of a table is the finite map from key views to values built
//! from its full slots (`table_map`).  Every public operation states its
//! effect on that map.  The central internal invariant is reachability:
//! probing from a stored key's home chunk reaches the key's chunk before
//! any chunk that contains an `EMPTY` byte, so a lookup that stops at the
//! first empty-bearing chunk cannot miss a stored key.

use vstd::prelude::*;
use vstd::string::StringExecFns;

use crate::error::MapError;
use crate::simd_utils::{
    self, is_free_byte, is_full_byte, Scalar, SimdStrategy, CHUNK_SIZE, DELETED, EMPTY,
};
use crate::traits::{BuildHasherExt, DefaultHasherWrapper, HasherExt, MapKey};

verus! {

/// Largest capacity a table may reach.  Keeping the slot count well under
/// `usize::MAX` leaves room for the layout arithmetic of the combined
/// control-plus-slot region.
pub const MAX_CAPACITY: usize = usize::MAX / 32;

/// The decoded state of one slot.
#[derive(Debug, Clone, Copy, PartialEq, Eq, Structural)]
pub enum SlotState {
    /// Never held a pair since the last clear or rebuild.
    Empty,
    /// Vacated by a removal; keeps probe walks going until a rebuild.
    Deleted,
    /// Holds an initialized key/value pair.
    Full,
}

// ------------------------------------------------------------------
// Geometry and probe sequence
// ------------------------------------------------------------------

/// The chunk that slot `i` belongs to.
pub open spec fn group_of(i: int) -> int {
    i / 16
}

/// The chunk where probing for hash `h` starts.
pub open spec fn home_group_of(h: u64, gc: int) -> int
    recommends
        gc > 0,
{
    (h as int) % gc
}

/// The odd step added between chunks of a probe walk.
pub open spec fn probe_step_of(h: u64, gc: int) -> int
    recommends
        gc > 0,
{
    let r = (h as int) % gc;
    if r % 2 == 1 {
        r
    } else {
        r + 1
    }
}

/// The chunk visited at step `t` of the probe walk for hash `h`.
pub open spec fn probe_group_of(h: u64, gc: int, t: int) -> int
    recommends
        gc > 0,
{
    (home_group_of(h, gc) + t * probe_step_of(h, gc)) % gc
}

// ------------------------------------------------------------------
// Control-byte counting
// ------------------------------------------------------------------

/// How many bytes of `s` mark a full slot.
pub open spec fn count_full(s: Seq<u8>) -> int
    decreases s.len(),
{
    if s.len() == 0 {
        0
    } else {
        count_full(s.drop_last()) + if is_full_byte(s.last()) {
            1int
        } else {
            0int
        }
    }
}

/// How many bytes of `s` are tombstones.
pub open spec fn count_deleted(s: Seq<u8>) -> int
    decreases s.len(),
{
    if s.len() == 0 {
        0
    } else {
        count_deleted(s.drop_last()) + if s.last() == DELETED {
            1int
        } else {
            0int
        }
    }
}

proof fn lemma_count_bounds(s: Seq<u8>)
    ensures
        0 <= count_full(s),
        0 <= count_deleted(s),
        count_full(s) + count_deleted(s) <= s.len(),
    decreases s.len(),
{
    if s.len() > 0 {
        lemma_count_bounds(s.drop_last());
    }
}

proof fn lemma_count_update(s: Seq<u8>, i: int, b: u8)
    requires
        0 <= i < s.len(),
    ensures
        count_full(s.update(i, b)) == count_full(s) - (if is_full_byte(s[i]) {
            1int
        } else {
            0int
        }) + (if is_full_byte(b) {
            1int
        } else {
            0int
        }),
        count_deleted(s.update(i, b)) == count_deleted(s) - (if s[i] == DELETED {
            1int
        } else {
            0int
        }) + (if b == DELETED {
            1int
        } else {
            0int
        }),
    decreases s.len(),
{
    let s2 = s.update(i, b);
    if i == s.len() - 1 {
        assert(s2.drop_last() =~= s.drop_last());
        assert(s2.last() == b);
    } else {
        assert(s2.drop_last() =~= s.drop_last().update(i, b));
        assert(s2.last() == s.last());
        lemma_count_update(s.drop_last(), i, b);
    }
}

proof fn lemma_count_all_not_full(s: Seq<u8>)
    requires
        forall|j: int| 0 <= j < s.len() ==> !is_full_byte(s[j]),
    ensures
        count_full(s) == 0,
    decreases s.len(),
{
    if s.len() > 0 {
        lemma_count_all_not_full(s.drop_last());
    }
}

proof fn lemma_count_all_not_deleted(s: Seq<u8>)
    requires
        forall|j: int| 0 <= j < s.len() ==> s[j] != DELETED,
    ensures
        count_deleted(s) == 0,
    decreases s.len(),
{
    if s.len() > 0 {
        lemma_count_all_not_deleted(s.drop_last());
    }
}

/// A window of bytes that are all full puts a floor under the full
/// count.
proof fn lemma_count_full_window(s: Seq<u8>, a: int, b: int)
    requires
        0 <= a <= b <= s.len(),
        forall|j: int| a <= j < b ==> is_full_byte(s[j]),
    ensures
        count_full(s) >= b - a,
    decreases s.len(),
{
    if b == s.len() {
        if a < b {
            lemma_count_full_window(s.drop_last(), a, b - 1);
        } else {
            lemma_count_bounds(s);
        }
    } else {
        lemma_count_full_window(s.drop_last(), a, b);
    }
}

/// If some byte in `s` is not full, then strictly fewer than `s.len()`
/// bytes are full.
proof fn lemma_count_full_lt(s: Seq<u8>, i: int)
    requires
        0 <= i < s.len(),
        !is_full_byte(s[i]),
    ensures
        count_full(s) < s.len(),
    decreases s.len(),
{
    if i == s.len() - 1 {
        lemma_count_bounds(s.drop_last());
    } else {
        lemma_count_full_lt(s.drop_last(), i);
    }
}

// ------------------------------------------------------------------
// The map a table stands for
// ------------------------------------------------------------------

/// The key view stored in slot `i`.
pub open spec fn key_view_at<K: View, V>(slots: Seq<Option<(K, V)>>, i: int) -> K::V {
    (slots[i]->Some_0).0@
}

/// The value stored in slot `i`.
pub open spec fn value_at<K: View, V>(slots: Seq<Option<(K, V)>>, i: int) -> V {
    (slots[i]->Some_0).1
}

/// The finite map built from the full slots among the first `n`.
pub open spec fn table_map<K: View, V>(
    ctrls: Seq<u8>,
    slots: Seq<Option<(K, V)>>,
    n: int,
) -> Map<K::V, V>
    decreases n,
{
    if n <= 0 {
        Map::empty()
    } else if is_full_byte(ctrls[n - 1]) {
        table_map(ctrls, slots, n - 1).insert(key_view_at(slots, n - 1), value_at(slots, n - 1))
    } else {
        table_map(ctrls, slots, n - 1)
    }
}

/// No two full slots among the first `n` hold keys with equal views.
pub open spec fn distinct_keys<K: View, V>(
    ctrls: Seq<u8>,
    slots: Seq<Option<(K, V)>>,
    n: int,
) -> bool {
    forall|i: int, j: int|
        0 <= i < n && 0 <= j < n && i != j && is_full_byte(ctrls[i]) && is_full_byte(ctrls[j])
            ==> #[trigger] key_view_at(slots, i) != #[trigger] key_view_at(slots, j)
}

proof fn lemma_table_map_contains<K: View, V>(
    ctrls: Seq<u8>,
    slots: Seq<Option<(K, V)>>,
    n: int,
    kv: K::V,
)
    requires
        0 <= n,
    ensures
        table_map(ctrls, slots, n).dom().contains(kv) <==> exists|i: int|
            0 <= i < n && is_full_byte(ctrls[i]) && #[trigger] key_view_at(slots, i) == kv,
    decreases n,
{
    if n > 0 {
        lemma_table_map_contains(ctrls, slots, n - 1, kv);
        if table_map(ctrls, slots, n).dom().contains(kv) {
            if is_full_byte(ctrls[n - 1]) && key_view_at(slots, n - 1) == kv {
                assert(is_full_byte(ctrls[n - 1]) && key_view_at(slots, n - 1) == kv);
            }
        }
        if exists|i: int|
            0 <= i < n && is_full_byte(ctrls[i]) && #[trigger] key_view_at(slots, i) == kv {
            let i = choose|i: int|
                0 <= i < n && is_full_byte(ctrls[i]) && #[trigger] key_view_at(slots, i) == kv;
            if i < n - 1 {
                assert(table_map(ctrls, slots, n - 1).dom().contains(kv));
            }
        }
    }
}

proof fn lemma_table_map_value<K: View, V>(
    ctrls: Seq<u8>,
    slots: Seq<Option<(K, V)>>,
    n: int,
    i: int,
)
    requires
        0 <= i < n,
        is_full_byte(ctrls[i]),
        distinct_keys(ctrls, slots, n),
    ensures
        table_map(ctrls, slots, n).dom().contains(key_view_at(slots, i)),
        table_map(ctrls, slots, n)[key_view_at(slots, i)] == value_at(slots, i),
    decreases n,
{
    if i == n - 1 {
    } else {
        lemma_table_map_value(ctrls, slots, n - 1, i);
        if is_full_byte(ctrls[n - 1]) {
            assert(key_view_at(slots, n - 1) != key_view_at(slots, i));
        }
    }
}

proof fn lemma_table_map_card<K: View, V>(ctrls: Seq<u8>, slots: Seq<Option<(K, V)>>, n: int)
    requires
        0 <= n <= ctrls.len(),
        distinct_keys(ctrls, slots, n),
    ensures
        table_map(ctrls, slots, n).dom().finite(),
        table_map(ctrls, slots, n).dom().len() == count_full(ctrls.take(n)),
    decreases n,
{
    if n == 0 {
        assert(table_map(ctrls, slots, 0).dom() =~= Set::<K::V>::empty());
        assert(ctrls.take(0) =~= Seq::<u8>::empty());
    } else {
        lemma_table_map_card(ctrls, slots, n - 1);
        assert(ctrls.take(n).drop_last() =~= ctrls.take(n - 1));
        assert(ctrls.take(n).last() == ctrls[n - 1]);
        if is_full_byte(ctrls[n - 1]) {
            let kv = key_view_at(slots, n - 1);
            lemma_table_map_contains(ctrls, slots, n - 1, kv);
            assert(!table_map(ctrls, slots, n - 1).dom().contains(kv));
            assert(table_map(ctrls, slots, n).dom() =~= table_map(
                ctrls,
                slots,
                n - 1,
            ).dom().insert(kv));
        } else {
            assert(table_map(ctrls, slots, n) == table_map(ctrls, slots, n - 1));
        }
    }
}

proof fn lemma_table_map_no_full<K: View, V>(ctrls: Seq<u8>, slots: Seq<Option<(K, V)>>, n: int)
    requires
        forall|j: int| 0 <= j < n ==> !is_full_byte(ctrls[j]),
    ensures
        table_map(ctrls, slots, n) =~= Map::<K::V, V>::empty(),
    decreases n,
{
    if n > 0 {
        lemma_table_map_no_full(ctrls, slots, n - 1);
    }
}

/// Replacing the value of full slot `i` (keeping a key with the same view)
/// updates the map at that key.
proof fn lemma_table_map_replace<K: View, V>(
    ctrls: Seq<u8>,
    slots: Seq<Option<(K, V)>>,
    slots2: Seq<Option<(K, V)>>,
    n: int,
    i: int,
    k: K,
    v: V,
)
    requires
        0 <= i < n,
        n <= ctrls.len(),
        n <= slots.len(),
        slots2 == slots.update(i, Some((k, v))),
        is_full_byte(ctrls[i]),
        k@ == key_view_at(slots, i),
        distinct_keys(ctrls, slots, n),
    ensures
        table_map(ctrls, slots2, n) =~= table_map(ctrls, slots, n).insert(k@, v),
    decreases n,
{
    if i == n - 1 {
        assert(table_map(ctrls, slots2, n - 1) =~= table_map(ctrls, slots, n - 1)) by {
            lemma_table_map_agree(ctrls, slots, slots2, n - 1);
        }
    } else {
        lemma_table_map_replace(ctrls, slots, slots2, n - 1, i, k, v);
        if is_full_byte(ctrls[n - 1]) {
            assert(key_view_at(slots2, n - 1) == key_view_at(slots, n - 1));
            assert(value_at(slots2, n - 1) == value_at(slots, n - 1));
            assert(key_view_at(slots, n - 1) != k@);
        }
    }
}

/// Two slot arrays that agree on the full slots among the first `n` build
/// the same map.
proof fn lemma_table_map_agree<K: View, V>(
    ctrls: Seq<u8>,
    slots: Seq<Option<(K, V)>>,
    slots2: Seq<Option<(K, V)>>,
    n: int,
)
    requires
        forall|j: int|
            0 <= j < n && is_full_byte(ctrls[j]) ==> #[trigger] slots2[j] == slots[j],
    ensures
        table_map(ctrls, slots2, n) =~= table_map(ctrls, slots, n),
    decreases n,
{
    if n > 0 {
        lemma_table_map_agree(ctrls, slots, slots2, n - 1);
    }
}

/// Writing a fresh key into a free slot `i` inserts it into the map.
proof fn lemma_table_map_insert<K: View, V>(
    ctrls: Seq<u8>,
    slots: Seq<Option<(K, V)>>,
    ctrls2: Seq<u8>,
    slots2: Seq<Option<(K, V)>>,
    n: int,
    i: int,
    k: K,
    v: V,
    b: u8,
)
    requires
        0 <= i < n,
        n <= ctrls.len(),
        n <= slots.len(),
        ctrls2 == ctrls.update(i, b),
        slots2 == slots.update(i, Some((k, v))),
        !is_full_byte(ctrls[i]),
        is_full_byte(b),
        forall|j: int|
            0 <= j < n && is_full_byte(ctrls[j]) ==> #[trigger] key_view_at(slots, j) != k@,
    ensures
        table_map(ctrls2, slots2, n) =~= table_map(ctrls, slots, n).insert(k@, v),
    decreases n,
{
    if i == n - 1 {
        lemma_table_map_agree2(ctrls, slots, ctrls2, slots2, n - 1);
    } else {
        lemma_table_map_insert(ctrls, slots, ctrls2, slots2, n - 1, i, k, v, b);
        if is_full_byte(ctrls[n - 1]) {
            assert(key_view_at(slots, n - 1) != k@);
        }
    }
}

/// Marking full slot `i` as a tombstone removes its key from the map.
proof fn lemma_table_map_remove<K: View, V>(
    ctrls: Seq<u8>,
    slots: Seq<Option<(K, V)>>,
    ctrls2: Seq<u8>,
    slots2: Seq<Option<(K, V)>>,
    n: int,
    i: int,
)
    requires
        0 <= i < n,
        n <= ctrls.len(),
        n <= slots.len(),
        ctrls2 == ctrls.update(i, DELETED),
        slots2 == slots.update(i, None),
        is_full_byte(ctrls[i]),
        distinct_keys(ctrls, slots, n),
    ensures
        table_map(ctrls2, slots2, n) =~= table_map(ctrls, slots, n).remove(
            key_view_at(slots, i),
        ),
    decreases n,
{
    let kv = key_view_at(slots, i);
    if i == n - 1 {
        lemma_table_map_agree2(ctrls, slots, ctrls2, slots2, n - 1);
        lemma_table_map_contains(ctrls, slots, n - 1, kv);
        assert(!table_map(ctrls, slots, n - 1).dom().contains(kv));
    } else {
        lemma_table_map_remove(ctrls, slots, ctrls2, slots2, n - 1, i);
        if is_full_byte(ctrls[n - 1]) {
            assert(key_view_at(slots2, n - 1) == key_view_at(slots, n - 1));
            assert(key_view_at(slots, n - 1) != kv);
        }
    }
}

/// Two table states that agree on control bytes and slot contents among the
/// first `n` slots, except at one slot `i` that is full in neither, build
/// the same map.
proof fn lemma_table_map_agree2<K: View, V>(
    ctrls: Seq<u8>,
    slots: Seq<Option<(K, V)>>,
    ctrls2: Seq<u8>,
    slots2: Seq<Option<(K, V)>>,
    n: int,
)
    requires
        forall|j: int| 0 <= j < n ==> #[trigger] ctrls2[j] == ctrls[j],
        forall|j: int|
            0 <= j < n && is_full_byte(ctrls[j]) ==> #[trigger] slots2[j] == slots[j],
    ensures
        table_map(ctrls2, slots2, n) =~= table_map(ctrls, slots, n),
    decreases n,
{
    if n > 0 {
        lemma_table_map_agree2(ctrls, slots, ctrls2, slots2, n - 1);
    }
}

/// The map built from an owned sequence of pairs, later pairs winning.
pub open spec fn pairs_map<K: View, V>(s: Seq<(K, V)>) -> Map<K::V, V>
    decreases s.len(),
{
    if s.len() == 0 {
        Map::empty()
    } else {
        pairs_map(s.drop_last()).insert(s.last().0@, s.last().1)
    }
}

/// No two pairs in `s` hold keys with equal views.
pub open spec fn distinct_pair_keys<K: View, V>(s: Seq<(K, V)>) -> bool {
    forall|a: int, b: int|
        0 <= a < s.len() && 0 <= b < s.len() && a != b ==> #[trigger] s[a].0@ != #[trigger] s[b].0@
}

proof fn lemma_pairs_map_contains<K: View, V>(s: Seq<(K, V)>, kv: K::V)
    ensures
        pairs_map(s).dom().contains(kv) <==> exists|a: int|
            0 <= a < s.len() && #[trigger] s[a].0@ == kv,
    decreases s.len(),
{
    if s.len() > 0 {
        lemma_pairs_map_contains(s.drop_last(), kv);
        if pairs_map(s).dom().contains(kv) {
            if s.last().0@ == kv {
                assert(s[s.len() - 1].0@ == kv);
            }
        }
        if exists|a: int| 0 <= a < s.len() && #[trigger] s[a].0@ == kv {
            let a = choose|a: int| 0 <= a < s.len() && #[trigger] s[a].0@ == kv;
            if a < s.len() - 1 {
                assert(s.drop_last()[a].0@ == kv);
            }
        }
    }
}

// ------------------------------------------------------------------
// Emptiness of chunks, and probe reachability
// ------------------------------------------------------------------

/// Chunk `g` contains at least one `EMPTY` byte.
pub open spec fn group_has_empty(ctrls: Seq<u8>, g: int) -> bool {
    exists|j: int| g * 16 <= j < g * 16 + 16 && 0 <= j < ctrls.len() && ctrls[j] == EMPTY
}

/// Chunk `g` contains at least one reusable byte.
pub open spec fn group_has_free(ctrls: Seq<u8>, g: int) -> bool {
    exists|j: int| g * 16 <= j < g * 16 + 16 && 0 <= j < ctrls.len() && is_free_byte(ctrls[j])
}

/// No chunk visited strictly before step `t` of the walk for `h` contains
/// an `EMPTY` byte.
pub open spec fn probe_clear(ctrls: Seq<u8>, gc: int, h: u64, t: int) -> bool {
    forall|t2: int| 0 <= t2 < t ==> !group_has_empty(ctrls, #[trigger] probe_group_of(h, gc, t2))
}

/// No chunk visited strictly before step `t` of the walk for `h` contains
/// any reusable byte.
pub open spec fn probe_prefix_nofree(ctrls: Seq<u8>, gc: int, h: u64, t: int) -> bool {
    forall|t2: int| 0 <= t2 < t ==> !group_has_free(ctrls, #[trigger] probe_group_of(h, gc, t2))
}

/// The walk for `h` reaches chunk `g` within budget, before any chunk that
/// contains an `EMPTY` byte.
pub open spec fn probe_reaches(ctrls: Seq<u8>, gc: int, h: u64, g: int) -> bool {
    exists|t: int|
        0 <= t < 2 * gc && #[trigger] probe_group_of(h, gc, t) == g && probe_clear(
            ctrls,
            gc,
            h,
            t,
        )
}

/// Reachability survives any change that introduces no new `EMPTY` byte.
proof fn lemma_reach_preserved(c1: Seq<u8>, c2: Seq<u8>, gc: int, h: u64, g: int)
    requires
        c1.len() == c2.len(),
        forall|j: int| 0 <= j < c2.len() && #[trigger] c2[j] == EMPTY ==> c1[j] == EMPTY,
        probe_reaches(c1, gc, h, g),
    ensures
        probe_reaches(c2, gc, h, g),
{
    let t = choose|t: int|
        0 <= t < 2 * gc && #[trigger] probe_group_of(h, gc, t) == g && probe_clear(c1, gc, h, t);
    assert forall|t2: int| 0 <= t2 < t implies !group_has_empty(
        c2,
        #[trigger] probe_group_of(h, gc, t2),
    ) by {
        let g2 = probe_group_of(h, gc, t2);
        if group_has_empty(c2, g2) {
            let j = choose|j: int|
                g2 * 16 <= j < g2 * 16 + 16 && 0 <= j < c2.len() && c2[j] == EMPTY;
            assert(c1[j] == EMPTY);
            assert(group_has_empty(c1, g2));
        }
    }
    assert(probe_group_of(h, gc, t) == g && probe_clear(c2, gc, h, t));
}


// ------------------------------------------------------------------
// The table
// ------------------------------------------------------------------

/// The requested capacity rounded up to a whole number of chunks.
pub open spec fn rounded_capacity(n: int) -> int {
    ((n + 15) / 16) * 16
}

/// An F14-style hash map from `K` to `V`, hashed by builders of type `S`.
///
/// Its logical content is a finite map from key views to values, available
/// as the view `self@`; every operation's contract is stated against it.
pub struct F14VectorMap<K: MapKey, V, S: BuildHasherExt = DefaultHasherWrapper> {
    /// One control byte per slot.
    ctrls: Vec<u8>,
    /// One optional pair per slot; occupied exactly where the control byte
    /// marks a full slot.
    slots: Vec<Option<(K, V)>>,
    /// Total slot count; always `group_count * CHUNK_SIZE`.
    capacity: usize,
    /// Number of chunks.
    group_count: usize,
    /// Number of full slots.
    len: usize,
    /// Number of tombstones.
    deleted: usize,
    /// The hash builder handing out one fresh hasher per key.
    hasher_builder: S,
}

impl<K: MapKey, V, S: BuildHasherExt> View for F14VectorMap<K, V, S> {
    type V = Map<K::V, V>;

    closed spec fn view(&self) -> Map<K::V, V> {
        table_map(self.ctrls@, self.slots@, self.capacity as int)
    }
}

impl<K: MapKey, V, S: BuildHasherExt> F14VectorMap<K, V, S> {
    /// The hash the table's hasher type assigns to a key view.
    pub open spec fn key_hash(kv: K::V) -> u64 {
        <S::ExtHasher as HasherExt>::hash_pair(K::byte_repr(kv)).0
    }

    /// The stored tag for a key view: the hasher's fragment, masked to
    /// seven bits.
    pub open spec fn key_tag(kv: K::V) -> u8 {
        <S::ExtHasher as HasherExt>::hash_pair(K::byte_repr(kv)).1 & 0x7f
    }

    /// The table's capacity, as a mathematical integer.
    pub closed spec fn spec_capacity(&self) -> int {
        self.capacity as int
    }

    /// The table's chunk count, as a mathematical integer.
    pub closed spec fn spec_group_count(&self) -> int {
        self.group_count as int
    }

    /// The number of full slots, as a mathematical integer.
    pub closed spec fn spec_len(&self) -> int {
        self.len as int
    }

    /// The number of tombstones, as a mathematical integer.
    pub closed spec fn spec_deleted(&self) -> int {
        self.deleted as int
    }

    /// The decoded state of slot `i`.
    pub closed spec fn spec_slot_state(&self, i: int) -> SlotState {
        let b = self.ctrls@[i];
        if b == EMPTY {
            SlotState::Empty
        } else if b == DELETED {
            SlotState::Deleted
        } else if is_full_byte(b) {
            SlotState::Full
        } else {
            SlotState::Deleted
        }
    }

    /// One slot's control byte agrees with its slot storage: a full byte
    /// carries the key's tag over an occupied slot, any other byte is
    /// `EMPTY` or `DELETED` over a vacant one.
    spec fn byte_ok(&self, i: int) -> bool {
        let b = self.ctrls@[i];
        if is_full_byte(b) {
            &&& self.slots@[i] is Some
            &&& b == Self::key_tag(key_view_at(self.slots@, i))
        } else {
            &&& b == EMPTY || b == DELETED
            &&& self.slots@[i] is None
        }
    }

    spec fn bytes_ok(&self) -> bool {
        forall|i: int| 0 <= i < self.capacity ==> #[trigger] self.byte_ok(i)
    }

    /// Every stored key's chunk is reached by the probe walk for its hash
    /// before any chunk that contains an `EMPTY` byte.
    spec fn reach_ok(&self) -> bool {
        forall|i: int|
            0 <= i < self.capacity && is_full_byte(self.ctrls@[i]) ==> probe_reaches(
                self.ctrls@,
                self.group_count as int,
                Self::key_hash(#[trigger] key_view_at(self.slots@, i)),
                group_of(i),
            )
    }

    /// The table's internal invariant.  Constructors establish it and
    /// every public operation preserves it.
    pub closed spec fn wf(&self) -> bool {
        &&& self.ctrls@.len() == self.capacity as int
        &&& self.slots@.len() == self.capacity as int
        &&& self.capacity as int == (self.group_count as int) * 16
        &&& self.capacity <= MAX_CAPACITY
        &&& self.len as int == count_full(self.ctrls@)
        &&& self.deleted as int == count_deleted(self.ctrls@)
        &&& self.bytes_ok()
        &&& distinct_keys(self.ctrls@, self.slots@, self.capacity as int)
        &&& self.reach_ok()
    }

    /// Slots scanned as one unit: always 16.
    pub fn chunk_size(&self) -> (r: usize)
        ensures
            r == 16,
    {
        CHUNK_SIZE
    }

    /// How many chunks the table currently has.
    pub fn group_count(&self) -> (r: usize)
        ensures
            r as int == self.spec_group_count(),
            self.wf() ==> self.spec_capacity() == 16 * r as int,
    {
        self.group_count
    }

    /// Total slot count.  In a well-formed table it is a multiple of the
    /// chunk size and within the layout limit.
    pub fn capacity(&self) -> (r: usize)
        ensures
            r as int == self.spec_capacity(),
            self.wf() ==> r % 16 == 0 && r <= MAX_CAPACITY,
    {
        proof {
            if self.wf() {
                assert(self.capacity as int == (self.group_count as int) * 16);
                assert((self.group_count as int) * 16 % 16 == 0) by (nonlinear_arith);
            }
        }
        self.capacity
    }

    /// Number of live pairs.  In a well-formed table it equals the size of
    /// the table's map.
    pub fn len(&self) -> (r: usize)
        ensures
            r as int == self.spec_len(),
            self.wf() ==> self@.dom().finite() && r as int == self@.dom().len(),
    {
        proof {
            if self.wf() {
                lemma_table_map_card(self.ctrls@, self.slots@, self.capacity as int);
                assert(self.ctrls@.take(self.capacity as int) =~= self.ctrls@);
            }
        }
        self.len
    }

    /// Number of tombstones.  In a well-formed table, live pairs and
    /// tombstones together never exceed the capacity.
    pub fn deleted_count(&self) -> (r: usize)
        ensures
            r as int == self.spec_deleted(),
            self.wf() ==> self.spec_len() + r as int <= self.spec_capacity(),
    {
        proof {
            if self.wf() {
                lemma_count_bounds(self.ctrls@);
            }
        }
        self.deleted
    }

    /// Whether the table holds no pair.
    pub fn is_empty(&self) -> (r: bool)
        ensures
            r == (self.spec_len() == 0),
            self.wf() ==> r == (self@.dom().len() == 0),
    {
        proof {
            if self.wf() {
                lemma_table_map_card(self.ctrls@, self.slots@, self.capacity as int);
                assert(self.ctrls@.take(self.capacity as int) =~= self.ctrls@);
            }
        }
        self.len == 0
    }

    /// The decoded state of one slot.
    pub fn slot_state(&self, index: usize) -> (r: SlotState)
        requires
            self.wf(),
            (index as int) < self.spec_capacity(),
        ensures
            r == self.spec_slot_state(index as int),
    {
        let ctrl = self.ctrls[index];
        if ctrl == EMPTY {
            SlotState::Empty
        } else if ctrl == DELETED {
            SlotState::Deleted
        } else if ctrl & 0x80 == 0 {
            proof {
                assert(ctrl & 0x80 == 0 ==> ctrl < 128) by (bit_vector);
            }
            SlotState::Full
        } else {
            proof {
                assert(ctrl & 0x80 != 0 ==> ctrl >= 128) by (bit_vector);
            }
            SlotState::Deleted
        }
    }

    /// Take one off the recorded length, leaving everything else alone.
    /// The counter then no longer matches the slots, so the caller is
    /// responsible for restoring that balance; the consuming iterator uses
    /// this while it empties a table it owns.
    pub fn decrement_len(&mut self)
        requires
            old(self).spec_len() >= 1,
        ensures
            final(self).spec_len() == old(self).spec_len() - 1,
            final(self).spec_capacity() == old(self).spec_capacity(),
            final(self).spec_group_count() == old(self).spec_group_count(),
            final(self).spec_deleted() == old(self).spec_deleted(),
            final(self)@ == old(self)@,
    {
        self.len = self.len - 1;
    }

    /// Build a table with the given hasher whose capacity is `capacity`
    /// rounded up to whole chunks.  Rejects capacities beyond the layout
    /// limit, and nothing else.
    pub fn with_capacity_and_hasher(capacity: usize, hasher: S) -> (r: Result<Self, MapError>)
        ensures
            match r {
                Ok(m) => {
                    &&& m.wf()
                    &&& m@ == Map::<K::V, V>::empty()
                    &&& m.spec_len() == 0
                    &&& m.spec_deleted() == 0
                    &&& m.spec_capacity() == rounded_capacity(capacity as int)
                    &&& rounded_capacity(capacity as int) <= MAX_CAPACITY
                },
                Err(e) => {
                    &&& e == MapError::CapacityExceeded
                    &&& rounded_capacity(capacity as int) > MAX_CAPACITY
                },
            },
    {
        if capacity > MAX_CAPACITY {
            proof {
                assert(rounded_capacity(capacity as int) >= capacity as int)
                    by (nonlinear_arith);
            }
            return Err(MapError::CapacityExceeded);
        }
        let group_count: usize = if capacity > 0 {
            (capacity + CHUNK_SIZE - 1) / CHUNK_SIZE
        } else {
            0
        };
        proof {
            assert((capacity as int + 15) / 16 * 16 <= capacity as int + 15)
                by (nonlinear_arith);
        }
        let cap: usize = group_count * CHUNK_SIZE;
        if cap > MAX_CAPACITY {
            return Err(MapError::CapacityExceeded);
        }
        let mut ctrls: Vec<u8> = Vec::new();
        let mut i: usize = 0;
        while i < cap
            invariant
                i <= cap,
                ctrls@.len() == i as int,
                forall|j: int| 0 <= j < i ==> ctrls@[j] == EMPTY,
            decreases cap - i,
        {
            ctrls.push(EMPTY);
            i = i + 1;
        }
        let mut slots: Vec<Option<(K, V)>> = Vec::new();
        let mut i2: usize = 0;
        while i2 < cap
            invariant
                i2 <= cap,
                slots@.len() == i2 as int,
                forall|j: int| 0 <= j < i2 ==> slots@[j] is None,
            decreases cap - i2,
        {
            slots.push(None);
            i2 = i2 + 1;
        }
        let m = F14VectorMap {
            ctrls,
            slots,
            capacity: cap,
            group_count,
            len: 0,
            deleted: 0,
            hasher_builder: hasher,
        };
        proof {
            lemma_count_all_not_full(m.ctrls@);
            lemma_count_all_not_deleted(m.ctrls@);
            lemma_table_map_no_full(m.ctrls@, m.slots@, m.capacity as int);
            assert forall|i3: int| 0 <= i3 < m.capacity implies #[trigger] m.byte_ok(i3) by {
                assert(m.ctrls@[i3] == EMPTY);
            }
        }
        Ok(m)
    }

    /// Build an empty table with the given hasher and no storage.
    pub fn with_hasher(hasher: S) -> (r: Result<Self, MapError>)
        ensures
            match r {
                Ok(m) => {
                    &&& m.wf()
                    &&& m@ == Map::<K::V, V>::empty()
                    &&& m.spec_len() == 0
                    &&& m.spec_deleted() == 0
                    &&& m.spec_capacity() == 0
                },
                Err(e) => false,
            },
    {
        Self::with_capacity_and_hasher(0, hasher)
    }
}

impl<K: MapKey, V, S: BuildHasherExt + Default> F14VectorMap<K, V, S> {
    /// Build an empty table with the default hasher and no storage.
    pub fn new() -> (r: Result<Self, MapError>)
        ensures
            match r {
                Ok(m) => {
                    &&& m.wf()
                    &&& m@ == Map::<K::V, V>::empty()
                    &&& m.spec_len() == 0
                    &&& m.spec_deleted() == 0
                    &&& m.spec_capacity() == 0
                },
                Err(e) => false,
            },
    {
        Self::with_capacity_and_hasher(0, S::default())
    }

    /// Build a table with the default hasher whose capacity is `capacity`
    /// rounded up to whole chunks.
    pub fn with_capacity(capacity: usize) -> (r: Result<Self, MapError>)
        ensures
            match r {
                Ok(m) => {
                    &&& m.wf()
                    &&& m@ == Map::<K::V, V>::empty()
                    &&& m.spec_len() == 0
                    &&& m.spec_deleted() == 0
                    &&& m.spec_capacity() == rounded_capacity(capacity as int)
                },
                Err(e) => {
                    &&& e == MapError::CapacityExceeded
                    &&& rounded_capacity(capacity as int) > MAX_CAPACITY
                },
            },
    {
        Self::with_capacity_and_hasher(capacity, S::default())
    }
}

impl<K: MapKey, V, S: BuildHasherExt + Default> Default for F14VectorMap<K, V, S> {
    /// An empty table with the default hasher and no storage.
    fn default() -> (m: Self)
        ensures
            m.wf(),
            m@ == Map::<K::V, V>::empty(),
            m.spec_len() == 0,
            m.spec_deleted() == 0,
            m.spec_capacity() == 0,
    {
        let m = F14VectorMap {
            ctrls: Vec::new(),
            slots: Vec::new(),
            capacity: 0,
            group_count: 0,
            len: 0,
            deleted: 0,
            hasher_builder: S::default(),
        };
        proof {
            lemma_table_map_no_full(m.ctrls@, m.slots@, 0);
        }
        m
    }
}


// ------------------------------------------------------------------
// The probe walk
// ------------------------------------------------------------------

/// Chunk `g` holds some full slot whose key view is `kv`.
pub open spec fn group_has_key<K: View, V>(
    ctrls: Seq<u8>,
    slots: Seq<Option<(K, V)>>,
    g: int,
    kv: K::V,
) -> bool {
    exists|j: int|
        g * 16 <= j < g * 16 + 16 && 0 <= j < ctrls.len() && is_full_byte(ctrls[j])
            && key_view_at(slots, j) == kv
}

/// Where the shared probe walk ends.
enum ProbeSpot {
    /// The key sits in this slot.
    FoundAt(usize),
    /// The key is absent; this reusable slot is where an insert belongs.
    FreeAt(usize),
    /// The key is absent and the walk saw no reusable slot within budget.
    NoRoom,
}

proof fn lemma_mod_add_left(x: int, y: int, m: int)
    requires
        m > 0,
    ensures
        ((x % m) + y) % m == (x + y) % m,
{
    vstd::arithmetic::div_mod::lemma_add_mod_noop(x % m, y, m);
    vstd::arithmetic::div_mod::lemma_mod_twice(x, m);
    vstd::arithmetic::div_mod::lemma_add_mod_noop(x, y, m);
}

/// Slot `i` lies inside chunk `i / 16`.
proof fn lemma_slot_in_group(i: int)
    requires
        0 <= i,
    ensures
        group_of(i) * 16 <= i < group_of(i) * 16 + 16,
        group_of(i) >= 0,
{
    vstd::arithmetic::div_mod::lemma_fundamental_div_mod(i, 16);
    vstd::arithmetic::div_mod::lemma_mod_bound(i, 16);
    vstd::arithmetic::div_mod::lemma_div_pos_is_pos(i, 16);
}

impl<K: MapKey, V, S: BuildHasherExt> F14VectorMap<K, V, S> {
    /// The stored tag of any key view has a clear high bit.
    proof fn lemma_tag_is_full(kv: K::V)
        ensures
            is_full_byte(Self::key_tag(kv)),
    {
        let x = <S::ExtHasher as HasherExt>::hash_pair(K::byte_repr(kv)).1;
        assert(x & 0x7f < 128) by (bit_vector);
    }

    /// Hash a key with a fresh hasher from the table's builder, returning
    /// the full hash and the raw fragment.
    fn hash_key(&self, key: &K) -> (r: (u64, u8))
        ensures
            r.0 == Self::key_hash(key@),
            (r.1 & 0x7f) == Self::key_tag(key@),
    {
        let bytes = key.hash_bytes();
        let mut hasher = self.hasher_builder.build_hasher_ext();
        hasher.write(bytes.as_slice());
        proof {
            assert(Seq::<u8>::empty() + K::byte_repr(key@) =~= K::byte_repr(key@));
        }
        hasher.finish_ext()
    }

    /// Borrow the 16-byte control window of the chunk starting at
    /// `group_start`.
    fn group_window(&self, group_start: usize) -> (w: &[u8])
        requires
            self.wf(),
            group_start as int + 16 <= self.spec_capacity(),
        ensures
            w@.len() == 16,
            forall|j: int| 0 <= j < 16 ==> w@[j] == #[trigger] self.ctrls@[group_start + j],
    {
        let w = &self.ctrls.as_slice()[group_start..group_start + 16];
        proof {
            assert forall|j: int| 0 <= j < 16 implies w@[j] == self.ctrls@[group_start + j] by {
                assert(w@[j] == self.ctrls@.subrange(
                    group_start as int,
                    group_start as int + 16,
                )[j]);
            }
        }
        w
    }

    /// Scan one chunk for the query key: compare every slot whose control
    /// byte equals the key's tag.
    fn find_in_group(&self, group_start: usize, key: &K, fragment: u8) -> (r: Option<usize>)
        requires
            self.wf(),
            group_start as int % 16 == 0,
            group_start as int + 16 <= self.spec_capacity(),
            fragment == Self::key_tag(key@),
        ensures
            match r {
                Some(i) => group_start <= i < group_start + 16 && (i as int)
                    < self.spec_capacity() && is_full_byte(self.ctrls@[i as int])
                    && key_view_at(self.slots@, i as int) == key@,
                None => !group_has_key(
                    self.ctrls@,
                    self.slots@,
                    group_of(group_start as int),
                    key@,
                ),
            },
    {
        let w = self.group_window(group_start);
        let matches = simd_utils::find_all_matches(w, fragment);
        let mut t: usize = 0;
        while t < matches.len()
            invariant
                self.wf(),
                group_start as int + 16 <= self.spec_capacity(),
                fragment == Self::key_tag(key@),
                t <= matches@.len(),
                matches@.len() <= 16,
                forall|u: int|
                    0 <= u < matches@.len() ==> (#[trigger] matches@[u]) < 16
                        && self.ctrls@[group_start + matches@[u]] == fragment,
                forall|j: int|
                    0 <= j < 16 && #[trigger] self.ctrls@[group_start + j] == fragment
                        ==> matches@.contains(j as u8),
                forall|u: int|
                    0 <= u < t ==> key_view_at(
                        self.slots@,
                        group_start + (#[trigger] matches@[u]),
                    ) != key@,
            decreases matches@.len() - t,
        {
            let m = matches[t] as usize;
            let index = group_start + m;
            proof {
                Self::lemma_tag_is_full(key@);
                assert(self.byte_ok(index as int));
            }
            match &self.slots[index] {
                Some(pair) => {
                    if pair.0.key_eq(key) {
                        return Some(index);
                    }
                }
                None => {
                    proof {
                        assert(false);
                    }
                }
            }
            t = t + 1;
        }
        proof {
            assert forall|j: int|
                group_of(group_start as int) * 16 <= j < group_of(group_start as int) * 16 + 16
                    && 0 <= j < self.ctrls@.len() && is_full_byte(self.ctrls@[j]) implies
                key_view_at(self.slots@, j) != key@ by {
                assert(group_of(group_start as int) * 16 == group_start as int);
                if key_view_at(self.slots@, j) == key@ {
                    assert(self.byte_ok(j));
                    assert(self.ctrls@[j] == Self::key_tag(key@));
                    let jj = j - group_start as int;
                    assert(self.ctrls@[group_start + jj] == fragment);
                    assert(matches@.contains(jj as u8));
                    let u = choose|u: int|
                        0 <= u < matches@.len() && matches@[u] == jj as u8;
                    assert(key_view_at(self.slots@, group_start + matches@[u]) != key@);
                }
            }
        }
        None
    }

    /// Scan one chunk for its first reusable slot.
    fn find_free_in_group(&self, group_start: usize) -> (r: Option<usize>)
        requires
            self.wf(),
            group_start as int % 16 == 0,
            group_start as int + 16 <= self.spec_capacity(),
        ensures
            match r {
                Some(i) => group_start <= i < group_start + 16 && (i as int)
                    < self.spec_capacity() && is_free_byte(self.ctrls@[i as int]),
                None => !group_has_free(self.ctrls@, group_of(group_start as int)),
            },
    {
        let w = self.group_window(group_start);
        let r = simd_utils::simd_find_empty(w);
        proof {
            assert(group_of(group_start as int) * 16 == group_start as int);
        }
        match r {
            Some(slot) => {
                proof {
                    assert(self.ctrls@[group_start + slot as int] == w@[slot as int]);
                }
                Some(group_start + slot)
            }
            None => {
                proof {
                    assert forall|j: int|
                        group_start <= j < group_start as int + 16 implies !is_free_byte(
                        self.ctrls@[j],
                    ) by {
                        let jj = j - group_start as int;
                        assert(self.ctrls@[group_start + jj] == w@[jj]);
                    }
                }
                None
            }
        }
    }

    /// Whether one chunk contains an `EMPTY` byte, which ends a probe walk.
    fn group_contains_empty(&self, group_start: usize) -> (r: bool)
        requires
            self.wf(),
            group_start as int % 16 == 0,
            group_start as int + 16 <= self.spec_capacity(),
        ensures
            r == group_has_empty(self.ctrls@, group_of(group_start as int)),
    {
        let w = self.group_window(group_start);
        let r = simd_utils::simd_find_match(w, EMPTY);
        proof {
            assert(group_of(group_start as int) * 16 == group_start as int);
        }
        match r {
            Some(slot) => {
                proof {
                    assert(self.ctrls@[group_start + slot as int] == w@[slot as int]);
                }
                true
            }
            None => {
                proof {
                    assert forall|j: int|
                        group_start <= j < group_start as int + 16 implies self.ctrls@[j]
                        != EMPTY by {
                        let jj = j - group_start as int;
                        assert(self.ctrls@[group_start + jj] == w@[jj]);
                    }
                }
                false
            }
        }
    }

    /// If the probe walk for a key's hash has ruled out every chunk it
    /// visited — finding neither the key nor, before the stop point, an
    /// `EMPTY` byte — then the key is not in the table.
    proof fn lemma_absent(&self, h: u64, kv: K::V, t_stop: int)
        requires
            self.wf(),
            self.spec_capacity() > 0,
            h == Self::key_hash(kv),
            0 <= t_stop <= 2 * self.spec_group_count(),
            forall|t2: int|
                0 <= t2 < t_stop ==> !group_has_key(
                    self.ctrls@,
                    self.slots@,
                    #[trigger] probe_group_of(h, self.spec_group_count(), t2),
                    kv,
                ),
            t_stop < 2 * self.spec_group_count() ==> group_has_empty(
                self.ctrls@,
                probe_group_of(h, self.spec_group_count(), t_stop),
            ) && !group_has_key(
                self.ctrls@,
                self.slots@,
                probe_group_of(h, self.spec_group_count(), t_stop),
                kv,
            ),
        ensures
            !self@.dom().contains(kv),
    {
        let gc = self.spec_group_count();
        lemma_table_map_contains(self.ctrls@, self.slots@, self.capacity as int, kv);
        if self@.dom().contains(kv) {
            let i = choose|i: int|
                0 <= i < self.capacity as int && is_full_byte(self.ctrls@[i])
                    && #[trigger] key_view_at(self.slots@, i) == kv;
            assert(probe_reaches(self.ctrls@, gc, h, group_of(i)));
            let ti = choose|t: int|
                0 <= t < 2 * gc && #[trigger] probe_group_of(h, gc, t) == group_of(i)
                    && probe_clear(self.ctrls@, gc, h, t);
            lemma_slot_in_group(i);
            assert(group_has_key(self.ctrls@, self.slots@, group_of(i), kv));
            if ti < t_stop {
                assert(false);
            } else if ti == t_stop {
                assert(t_stop < 2 * gc);
                assert(false);
            } else {
                assert(t_stop < ti);
                assert(!group_has_empty(
                    self.ctrls@,
                    probe_group_of(h, gc, t_stop),
                ));
                assert(false);
            }
        }
    }

    /// The probe walk shared by lookup, removal, and insertion.  Starting
    /// from the key's home chunk and stepping by its odd stride, scan each
    /// chunk for the key, remember the earliest reusable slot, and stop at
    /// the first chunk holding an `EMPTY` byte or when the budget of twice
    /// the chunk count runs out.
    fn probe_locate(&self, key: &K, h: u64, fragment: u8) -> (r: ProbeSpot)
        requires
            self.wf(),
            self.spec_capacity() > 0,
            h == Self::key_hash(key@),
            fragment == Self::key_tag(key@),
        ensures
            match r {
                ProbeSpot::FoundAt(i) => (i as int) < self.spec_capacity() && is_full_byte(
                    self.ctrls@[i as int],
                ) && key_view_at(self.slots@, i as int) == key@,
                ProbeSpot::FreeAt(c) => (c as int) < self.spec_capacity() && is_free_byte(
                    self.ctrls@[c as int],
                ) && !self@.dom().contains(key@) && exists|tt: int|
                    0 <= tt < 2 * self.spec_group_count() && #[trigger] probe_group_of(
                        h,
                        self.spec_group_count(),
                        tt,
                    ) == group_of(c as int) && probe_prefix_nofree(
                        self.ctrls@,
                        self.spec_group_count(),
                        h,
                        tt,
                    ),
                ProbeSpot::NoRoom => !self@.dom().contains(key@) && probe_prefix_nofree(
                    self.ctrls@,
                    self.spec_group_count(),
                    Self::key_hash(key@),
                    2 * self.spec_group_count(),
                ),
            },
    {
        let gc = self.group_count;
        let home = (h % (gc as u64)) as usize;
        let step = if home % 2 == 1 {
            home
        } else {
            home + 1
        };
        let budget = gc * 2;
        let mut g = home;
        let mut t: usize = 0;
        let mut candidate: Option<usize> = None;
        let ghost mut cand_t: int = 0;
        proof {
            assert(home as int == home_group_of(h, gc as int));
            assert(step as int == probe_step_of(h, gc as int));
            vstd::arithmetic::div_mod::lemma_mod_bound(h as int, gc as int);
            vstd::arithmetic::div_mod::lemma_mod_twice(h as int, gc as int);
            assert(g as int == probe_group_of(h, gc as int, 0)) by {
                lemma_mod_add_left(h as int, 0, gc as int);
            }
        }
        while t < budget
            invariant
                self.wf(),
                self.spec_capacity() > 0,
                h == Self::key_hash(key@),
                fragment == Self::key_tag(key@),
                gc == self.group_count,
                budget == 2 * gc,
                gc >= 1,
                t <= budget,
                (g as int) < gc as int,
                g as int == probe_group_of(h, gc as int, t as int),
                step as int == probe_step_of(h, gc as int),
                forall|t2: int|
                    0 <= t2 < t ==> !group_has_key(
                        self.ctrls@,
                        self.slots@,
                        #[trigger] probe_group_of(h, gc as int, t2),
                        key@,
                    ),
                forall|t2: int|
                    0 <= t2 < t ==> !group_has_empty(
                        self.ctrls@,
                        #[trigger] probe_group_of(h, gc as int, t2),
                    ),
                match candidate {
                    Some(c) => 0 <= cand_t < t && (c as int) < self.spec_capacity()
                        && is_free_byte(self.ctrls@[c as int]) && group_of(c as int)
                        == probe_group_of(h, gc as int, cand_t) && probe_prefix_nofree(
                        self.ctrls@,
                        gc as int,
                        h,
                        cand_t,
                    ),
                    None => probe_prefix_nofree(self.ctrls@, gc as int, h, t as int),
                },
            decreases budget - t,
        {
            proof {
                assert((g as int) * 16 + 16 <= (gc as int) * 16) by (nonlinear_arith)
                    requires (g as int) < gc as int;
                assert(group_of((g as int) * 16) == g as int) by (nonlinear_arith);
            }
            let gs = g * CHUNK_SIZE;
            match self.find_in_group(gs, key, fragment) {
                Some(i) => {
                    return ProbeSpot::FoundAt(i);
                }
                None => {}
            }
            if candidate.is_none() {
                match self.find_free_in_group(gs) {
                    Some(c) => {
                        candidate = Some(c);
                        proof {
                            cand_t = t as int;
                        }
                    }
                    None => {}
                }
            }
            if self.group_contains_empty(gs) {
                proof {
                    self.lemma_absent(h, key@, t as int);
                }
                match candidate {
                    Some(c) => {
                        return ProbeSpot::FreeAt(c);
                    }
                    None => {
                        proof {
                            let j = choose|j: int|
                                (g as int) * 16 <= j < (g as int) * 16 + 16 && 0 <= j
                                    < self.ctrls@.len() && self.ctrls@[j] == EMPTY;
                            assert(is_free_byte(self.ctrls@[j]));
                            assert(group_has_free(self.ctrls@, g as int));
                            assert(false);
                        }
                        return ProbeSpot::NoRoom;
                    }
                }
            }
            proof {
                lemma_mod_add_left(
                    home_group_of(h, gc as int) + (t as int) * probe_step_of(h, gc as int),
                    step as int,
                    gc as int,
                );
                vstd::arithmetic::div_mod::lemma_mod_bound(
                    g as int + step as int,
                    gc as int,
                );
                assert((t as int + 1) * probe_step_of(h, gc as int) == (t as int)
                    * probe_step_of(h, gc as int) + probe_step_of(h, gc as int))
                    by (nonlinear_arith);
            }
            g = (g + step) % gc;
            t = t + 1;
        }
        proof {
            self.lemma_absent(h, key@, t as int);
        }
        match candidate {
            Some(c) => {
                proof {
                    assert(0 <= cand_t < 2 * self.spec_group_count()
                        && probe_group_of(h, self.spec_group_count(), cand_t)
                        == group_of(c as int) && probe_prefix_nofree(
                        self.ctrls@,
                        self.spec_group_count(),
                        h,
                        cand_t,
                    ));
                }
                ProbeSpot::FreeAt(c)
            }
            None => ProbeSpot::NoRoom,
        }
    }

    /// Look a key up, returning a borrow of its value when present.
    pub fn get(&self, key: &K) -> (r: Option<&V>)
        requires
            self.wf(),
        ensures
            match r {
                Some(v) => self@.dom().contains(key@) && *v == self@[key@],
                None => !self@.dom().contains(key@),
            },
    {
        if self.capacity == 0 {
            proof {
                lemma_table_map_contains(self.ctrls@, self.slots@, 0, key@);
            }
            return None;
        }
        let (h, frag) = self.hash_key(key);
        let fragment = simd_utils::make_ctrl_byte(frag);
        match self.probe_locate(key, h, fragment) {
            ProbeSpot::FoundAt(i) => {
                proof {
                    lemma_table_map_value(
                        self.ctrls@,
                        self.slots@,
                        self.capacity as int,
                        i as int,
                    );
                    assert(self.byte_ok(i as int));
                }
                match &self.slots[i] {
                    Some(pair) => Some(&pair.1),
                    None => vstd::pervasive::unreached(),
                }
            }
            ProbeSpot::FreeAt(_) => None,
            ProbeSpot::NoRoom => None,
        }
    }
}


// ------------------------------------------------------------------
// Removal
// ------------------------------------------------------------------

impl<K: MapKey, V, S: BuildHasherExt> F14VectorMap<K, V, S> {
    /// Vacate full slot `index`: mark it a tombstone and take its value.
    fn remove_at(&mut self, index: usize) -> (v: V)
        requires
            old(self).wf(),
            (index as int) < old(self).spec_capacity(),
            is_full_byte(old(self).ctrls@[index as int]),
        ensures
            final(self).wf(),
            final(self).spec_capacity() == old(self).spec_capacity(),
            final(self).spec_group_count() == old(self).spec_group_count(),
            final(self).spec_len() == old(self).spec_len() - 1,
            final(self).spec_deleted() == old(self).spec_deleted() + 1,
            old(self)@.dom().contains(key_view_at(old(self).slots@, index as int)),
            v == old(self)@[key_view_at(old(self).slots@, index as int)],
            final(self)@ == old(self)@.remove(key_view_at(old(self).slots@, index as int)),
    {
        let ghost c1 = old(self).ctrls@;
        let ghost s1 = old(self).slots@;
        let ghost cap = old(self).spec_capacity();
        let ghost kv = key_view_at(old(self).slots@, index as int);
        proof {
            lemma_table_map_value(c1, s1, cap, index as int);
            lemma_count_update(c1, index as int, DELETED);
            lemma_count_bounds(c1.update(index as int, DELETED));
        }
        self.ctrls[index] = DELETED;
        let mut taken: Option<(K, V)> = None;
        core::mem::swap(&mut self.slots[index], &mut taken);
        self.len = self.len - 1;
        self.deleted = self.deleted + 1;
        proof {
            let c2 = self.ctrls@;
            let s2 = self.slots@;
            assert(c2 =~= c1.update(index as int, DELETED));
            assert(s2 =~= s1.update(index as int, None));
            assert forall|i: int| 0 <= i < cap implies #[trigger] self.byte_ok(i) by {
                assert(old(self).byte_ok(i));
                if i != index as int {
                    assert(c2[i] == c1[i]);
                    assert(s2[i] == s1[i]);
                }
            }
            assert forall|i: int, j: int|
                0 <= i < cap && 0 <= j < cap && i != j && is_full_byte(c2[i]) && is_full_byte(
                    c2[j],
                ) implies #[trigger] key_view_at(s2, i) != #[trigger] key_view_at(s2, j) by {
                assert(i != index as int && j != index as int);
                assert(key_view_at(s2, i) == key_view_at(s1, i));
                assert(key_view_at(s2, j) == key_view_at(s1, j));
            }
            assert forall|i: int|
                0 <= i < cap && is_full_byte(c2[i]) implies probe_reaches(
                c2,
                old(self).spec_group_count(),
                Self::key_hash(#[trigger] key_view_at(s2, i)),
                group_of(i),
            ) by {
                assert(i != index as int);
                assert(key_view_at(s2, i) == key_view_at(s1, i));
                assert(is_full_byte(c1[i]));
                assert(probe_reaches(
                    c1,
                    old(self).spec_group_count(),
                    Self::key_hash(key_view_at(s1, i)),
                    group_of(i),
                ));
                lemma_reach_preserved(
                    c1,
                    c2,
                    old(self).spec_group_count(),
                    Self::key_hash(key_view_at(s1, i)),
                    group_of(i),
                );
            }
            lemma_table_map_remove(c1, s1, c2, s2, cap, index as int);
        }
        match taken {
            Some(pair) => pair.1,
            None => {
                proof {
                    assert(old(self).byte_ok(index as int));
                }
                vstd::pervasive::unreached()
            }
        }
    }

    /// Remove a key, returning its value when it was present.
    pub fn remove(&mut self, key: &K) -> (r: Option<V>)
        requires
            old(self).wf(),
        ensures
            final(self).wf(),
            final(self).spec_capacity() == old(self).spec_capacity(),
            final(self).spec_group_count() == old(self).spec_group_count(),
            match r {
                Some(v) => {
                    &&& old(self)@.dom().contains(key@)
                    &&& v == old(self)@[key@]
                    &&& final(self)@ == old(self)@.remove(key@)
                    &&& final(self).spec_len() == old(self).spec_len() - 1
                    &&& final(self).spec_deleted() == old(self).spec_deleted() + 1
                },
                None => {
                    &&& !old(self)@.dom().contains(key@)
                    &&& *final(self) == *old(self)
                },
            },
    {
        if self.capacity == 0 {
            proof {
                lemma_table_map_contains(self.ctrls@, self.slots@, 0, key@);
            }
            return None;
        }
        let (h, frag) = self.hash_key(key);
        let fragment = simd_utils::make_ctrl_byte(frag);
        match self.probe_locate(key, h, fragment) {
            ProbeSpot::FoundAt(i) => {
                let v = self.remove_at(i);
                Some(v)
            }
            ProbeSpot::FreeAt(_) => None,
            ProbeSpot::NoRoom => None,
        }
    }
}


// ------------------------------------------------------------------
// Clearing, and slot-level writes
// ------------------------------------------------------------------

impl<K: MapKey, V, S: BuildHasherExt> F14VectorMap<K, V, S> {
    /// Drop every pair and reset every slot to `EMPTY`, keeping the
    /// capacity.
    pub fn clear(&mut self)
        requires
            old(self).wf(),
        ensures
            final(self).wf(),
            final(self)@ == Map::<K::V, V>::empty(),
            final(self).spec_len() == 0,
            final(self).spec_deleted() == 0,
            final(self).spec_capacity() == old(self).spec_capacity(),
            final(self).spec_group_count() == old(self).spec_group_count(),
    {
        let cap = self.capacity;
        Scalar::fill_ctrls(&mut self.ctrls, EMPTY, cap);
        let mut i: usize = 0;
        while i < cap
            invariant
                i <= cap,
                self.capacity == cap,
                self.group_count == old(self).group_count,
                self.ctrls@.len() == cap as int,
                self.slots@.len() == cap as int,
                forall|j: int| 0 <= j < cap ==> self.ctrls@[j] == EMPTY,
                forall|j: int| 0 <= j < i ==> self.slots@[j] is None,
            decreases cap - i,
        {
            self.slots[i] = None;
            i = i + 1;
        }
        self.len = 0;
        self.deleted = 0;
        proof {
            lemma_count_all_not_full(self.ctrls@);
            lemma_count_all_not_deleted(self.ctrls@);
            lemma_table_map_no_full(self.ctrls@, self.slots@, cap as int);
            assert forall|i2: int| 0 <= i2 < cap implies #[trigger] self.byte_ok(i2) by {
                assert(self.ctrls@[i2] == EMPTY);
            }
        }
    }

    /// Overwrite the value of full slot `index` in place, returning the
    /// displaced value.  Control byte, key, and counters are untouched.
    fn replace_value_at(&mut self, index: usize, value: V) -> (v: V)
        requires
            old(self).wf(),
            (index as int) < old(self).spec_capacity(),
            is_full_byte(old(self).ctrls@[index as int]),
        ensures
            final(self).wf(),
            final(self).spec_capacity() == old(self).spec_capacity(),
            final(self).spec_group_count() == old(self).spec_group_count(),
            final(self).spec_len() == old(self).spec_len(),
            final(self).spec_deleted() == old(self).spec_deleted(),
            old(self)@.dom().contains(key_view_at(old(self).slots@, index as int)),
            v == old(self)@[key_view_at(old(self).slots@, index as int)],
            final(self)@ == old(self)@.insert(
                key_view_at(old(self).slots@, index as int),
                value,
            ),
    {
        let ghost c1 = old(self).ctrls@;
        let ghost s1 = old(self).slots@;
        let ghost cap = old(self).spec_capacity();
        let ghost kv = key_view_at(old(self).slots@, index as int);
        let ghost gval = value;
        proof {
            lemma_table_map_value(c1, s1, cap, index as int);
            assert(old(self).byte_ok(index as int));
        }
        let mut taken: Option<(K, V)> = None;
        core::mem::swap(&mut self.slots[index], &mut taken);
        match taken {
            Some(pair) => {
                let (k, oldv) = pair;
                let ghost gk = k;
                self.slots[index] = Some((k, value));
                proof {
                    let c2 = self.ctrls@;
                    let s2 = self.slots@;
                    assert(c2 =~= c1);
                    assert(s2 =~= s1.update(index as int, Some((gk, gval))));
                    assert(gk@ == kv);
                    assert forall|i: int| 0 <= i < cap implies #[trigger] self.byte_ok(i) by {
                        assert(old(self).byte_ok(i));
                        if i != index as int {
                            assert(s2[i] == s1[i]);
                        } else {
                            assert(key_view_at(s2, i) == kv);
                        }
                    }
                    assert forall|i: int|
                        0 <= i < cap && is_full_byte(c2[i]) implies #[trigger] key_view_at(
                        s2,
                        i,
                    ) == key_view_at(s1, i) by {
                        if i != index as int {
                            assert(s2[i] == s1[i]);
                        }
                    }
                    assert forall|i: int, j: int|
                        0 <= i < cap && 0 <= j < cap && i != j && is_full_byte(c2[i])
                            && is_full_byte(c2[j]) implies #[trigger] key_view_at(s2, i)
                        != #[trigger] key_view_at(s2, j) by {
                        assert(key_view_at(s1, i) != key_view_at(s1, j));
                    }
                    assert forall|i: int|
                        0 <= i < cap && is_full_byte(c2[i]) implies probe_reaches(
                        c2,
                        old(self).spec_group_count(),
                        Self::key_hash(#[trigger] key_view_at(s2, i)),
                        group_of(i),
                    ) by {
                        assert(key_view_at(s2, i) == key_view_at(s1, i));
                        assert(probe_reaches(
                            c1,
                            old(self).spec_group_count(),
                            Self::key_hash(key_view_at(s1, i)),
                            group_of(i),
                        ));
                    }
                    lemma_table_map_replace(c1, s1, s2, cap, index as int, gk, gval);
                }
                oldv
            }
            None => {
                proof {
                    assert(false);
                }
                vstd::pervasive::unreached()
            }
        }
    }

    /// Move a pair into reusable slot `index`, writing the key's tag as
    /// the control byte.  The caller warrants that the key is absent and
    /// that no chunk strictly earlier on the key's probe walk had any
    /// reusable slot, which keeps every stored key reachable.
    fn insert_at(&mut self, index: usize, key: K, value: V, fragment: u8)
        requires
            old(self).wf(),
            (index as int) < old(self).spec_capacity(),
            is_free_byte(old(self).ctrls@[index as int]),
            fragment == Self::key_tag(key@),
            !old(self)@.dom().contains(key@),
            exists|tt: int|
                0 <= tt < 2 * old(self).spec_group_count() && #[trigger] probe_group_of(
                    Self::key_hash(key@),
                    old(self).spec_group_count(),
                    tt,
                ) == group_of(index as int) && probe_prefix_nofree(
                    old(self).ctrls@,
                    old(self).spec_group_count(),
                    Self::key_hash(key@),
                    tt,
                ),
        ensures
            final(self).wf(),
            final(self).spec_capacity() == old(self).spec_capacity(),
            final(self).spec_group_count() == old(self).spec_group_count(),
            final(self).spec_len() == old(self).spec_len() + 1,
            final(self).spec_deleted() == old(self).spec_deleted() - (if old(
                self,
            ).ctrls@[index as int] == DELETED {
                1int
            } else {
                0int
            }),
            final(self)@ == old(self)@.insert(key@, value),
    {
        let ghost c1 = old(self).ctrls@;
        let ghost s1 = old(self).slots@;
        let ghost cap = old(self).spec_capacity();
        let ghost gc = old(self).spec_group_count();
        let ghost kv = key@;
        let ghost h = Self::key_hash(key@);
        let ghost gkey = key;
        let ghost gval = value;
        proof {
            Self::lemma_tag_is_full(kv);
            lemma_count_update(c1, index as int, fragment);
            lemma_count_full_lt(c1, index as int);
            lemma_count_bounds(c1.update(index as int, fragment));
            lemma_table_map_contains(c1, s1, cap, kv);
        }
        let was_deleted = self.ctrls[index] == DELETED;
        self.ctrls[index] = fragment;
        self.slots[index] = Some((key, value));
        self.len = self.len + 1;
        if was_deleted {
            self.deleted = self.deleted - 1;
        }
        proof {
            let c2 = self.ctrls@;
            let s2 = self.slots@;
            assert(c2 =~= c1.update(index as int, fragment));
            assert(s2 =~= s1.update(index as int, Some((gkey, gval))));
            // No new empties anywhere: the one changed byte became full.
            assert forall|j: int| 0 <= j < c2.len() && #[trigger] c2[j] == EMPTY implies c1[j]
                == EMPTY by {
                assert(j != index as int);
            }
            assert forall|i: int| 0 <= i < cap implies #[trigger] self.byte_ok(i) by {
                assert(old(self).byte_ok(i));
                if i != index as int {
                    assert(c2[i] == c1[i]);
                    assert(s2[i] == s1[i]);
                } else {
                    assert(key_view_at(s2, i) == kv);
                }
            }
            // Every full slot other than `index` kept its key.
            assert forall|i: int|
                0 <= i < cap && i != index as int && is_full_byte(c2[i]) implies is_full_byte(
                c1[i],
            ) && #[trigger] key_view_at(s2, i) == key_view_at(s1, i) by {
                assert(c2[i] == c1[i]);
                assert(s2[i] == s1[i]);
            }
            // The new key differs from every key already stored.
            assert forall|i: int|
                0 <= i < cap && i != index as int && is_full_byte(c1[i]) implies
                #[trigger] key_view_at(s1, i) != kv by {
            }
            assert forall|i: int, j: int|
                0 <= i < cap && 0 <= j < cap && i != j && is_full_byte(c2[i]) && is_full_byte(
                    c2[j],
                ) implies #[trigger] key_view_at(s2, i) != #[trigger] key_view_at(s2, j) by {
                if i != index as int && j != index as int {
                    assert(key_view_at(s1, i) != key_view_at(s1, j));
                } else if i == index as int {
                    assert(key_view_at(s2, j) == key_view_at(s1, j));
                    assert(key_view_at(s2, i) == kv);
                } else {
                    assert(key_view_at(s2, i) == key_view_at(s1, i));
                    assert(key_view_at(s2, j) == kv);
                }
            }
            // Reachability of the fresh slot: its witness step had no
            // reusable slot in any earlier chunk, hence no empty one now.
            let tt = choose|tt: int|
                0 <= tt < 2 * gc && #[trigger] probe_group_of(h, gc, tt) == group_of(
                    index as int,
                ) && probe_prefix_nofree(c1, gc, h, tt);
            assert forall|t2: int| 0 <= t2 < tt implies !group_has_empty(
                c2,
                #[trigger] probe_group_of(h, gc, t2),
            ) by {
                let g2 = probe_group_of(h, gc, t2);
                assert(!group_has_free(c1, g2));
                if group_has_empty(c2, g2) {
                    let j = choose|j: int|
                        g2 * 16 <= j < g2 * 16 + 16 && 0 <= j < c2.len() && c2[j] == EMPTY;
                    assert(c1[j] == EMPTY);
                    assert(is_free_byte(c1[j]));
                    assert(group_has_free(c1, g2));
                }
            }
            assert(probe_reaches(c2, gc, h, group_of(index as int)));
            assert forall|i: int|
                0 <= i < cap && is_full_byte(c2[i]) implies probe_reaches(
                c2,
                gc,
                Self::key_hash(#[trigger] key_view_at(s2, i)),
                group_of(i),
            ) by {
                if i == index as int {
                    assert(key_view_at(s2, i) == kv);
                } else {
                    assert(key_view_at(s2, i) == key_view_at(s1, i));
                    assert(probe_reaches(
                        c1,
                        gc,
                        Self::key_hash(key_view_at(s1, i)),
                        group_of(i),
                    ));
                    lemma_reach_preserved(
                        c1,
                        c2,
                        gc,
                        Self::key_hash(key_view_at(s1, i)),
                        group_of(i),
                    );
                }
            }
            lemma_table_map_insert(c1, s1, c2, s2, cap, index as int, gkey, gval, fragment);
        }
    }
}


// ------------------------------------------------------------------
// Insertion, growth, and rebuilding
// ------------------------------------------------------------------

/// What one growth-free insertion attempt did.
enum InsertOutcome<K, V> {
    /// The key was present; its value was overwritten in place.
    Replaced(V),
    /// The pair was written into a reusable slot.
    Inserted,
    /// No chunk on the probe walk had room; the pair is handed back.
    NoRoom(K, V),
}

proof fn lemma_pairs_map_concat<K: View, V>(a: Seq<(K, V)>, b: Seq<(K, V)>)
    ensures
        pairs_map(a + b) =~= pairs_map(a).union_prefer_right(pairs_map(b)),
    decreases b.len(),
{
    if b.len() == 0 {
        assert(a + b =~= a);
        assert(pairs_map(a).union_prefer_right(pairs_map(b)) =~= pairs_map(a));
    } else {
        lemma_pairs_map_concat(a, b.drop_last());
        assert((a + b).drop_last() =~= a + b.drop_last());
        assert((a + b).last() == b.last());
    }
}

/// After doubling the capacity, any number of pairs the old table could
/// hold sits strictly under the seven-tenths load bound.
proof fn lemma_load_after_double(len: int, cap_pre: int, cap_post: int)
    requires
        0 <= len <= cap_pre,
        16 <= cap_pre,
        cap_post >= 2 * cap_pre,
    ensures
        len < cap_post * 7 / 10,
{
    assert(cap_post * 7 >= 14 * cap_pre) by (nonlinear_arith)
        requires
            cap_post >= 2 * cap_pre,
            cap_pre >= 0,
    ;
    vstd::arithmetic::div_mod::lemma_fundamental_div_mod(cap_post * 7, 10);
    vstd::arithmetic::div_mod::lemma_mod_bound(cap_post * 7, 10);
}

/// The seven-tenths load bound only loosens as the capacity grows.
proof fn lemma_load_monotone(len: int, cap_a: int, cap_b: int)
    requires
        len < cap_a * 7 / 10,
        0 <= cap_a <= cap_b,
    ensures
        len < cap_b * 7 / 10,
{
    assert(cap_a * 7 <= cap_b * 7) by (nonlinear_arith)
        requires
            cap_a <= cap_b,
    ;
    vstd::arithmetic::div_mod::lemma_div_is_ordered(cap_a * 7, cap_b * 7, 10);
}

impl<K: MapKey, V, S: BuildHasherExt> F14VectorMap<K, V, S> {
    /// One insertion attempt without any growth: replace the key's value
    /// if it is stored, otherwise move the pair into the earliest reusable
    /// slot on its probe walk, or hand the pair back when the walk found
    /// no room.
    fn try_insert(&mut self, key: K, value: V) -> (r: InsertOutcome<K, V>)
        requires
            old(self).wf(),
            old(self).spec_capacity() > 0,
        ensures
            final(self).wf(),
            final(self).spec_capacity() == old(self).spec_capacity(),
            final(self).spec_group_count() == old(self).spec_group_count(),
            match r {
                InsertOutcome::Replaced(v) => {
                    &&& old(self)@.dom().contains(key@)
                    &&& v == old(self)@[key@]
                    &&& final(self)@ == old(self)@.insert(key@, value)
                    &&& final(self).spec_len() == old(self).spec_len()
                    &&& final(self).spec_deleted() == old(self).spec_deleted()
                },
                InsertOutcome::Inserted => {
                    &&& !old(self)@.dom().contains(key@)
                    &&& final(self)@ == old(self)@.insert(key@, value)
                    &&& final(self).spec_len() == old(self).spec_len() + 1
                    &&& final(self).spec_deleted() <= old(self).spec_deleted()
                },
                InsertOutcome::NoRoom(k2, v2) => {
                    &&& k2 == key
                    &&& v2 == value
                    &&& *final(self) == *old(self)
                    &&& old(self).spec_len() >= 16
                    &&& is_pow2(old(self).spec_group_count()) ==> old(self).spec_len()
                        == old(self).spec_capacity()
                },
            },
    {
        let (h, frag) = self.hash_key(&key);
        let fragment = simd_utils::make_ctrl_byte(frag);
        match self.probe_locate(&key, h, fragment) {
            ProbeSpot::FoundAt(i) => {
                let v = self.replace_value_at(i, value);
                InsertOutcome::Replaced(v)
            }
            ProbeSpot::FreeAt(c) => {
                self.insert_at(c, key, value, fragment);
                InsertOutcome::Inserted
            }
            ProbeSpot::NoRoom => {
                proof {
                    self.lemma_no_room_means_full_home(h);
                    if is_pow2(self.spec_group_count()) {
                        self.lemma_no_room_pow2(h);
                    }
                }
                InsertOutcome::NoRoom(key, value)
            }
        }
    }

    /// When the whole probe walk for `h` saw no reusable slot, already its
    /// home chunk is packed with full slots, so at least a chunk's worth
    /// of pairs is stored.
    proof fn lemma_no_room_means_full_home(&self, h: u64)
        requires
            self.wf(),
            self.spec_capacity() > 0,
            probe_prefix_nofree(
                self.ctrls@,
                self.spec_group_count(),
                h,
                2 * self.spec_group_count(),
            ),
        ensures
            self.spec_len() >= 16,
    {
        let gc = self.spec_group_count();
        assert(gc >= 1) by (nonlinear_arith)
            requires
                self.spec_capacity() == gc * 16,
                self.spec_capacity() > 0,
        ;
        vstd::arithmetic::div_mod::lemma_mod_bound(h as int, gc);
        vstd::arithmetic::div_mod::lemma_mod_twice(h as int, gc);
        let home = probe_group_of(h, gc, 0);
        assert(home == home_group_of(h, gc)) by {
            vstd::arithmetic::div_mod::lemma_mod_twice(home_group_of(h, gc), gc);
        }
        assert(!group_has_free(self.ctrls@, home));
        assert(home * 16 + 16 <= gc * 16) by (nonlinear_arith)
            requires
                home < gc,
        ;
        assert forall|j: int| home * 16 <= j < home * 16 + 16 implies is_full_byte(
            self.ctrls@[j],
        ) by {
            assert(home * 16 >= 0) by (nonlinear_arith)
                requires home >= 0,
            ;
            assert(self.byte_ok(j));
            if !is_full_byte(self.ctrls@[j]) {
                assert(is_free_byte(self.ctrls@[j]));
                assert(group_has_free(self.ctrls@, home));
            }
        }
        assert(home * 16 >= 0) by (nonlinear_arith)
            requires home >= 0,
        ;
        lemma_count_full_window(self.ctrls@, home * 16, home * 16 + 16);
    }

    /// When the chunk count is a power of two, a probe walk that saw no
    /// reusable slot anywhere has in fact visited every chunk, so the
    /// table is completely full.
    proof fn lemma_no_room_pow2(&self, h: u64)
        requires
            self.wf(),
            self.spec_capacity() > 0,
            is_pow2(self.spec_group_count()),
            probe_prefix_nofree(
                self.ctrls@,
                self.spec_group_count(),
                h,
                2 * self.spec_group_count(),
            ),
        ensures
            self.spec_len() == self.spec_capacity(),
    {
        let gc = self.spec_group_count();
        let cap = self.spec_capacity();
        assert forall|j: int| 0 <= j < cap implies is_full_byte(self.ctrls@[j]) by {
            lemma_slot_in_group(j);
            let g = group_of(j);
            assert(g < gc) by {
                vstd::arithmetic::div_mod::lemma_div_is_ordered(j, gc * 16 - 1, 16);
                vstd::arithmetic::div_mod::lemma_fundamental_div_mod_converse(
                    gc * 16 - 1,
                    16,
                    gc - 1,
                    15,
                );
            }
            lemma_walk_visits_all(h, gc, g);
            let t = choose|t: int| 0 <= t < gc && #[trigger] probe_group_of(h, gc, t) == g;
            assert(!group_has_free(self.ctrls@, g));
            assert(self.byte_ok(j));
            if !is_full_byte(self.ctrls@[j]) {
                assert(is_free_byte(self.ctrls@[j]));
                assert(group_has_free(self.ctrls@, g));
            }
        }
        lemma_count_full_window(self.ctrls@, 0, cap);
        lemma_count_bounds(self.ctrls@);
    }

    /// Doubling keeps a chunk count a power of two.
    proof fn lemma_pow2_double(n: int)
        requires
            is_pow2(n),
        ensures
            is_pow2(2 * n),
    {
        vstd::arithmetic::div_mod::lemma_fundamental_div_mod_converse(2 * n, 2, n, 0);
    }

    /// A well-formed table's chunk count is its capacity over sixteen.
    proof fn lemma_group_count_of_capacity(&self)
        requires
            self.wf(),
        ensures
            self.spec_group_count() == self.spec_capacity() / 16,
    {
        vstd::arithmetic::div_mod::lemma_fundamental_div_mod_converse(
            self.spec_capacity(),
            16,
            self.spec_group_count(),
            0,
        );
    }

    /// Move every stored pair out, leaving the table empty with no
    /// storage.  The pairs carry pairwise distinct keys and together make
    /// up exactly the table's former map.
    pub(crate) fn take_all_pairs(&mut self) -> (pairs: Vec<(K, V)>)
        requires
            old(self).wf(),
        ensures
            final(self).wf(),
            final(self)@ == Map::<K::V, V>::empty(),
            final(self).spec_len() == 0,
            final(self).spec_deleted() == 0,
            final(self).spec_capacity() == 0,
            distinct_pair_keys(pairs@),
            pairs_map(pairs@) == old(self)@,
            pairs@.len() == old(self).spec_len(),
    {
        let ghost c1 = old(self).ctrls@;
        let ghost s1 = old(self).slots@;
        let ghost cap = old(self).spec_capacity();
        let mut pairs: Vec<(K, V)> = Vec::new();
        proof {
            assert(c1.take(cap) =~= c1);
            assert(s1.take(cap) =~= s1);
        }
        while self.slots.len() > 0
            invariant
                old(self).wf(),
                c1 == old(self).ctrls@,
                s1 == old(self).slots@,
                cap == old(self).spec_capacity(),
                self.slots@.len() == self.ctrls@.len(),
                self.slots@.len() <= cap,
                self.ctrls@ == c1.take(self.slots@.len() as int),
                self.slots@ == s1.take(self.slots@.len() as int),
                c1.len() == cap,
                s1.len() == cap,
                distinct_keys(c1, s1, cap),
                distinct_pair_keys(pairs@),
                table_map(c1, s1, self.slots@.len() as int).dom().disjoint(
                    pairs_map(pairs@).dom(),
                ),
                old(self)@ == table_map(
                    c1,
                    s1,
                    self.slots@.len() as int,
                ).union_prefer_right(pairs_map(pairs@)),
                pairs@.len() as int + count_full(c1.take(self.slots@.len() as int))
                    == old(self).spec_len(),
            decreases self.slots@.len(),
        {
            let ghost m = self.slots@.len() as int;
            let slotopt = self.slots.pop();
            self.ctrls.pop();
            proof {
                assert(c1.take(m).drop_last() =~= c1.take(m - 1));
                assert(s1.take(m).drop_last() =~= s1.take(m - 1));
                assert(c1.take(m).last() == c1[m - 1]);
                assert(s1.take(m).last() == s1[m - 1]);
            }
            match slotopt {
                Some(opt) => {
                    match opt {
                        Some(p) => {
                            proof {
                                assert(is_full_byte(c1[m - 1]) || s1[m - 1] is None) by {
                                    assert(old(self).byte_ok(m - 1));
                                }
                                assert(is_full_byte(c1[m - 1]));
                                let kv = key_view_at(s1, m - 1);
                                lemma_table_map_contains(c1, s1, m - 1, kv);
                                assert(!table_map(c1, s1, m - 1).dom().contains(kv));
                                lemma_pairs_map_contains(pairs@, kv);
                                assert(table_map(c1, s1, m).dom().contains(kv));
                                assert(!pairs_map(pairs@).dom().contains(kv));
                            }
                            let ghost oldpairs = pairs@;
                            pairs.push(p);
                            proof {
                                let kv = key_view_at(s1, m - 1);
                                assert(pairs@.drop_last() =~= oldpairs);
                                assert(pairs@.last() == p);
                                assert(p == (s1[m - 1])->Some_0);
                                assert(pairs_map(pairs@) == pairs_map(oldpairs).insert(
                                    kv,
                                    value_at(s1, m - 1),
                                ));
                                assert forall|a: int, b: int|
                                    0 <= a < pairs@.len() && 0 <= b < pairs@.len() && a != b
                                    implies #[trigger] pairs@[a].0@ != #[trigger] pairs@[b].0@
                                by {
                                    if a < pairs@.len() - 1 && b < pairs@.len() - 1 {
                                        assert(oldpairs[a].0@ != oldpairs[b].0@);
                                    } else if a == pairs@.len() - 1 {
                                        assert(oldpairs[b].0@ == pairs@[b].0@);
                                        lemma_pairs_map_contains(oldpairs, oldpairs[b].0@);
                                    } else {
                                        assert(oldpairs[a].0@ == pairs@[a].0@);
                                        lemma_pairs_map_contains(oldpairs, oldpairs[a].0@);
                                    }
                                }
                                assert(old(self)@ =~= table_map(
                                    c1,
                                    s1,
                                    m - 1,
                                ).union_prefer_right(pairs_map(pairs@)));
                                assert forall|kv2: K::V|
                                    table_map(c1, s1, m - 1).dom().contains(kv2) implies
                                    !pairs_map(pairs@).dom().contains(kv2) by {
                                    lemma_table_map_contains(c1, s1, m - 1, kv2);
                                    lemma_table_map_contains(c1, s1, m, kv2);
                                    lemma_pairs_map_contains(pairs@, kv2);
                                    lemma_pairs_map_contains(oldpairs, kv2);
                                }
                            }
                        }
                        None => {
                            proof {
                                assert(old(self).byte_ok(m - 1));
                                assert(!is_full_byte(c1[m - 1]));
                            }
                        }
                    }
                }
                None => {
                    proof {
                        assert(false);
                    }
                }
            }
        }
        self.capacity = 0;
        self.group_count = 0;
        self.len = 0;
        self.deleted = 0;
        proof {
            assert(self.ctrls@ =~= Seq::<u8>::empty());
            assert(self.slots@ =~= Seq::<Option<(K, V)>>::empty());
            assert(c1.take(0) =~= Seq::<u8>::empty());
            assert(table_map(c1, s1, 0) =~= Map::<K::V, V>::empty());
            assert(self@ =~= Map::<K::V, V>::empty());
            assert(old(self)@ =~= pairs_map(pairs@));
        }
        pairs
    }

    /// Replace the table's storage with fresh empty storage of the given
    /// capacity, dropping whatever was there.
    fn reset_to_capacity(&mut self, new_capacity: usize)
        requires
            new_capacity % 16 == 0,
            new_capacity <= MAX_CAPACITY,
        ensures
            final(self).wf(),
            final(self)@ == Map::<K::V, V>::empty(),
            final(self).spec_len() == 0,
            final(self).spec_deleted() == 0,
            final(self).spec_capacity() == new_capacity,
    {
        let gcnt = new_capacity / CHUNK_SIZE;
        proof {
            vstd::arithmetic::div_mod::lemma_fundamental_div_mod(new_capacity as int, 16);
        }
        let mut ctrls: Vec<u8> = Vec::new();
        let mut i: usize = 0;
        while i < new_capacity
            invariant
                i <= new_capacity,
                ctrls@.len() == i as int,
                forall|j: int| 0 <= j < i ==> ctrls@[j] == EMPTY,
            decreases new_capacity - i,
        {
            ctrls.push(EMPTY);
            i = i + 1;
        }
        let mut slots: Vec<Option<(K, V)>> = Vec::new();
        let mut i2: usize = 0;
        while i2 < new_capacity
            invariant
                i2 <= new_capacity,
                slots@.len() == i2 as int,
                forall|j: int| 0 <= j < i2 ==> slots@[j] is None,
            decreases new_capacity - i2,
        {
            slots.push(None);
            i2 = i2 + 1;
        }
        self.ctrls = ctrls;
        self.slots = slots;
        self.capacity = new_capacity;
        self.group_count = gcnt;
        self.len = 0;
        self.deleted = 0;
        proof {
            lemma_count_all_not_full(self.ctrls@);
            lemma_count_all_not_deleted(self.ctrls@);
            lemma_table_map_no_full(self.ctrls@, self.slots@, new_capacity as int);
            assert forall|i3: int| 0 <= i3 < new_capacity implies #[trigger] self.byte_ok(i3)
            by {
                assert(self.ctrls@[i3] == EMPTY);
            }
        }
    }
}


impl<K: MapKey, V, S: BuildHasherExt> F14VectorMap<K, V, S> {
    /// Insert a batch of distinct-keyed pairs into an empty table.  When a
    /// pair finds no room on its probe walk, the partly filled table is
    /// drained and rebuilt at double the capacity, until the layout limit
    /// would be passed.
    fn fill_from_pairs(&mut self, pairs: Vec<(K, V)>) -> (r: Result<(), MapError>)
        requires
            old(self).wf(),
            old(self)@ == Map::<K::V, V>::empty(),
            old(self).spec_len() == 0,
            old(self).spec_deleted() == 0,
            old(self).spec_capacity() >= 16,
            distinct_pair_keys(pairs@),
        ensures
            final(self).wf(),
            final(self).spec_capacity() >= old(self).spec_capacity(),
            pairs@.len() < 16 ==> r is Ok && final(self).spec_capacity() == old(
                self,
            ).spec_capacity(),
            is_pow2(old(self).spec_group_count()) && pairs@.len() <= old(
                self,
            ).spec_capacity() ==> r is Ok && final(self).spec_capacity() == old(
                self,
            ).spec_capacity(),
            match r {
                Ok(u) => final(self)@ == pairs_map(pairs@) && final(self).spec_deleted() == 0
                    && final(self).spec_len() == pairs@.len(),
                Err(e) => e == MapError::CapacityExceeded && 2 * final(self).spec_capacity()
                    > MAX_CAPACITY && final(self)@.submap_of(pairs_map(pairs@)),
            },
    {
        let ghost orig = pairs@;
        let mut remaining = pairs;
        while remaining.len() > 0
            invariant
                orig == pairs@,
                orig.len() < 16 ==> self.spec_capacity() == old(self).spec_capacity(),
                is_pow2(old(self).spec_group_count()) && orig.len() <= old(
                    self,
                ).spec_capacity() ==> self.spec_capacity() == old(self).spec_capacity()
                    && self.spec_group_count() == old(self).spec_group_count(),
                self.wf(),
                self.spec_deleted() == 0,
                self.spec_capacity() >= old(self).spec_capacity(),
                self.spec_capacity() >= 16,
                distinct_pair_keys(remaining@),
                forall|a: int|
                    0 <= a < remaining@.len() ==> !self@.dom().contains(
                        #[trigger] remaining@[a].0@,
                    ),
                pairs_map(orig) == self@.union_prefer_right(pairs_map(remaining@)),
                self.spec_len() + remaining@.len() == orig.len(),
            decreases MAX_CAPACITY - self.spec_capacity(), remaining@.len(),
        {
            let ghost before = remaining@;
            let p = match remaining.pop() {
                Some(p) => p,
                None => vstd::pervasive::unreached(),
            };
            let (k, v) = p;
            proof {
                assert(before.drop_last() =~= remaining@);
                assert(before[before.len() - 1] == (k, v));
                assert(!self@.dom().contains(k@));
            }
            match self.try_insert(k, v) {
                InsertOutcome::Replaced(_) => {
                    proof {
                        assert(false);
                    }
                }
                InsertOutcome::Inserted => {
                    proof {
                        assert(pairs_map(before) == pairs_map(remaining@).insert(k@, v));
                        assert forall|kv2: K::V| true implies pairs_map(orig).dom().contains(
                            kv2,
                        ) == self@.union_prefer_right(pairs_map(remaining@)).dom().contains(kv2)
                            && (pairs_map(orig).dom().contains(kv2) ==> pairs_map(orig)[kv2]
                            == self@.union_prefer_right(pairs_map(remaining@))[kv2]) by {
                            lemma_pairs_map_contains(remaining@, kv2);
                            lemma_pairs_map_contains(before, kv2);
                        }
                        assert(pairs_map(orig) =~= self@.union_prefer_right(
                            pairs_map(remaining@),
                        ));
                        assert forall|a: int| 0 <= a < remaining@.len() implies !self@.dom()
                            .contains(#[trigger] remaining@[a].0@) by {
                            assert(remaining@[a] == before[a]);
                            assert(before[a].0@ != k@);
                        }
                    }
                }
                InsertOutcome::NoRoom(k2, v2) => {
                    remaining.push((k2, v2));
                    proof {
                        assert(remaining@ =~= before);
                        // A walk that found no room needs a full home
                        // chunk, so at least 16 of the pairs are placed.
                        assert(orig.len() >= 16);
                        // Over a power-of-two chunk count the walk is
                        // exhaustive, so no room means a full table; the
                        // unplaced pair shows the table cannot be full.
                        assert(!(is_pow2(old(self).spec_group_count()) && orig.len()
                            <= old(self).spec_capacity()));
                    }
                    if self.capacity > MAX_CAPACITY / 2 {
                        proof {
                            assert forall|kv2: K::V| #[trigger] self@.dom().contains(kv2)
                                implies pairs_map(orig).dom().contains(kv2) && pairs_map(
                                orig,
                            )[kv2] == self@[kv2] by {
                                lemma_pairs_map_contains(remaining@, kv2);
                                assert(!pairs_map(remaining@).dom().contains(kv2));
                                assert(pairs_map(orig) == self@.union_prefer_right(
                                    pairs_map(remaining@),
                                ));
                            }
                            assert(self@.submap_of(pairs_map(orig)));
                        }
                        return Err(MapError::CapacityExceeded);
                    }
                    let capbefore = self.capacity;
                    let mut drained = self.take_all_pairs();
                    let ghost dr = drained@;
                    let ghost rem = remaining@;
                    remaining.append(&mut drained);
                    self.reset_to_capacity(capbefore * 2);
                    proof {
                        assert(remaining@ =~= rem + dr);
                        lemma_pairs_map_concat(rem, dr);
                        // Keys of the drained pairs and the remaining pairs
                        // are disjoint, so both unions agree.
                        assert forall|kv2: K::V| true implies pairs_map(rem + dr).dom()
                            .contains(kv2) == pairs_map(orig).dom().contains(kv2) && (
                        pairs_map(orig).dom().contains(kv2) ==> pairs_map(rem + dr)[kv2]
                            == pairs_map(orig)[kv2]) by {
                            lemma_pairs_map_contains(rem, kv2);
                            lemma_pairs_map_contains(dr, kv2);
                        }
                        assert(pairs_map(remaining@) =~= pairs_map(orig));
                        assert forall|a: int, b: int|
                            0 <= a < remaining@.len() && 0 <= b < remaining@.len() && a != b implies
                            #[trigger] remaining@[a].0@ != #[trigger] remaining@[b].0@ by {
                            if a < rem.len() && b < rem.len() {
                                assert(rem[a].0@ != rem[b].0@);
                            } else if a >= rem.len() && b >= rem.len() {
                                assert(dr[a - rem.len()].0@ != dr[b - rem.len()].0@);
                            } else if a < rem.len() {
                                lemma_pairs_map_contains(dr, dr[b - rem.len()].0@);
                                assert(!self@.dom().contains(rem[a].0@));
                            } else {
                                lemma_pairs_map_contains(dr, dr[a - rem.len()].0@);
                                assert(!self@.dom().contains(rem[b].0@));
                            }
                        }
                        assert(self@.union_prefer_right(pairs_map(remaining@)) =~= pairs_map(
                            remaining@,
                        ));
                        assert forall|a: int| 0 <= a < remaining@.len() implies !self@.dom()
                            .contains(#[trigger] remaining@[a].0@) by {}
                    }
                }
            }
        }
        proof {
            assert(pairs_map(remaining@) =~= Map::<K::V, V>::empty());
            assert(self@.union_prefer_right(pairs_map(remaining@)) =~= self@);
            assert(self@ == pairs_map(orig));
        }
        Ok(())
    }

    /// Drain the table and rebuild it from scratch at `new_capacity` (or
    /// more, if collisions force growth), purging every tombstone.
    fn rebuild_to(&mut self, new_capacity: usize) -> (r: Result<(), MapError>)
        requires
            old(self).wf(),
            new_capacity % 16 == 0,
            16 <= new_capacity <= MAX_CAPACITY,
        ensures
            final(self).wf(),
            final(self).spec_capacity() >= new_capacity,
            old(self).spec_len() < 16 ==> r is Ok && final(self).spec_capacity()
                == new_capacity,
            is_pow2(new_capacity as int / 16) && old(self).spec_len() <= new_capacity
                ==> r is Ok && final(self).spec_capacity() == new_capacity,
            match r {
                Ok(u) => final(self)@ == old(self)@ && final(self).spec_len() == old(
                    self,
                ).spec_len() && final(self).spec_deleted() == 0,
                Err(e) => e == MapError::CapacityExceeded && 2 * final(self).spec_capacity()
                    > MAX_CAPACITY && final(self)@.submap_of(old(self)@),
            },
    {
        let pairs = self.take_all_pairs();
        self.reset_to_capacity(new_capacity);
        proof {
            self.lemma_group_count_of_capacity();
        }
        self.fill_from_pairs(pairs)
    }

    /// Re-insert every live pair at the same capacity, dropping all
    /// tombstones.  Does nothing when there are none.  The live pairs are
    /// unchanged either way.
    pub fn rebuild(&mut self) -> (r: Result<(), MapError>)
        requires
            old(self).wf(),
        ensures
            final(self).wf(),
            final(self).spec_capacity() >= old(self).spec_capacity(),
            old(self).spec_deleted() == 0 ==> r is Ok && *final(self) == *old(self),
            old(self).spec_len() < 16 ==> r is Ok && final(self).spec_capacity() == old(
                self,
            ).spec_capacity(),
            is_pow2(old(self).spec_group_count()) ==> r is Ok
                && final(self).spec_capacity() == old(self).spec_capacity(),
            match r {
                Ok(u) => final(self)@ == old(self)@ && final(self).spec_len() == old(
                    self,
                ).spec_len() && final(self).spec_deleted() == 0,
                Err(e) => e == MapError::CapacityExceeded && 2 * final(self).spec_capacity()
                    > MAX_CAPACITY && final(self)@.submap_of(old(self)@),
            },
    {
        if self.deleted == 0 {
            return Ok(());
        }
        proof {
            if self.capacity as int == 0 {
                assert(self.ctrls@.len() == 0);
                assert(count_deleted(self.ctrls@) == 0);
            }
            assert(self.capacity > 0);
            assert(self.group_count >= 1);
            assert((self.group_count as int) * 16 >= 16) by (nonlinear_arith)
                requires self.group_count as int >= 1;
            lemma_count_bounds(self.ctrls@);
            self.lemma_group_count_of_capacity();
        }
        let cap = self.capacity;
        self.rebuild_to(cap)
    }

    /// Run the pre-insertion policies: give an empty table its first
    /// chunk, rebuild when tombstones outnumber half the live pairs, and
    /// double the capacity when the load factor reaches seven tenths.
    /// On success the table's content is untouched and there is room
    /// under the load bound.
    fn make_room(&mut self) -> (r: Result<(), MapError>)
        requires
            old(self).wf(),
        ensures
            final(self).wf(),
            final(self).spec_capacity() >= old(self).spec_capacity(),
            old(self).spec_len() < 16 && 2 * old(self).spec_capacity() <= MAX_CAPACITY
                ==> r is Ok && final(self).spec_capacity() <= 2 * old(
                self,
            ).spec_capacity() + 32,
            (old(self).spec_capacity() == 0 || is_pow2(old(self).spec_group_count())) && 2
                * old(self).spec_capacity() <= MAX_CAPACITY ==> {
                &&& r is Ok
                &&& is_pow2(final(self).spec_group_count())
                &&& old(self).spec_capacity() == 0 ==> final(self).spec_capacity() == 16
                &&& old(self).spec_capacity() > 0 ==> final(self).spec_capacity() <= 2
                    * old(self).spec_capacity()
                &&& old(self).spec_deleted() == 0 && old(self).spec_capacity() > 0 && old(
                    self,
                ).spec_len() < old(self).spec_capacity() * 7 / 10 ==> final(self).spec_capacity() == old(self).spec_capacity()
            },
            match r {
                Ok(u) => {
                    &&& final(self)@ == old(self)@
                    &&& final(self).spec_len() == old(self).spec_len()
                    &&& 0 <= final(self).spec_deleted() <= old(self).spec_deleted()
                    &&& final(self).spec_capacity() >= 16
                    &&& final(self).spec_len() < final(self).spec_capacity() * 7 / 10
                },
                Err(e) => e == MapError::CapacityExceeded && 2 * final(self).spec_capacity()
                    > MAX_CAPACITY && final(self)@.submap_of(old(self)@),
            },
    {
        if self.capacity == 0 {
            proof {
                lemma_count_bounds(self.ctrls@);
                assert(self.spec_len() == 0);
            }
            match self.rebuild_to(CHUNK_SIZE) {
                Ok(u) => {
                    proof {
                        self.lemma_group_count_of_capacity();
                    }
                }
                Err(e) => {
                    return Err(e);
                }
            }
        }
        if self.deleted > self.len / 2 {
            proof {
                assert(self.capacity > 0);
                assert((self.group_count as int) * 16 >= 16) by (nonlinear_arith)
                    requires self.group_count as int >= 1;
                lemma_count_bounds(self.ctrls@);
                self.lemma_group_count_of_capacity();
            }
            let cap = self.capacity;
            match self.rebuild_to(cap) {
                Ok(u) => {
                    proof {
                        self.lemma_group_count_of_capacity();
                    }
                }
                Err(e) => {
                    return Err(e);
                }
            }
        }
        if self.len >= self.capacity * 7 / 10 {
            if self.capacity > MAX_CAPACITY / 2 {
                return Err(MapError::CapacityExceeded);
            }
            proof {
                assert(self.capacity > 0);
                assert((self.group_count as int) * 16 >= 16) by (nonlinear_arith)
                    requires self.group_count as int >= 1;
                lemma_count_bounds(self.ctrls@);
                self.lemma_group_count_of_capacity();
                if is_pow2(self.spec_group_count()) {
                    Self::lemma_pow2_double(self.spec_group_count());
                    assert((2 * self.spec_capacity()) / 16 == 2 * self.spec_group_count())
                        by {
                        vstd::arithmetic::div_mod::lemma_fundamental_div_mod_converse(
                            2 * self.spec_capacity(),
                            16,
                            2 * self.spec_group_count(),
                            0,
                        );
                        assert(2 * self.spec_capacity() == 16 * (2
                            * self.spec_group_count())) by (nonlinear_arith)
                            requires
                                self.spec_capacity() == self.spec_group_count() * 16,
                        ;
                    }
                }
            }
            let ghost cap_pre = self.spec_capacity();
            let cap2 = self.capacity * 2;
            match self.rebuild_to(cap2) {
                Ok(u) => {
                    proof {
                        lemma_load_after_double(
                            self.spec_len(),
                            cap_pre,
                            self.spec_capacity(),
                        );
                        self.lemma_group_count_of_capacity();
                    }
                }
                Err(e) => {
                    return Err(e);
                }
            }
        }
        Ok(())
    }

    /// Insert a pair, returning the displaced value if the key was
    /// present.  The table may first rebuild (when tombstones outnumber
    /// half the live pairs) or grow (when the load factor reaches 7/10, or
    /// when a probe walk finds no room); it only fails, with
    /// `CapacityExceeded`, when growing would pass the layout limit.
    pub fn insert(&mut self, key: K, value: V) -> (r: Result<Option<V>, MapError>)
        requires
            old(self).wf(),
        ensures
            final(self).wf(),
            final(self).spec_capacity() >= old(self).spec_capacity(),
            // Success is owed whenever a chunk's worth of room is certain
            // and doubling once cannot pass the layout limit; growth then
            // stays within one doubling of the old storage.
            old(self).spec_len() < 16 && 2 * old(self).spec_capacity() <= MAX_CAPACITY
                ==> r is Ok && final(self).spec_capacity() <= 2 * old(
                self,
            ).spec_capacity() + 32,
            // Success is also owed at any load while the chunk count is a
            // power of two (as it is along the default growth path), since
            // the odd stride then drives the walk through every chunk.
            (old(self).spec_capacity() == 0 || is_pow2(old(self).spec_group_count())) && 2
                * old(self).spec_capacity() <= MAX_CAPACITY ==> {
                &&& r is Ok
                &&& is_pow2(final(self).spec_group_count())
                &&& old(self).spec_capacity() == 0 ==> final(self).spec_capacity() == 16
                &&& old(self).spec_capacity() > 0 ==> final(self).spec_capacity() <= 2
                    * old(self).spec_capacity()
                &&& old(self).spec_deleted() == 0 && old(self).spec_capacity() > 0 && old(
                    self,
                ).spec_len() < old(self).spec_capacity() * 7 / 10 ==> final(self).spec_capacity() == old(self).spec_capacity()
            },
            r is Ok ==> {
                &&& final(self).spec_capacity() >= 16
                &&& final(self).spec_len() <= final(self).spec_capacity() * 7 / 10
                &&& 0 <= final(self).spec_deleted() <= old(self).spec_deleted()
            },
            match r {
                Ok(prev) => {
                    &&& final(self)@ == old(self)@.insert(key@, value)
                    &&& match prev {
                        Some(p) => old(self)@.dom().contains(key@) && p == old(self)@[key@]
                            && final(self).spec_len() == old(self).spec_len(),
                        None => !old(self)@.dom().contains(key@) && final(self).spec_len()
                            == old(self).spec_len() + 1,
                    }
                },
                Err(e) => e == MapError::CapacityExceeded && 2 * final(self).spec_capacity()
                    > MAX_CAPACITY && final(self)@.submap_of(old(self)@),
            },
    {
        match self.make_room() {
            Ok(u) => {}
            Err(e) => {
                return Err(e);
            }
        }
        let mut k = key;
        let mut v = value;
        loop
            invariant
                self.wf(),
                self.spec_capacity() >= 16,
                self.spec_capacity() >= old(self).spec_capacity(),
                k == key,
                v == value,
                self@ == old(self)@,
                self.spec_len() == old(self).spec_len(),
                self.spec_len() < self.spec_capacity() * 7 / 10,
                0 <= self.spec_deleted() <= old(self).spec_deleted(),
                old(self).spec_len() < 16 && 2 * old(self).spec_capacity() <= MAX_CAPACITY
                    ==> self.spec_capacity() <= 2 * old(self).spec_capacity() + 32,
                (old(self).spec_capacity() == 0 || is_pow2(old(self).spec_group_count()))
                    && 2 * old(self).spec_capacity() <= MAX_CAPACITY ==> is_pow2(
                    self.spec_group_count(),
                ) && (old(self).spec_capacity() == 0 ==> self.spec_capacity() == 16) && (old(
                    self,
                ).spec_capacity() > 0 ==> self.spec_capacity() <= 2 * old(
                    self,
                ).spec_capacity()) && (old(self).spec_deleted() == 0 && old(
                    self,
                ).spec_capacity() > 0 && old(self).spec_len() < old(self).spec_capacity() * 7
                / 10 ==> self.spec_capacity() == old(self).spec_capacity()),
            decreases MAX_CAPACITY - self.spec_capacity(),
        {
            match self.try_insert(k, v) {
                InsertOutcome::Replaced(pv) => {
                    return Ok(Some(pv));
                }
                InsertOutcome::Inserted => {
                    return Ok(None);
                }
                InsertOutcome::NoRoom(k2, v2) => {
                    proof {
                        // Under a power-of-two chunk count a failed walk
                        // would mean a packed table, against the load
                        // bound the pre-insertion policies left behind.
                        if is_pow2(self.spec_group_count()) {
                            vstd::arithmetic::div_mod::lemma_fundamental_div_mod(
                                self.spec_capacity() * 7,
                                10,
                            );
                            vstd::arithmetic::div_mod::lemma_mod_bound(
                                self.spec_capacity() * 7,
                                10,
                            );
                            assert(false);
                        }
                    }
                    k = k2;
                    v = v2;
                    if self.capacity > MAX_CAPACITY / 2 {
                        return Err(MapError::CapacityExceeded);
                    }
                    let ghost cap_pre2 = self.spec_capacity();
                    let cap2 = self.capacity * 2;
                    match self.rebuild_to(cap2) {
                        Ok(u) => {
                            proof {
                                lemma_load_monotone(
                                    self.spec_len(),
                                    cap_pre2,
                                    self.spec_capacity(),
                                );
                            }
                        }
                        Err(e) => {
                            return Err(e);
                        }
                    }
                }
            }
        }
    }
}


// ------------------------------------------------------------------
// Slot enumeration, for the iterators
// ------------------------------------------------------------------

impl<K: MapKey, V, S: BuildHasherExt> F14VectorMap<K, V, S> {
    /// The view of the key stored in slot `i`.
    pub closed spec fn spec_key_at(&self, i: int) -> K::V {
        key_view_at(self.slots@, i)
    }

    /// The value stored in slot `i`.
    pub closed spec fn spec_value_at(&self, i: int) -> V {
        value_at(self.slots@, i)
    }

    /// The views of the keys in full slots among the first `n`, in slot
    /// order.
    pub closed spec fn spec_keys_upto(&self, n: int) -> Seq<K::V>
        decreases n,
    {
        if n <= 0 {
            Seq::empty()
        } else if is_full_byte(self.ctrls@[n - 1]) {
            self.spec_keys_upto(n - 1).push(self.spec_key_at(n - 1))
        } else {
            self.spec_keys_upto(n - 1)
        }
    }

    /// A slot reads as `Full` exactly when its control byte has a clear
    /// high bit.
    proof fn lemma_state_full(&self, i: int)
        ensures
            (self.spec_slot_state(i) is Full) == is_full_byte(self.ctrls@[i]),
    {
    }

    /// An iteration that has not started has yielded no keys.
    pub proof fn lemma_keys_upto_zero(&self)
        ensures
            self.spec_keys_upto(0) == Seq::<K::V>::empty(),
            self.spec_capacity() >= 0,
    {
    }

    /// Skipping slots that are not full adds no keys.
    pub proof fn lemma_keys_upto_skip(&self, a: int, b: int)
        requires
            0 <= a <= b,
            b <= self.spec_capacity(),
            forall|i: int| a <= i < b ==> !(#[trigger] self.spec_slot_state(i) is Full),
        ensures
            self.spec_keys_upto(b) == self.spec_keys_upto(a),
        decreases b - a,
    {
        if b > a {
            self.lemma_state_full(b - 1);
            self.lemma_keys_upto_skip(a, b - 1);
        }
    }

    /// Passing a full slot appends exactly its key.
    pub proof fn lemma_keys_upto_entry(&self, i: int)
        requires
            0 <= i < self.spec_capacity(),
            self.spec_slot_state(i) is Full,
        ensures
            self.spec_keys_upto(i + 1) == self.spec_keys_upto(i).push(self.spec_key_at(i)),
    {
        self.lemma_state_full(i);
    }

    /// A key view occurs among the first `n` slots' keys exactly when some
    /// full slot among them stores it.
    pub proof fn lemma_keys_upto_contains(&self, n: int, kv: K::V)
        requires
            0 <= n <= self.spec_capacity(),
        ensures
            self.spec_keys_upto(n).contains(kv) <==> exists|i: int|
                0 <= i < n && (#[trigger] self.spec_slot_state(i)) is Full
                    && self.spec_key_at(i) == kv,
        decreases n,
    {
        if n > 0 {
            self.lemma_state_full(n - 1);
            self.lemma_keys_upto_contains(n - 1, kv);
            if self.spec_keys_upto(n).contains(kv) {
                if is_full_byte(self.ctrls@[n - 1]) && self.spec_key_at(n - 1) == kv {
                    assert(self.spec_slot_state(n - 1) is Full);
                } else {
                    let s = self.spec_keys_upto(n);
                    let t = choose|t: int| 0 <= t < s.len() && s[t] == kv;
                    if is_full_byte(self.ctrls@[n - 1]) {
                        assert(t < s.len() - 1 || s[t] == self.spec_key_at(n - 1));
                        assert(self.spec_keys_upto(n - 1).contains(kv));
                    } else {
                        assert(self.spec_keys_upto(n - 1).contains(kv));
                    }
                }
            }
            if exists|i: int|
                0 <= i < n && (#[trigger] self.spec_slot_state(i)) is Full
                    && self.spec_key_at(i) == kv {
                let i = choose|i: int|
                    0 <= i < n && (#[trigger] self.spec_slot_state(i)) is Full
                        && self.spec_key_at(i) == kv;
                if i < n - 1 {
                    assert(self.spec_keys_upto(n - 1).contains(kv));
                    if is_full_byte(self.ctrls@[n - 1]) {
                        let s1 = self.spec_keys_upto(n - 1);
                        let t = choose|t: int| 0 <= t < s1.len() && s1[t] == kv;
                        assert(self.spec_keys_upto(n)[t] == kv);
                    }
                } else {
                    let s = self.spec_keys_upto(n);
                    assert(s[s.len() - 1] == kv);
                }
            }
        }
    }

    /// An occupied slot's pair is in the table's map, with that exact
    /// value.
    pub proof fn lemma_entry_in_map(&self, i: int)
        requires
            self.wf(),
            0 <= i < self.spec_capacity(),
            self.spec_slot_state(i) is Full,
        ensures
            self@.dom().contains(self.spec_key_at(i)),
            self@[self.spec_key_at(i)] == self.spec_value_at(i),
    {
        self.lemma_state_full(i);
        lemma_table_map_value(self.ctrls@, self.slots@, self.capacity as int, i);
    }

    /// Two distinct occupied slots hold keys with distinct views.
    pub proof fn lemma_distinct_at(&self, i: int, j: int)
        requires
            self.wf(),
            0 <= i < self.spec_capacity(),
            0 <= j < self.spec_capacity(),
            i != j,
            self.spec_slot_state(i) is Full,
            self.spec_slot_state(j) is Full,
        ensures
            self.spec_key_at(i) != self.spec_key_at(j),
    {
        self.lemma_state_full(i);
        self.lemma_state_full(j);
    }

    /// Law: enumerating the table slot by slot yields each live key at
    /// most once, and yields exactly as many keys as the table's length.
    pub proof fn lemma_enumeration_distinct(&self)
        requires
            self.wf(),
        ensures
            self.spec_keys_upto(self.spec_capacity()).no_duplicates(),
            self.spec_keys_upto(self.spec_capacity()).len() == self.spec_len(),
    {
        self.lemma_keys_prefix_distinct(self.spec_capacity());
        assert(self.ctrls@.take(self.spec_capacity()) =~= self.ctrls@);
    }

    proof fn lemma_keys_prefix_distinct(&self, n: int)
        requires
            self.wf(),
            0 <= n <= self.spec_capacity(),
        ensures
            self.spec_keys_upto(n).no_duplicates(),
            self.spec_keys_upto(n).len() == count_full(self.ctrls@.take(n)),
        decreases n,
    {
        if n > 0 {
            self.lemma_keys_prefix_distinct(n - 1);
            assert(self.ctrls@.take(n).drop_last() =~= self.ctrls@.take(n - 1));
            assert(self.ctrls@.take(n).last() == self.ctrls@[n - 1]);
            if is_full_byte(self.ctrls@[n - 1]) {
                self.lemma_keys_upto_contains(n - 1, self.spec_key_at(n - 1));
                assert(!self.spec_keys_upto(n - 1).contains(self.spec_key_at(n - 1))) by {
                    if exists|i: int|
                        0 <= i < n - 1 && (#[trigger] self.spec_slot_state(i)) is Full
                            && self.spec_key_at(i) == self.spec_key_at(n - 1) {
                        let i = choose|i: int|
                            0 <= i < n - 1 && (#[trigger] self.spec_slot_state(i)) is Full
                                && self.spec_key_at(i) == self.spec_key_at(n - 1);
                        self.lemma_distinct_at(i, n - 1);
                    }
                }
            }
        }
    }

    /// Borrow the pair in one slot, if that slot is occupied.
    pub fn entry_at(&self, index: usize) -> (r: Option<(&K, &V)>)
        requires
            self.wf(),
            (index as int) < self.spec_capacity(),
        ensures
            match r {
                Some((k, v)) => {
                    &&& self.spec_slot_state(index as int) is Full
                    &&& k@ == self.spec_key_at(index as int)
                    &&& *v == self.spec_value_at(index as int)
                    &&& self@.dom().contains(k@)
                    &&& *v == self@[k@]
                },
                None => !(self.spec_slot_state(index as int) is Full),
            },
    {
        let ctrl = self.ctrls[index];
        if ctrl >= 128 {
            return None;
        }
        proof {
            assert(self.byte_ok(index as int));
            self.lemma_entry_in_map(index as int);
        }
        match &self.slots[index] {
            Some(pair) => Some((&pair.0, &pair.1)),
            None => vstd::pervasive::unreached(),
        }
    }
}


/// Split a borrowed pair into a shared borrow of its first component and
/// a mutable borrow of its second.
fn split_pair<A, B>(p: &mut (A, B)) -> (r: (&A, &mut B))
    ensures
        *r.0 == old(p).0,
        *r.1 == old(p).1,
        *final(p) == (old(p).0, *final(r.1)),
{
    (&p.0, &mut p.1)
}

impl<K: MapKey, V, S: BuildHasherExt> F14VectorMap<K, V, S> {
    /// Borrow one occupied slot's key, and its value mutably.  Whatever
    /// the caller writes through the value borrow, the table stays
    /// well-formed and its map changes at that one key alone.
    pub(crate) fn entry_mut(&mut self, index: usize) -> (r: (&K, &mut V))
        requires
            old(self).wf(),
            (index as int) < old(self).spec_capacity(),
            old(self).spec_slot_state(index as int) is Full,
        ensures
            r.0@ == old(self).spec_key_at(index as int),
            *r.1 == old(self).spec_value_at(index as int),
            old(self)@.dom().contains(r.0@),
            *r.1 == old(self)@[r.0@],
            final(self).wf(),
            final(self)@ == old(self)@.insert(r.0@, *final(r.1)),
            final(self).spec_len() == old(self).spec_len(),
            final(self).spec_deleted() == old(self).spec_deleted(),
            final(self).spec_capacity() == old(self).spec_capacity(),
            final(self).spec_group_count() == old(self).spec_group_count(),
            forall|i: int| final(self).spec_slot_state(i) == old(self).spec_slot_state(i),
            forall|i: int|
                0 <= i < old(self).spec_capacity() ==> final(self).spec_key_at(i) == old(
                    self,
                ).spec_key_at(i),
    {
        let ghost c1 = old(self).ctrls@;
        let ghost s1 = old(self).slots@;
        let ghost cap = old(self).spec_capacity();
        let ghost gc = old(self).spec_group_count();
        let ghost kv = key_view_at(old(self).slots@, index as int);
        proof {
            assert(old(self).byte_ok(index as int));
            old(self).lemma_state_full(index as int);
            lemma_table_map_value(c1, s1, cap, index as int);
        }
        let slot = &mut self.slots[index];
        match slot {
            Some(pair) => {
                let (kr, vr) = split_pair(pair);
                proof {
                    let gk = s1[index as int]->Some_0.0;
                    let fv = *final(vr);
                    let s2 = s1.update(index as int, Some((gk, fv)));
                    assert forall|i: int| 0 <= i < cap implies (if is_full_byte(c1[i]) {
                        s2[i] is Some && c1[i] == Self::key_tag(key_view_at(s2, i))
                    } else {
                        (c1[i] == EMPTY || c1[i] == DELETED) && s2[i] is None
                    }) by {
                        assert(old(self).byte_ok(i));
                        if i != index as int {
                            assert(s2[i] == s1[i]);
                        } else {
                            assert(key_view_at(s2, i) == kv);
                        }
                    }
                    assert forall|i: int|
                        0 <= i < cap && is_full_byte(c1[i]) implies probe_reaches(
                        c1,
                        gc,
                        Self::key_hash(#[trigger] key_view_at(s2, i)),
                        group_of(i),
                    ) by {
                        if i != index as int {
                            assert(s2[i] == s1[i]);
                        } else {
                            assert(key_view_at(s2, i) == kv);
                        }
                        assert(key_view_at(s2, i) == key_view_at(s1, i));
                        assert(probe_reaches(
                            c1,
                            gc,
                            Self::key_hash(key_view_at(s1, i)),
                            group_of(i),
                        ));
                    }
                    assert forall|i: int|
                        0 <= i < cap && is_full_byte(c1[i]) implies #[trigger] key_view_at(
                        s2,
                        i,
                    ) == key_view_at(s1, i) by {
                        if i != index as int {
                            assert(s2[i] == s1[i]);
                        }
                    }
                    assert forall|i: int, j: int|
                        0 <= i < cap && 0 <= j < cap && i != j && is_full_byte(c1[i])
                            && is_full_byte(c1[j]) implies #[trigger] key_view_at(s2, i)
                        != #[trigger] key_view_at(s2, j) by {
                        assert(key_view_at(s1, i) != key_view_at(s1, j));
                    }
                    lemma_table_map_replace(c1, s1, s2, cap, index as int, gk, fv);
                }
                (kr, vr)
            }
            None => vstd::pervasive::unreached(),
        }
    }
}


// ------------------------------------------------------------------
// Laws relating consecutive operations, and debug rendering
// ------------------------------------------------------------------

/// Law: inserting a key makes it present with exactly that value, and a
/// second insertion of the same key displaces the first value.  Combined
/// with `insert`'s contract, inserting `(k, v)` and then `(k, v2)` has the
/// second call return `Some(v)` and leaves a lookup of `k` yielding `v2`.
pub proof fn lemma_insert_insert<KV, V>(m: Map<KV, V>, k: KV, v: V, v2: V)
    ensures
        m.insert(k, v).dom().contains(k),
        m.insert(k, v)[k] == v,
        m.insert(k, v).insert(k, v2).dom().contains(k),
        m.insert(k, v).insert(k, v2)[k] == v2,
{
}

/// Law: an insertion leaves every other key bound exactly as before.
/// Together with `insert`'s contract, a key once inserted and not since
/// removed keeps its last inserted value through later operations on
/// other keys.
pub proof fn lemma_insert_preserves_others<KV, V>(m: Map<KV, V>, k: KV, v: V, k2: KV)
    requires
        k2 != k,
    ensures
        m.insert(k, v).dom().contains(k2) == m.dom().contains(k2),
        m.dom().contains(k2) ==> m.insert(k, v)[k2] == m[k2],
{
}

/// Law: a removal leaves every other key bound exactly as before.
/// Together with `remove`'s contract, a key removed and not re-inserted
/// stays absent through later operations on other keys.
pub proof fn lemma_remove_preserves_others<KV, V>(m: Map<KV, V>, k: KV, k2: KV)
    requires
        k2 != k,
    ensures
        m.remove(k).dom().contains(k2) == m.dom().contains(k2),
        m.dom().contains(k2) ==> m.remove(k)[k2] == m[k2],
{
}

/// Law: after a removal the key is absent, and removing it again changes
/// nothing.  Combined with `remove`'s contract, removing `k` twice in a
/// row has the second call return `None`.
pub proof fn lemma_remove_remove<KV, V>(m: Map<KV, V>, k: KV)
    ensures
        !m.remove(k).dom().contains(k),
        m.remove(k).remove(k) == m.remove(k),
{
    assert(m.remove(k).remove(k) =~= m.remove(k));
}

/// Relies on `core::fmt`'s `Debug` formatting: renders one key/value pair
/// the way an entry of a debug-printed map reads.  What the text looks
/// like is up to the `Debug` implementations of `K` and `V`.
#[verifier::external_body]
fn format_pair<K: core::fmt::Debug, V: core::fmt::Debug>(k: &K, v: &V) -> String {
    format!("{:?}: {:?}", k, v)
}

impl<K: MapKey, V, S: BuildHasherExt> F14VectorMap<K, V, S> {
    /// Render the live pairs in the shape of a debug-printed map, such as
    /// `{"a": 1, "b": 2}`.  The text of each entry is up to the `Debug`
    /// implementations of the key and value types, which is why nothing
    /// more is promised of the result.
    pub fn debug_string(&self) -> (s: String)
        where
            K: core::fmt::Debug,
            V: core::fmt::Debug,

        requires
            self.wf(),
    {
        let mut out = String::new();
        out.append("{");
        let mut first = true;
        let cap = self.capacity();
        let mut i: usize = 0;
        while i < cap
            invariant
                self.wf(),
                cap as int == self.spec_capacity(),
                i <= cap,
            decreases cap - i,
        {
            match self.entry_at(i) {
                Some((k, v)) => {
                    if !first {
                        out.append(", ");
                    }
                    first = false;
                    let rendered = format_pair(k, v);
                    out.append(rendered.as_str());
                }
                None => {}
            }
            i = i + 1;
        }
        out.append("}");
        out
    }
}

} // verus!


verus! {

// ------------------------------------------------------------------
// Exhaustive walks over power-of-two chunk counts
// ------------------------------------------------------------------

/// Whether `n` is a power of two.
pub open spec fn is_pow2(n: int) -> bool
    decreases n,
{
    if n <= 0 {
        false
    } else if n == 1 {
        true
    } else {
        n % 2 == 0 && is_pow2(n / 2)
    }
}

/// An odd multiplier cannot send a nonzero residue to zero modulo a
/// power of two.
proof fn lemma_odd_cancel_pow2(s: int, x: int, n: int)
    requires
        is_pow2(n),
        s % 2 == 1,
        0 <= x < n,
        (s * x) % n == 0,
    ensures
        x == 0,
    decreases n,
{
    if n == 1 {
    } else {
        let m = n / 2;
        vstd::arithmetic::div_mod::lemma_fundamental_div_mod(n, 2);
        assert(n == 2 * m);
        vstd::arithmetic::div_mod::lemma_fundamental_div_mod(s * x, n);
        let k = (s * x) / n;
        assert(s * x == n * k);
        assert((s * x) % 2 == 0) by {
            vstd::arithmetic::div_mod::lemma_mul_mod_noop(n, k, 2);
            assert(((n % 2) * (k % 2)) % 2 == (n * k) % 2);
            assert((0int * (k % 2)) == 0) by (nonlinear_arith);
            vstd::arithmetic::div_mod::lemma_small_mod(0nat, 2nat);
        }
        assert(x % 2 == 0) by {
            vstd::arithmetic::div_mod::lemma_mul_mod_noop(s, x, 2);
            assert(((s % 2) * (x % 2)) % 2 == (s * x) % 2);
            assert((1int * (x % 2)) == x % 2) by (nonlinear_arith);
            vstd::arithmetic::div_mod::lemma_mod_twice(x, 2);
        }
        let y = x / 2;
        vstd::arithmetic::div_mod::lemma_fundamental_div_mod(x, 2);
        assert(x == 2 * y);
        assert(0 <= y < m);
        assert((s * y) % m == 0) by {
            assert(s * x == 2 * (s * y)) by (nonlinear_arith)
                requires
                    x == 2 * y,
            ;
            assert(n * k == 2 * (m * k)) by (nonlinear_arith)
                requires
                    n == 2 * m,
            ;
            assert(s * y == m * k);
            vstd::arithmetic::div_mod::lemma_fundamental_div_mod_converse(s * y, m, k, 0);
        }
        lemma_odd_cancel_pow2(s, y, m);
    }
}

/// The probe stride is always odd.
proof fn lemma_step_odd(h: u64, gc: int)
    requires
        gc > 0,
    ensures
        probe_step_of(h, gc) % 2 == 1,
        probe_step_of(h, gc) >= 0,
{
    vstd::arithmetic::div_mod::lemma_mod_bound(h as int, gc);
    let r = (h as int) % gc;
    if r % 2 == 1 {
    } else {
        vstd::arithmetic::div_mod::lemma_fundamental_div_mod(r, 2);
        vstd::arithmetic::div_mod::lemma_fundamental_div_mod_converse(r + 1, 2, r / 2, 1);
    }
}

/// Distinct steps of a probe walk over a power-of-two chunk count visit
/// distinct chunks.
proof fn lemma_walk_injective(h: u64, gc: int, t1: int, t2: int)
    requires
        is_pow2(gc),
        0 <= t1 < gc,
        0 <= t2 < gc,
        t1 != t2,
    ensures
        probe_group_of(h, gc, t1) != probe_group_of(h, gc, t2),
{
    if probe_group_of(h, gc, t1) == probe_group_of(h, gc, t2) {
        let s = probe_step_of(h, gc);
        lemma_step_odd(h, gc);
        let home = home_group_of(h, gc);
        let a = home + t1 * s;
        let b = home + t2 * s;
        vstd::arithmetic::div_mod::lemma_sub_mod_noop(a, b, gc);
        vstd::arithmetic::div_mod::lemma_sub_mod_noop(b, a, gc);
        vstd::arithmetic::div_mod::lemma_small_mod(0nat, gc as nat);
        if t1 > t2 {
            assert(a - b == (t1 - t2) * s) by (nonlinear_arith)
                requires
                    a == home + t1 * s,
                    b == home + t2 * s,
            ;
            assert(((t1 - t2) * s) % gc == 0);
            assert(s * (t1 - t2) == (t1 - t2) * s) by (nonlinear_arith);
            lemma_odd_cancel_pow2(s, t1 - t2, gc);
        } else {
            assert(b - a == (t2 - t1) * s) by (nonlinear_arith)
                requires
                    a == home + t1 * s,
                    b == home + t2 * s,
            ;
            assert(((t2 - t1) * s) % gc == 0);
            assert(s * (t2 - t1) == (t2 - t1) * s) by (nonlinear_arith);
            lemma_odd_cancel_pow2(s, t2 - t1, gc);
        }
        assert(false);
    }
}

/// The chunks visited in the first `m` steps of the walk for `h`.
spec fn walk_image(h: u64, gc: int, m: int) -> Set<int> {
    Set::new(|g: int| exists|t: int| 0 <= t < m && #[trigger] probe_group_of(h, gc, t) == g)
}

proof fn lemma_walk_image_card(h: u64, gc: int, m: int)
    requires
        is_pow2(gc),
        0 <= m <= gc,
    ensures
        walk_image(h, gc, m).finite(),
        walk_image(h, gc, m).len() == m,
    decreases m,
{
    if m == 0 {
        assert(walk_image(h, gc, 0) =~= Set::<int>::empty());
    } else {
        lemma_walk_image_card(h, gc, m - 1);
        let g = probe_group_of(h, gc, m - 1);
        assert(walk_image(h, gc, m) =~= walk_image(h, gc, m - 1).insert(g));
        assert(!walk_image(h, gc, m - 1).contains(g)) by {
            if walk_image(h, gc, m - 1).contains(g) {
                let t = choose|t: int|
                    0 <= t < m - 1 && #[trigger] probe_group_of(h, gc, t) == g;
                lemma_walk_injective(h, gc, t, m - 1);
            }
        }
    }
}

/// Over a power-of-two chunk count, the walk visits every chunk within
/// its first `gc` steps.
proof fn lemma_walk_visits_all(h: u64, gc: int, g: int)
    requires
        is_pow2(gc),
        0 <= g < gc,
    ensures
        exists|t: int| 0 <= t < gc && #[trigger] probe_group_of(h, gc, t) == g,
{
    if !(exists|t: int| 0 <= t < gc && #[trigger] probe_group_of(h, gc, t) == g) {
        lemma_walk_image_card(h, gc, gc);
        vstd::set_lib::lemma_int_range(0, gc);
        let range = vstd::set_lib::set_int_range(0, gc);
        let small = range.remove(g);
        assert(walk_image(h, gc, gc).subset_of(small)) by {
            assert forall|gg: int| walk_image(h, gc, gc).contains(gg) implies small.contains(
                gg,
            ) by {
                let t = choose|t: int|
                    0 <= t < gc && #[trigger] probe_group_of(h, gc, t) == gg;
                lemma_step_odd(h, gc);
                vstd::arithmetic::div_mod::lemma_mod_bound(h as int, gc);
                assert(home_group_of(h, gc) + t * probe_step_of(h, gc) >= 0)
                    by (nonlinear_arith)
                    requires
                        home_group_of(h, gc) >= 0,
                        t >= 0,
                        probe_step_of(h, gc) >= 0,
                ;
                vstd::arithmetic::div_mod::lemma_mod_bound(
                    home_group_of(h, gc) + t * probe_step_of(h, gc),
                    gc,
                );
                assert(gg != g);
            }
        }
        vstd::set_lib::lemma_len_subset(walk_image(h, gc, gc), small);
        assert(false);
    }
}

} // verus!
