//! What a tree holds, as a list.
//!
//! The nodes of one level, left to right, are a list of slots: a slot is a node
//! that can be opened, or a gap where a block is missing or is not what its parent
//! says. The entries of a tree are what its leaves hold, with the gaps in place. All
//! of them ascend by key, so every read of a tree is a question about this list.

use crate::canon;
use crate::node;
use crate::node::{Agg, Payload, Row};
use crate::order;
use crate::store;
use crate::store::{BlockMap, Fault, HeldView};
use vstd::prelude::*;

verus! {

/// A place in a level: what the parent records of it, and what opening it gives.
#[verifier::ext_equal]
pub struct Slot {
    pub key: Seq<u8>,
    pub cid: Seq<u8>,
    pub agg: Agg,
    /// The level a node here must have.
    pub level: int,
    pub opened: Result<HeldView, Fault>,
}

/// The place of child `i`.
pub open spec fn child_slot(m: BlockMap, h: HeldView, i: int) -> Slot {
    Slot {
        key: h.node.rows[i].key,
        cid: store::child_cid(h.node.rows[i]),
        agg: store::child_agg(h.node.rows[i]),
        level: h.node.level - 1,
        opened: store::opened(m, h, i),
    }
}

/// The place of a root.
pub open spec fn root_slot(m: BlockMap, root: Seq<u8>) -> Slot {
    match store::loaded(m, root) {
        Err(f) => Slot {
            key: Seq::empty(),
            cid: root,
            agg: Agg { count: 0, bytes: 0 },
            level: 0,
            opened: Err(f),
        },
        Ok(n) => Slot {
            key: if n.rows.len() > 0 {
                n.rows[0].key
            } else {
                Seq::empty()
            },
            cid: root,
            agg: n.agg(),
            level: n.level as int,
            opened: Ok(HeldView { node: n, upper: None }),
        },
    }
}

/// How far above the leaves a slot is.
pub open spec fn height_of(s: Slot) -> nat {
    match s.opened {
        Ok(h) => h.node.level as nat,
        Err(_) => 0,
    }
}

/// The slots of level `floor` under a slot. What cannot be opened stays as it is.
pub open spec fn level_slots(m: BlockMap, s: Slot, floor: int) -> Seq<Slot>
    decreases height_of(s), 1nat, 0nat,
{
    match s.opened {
        Err(_) => seq![s],
        Ok(h) => if h.node.level <= floor {
            seq![s]
        } else {
            child_slots(m, h, floor, h.node.rows.len())
        },
    }
}

/// The slots of level `floor` under the first `n` children.
pub open spec fn child_slots(m: BlockMap, h: HeldView, floor: int, n: nat) -> Seq<Slot>
    decreases h.node.level as nat, 0nat, n,
{
    if n == 0 || h.node.level == 0 {
        Seq::empty()
    } else {
        child_slots(m, h, floor, (n - 1) as nat) + level_slots(m, child_slot(m, h, n - 1), floor)
    }
}

/// An entry of a tree, or a gap in it.
#[verifier::ext_equal]
pub struct Item {
    pub key: Seq<u8>,
    pub what: Result<Payload, Fault>,
}

/// The entry of a row.
pub open spec fn entry(row: Row) -> Item {
    Item { key: row.key, what: Ok(row.held) }
}

/// The entries of a leaf, or the gap where it is.
pub open spec fn slot_items(s: Slot) -> Seq<Item> {
    match s.opened {
        Ok(h) => h.node.rows.map_values(|r: Row| entry(r)),
        Err(f) => seq![Item { key: s.key, what: Err(f) }],
    }
}

/// The entries of some leaves, one after the other.
pub open spec fn flat(slots: Seq<Slot>) -> Seq<Item>
    decreases slots.len(),
{
    if slots.len() == 0 {
        Seq::empty()
    } else {
        flat(slots.drop_last()) + slot_items(slots.last())
    }
}

/// The leaves of a tree.
pub open spec fn leaves(m: BlockMap, root: Seq<u8>) -> Seq<Slot> {
    level_slots(m, root_slot(m, root), 0)
}

/// The entries of a tree, and the gaps in it, in key order.
pub open spec fn items(m: BlockMap, root: Seq<u8>) -> Seq<Item> {
    flat(leaves(m, root))
}

/// Is the whole tree there?
pub open spec fn complete(m: BlockMap, root: Seq<u8>) -> bool {
    forall|i: int| 0 <= i < items(m, root).len() ==> (#[trigger] items(m, root)[i]).what is Ok
}

// ---------------------------------------------------------------------------
// keys ascend
// ---------------------------------------------------------------------------

/// Is a key before a bound?
pub open spec fn under(key: Seq<u8>, upper: Option<Seq<u8>>) -> bool {
    upper is Some ==> order::lt(key, upper->Some_0)
}

/// The key after slot `i`: the next slot's, else what bounds them all.
pub open spec fn next_key(slots: Seq<Slot>, upper: Option<Seq<u8>>, i: int) -> Option<Seq<u8>> {
    if i + 1 < slots.len() {
        Some(slots[i + 1].key)
    } else {
        upper
    }
}

/// A node that is valid and whose keys end before its bound.
#[verifier::opaque]
pub open spec fn steady(h: HeldView) -> bool {
    h.node.valid() && store::ends_before(h.node, h.upper)
}

/// Each child of a steady node comes before its bound.
pub proof fn lemma_child_under(h: HeldView, i: int)
    requires
        steady(h),
        0 <= i < h.node.rows.len(),
    ensures
        under(h.node.rows[i].key, store::child_bound(h, i)),
        i > 0 ==> order::lt(h.node.rows[i - 1].key, h.node.rows[i].key),
{
    reveal(steady);
    let rows = h.node.rows;
    if i + 1 < rows.len() {
        assert(order::lt(rows[i].key, rows[i + 1].key));
    } else {
        assert(rows.last() == rows[i]);
    }
    if i > 0 {
        assert(order::lt(rows[i - 1].key, rows[i].key));
    }
}

/// A slot whose node is what it should be: its first key is the slot's, and its
/// keys end before the bound it is held to.
#[verifier::opaque]
pub open spec fn sound(s: Slot, upper: Option<Seq<u8>>) -> bool {
    match s.opened {
        Ok(h) => {
            &&& h.node.valid()
            &&& h.node.level == s.level
            &&& h.node.agg() == s.agg
            &&& h.node.rows.len() > 0
            &&& h.node.rows[0].key == s.key
            &&& h.upper == upper
            &&& store::ends_before(h.node, upper)
        },
        Err(_) => true,
    }
}

/// Slots that ascend by key, from `lo` up to `upper`, each of them sound.
pub open spec fn spanned(slots: Seq<Slot>, lo: Seq<u8>, upper: Option<Seq<u8>>) -> bool {
    &&& slots.len() > 0
    &&& slots[0].key == lo
    &&& forall|i: int| 0 <= i < slots.len() ==> under((#[trigger] slots[i]).key, upper)
    &&& forall|i: int, j: int|
        0 <= i < j < slots.len() ==> order::lt((#[trigger] slots[i]).key, (#[trigger] slots[j]).key)
    &&& forall|i: int|
        0 <= i < slots.len() ==> sound(#[trigger] slots[i], next_key(slots, upper, i))
}

/// Loading gives a valid node.
pub proof fn lemma_loaded(m: BlockMap, cid: Seq<u8>)
    ensures
        store::loaded(m, cid) is Ok ==> store::loaded(m, cid)->Ok_0.valid(),
{
    reveal(store::loaded);
    if store::loaded(m, cid) is Ok {
        canon::law_parsed_bytes_are_the_encoding(m[cid]);
    }
}

/// A child's place is sound.
pub proof fn lemma_child_sound(m: BlockMap, h: HeldView, i: int)
    requires
        0 <= i < h.node.rows.len(),
    ensures
        sound(child_slot(m, h, i), store::child_bound(h, i)),
{
    reveal(sound);
    lemma_loaded(m, store::child_cid(h.node.rows[i]));
}

/// Two runs of slots, the second taking up where the first ends.
proof fn lemma_spanned_join(
    a: Seq<Slot>,
    lo: Seq<u8>,
    mid: Seq<u8>,
    b: Seq<Slot>,
    upper: Option<Seq<u8>>,
)
    requires
        spanned(a, lo, Some(mid)),
        spanned(b, mid, upper),
    ensures
        spanned(a + b, lo, upper),
{
    let s = a + b;
    let n = a.len() as int;
    assert forall|i: int| 0 <= i < s.len() implies under((#[trigger] s[i]).key, upper) by {
        if i < n {
            assert(s[i] == a[i]);
            assert(under(a[i].key, Some(mid)));
            if upper is Some {
                assert(under(b[0].key, upper));
                order::lemma_lt_trans(a[i].key, mid, upper->Some_0);
            }
        } else {
            assert(s[i] == b[i - n]);
        }
    }
    assert forall|i: int, j: int| 0 <= i < j < s.len() implies order::lt(
        (#[trigger] s[i]).key,
        (#[trigger] s[j]).key,
    ) by {
        if j < n {
            assert(s[i] == a[i] && s[j] == a[j]);
        } else if i >= n {
            assert(s[i] == b[i - n] && s[j] == b[j - n]);
        } else {
            assert(s[i] == a[i] && s[j] == b[j - n]);
            assert(under(a[i].key, Some(mid)));
            if j > n {
                assert(order::lt(b[0].key, b[j - n].key));
                order::lemma_lt_trans(a[i].key, mid, b[j - n].key);
            }
        }
    }
    assert forall|i: int| 0 <= i < s.len() implies sound(#[trigger] s[i], next_key(s, upper, i)) by {
        if i < n {
            assert(s[i] == a[i]);
            assert(sound(a[i], next_key(a, Some(mid), i)));
            if i + 1 < n {
                assert(s[i + 1] == a[i + 1]);
            } else {
                assert(s[i + 1] == b[0]);
            }
        } else {
            assert(s[i] == b[i - n]);
            assert(sound(b[i - n], next_key(b, upper, i - n)));
            if i + 1 < s.len() {
                assert(s[i + 1] == b[i + 1 - n]);
            }
        }
    }
    assert(s[0] == a[0]);
}

/// The slots under a sound slot ascend from its key to its bound.
pub proof fn lemma_level_slots(m: BlockMap, s: Slot, upper: Option<Seq<u8>>, floor: int)
    requires
        sound(s, upper),
        under(s.key, upper),
        floor >= 0,
    ensures
        spanned(level_slots(m, s, floor), s.key, upper),
    decreases height_of(s), 1nat, 0nat,
{
    match s.opened {
        Err(_) => {},
        Ok(h) => if h.node.level > floor {
            assert(steady(h) && h.upper == upper && h.node.rows.len() > 0 && h.node.rows[0].key
                == s.key) by {
                reveal(sound);
                reveal(steady);
            }
            lemma_child_slots(m, h, floor, h.node.rows.len());
        },
    }
}

/// The slots under one more child.
proof fn lemma_child_slots_next(m: BlockMap, h: HeldView, floor: int, n: nat)
    requires
        h.node.level > 0,
        n > 0,
    ensures
        child_slots(m, h, floor, n) == child_slots(m, h, floor, (n - 1) as nat) + level_slots(
            m,
            child_slot(m, h, n - 1),
            floor,
        ),
        n == 1 ==> child_slots(m, h, floor, n) == level_slots(m, child_slot(m, h, 0), floor),
{
    if n == 1 {
        assert(child_slots(m, h, floor, 0) =~= Seq::<Slot>::empty());
        assert(Seq::<Slot>::empty() + level_slots(m, child_slot(m, h, 0), floor) =~= level_slots(
            m,
            child_slot(m, h, 0),
            floor,
        ));
    }
}

/// The slots under the first children ascend.
#[verifier::rlimit(60)]
#[verifier::spinoff_prover]
pub proof fn lemma_child_slots(m: BlockMap, h: HeldView, floor: int, n: nat)
    requires
        steady(h),
        h.node.level > floor >= 0,
        0 < n <= h.node.rows.len(),
    ensures
        spanned(
            child_slots(m, h, floor, n),
            h.node.rows[0].key,
            store::child_bound(h, n - 1),
        ),
    decreases h.node.level as nat, 0nat, n,
{
    let rows = h.node.rows;
    let i = n - 1;
    let s = child_slot(m, h, i);
    lemma_child_sound(m, h, i);
    lemma_child_under(h, i);
    lemma_level_slots(m, s, store::child_bound(h, i), floor);
    let here = level_slots(m, s, floor);
    lemma_child_slots_next(m, h, floor, n);
    if i > 0 {
        lemma_child_slots(m, h, floor, i as nat);
        lemma_spanned_join(
            child_slots(m, h, floor, i as nat),
            rows[0].key,
            rows[i].key,
            here,
            store::child_bound(h, i),
        );
    }
}

/// A tree that holds something, or whose root cannot be opened.
pub open spec fn rooted(m: BlockMap, root: Seq<u8>) -> bool {
    match store::loaded(m, root) {
        Ok(n) => n.rows.len() > 0,
        Err(_) => true,
    }
}

/// The slots of a level of a tree ascend; an empty tree is its one empty leaf.
pub proof fn lemma_tree_slots(m: BlockMap, root: Seq<u8>, floor: int)
    requires
        floor >= 0,
    ensures
        rooted(m, root) ==> spanned(
            level_slots(m, root_slot(m, root), floor),
            root_slot(m, root).key,
            None,
        ),
        !rooted(m, root) ==> level_slots(m, root_slot(m, root), floor) == seq![
            root_slot(m, root),
        ],
{
    lemma_loaded(m, root);
    let s = root_slot(m, root);
    if rooted(m, root) {
        reveal(sound);
        lemma_level_slots(m, s, None, floor);
    } else {
        assert(store::loaded(m, root)->Ok_0.level == 0);
    }
}

// ---------------------------------------------------------------------------
// entries
// ---------------------------------------------------------------------------

/// Items ascend by key.
pub open spec fn ascending(items: Seq<Item>) -> bool {
    forall|i: int, j: int|
        0 <= i < j < items.len() ==> order::lt((#[trigger] items[i]).key, (#[trigger] items[j]).key)
}

/// The entries of two runs of leaves.
pub proof fn lemma_flat_join(a: Seq<Slot>, b: Seq<Slot>)
    ensures
        flat(a + b) == flat(a) + flat(b),
    decreases b.len(),
{
    if b.len() == 0 {
        assert(a + b =~= a);
        assert(flat(a) + flat(b) =~= flat(a));
    } else {
        lemma_flat_join(a, b.drop_last());
        assert((a + b).drop_last() =~= a + b.drop_last());
        assert((a + b).last() == b.last());
        assert(flat(a + b) =~= flat(a) + flat(b));
    }
}

/// The entries of one leaf.
pub proof fn lemma_flat_one(s: Slot)
    ensures
        flat(seq![s]) == slot_items(s),
{
    reveal_with_fuel(flat, 2);
    assert(seq![s].drop_last() =~= Seq::<Slot>::empty());
    assert(flat(seq![s]) =~= slot_items(s));
}

/// Items that ascend from `lo` up to `upper`.
pub open spec fn item_span(its: Seq<Item>, lo: Seq<u8>, upper: Option<Seq<u8>>) -> bool {
    &&& its.len() > 0
    &&& its[0].key == lo
    &&& ascending(its)
    &&& forall|i: int| 0 <= i < its.len() ==> under((#[trigger] its[i]).key, upper)
}

/// The entries of a sound leaf ascend from its key to its bound.
pub proof fn lemma_slot_span(s: Slot, upper: Option<Seq<u8>>)
    requires
        sound(s, upper),
        under(s.key, upper),
    ensures
        item_span(slot_items(s), s.key, upper),
{
    reveal(sound);
    let here = slot_items(s);
    if let Ok(h) = s.opened {
        let rows = h.node.rows;
        let n = rows.len() - 1;
        assert forall|i: int| 0 <= i < here.len() implies under((#[trigger] here[i]).key, upper) by {
            if upper is Some && i < n {
                assert(order::lt(rows[i].key, rows[n].key));
                order::lemma_lt_trans(rows[i].key, rows[n].key, upper->Some_0);
            }
        }
        assert forall|i: int, j: int| 0 <= i < j < here.len() implies order::lt(
            (#[trigger] here[i]).key,
            (#[trigger] here[j]).key,
        ) by {
            assert(order::lt(rows[i].key, rows[j].key));
        }
    }
}

/// All slots but the last ascend up to the last.
pub proof fn lemma_spanned_init(slots: Seq<Slot>, lo: Seq<u8>, upper: Option<Seq<u8>>)
    requires
        spanned(slots, lo, upper),
        slots.len() > 1,
    ensures
        spanned(slots.drop_last(), lo, Some(slots.last().key)),
{
    let n = slots.len() - 1;
    let s = slots.last();
    let rest = slots.drop_last();
    assert forall|i: int| 0 <= i < rest.len() implies under((#[trigger] rest[i]).key, Some(s.key)) by {
        assert(order::lt(slots[i].key, slots[n].key));
    }
    assert forall|i: int, j: int| 0 <= i < j < rest.len() implies order::lt(
        (#[trigger] rest[i]).key,
        (#[trigger] rest[j]).key,
    ) by {
        assert(rest[i] == slots[i] && rest[j] == slots[j]);
    }
    assert forall|i: int| 0 <= i < rest.len() implies sound(
        #[trigger] rest[i],
        next_key(rest, Some(s.key), i),
    ) by {
        assert(sound(slots[i], next_key(slots, upper, i)));
        if i + 1 < rest.len() {
            assert(rest[i + 1] == slots[i + 1]);
        }
    }
}

/// The entries of ascending leaves ascend.
pub proof fn lemma_flat_span(slots: Seq<Slot>, lo: Seq<u8>, upper: Option<Seq<u8>>)
    requires
        spanned(slots, lo, upper),
    ensures
        item_span(flat(slots), lo, upper),
    decreases slots.len(),
{
    let n = slots.len() - 1;
    let s = slots[n];
    assert(sound(s, next_key(slots, upper, n)));
    assert(under(s.key, upper));
    lemma_slot_span(s, upper);
    if n == 0 {
        assert(slots =~= seq![s]);
        lemma_flat_one(s);
    } else {
        lemma_spanned_init(slots, lo, upper);
        lemma_flat_span(slots.drop_last(), lo, Some(s.key));
        lemma_item_join(flat(slots.drop_last()), lo, s.key, slot_items(s), upper);
    }
}

/// Two runs of items, the second taking up where the first ends.
proof fn lemma_item_join(
    head: Seq<Item>,
    lo: Seq<u8>,
    mid: Seq<u8>,
    here: Seq<Item>,
    upper: Option<Seq<u8>>,
)
    requires
        item_span(head, lo, Some(mid)),
        item_span(here, mid, upper),
    ensures
        item_span(head + here, lo, upper),
{
    let all = head + here;
    let k = head.len() as int;
    assert(all[0] == head[0]);
    assert forall|i: int| 0 <= i < all.len() implies under((#[trigger] all[i]).key, upper) by {
        if i < k {
            assert(all[i] == head[i]);
            assert(under(head[i].key, Some(mid)));
            if upper is Some {
                assert(under(here[0].key, upper));
                order::lemma_lt_trans(head[i].key, mid, upper->Some_0);
            }
        } else {
            assert(all[i] == here[i - k]);
        }
    }
    assert forall|i: int, j: int| 0 <= i < j < all.len() implies order::lt(
        (#[trigger] all[i]).key,
        (#[trigger] all[j]).key,
    ) by {
        if j < k {
            assert(all[i] == head[i] && all[j] == head[j]);
        } else if i >= k {
            assert(all[i] == here[i - k] && all[j] == here[j - k]);
        } else {
            assert(all[i] == head[i] && all[j] == here[j - k]);
            assert(under(head[i].key, Some(mid)));
            if j > k {
                assert(order::lt(here[0].key, here[j - k].key));
                order::lemma_lt_trans(head[i].key, mid, here[j - k].key);
            }
        }
    }
}

/// The keys of a tree strictly ascend, and no key of a gap's subtree can lie
/// elsewhere.
pub proof fn law_keys_ascend(m: BlockMap, root: Seq<u8>)
    ensures
        ascending(items(m, root)),
{
    lemma_tree_slots(m, root, 0);
    let l = leaves(m, root);
    if rooted(m, root) {
        lemma_flat_span(l, root_slot(m, root).key, None);
    } else {
        lemma_flat_one(root_slot(m, root));
        assert(items(m, root) =~= Seq::<Item>::empty());
    }
}

// ---------------------------------------------------------------------------
// looking a key up
// ---------------------------------------------------------------------------

/// How many of the first `n` items are at or before `key`: those of an ascending
/// list.
pub open spec fn rank(items: Seq<Item>, key: Seq<u8>, n: nat) -> nat
    decreases n,
{
    if n == 0 {
        0
    } else if order::le(items[n - 1].key, key) {
        n
    } else {
        rank(items, key, (n - 1) as nat)
    }
}

/// What a list holds under a key: the last item at or before it decides. An entry
/// with the key is the answer, a smaller one means there is none, and a gap means
/// that nobody can tell.
pub open spec fn lookup(items: Seq<Item>, key: Seq<u8>) -> Result<Option<Payload>, Fault> {
    let p = rank(items, key, items.len());
    if p == 0 {
        Ok(None)
    } else {
        match items[p - 1].what {
            Err(f) => Err(f),
            Ok(v) => if items[p - 1].key == key {
                Ok(Some(v))
            } else {
                Ok(None)
            },
        }
    }
}

/// Where the rank is.
pub proof fn lemma_rank(items: Seq<Item>, key: Seq<u8>, n: nat)
    requires
        n <= items.len(),
    ensures
        rank(items, key, n) <= n,
        rank(items, key, n) > 0 ==> order::le(items[rank(items, key, n) - 1].key, key),
        forall|i: int|
            rank(items, key, n) <= i < n ==> order::lt(key, (#[trigger] items[i]).key),
    decreases n,
{
    if n > 0 {
        if order::le(items[n - 1].key, key) {
        } else {
            order::lemma_lt_total(items[n - 1].key, key);
            lemma_rank(items, key, (n - 1) as nat);
        }
    }
}

/// A rank is what splits a list there.
pub proof fn lemma_rank_is(items: Seq<Item>, key: Seq<u8>, p: nat)
    requires
        p <= items.len(),
        p > 0 ==> order::le(items[p - 1].key, key),
        forall|i: int| p <= i < items.len() ==> order::lt(key, (#[trigger] items[i]).key),
    ensures
        rank(items, key, items.len()) == p,
{
    let q = rank(items, key, items.len());
    lemma_rank(items, key, items.len());
    if q > p {
        assert(order::lt(key, items[q - 1].key));
        order::lemma_le_trans(items[q - 1].key, key, items[q - 1].key);
        order::lemma_lt_trans(key, items[q - 1].key, key);
        order::lemma_lt_irreflexive(key);
    }
    if q < p {
        assert(order::lt(key, items[p - 1].key));
        if items[p - 1].key != key {
            order::lemma_lt_trans(key, items[p - 1].key, key);
        }
        order::lemma_lt_irreflexive(key);
    }
}

/// What lies before and after a run that covers the key does not matter.
pub proof fn lemma_lookup_within(a: Seq<Item>, b: Seq<Item>, c: Seq<Item>, key: Seq<u8>)
    requires
        b.len() > 0,
        order::le(b[0].key, key),
        ascending(b),
        forall|i: int| 0 <= i < c.len() ==> order::lt(key, (#[trigger] c[i]).key),
    ensures
        lookup(a + b + c, key) == lookup(b, key),
        rank(a + b + c, key, (a + b + c).len()) == a.len() + rank(b, key, b.len()),
{
    let all = a + b + c;
    lemma_rank(b, key, b.len());
    let q = rank(b, key, b.len());
    if q == 0 {
        assert(order::lt(key, b[0].key));
        if b[0].key != key {
            order::lemma_lt_trans(key, b[0].key, key);
        }
        order::lemma_lt_irreflexive(key);
    }
    let p = a.len() + q;
    assert(all[p - 1] == b[q - 1]);
    assert forall|i: int| p <= i < all.len() implies order::lt(key, (#[trigger] all[i]).key) by {
        if i < a.len() + b.len() {
            assert(all[i] == b[i - a.len()]);
        } else {
            assert(all[i] == c[i - a.len() - b.len()]);
        }
    }
    lemma_rank_is(all, key, p);
}

/// The slots before child `i`, those under it, and those after it.
pub proof fn lemma_split_at_child(m: BlockMap, h: HeldView, floor: int, i: int, n: nat)
    requires
        0 <= i < n <= h.node.rows.len(),
        h.node.level > 0,
    ensures
        child_slots(m, h, floor, n) == child_slots(m, h, floor, i as nat) + level_slots(
            m,
            child_slot(m, h, i),
            floor,
        ) + after_child(m, h, floor, i, n),
    decreases n,
{
    if i == n - 1 {
        assert(after_child(m, h, floor, i, n) =~= Seq::<Slot>::empty());
        let x = child_slots(m, h, floor, n);
        assert(x + Seq::<Slot>::empty() =~= x);
    } else {
        let k = (n - 1) as nat;
        lemma_split_at_child(m, h, floor, i, k);
        let a = child_slots(m, h, floor, i as nat) + level_slots(m, child_slot(m, h, i), floor);
        let b = after_child(m, h, floor, i, k);
        let c = level_slots(m, child_slot(m, h, n - 1), floor);
        assert(a + b + c =~= a + (b + c));
    }
}

/// The slots under the children from `i + 1` to `n`.
pub open spec fn after_child(m: BlockMap, h: HeldView, floor: int, i: int, n: nat) -> Seq<Slot>
    decreases n,
{
    if n == 0 || n <= i + 1 {
        Seq::empty()
    } else {
        after_child(m, h, floor, i, (n - 1) as nat) + level_slots(
            m,
            child_slot(m, h, n - 1),
            floor,
        )
    }
}

/// The slots under the children after `i` ascend.
pub proof fn lemma_after_child(m: BlockMap, h: HeldView, floor: int, i: int, n: nat)
    requires
        steady(h),
        h.node.level > floor >= 0,
        0 <= i,
        i + 1 < n <= h.node.rows.len(),
    ensures
        spanned(
            after_child(m, h, floor, i, n),
            h.node.rows[i + 1].key,
            store::child_bound(h, n - 1),
        ),
    decreases n,
{
    let rows = h.node.rows;
    let j = n - 1;
    let s = child_slot(m, h, j);
    lemma_child_sound(m, h, j);
    lemma_child_under(h, j);
    lemma_level_slots(m, s, store::child_bound(h, j), floor);
    let here = level_slots(m, s, floor);
    if j == i + 1 {
        assert(after_child(m, h, floor, i, j as nat) =~= Seq::<Slot>::empty());
        assert(after_child(m, h, floor, i, n) =~= here);
    } else {
        lemma_after_child(m, h, floor, i, j as nat);
        lemma_spanned_join(
            after_child(m, h, floor, i, j as nat),
            rows[i + 1].key,
            rows[j].key,
            here,
            store::child_bound(h, j),
        );
    }
}

/// A key is looked up in the child that can hold it: the last whose first key is
/// at or before it.
pub proof fn lemma_lookup_child(m: BlockMap, h: HeldView, key: Seq<u8>, i: int)
    requires
        steady(h),
        h.node.level > 0,
        0 <= i < h.node.rows.len(),
        order::le(h.node.rows[i].key, key),
        i + 1 < h.node.rows.len() ==> order::lt(key, h.node.rows[i + 1].key),
    ensures
        lookup(flat(child_slots(m, h, 0, h.node.rows.len())), key) == lookup(
            flat(level_slots(m, child_slot(m, h, i), 0)),
            key,
        ),
{
    let rows = h.node.rows;
    let n = rows.len();
    let s = child_slot(m, h, i);
    let a = child_slots(m, h, 0, i as nat);
    let b = level_slots(m, s, 0);
    let c = after_child(m, h, 0, i, n);
    lemma_split_at_child(m, h, 0, i, n);
    lemma_flat_join(a + b, c);
    lemma_flat_join(a, b);
    lemma_child_sound(m, h, i);
    lemma_child_under(h, i);
    lemma_level_slots(m, s, store::child_bound(h, i), 0);
    lemma_flat_span(b, s.key, store::child_bound(h, i));
    let fc = flat(c);
    assert forall|j: int| 0 <= j < fc.len() implies order::lt(key, (#[trigger] fc[j]).key) by {
        if i + 1 < n {
            lemma_after_child(m, h, 0, i, n);
            let lo = rows[i + 1].key;
            lemma_flat_span(c, lo, store::child_bound(h, n - 1));
            if j > 0 {
                assert(order::lt(fc[0].key, fc[j].key));
                order::lemma_lt_trans(key, lo, fc[j].key);
            }
        } else {
            assert(c =~= Seq::<Slot>::empty());
        }
    }
    lemma_lookup_within(flat(a), flat(b), fc, key);
}

/// A key before the first entry is not there.
pub proof fn lemma_lookup_before(items: Seq<Item>, lo: Seq<u8>, upper: Option<Seq<u8>>, key: Seq<u8>)
    requires
        item_span(items, lo, upper),
        order::lt(key, lo),
    ensures
        lookup(items, key) == Ok::<Option<Payload>, Fault>(None),
{
    assert forall|i: int| 0 <= i < items.len() implies order::lt(key, (#[trigger] items[i]).key) by {
        if i > 0 {
            assert(order::lt(items[0].key, items[i].key));
            order::lemma_lt_trans(key, lo, items[i].key);
        }
    }
    lemma_rank_is(items, key, 0);
}

/// Looking a key up in one leaf: the entry with that key, or none.
pub proof fn lemma_lookup_leaf(h: HeldView, s: Slot, key: Seq<u8>, i: int, found: bool)
    requires
        s.opened == Ok::<HeldView, Fault>(h),
        node::sorted_rows(h.node.rows),
        0 <= i <= h.node.rows.len(),
        found ==> i < h.node.rows.len() && h.node.rows[i].key == key,
        forall|j: int| 0 <= j < i ==> order::lt((#[trigger] h.node.rows[j]).key, key),
        forall|j: int|
            i <= j < h.node.rows.len() && (!found || j > i) ==> order::lt(
                key,
                (#[trigger] h.node.rows[j]).key,
            ),
    ensures
        lookup(slot_items(s), key) == Ok::<Option<Payload>, Fault>(
            if found {
                Some(h.node.rows[i].held)
            } else {
                None
            },
        ),
{
    let its = slot_items(s);
    let rows = h.node.rows;
    let p = if found {
        i + 1
    } else {
        i
    };
    if p > 0 {
        assert(its[p - 1] == entry(rows[p - 1]));
        if !found {
            assert(order::lt(rows[p - 1].key, key));
        }
    }
    assert forall|j: int| p <= j < its.len() implies order::lt(key, (#[trigger] its[j]).key) by {
        assert(its[j] == entry(rows[j]));
    }
    lemma_rank_is(its, key, p as nat);
    if !found && p > 0 && rows[p - 1].key == key {
        order::lemma_lt_irreflexive(key);
    }
}

} // verus!
