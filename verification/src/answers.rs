//! What a read answers, in terms of what the tree and the store hold; and which batches
//! are taken at all.

use crate::apply;
use crate::apply::{ApplyError, Edit};
use crate::build;
use crate::chunk::Rule;
use crate::counted;
use crate::edits::EditRow;
use crate::node;
use crate::node::{BuildError, NodeView, Payload, Row};
use crate::order;
use crate::proofs;
use crate::proofs::ProofView;
use crate::range;
use crate::served;
use crate::store;
use crate::store::{BlockMap, Fault};
use crate::tree;
use crate::tree::{Item, Slot};
use vstd::prelude::*;

verus! {

/// Is a gap of a list the last item at or before a key, so that the key can only lie in it?
pub open spec fn hidden_in(its: Seq<Item>, key: Seq<u8>, i: int) -> bool {
    &&& 0 <= i < its.len()
    &&& its[i].what is Err
    &&& order::le(its[i].key, key)
    &&& i + 1 < its.len() ==> order::lt(key, its[i + 1].key)
}

/// A read finds the entry with the key where the tree has one, and nothing else. It fails
/// where the key can only lie in what is missing, and says what is wrong there. Where it
/// does neither the tree has no such key.
pub proof fn law_a_read_finds_the_entry_with_the_key(m: BlockMap, root: Seq<u8>, key: Seq<u8>)
    ensures
        ({
            let its = tree::items(m, root);
            let found = tree::lookup(its, key);
            &&& forall|v: Payload|
                found == Ok::<Option<Payload>, Fault>(Some(v)) <==> exists|i: int|
                    0 <= i < its.len() && #[trigger] its[i] == (Item {
                        key,
                        what: Ok::<Payload, Fault>(v),
                    })
            &&& forall|f: Fault|
                found == Err::<Option<Payload>, Fault>(f) <==> exists|i: int| #[trigger]
                    hidden_in(its, key, i) && its[i].what == Err::<Payload, Fault>(f)
        }),
{
    let its = tree::items(m, root);
    let found = tree::lookup(its, key);
    let p = tree::rank(its, key, its.len());
    tree::law_keys_ascend(m, root);
    tree::lemma_rank(its, key, its.len());
    assert forall|i: int| 0 <= i < its.len() && (#[trigger] its[i]).key == key implies i == p - 1 by {
        order::lemma_lt_irreflexive(key);
        if i >= p {
            assert(order::lt(key, its[i].key));
        } else if i < p - 1 {
            assert(order::lt(its[i].key, its[p - 1].key));
            order::lemma_le_trans(its[p - 1].key, key, its[i].key);
            order::lemma_lt_trans(its[i].key, its[p - 1].key, its[i].key);
            order::lemma_lt_irreflexive(its[i].key);
        }
    }
    assert forall|i: int| #[trigger] hidden_in(its, key, i) implies i == p - 1 by {
        if i >= p {
            assert(order::lt(key, its[i].key));
            if its[i].key != key {
                order::lemma_lt_trans(key, its[i].key, key);
            }
            order::lemma_lt_irreflexive(key);
        } else if i < p - 1 {
            if i + 1 < p - 1 {
                assert(order::lt(its[i + 1].key, its[p - 1].key));
            }
            order::lemma_le_trans(its[i + 1].key, its[p - 1].key, key);
            if its[i + 1].key != key {
                order::lemma_lt_trans(key, its[i + 1].key, key);
            }
            order::lemma_lt_irreflexive(key);
        }
    }
    if p > 0 && its[p - 1].what is Err {
        if p < its.len() {
            assert(order::lt(key, its[p as int].key));
        }
        assert(hidden_in(its, key, p - 1));
    }
    if p > 0 && its[p - 1].what is Ok && its[p - 1].key == key {
        assert(its[p - 1] == (Item { key, what: Ok::<Payload, Fault>(its[p - 1].what->Ok_0) }));
    }
}

/// What is written is read back: the stored form of a value gives the value, from any
/// store that holds the block of a value too long to stand in its leaf. Without that block
/// the read asks for it, and it takes no other bytes of another length for it.
pub proof fn law_a_stored_value_is_read_back(m: BlockMap, v: Seq<u8>)
    requires
        v.len() <= 262144,
    ensures
        ({
            let id = crate::spec_block_id(crate::kind::RAW, v);
            let got = range::spec_value(m, node::stored_as(v));
            &&& v.len() <= 1024 ==> got == Ok::<Seq<u8>, Fault>(v)
            &&& v.len() > 1024 ==> match got {
                Ok(b) => m.contains_key(id) && b == m[id] && b.len() == v.len(),
                Err(Fault::Need(ids)) => !m.contains_key(id) && ids == seq![id],
                Err(Fault::Mismatch(c)) => m.contains_key(id) && m[id].len() != v.len() && c == id,
                Err(Fault::Corrupt(..)) => false,
            }
            &&& v.len() > 1024 && m.contains_key(id) && m[id] == v ==> got == Ok::<Seq<u8>, Fault>(v)
        }),
{
}

/// What is handed over for a value is enough to read it back: a builder hands over the
/// block of a value that is too long for its leaf, and a batch keeps it.
pub proof fn law_what_is_kept_of_a_value_gives_it_back(
    w: BlockMap,
    v: Seq<u8>,
    edits: Seq<(Vec<u8>, Edit)>,
    i: int,
)
    requires
        v.len() <= 262144,
    ensures
        build::agrees(w, build::value_puts(v)) ==> range::spec_value(w, node::stored_as(v)) == Ok::<
            Seq<u8>,
            Fault,
        >(v),
        apply::values_held(w, edits) && 0 <= i < edits.len() && (edits[i].1 matches Edit::Put(x)
            && x@ == v) ==> range::spec_value(w, node::stored_as(v)) == Ok::<Seq<u8>, Fault>(v),
{
    let puts = build::value_puts(v);
    if build::agrees(w, puts) && v.len() > 1024 {
        assert(w.contains_key(puts[0].id) && w[puts[0].id] == puts[0].bytes);
    }
    if apply::values_held(w, edits) && 0 <= i < edits.len() && v.len() > 1024 {
        if let Edit::Put(x) = edits[i].1 {
            if x@ == v {
                assert(apply::value_of(edits[i]) is Some);
            }
        }
    }
}

/// A value that a key proof carries is the one the tree refers to: as long as recorded, and
/// of the recorded id. It is then the answer. A proof that carries none answers as the tree
/// does, and any other value is refused.
pub proof fn law_a_carried_value_is_the_one_referred_to(
    w: BlockMap,
    root: Seq<u8>,
    key: Seq<u8>,
    p: ProofView,
)
    requires
        proofs::holds_nodes(w, p.nodes),
        proofs::spec_verify(root, key, p) is Ok,
    ensures
        ({
            let found = tree::lookup(tree::items(w, root), key);
            let said = proofs::spec_verify(root, key, p)->Ok_0;
            &&& p.value is None ==> found == Ok::<Option<Payload>, Fault>(said)
            &&& p.value matches Some(v) ==> said == Some(Payload::Inline(v)) && (found matches Ok(
                Some(Payload::Ref { cid, len }),
            ) && len == v.len() && cid == crate::spec_block_id(crate::kind::RAW, v))
        }),
{
    proofs::law_a_proven_answer_is_the_trees(w, root, key, p);
}

/// Is an edit within the format's limits: a key of at most 512 bytes, and a value of at
/// most 256 KiB?
pub open spec fn within_limits(e: (Vec<u8>, Edit)) -> bool {
    &&& e.0@.len() <= 512
    &&& e.1 matches Edit::Put(v) ==> v@.len() <= 262144
}

/// Does a batch name its keys in order, each once, and keep to the limits?
pub open spec fn acceptable(edits: Seq<(Vec<u8>, Edit)>) -> bool {
    &&& forall|i: int, j: int|
        0 <= i < j < edits.len() ==> order::lt((#[trigger] edits[i]).0@, (#[trigger] edits[j]).0@)
    &&& forall|i: int| 0 <= i < edits.len() ==> #[trigger] within_limits(edits[i])
}

/// The first edit from `i` on that is refused.
proof fn lemma_first_refused(edits: Seq<(Vec<u8>, Edit)>, i: int) -> (j: int)
    requires
        0 <= i <= edits.len(),
    ensures
        i <= j <= edits.len(),
        forall|k: int| i <= k < j ==> #[trigger] apply::edit_error(edits, k) is None,
        j == edits.len() ==> apply::batch_error(edits, i) is None,
        j < edits.len() ==> apply::edit_error(edits, j) is Some && apply::batch_error(edits, i)
            == apply::edit_error(edits, j),
    decreases edits.len() - i,
{
    if i < edits.len() && apply::edit_error(edits, i) is None {
        lemma_first_refused(edits, i + 1)
    } else {
        i
    }
}

/// Keys that ascend one by one ascend throughout.
proof fn lemma_ascends(edits: Seq<(Vec<u8>, Edit)>, n: int, i: int, j: int)
    requires
        0 <= i < j < n <= edits.len(),
        forall|k: int| 0 <= k < n ==> #[trigger] apply::edit_error(edits, k) is None,
    ensures
        order::lt(edits[i].0@, edits[j].0@),
    decreases j - i,
{
    assert(apply::edit_error(edits, j) is None);
    if i + 1 < j {
        lemma_ascends(edits, n, i, j - 1);
        order::lemma_lt_trans(edits[i].0@, edits[j - 1].0@, edits[j].0@);
    }
}

/// A batch is taken where its keys strictly ascend and every edit is within the limits.
/// Any other is refused for the first edit that is out of place or over a limit: the edits
/// before it would have been taken.
pub proof fn law_a_batch_is_refused_for_its_first_bad_edit(edits: Seq<(Vec<u8>, Edit)>)
    ensures
        apply::batch_error(edits, 0) is None <==> acceptable(edits),
        apply::batch_error(edits, 0) matches Some(e) ==> exists|j: int|
            #![trigger edits.take(j)]
            0 <= j < edits.len() && acceptable(edits.take(j)) && match e {
                ApplyError::NotSorted => j > 0 && !order::lt(edits[j - 1].0@, edits[j].0@),
                ApplyError::KeyTooLong => edits[j].0@.len() > 512 && (j > 0 ==> order::lt(
                    edits[j - 1].0@,
                    edits[j].0@,
                )),
                ApplyError::ValueTooLong => edits[j].0@.len() <= 512 && (edits[j].1 matches Edit::Put(
                    v,
                ) && v@.len() > 262144),
                _ => false,
            },
{
    let j = lemma_first_refused(edits, 0);
    let front = edits.take(j);
    assert(acceptable(front)) by {
        assert forall|a: int, b: int| 0 <= a < b < front.len() implies order::lt(
            (#[trigger] front[a]).0@,
            (#[trigger] front[b]).0@,
        ) by {
            lemma_ascends(edits, j, a, b);
        }
        assert forall|a: int| 0 <= a < front.len() implies #[trigger] within_limits(front[a]) by {
            assert(apply::edit_error(edits, a) is None);
        }
    }
    if j == edits.len() {
        assert(front =~= edits);
    } else if acceptable(edits) {
        assert(within_limits(edits[j]));
        if j > 0 {
            assert(order::lt(edits[j - 1].0@, edits[j].0@));
        }
    }
}

// ---------------------------------------------------------------------------
// what a batch lacks
// ---------------------------------------------------------------------------

/// Does a key belong to leaf `p`: the last that begins at or before it, or the first of
/// all?
pub open spec fn belongs(leaves: Seq<Slot>, key: Seq<u8>, p: int) -> bool {
    &&& 0 <= p < leaves.len()
    &&& p == 0 || order::le(leaves[p].key, key)
    &&& p + 1 < leaves.len() ==> order::lt(key, leaves[p + 1].key)
}

/// Can the leaf that a key belongs to be read?
pub open spec fn reachable(m: BlockMap, root: Seq<u8>, key: Seq<u8>) -> bool {
    &&& store::loaded(m, root) is Ok
    &&& forall|p: int|
        #[trigger] belongs(tree::leaves(m, root), key, p) ==> tree::leaves(m, root)[p].opened is Ok
}

/// How many places begin at or before a key.
proof fn lemma_begun(a: Seq<Slot>, key: Seq<u8>, n: nat)
    requires
        n <= a.len(),
    ensures
        apply::begun(a, key, n) <= n,
        apply::begun(a, key, n) > 0 ==> order::le(a[apply::begun(a, key, n) - 1].key, key),
        forall|i: int| apply::begun(a, key, n) <= i < n ==> order::lt(key, (#[trigger] a[i]).key),
    decreases n,
{
    if n > 0 && !order::le(a[n - 1].key, key) {
        order::lemma_lt_total(a[n - 1].key, key);
        lemma_begun(a, key, (n - 1) as nat);
    }
}

/// A key belongs to one leaf.
proof fn lemma_home(m: BlockMap, root: Seq<u8>, key: Seq<u8>)
    requires
        store::loaded(m, root) is Ok,
    ensures
        forall|p: int|
            #[trigger] belongs(tree::leaves(m, root), key, p) <==> p == apply::home(
                tree::leaves(m, root),
                key,
            ),
{
    let a = tree::leaves(m, root);
    tree::lemma_tree_slots(m, root, 0);
    lemma_begun(a, key, a.len());
    let h = apply::home(a, key);
    assert(belongs(a, key, h));
    assert forall|p: int| #[trigger] belongs(a, key, p) implies p == h by {
        if p < h {
            if p + 1 < h {
                assert(order::lt(a[p + 1].key, a[h].key));
            }
            order::lemma_le_trans(a[p + 1].key, a[h].key, key);
            if a[p + 1].key != key {
                order::lemma_lt_trans(key, a[p + 1].key, key);
            }
            order::lemma_lt_irreflexive(key);
        } else if p > h {
            if h + 1 < p {
                assert(order::lt(a[h + 1].key, a[p].key));
            }
            order::lemma_le_trans(a[h + 1].key, a[p].key, key);
            if a[h + 1].key != key {
                order::lemma_lt_trans(key, a[h + 1].key, key);
            }
            order::lemma_lt_irreflexive(key);
        }
    }
}

/// What keeps a leaf from being read: a block that is not held, or one that is wrong.
proof fn lemma_hindered(m: BlockMap, root: Seq<u8>, key: Seq<u8>)
    ensures
        apply::hindered(m, root, key) is None <==> reachable(m, root, key),
        apply::hindered(m, root, key) matches Some(Fault::Need(ids)) ==> ids.len() == 1
            && !m.contains_key(ids[0]),
{
    served::lemma_plain(m, root);
    if store::loaded(m, root) is Ok {
        let a = tree::leaves(m, root);
        lemma_home(m, root, key);
        let h = apply::home(a, key);
        assert(belongs(a, key, h));
        assert(served::plain(m, a[h]));
    } else {
        reveal(store::loaded);
    }
}

/// A batch asks for the blocks it lacks: none of them held, each once, and at most
/// sixty-four. It asks for none where the leaf of every edit can be read, and only there.
pub proof fn law_a_batch_asks_for_the_leaves_it_lacks(
    m: BlockMap,
    root: Seq<u8>,
    es: Seq<EditRow>,
    n: nat,
)
    requires
        n <= es.len(),
    ensures
        match apply::lacking(m, root, es, n) {
            Ok(ids) => counted::worth_asking(m, ids) && (ids.len() == 0 <==> forall|i: int|
                0 <= i < n ==> reachable(m, root, (#[trigger] es[i]).key)),
            Err(f) => f !is Need && exists|i: int|
                0 <= i < n && !reachable(m, root, (#[trigger] es[i]).key),
        },
    decreases n,
{
    if n > 0 {
        let k = (n - 1) as nat;
        law_a_batch_asks_for_the_leaves_it_lacks(m, root, es, k);
        lemma_hindered(m, root, es[n - 1].key);
        if let Ok(ids) = apply::lacking(m, root, es, k) {
            if let Some(Fault::Need(more)) = apply::hindered(m, root, es[n - 1].key) {
                reveal_with_fuel(apply::noted, 2);
                let all = apply::noted(ids, more, 1);
                assert(all == if !ids.contains(more[0]) && ids.len() < 64 {
                    ids.push(more[0])
                } else {
                    ids
                });
                if all != ids {
                    assert forall|i: int, j: int|
                        0 <= i < all.len() && 0 <= j < all.len() && i != j implies all[i]
                        != all[j] by {
                        if i == ids.len() {
                            assert(ids.contains(ids[j]));
                        } else if j == ids.len() {
                            assert(ids.contains(ids[i]));
                        }
                    }
                }
                assert(all.len() > 0);
                assert(!reachable(m, root, es[n - 1].key));
            }
        }
    }
}

// ---------------------------------------------------------------------------
// what a build takes
// ---------------------------------------------------------------------------

/// Is this a row of a leaf as the format stores one: a short key, a short value in place,
/// and a reference to a longer one?
pub open spec fn storable(row: Row) -> bool {
    &&& row.key.len() <= 512
    &&& match row.held {
        Payload::Inline(b) => b.len() <= 1024,
        Payload::Ref { len, .. } => 1024 < len <= 262144,
        Payload::Child { .. } => false,
    }
}

/// The stored form of every value within the limits is storable.
pub proof fn law_the_stored_form_is_storable(key: Seq<u8>, v: Seq<u8>)
    requires
        key.len() <= 512,
        v.len() <= 262144,
    ensures
        storable(Row { key, held: node::stored_as(v) }),
        node::leaf_verdict(key, node::stored_as(v)) is Ok,
{
}

/// Can these rows be built: they ascend by key, and each is storable?
pub open spec fn buildable(rows: Seq<Row>) -> bool {
    &&& forall|i: int, j: int|
        0 <= i < j < rows.len() ==> order::lt((#[trigger] rows[i]).key, (#[trigger] rows[j]).key)
    &&& forall|i: int| 0 <= i < rows.len() ==> storable(#[trigger] rows[i])
}

/// What was fed to a builder is what it has.
proof fn lemma_fed(rule: Rule, rows: Seq<Row>, n: nat)
    requires
        n <= rows.len(),
        build::fed(rule, rows, n) is Ok,
    ensures
        build::fed(rule, rows, n)->Ok_0.rows == rows.take(n as int),
        buildable(rows.take(n as int)),
    decreases n,
{
    if n > 0 {
        lemma_fed(rule, rows, (n - 1) as nat);
        let was = rows.take(n - 1);
        let now = rows.take(n as int);
        assert(now =~= was.push(rows[n - 1]));
        assert(build::refusal(was, rows[n - 1]) is None);
        assert forall|i: int, j: int| 0 <= i < j < now.len() implies order::lt(
            (#[trigger] now[i]).key,
            (#[trigger] now[j]).key,
        ) by {
            if j < n - 1 {
                assert(now[i] == was[i] && now[j] == was[j]);
            } else {
                assert(now[i] == was[i] && now[j] == rows[n - 1]);
                if i < n - 2 {
                    assert(order::lt(was[i].key, was[n - 2].key));
                    order::lemma_lt_trans(was[i].key, was[n - 2].key, now[j].key);
                }
            }
        }
        assert forall|i: int| 0 <= i < now.len() implies storable(#[trigger] now[i]) by {
            if i < n - 1 {
                assert(now[i] == was[i]);
            }
        }
    }
}

/// A builder refuses no row of a list that can be built. It refuses a row that is not
/// storable or not past the one before, and takes the rows before it.
pub proof fn law_a_build_refuses_what_cannot_be_built(rule: Rule, rows: Seq<Row>, n: nat)
    requires
        n <= rows.len(),
    ensures
        build::fed(rule, rows, n) is Ok ==> buildable(rows.take(n as int)),
        build::fed(rule, rows, n) matches Err(build::Halt::Refused(e)) ==> exists|k: int|
            #![trigger rows.take(k)]
            0 <= k < n && buildable(rows.take(k)) && !buildable(rows.take(k + 1)) && (e
                == BuildError::NotSorted <==> k > 0 && !order::lt(rows[k - 1].key, rows[k].key)),
    decreases n,
{
    if n > 0 {
        let k = n - 1;
        law_a_build_refuses_what_cannot_be_built(rule, rows, k as nat);
        if build::fed(rule, rows, n) is Ok {
            lemma_fed(rule, rows, n);
        }
        if let Ok(b) = build::fed(rule, rows, k as nat) {
            lemma_fed(rule, rows, k as nat);
            let was = rows.take(k);
            let now = rows.take(k + 1);
            if build::refusal(was, rows[k]) is Some {
                assert(now[k] == rows[k]);
                if k > 0 {
                    assert(was.last() == rows[k - 1]);
                    assert(now[k - 1] == rows[k - 1]);
                }
                assert(!buildable(now)) by {
                    if buildable(now) {
                        assert(storable(now[k]));
                        if k > 0 {
                            assert(order::lt(now[k - 1].key, now[k].key));
                        }
                    }
                }
            }
        }
    }
}

/// A node is what its block says, where the block is held; a block that is not held is
/// asked for, and one that is not a node is named.
pub proof fn law_a_node_is_what_its_block_says(m: BlockMap, id: Seq<u8>)
    ensures
        match store::loaded(m, id) {
            Ok(n) => m.contains_key(id) && node::parse_spec(m[id]) == Ok::<NodeView, node::NodeError>(
                n,
            ),
            Err(Fault::Need(ids)) => !m.contains_key(id) && ids == seq![id],
            Err(Fault::Corrupt(c, e)) => m.contains_key(id) && c == id && node::parse_spec(m[id])
                == Err::<NodeView, node::NodeError>(e),
            Err(Fault::Mismatch(_)) => false,
        },
{
    reveal(store::loaded);
}

/// A value counts for its own length, whether it stands in its leaf or in a block of its
/// own.
pub proof fn law_a_value_counts_for_its_length(v: Seq<u8>)
    requires
        v.len() <= 262144,
    ensures
        node::value_len(node::stored_as(v)) == v.len(),
{
}

/// Can a node hold these rows: do they ascend, are they of the kind of its level, and do
/// they fit in 16 KiB and their sums in 64 bits?
pub open spec fn node_holds(n: NodeView) -> bool {
    &&& forall|i: int, j: int|
        0 <= i < j < n.rows.len() ==> order::lt((#[trigger] n.rows[i]).key, (#[trigger] n.rows[j]).key)
    &&& forall|i: int|
        0 <= i < n.rows.len() ==> ((#[trigger] n.rows[i]).held is Child <==> n.level > 0)
            && n.rows[i].key.len() <= 512 && (n.rows[i].held matches Payload::Inline(b) ==> b.len()
            <= 0xffff_ffff)
    &&& node::encoded(n) <= 16384
    &&& node::sum_count(n.rows) <= 0xffff_ffff_ffff_ffff
    &&& node::sum_weight(n.rows) <= 0xffff_ffff_ffff_ffff
}

/// A node takes a row where it can hold the row besides those it has, and only there.
pub proof fn law_a_node_takes_the_rows_it_can_hold(n: NodeView, row: Row)
    requires
        node_holds(n),
    ensures
        node::push_error(n, row) is None <==> node_holds(n.with_row(row)),
{
    let more = n.with_row(row);
    assert(more.rows == n.rows.push(row));
    let k = n.rows.len() as int;
    assert(more.rows[k] == row);
    if node::push_error(n, row) is None {
        assert forall|i: int, j: int| 0 <= i < j < more.rows.len() implies order::lt(
            (#[trigger] more.rows[i]).key,
            (#[trigger] more.rows[j]).key,
        ) by {
            if j == k && i < k - 1 {
                assert(order::lt(n.rows[i].key, n.rows[k - 1].key));
                order::lemma_lt_trans(n.rows[i].key, n.rows[k - 1].key, row.key);
            }
        }
        assert forall|i: int| 0 <= i < more.rows.len() implies ((
        #[trigger] more.rows[i]).held is Child <==> n.level > 0) && more.rows[i].key.len() <= 512
            && (more.rows[i].held matches Payload::Inline(b) ==> b.len() <= 0xffff_ffff) by {
            if i < k {
                assert(more.rows[i] == n.rows[i]);
            }
        }
    }
    if node_holds(more) {
        assert(more.rows[k].held is Child <==> n.level > 0);
        if k > 0 {
            assert(order::lt(more.rows[k - 1].key, more.rows[k].key));
        }
    }
}

} // verus!
