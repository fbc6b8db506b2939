//! Which members share parity, and how the groups are cut.

use crate::node::{Payload, Row};
use crate::parity;
use crate::parity::{Group, Known};
use vstd::prelude::*;

verus! {

/// A referenced value is in the first of the classes of 4, 16, 64 and 256 KiB that holds
/// it; one longer than all of them is in the last.
pub proof fn law_a_class_is_the_least_that_holds(len: int)
    requires
        0 <= len,
    ensures
        ({
            let c = parity::spec_class_of(len);
            let room = seq![4096int, 16384, 65536, 262144];
            &&& 0 <= c < 4
            &&& len <= 262144 ==> len <= room[c]
            &&& forall|d: int| 0 <= d < c ==> #[trigger] room[d] < len
        }),
{
}

/// Does the member with this hash close a group that is long enough?
pub open spec fn low_hash(h: u32) -> bool {
    h < 1431655766
}

/// Is `[from, from + size)` of a run a group that the rule closed: at its twelfth member,
/// or at the first from the seventh on whose hash is low?
pub open spec fn closed_at(hashes: Seq<u32>, from: int, size: int) -> bool {
    &&& 7 <= size <= 12
    &&& size == 12 || low_hash(hashes[from + size - 1])
    &&& forall|j: int| from + 6 <= j < from + size - 1 ==> !low_hash(#[trigger] hashes[j])
}

/// Is `[from, from + size)` of a run what the rule left open at its end?
pub open spec fn left_open(hashes: Seq<u32>, from: int, size: int) -> bool {
    &&& 0 <= size < 12
    &&& forall|j: int| from + 6 <= j < from + size ==> !low_hash(#[trigger] hashes[j])
}

/// Every closed group was closed by the rule, and what is open was not.
proof fn lemma_closed(hashes: Seq<u32>)
    ensures
        ({
            let g = parity::grouping(hashes);
            &&& parity::total(g.sizes, g.sizes.len()) + g.open == hashes.len()
            &&& forall|i: int|
                0 <= i < g.sizes.len() ==> closed_at(
                    hashes,
                    parity::total(g.sizes, i as nat),
                    #[trigger] g.sizes[i],
                ) && parity::total(g.sizes, i as nat) + g.sizes[i] <= hashes.len() && 0
                    <= parity::total(g.sizes, i as nat)
            &&& left_open(hashes, parity::total(g.sizes, g.sizes.len()), g.open)
            &&& 0 <= parity::total(g.sizes, g.sizes.len())
        }),
    decreases hashes.len(),
{
    if hashes.len() > 0 {
        let was = hashes.drop_last();
        lemma_closed(was);
        let f = parity::grouping(was);
        let g = parity::grouping(hashes);
        let from = parity::total(f.sizes, f.sizes.len());
        assert forall|i: int| 0 <= i < f.sizes.len() implies closed_at(
            hashes,
            parity::total(g.sizes, i as nat),
            #[trigger] g.sizes[i],
        ) && parity::total(g.sizes, i as nat) + g.sizes[i] <= hashes.len() && 0 <= parity::total(
            g.sizes,
            i as nat,
        ) by {
            parity::lemma_total_prefix(f.sizes, g.sizes, i as nat);
            let t = parity::total(f.sizes, i as nat);
            assert(g.sizes[i] == f.sizes[i]);
            assert(closed_at(was, t, f.sizes[i]));
            assert forall|j: int| t + 6 <= j < t + f.sizes[i] - 1 implies !low_hash(
                #[trigger] hashes[j],
            ) by {
                assert(was[j] == hashes[j]);
            }
            assert(hashes[t + f.sizes[i] - 1] == was[t + f.sizes[i] - 1]);
        }
        parity::lemma_total_prefix(f.sizes, g.sizes, f.sizes.len());
        assert forall|j: int| from + 6 <= j < from + f.open implies !low_hash(#[trigger] hashes[j]) by {
            assert(was[j] == hashes[j]);
        }
        assert(hashes[from + f.open] == hashes.last());
    } else {
        assert(parity::total(parity::grouping(hashes).sizes, 0) == 0);
    }
}

/// A run is cut into groups one after the other. Every group but the last closes at its
/// twelfth member, or at the first from the seventh on whose hash is low. The last holds
/// the rest, of which less than seven may follow a member that closed it; it stands alone
/// as a group of less than seven only where the one before has no room for it.
pub proof fn law_groups_close_where_the_hash_says(hashes: Seq<u32>)
    ensures
        ({
            let s = parity::sizes_of(hashes);
            &&& forall|i: int|
                0 <= i < s.len() - 1 ==> closed_at(
                    hashes,
                    parity::total(s, i as nat),
                    #[trigger] s[i],
                )
            &&& s.len() > 0 ==> {
                let from = parity::total(s, (s.len() - 1) as nat);
                let size = s.last();
                &&& from + size == hashes.len()
                &&& closed_at(hashes, from, size) || left_open(hashes, from, size) || exists|k: int|
                    7 <= k < size <= 12 && size - k < 7 && #[trigger] closed_at(hashes, from, k)
                &&& size < 7 && s.len() > 1 ==> s[s.len() - 2] + size > 12
            }
        }),
{
    lemma_closed(hashes);
    let g = parity::grouping(hashes);
    let s = parity::sizes_of(hashes);
    let n = g.sizes.len();
    if g.open > 0 && n > 0 && g.open < 7 && g.sizes.last() + g.open <= 12 {
        assert(s == g.sizes.update(n - 1, g.sizes.last() + g.open));
        assert forall|i: int| 0 <= i < s.len() - 1 implies closed_at(
            hashes,
            parity::total(s, i as nat),
            #[trigger] s[i],
        ) by {
            parity::lemma_total_prefix(g.sizes, s, i as nat);
            assert(s[i] == g.sizes[i]);
        }
        parity::lemma_total_prefix(g.sizes, s, (n - 1) as nat);
        let from = parity::total(s, (n - 1) as nat);
        assert(closed_at(hashes, from, g.sizes[n - 1]));
        assert(parity::total(g.sizes, n) == from + g.sizes[n - 1]);
    } else {
        assert forall|i: int| 0 <= i < s.len() - 1 implies closed_at(
            hashes,
            parity::total(s, i as nat),
            #[trigger] s[i],
        ) by {
            parity::lemma_total_prefix(g.sizes, s, i as nat);
            assert(s[i] == g.sizes[i]);
        }
        if g.open > 0 {
            assert(s == g.sizes.push(g.open));
            parity::lemma_total_prefix(g.sizes, s, n);
        } else if n > 0 {
            assert(closed_at(hashes, parity::total(g.sizes, (n - 1) as nat), g.sizes[n - 1]));
            assert(parity::total(g.sizes, n) == parity::total(g.sizes, (n - 1) as nat)
                + g.sizes[n - 1]);
        }
    }
}

// ---------------------------------------------------------------------------
// members
// ---------------------------------------------------------------------------

/// Is what a row holds a block of class `c`: a child of a branch, all of which are in the
/// first, or a referenced value that the class holds and the class before does not?
pub open spec fn held_in(p: Payload, c: int) -> bool {
    match p {
        Payload::Inline(_) => false,
        Payload::Child { .. } => c == 0,
        Payload::Ref { len, .. } => if len <= 4096 {
            c == 0
        } else if len <= 16384 {
            c == 1
        } else if len <= 65536 {
            c == 2
        } else {
            c == 3
        },
    }
}

/// The block that a row refers to.
pub open spec fn block_of(p: Payload) -> Seq<u8> {
    match p {
        Payload::Inline(_) => Seq::empty(),
        Payload::Child { cid, .. } => cid,
        Payload::Ref { cid, .. } => cid,
    }
}

/// The blocks of class `c` that some rows refer to, in key order.
pub open spec fn blocks_of(rows: Seq<Row>, c: int) -> Seq<Seq<u8>>
    decreases rows.len(),
{
    if rows.len() == 0 {
        Seq::empty()
    } else if held_in(rows.last().held, c) {
        blocks_of(rows.drop_last(), c).push(block_of(rows.last().held))
    } else {
        blocks_of(rows.drop_last(), c)
    }
}

/// The members of the groups of class `c`, one after the other.
pub open spec fn members_of(gs: Seq<Group>, c: int) -> Seq<Seq<u8>>
    decreases gs.len(),
{
    if gs.len() == 0 {
        Seq::empty()
    } else if gs.last().class == c {
        members_of(gs.drop_last(), c) + gs.last().members
    } else {
        members_of(gs.drop_last(), c)
    }
}

/// One list of groups after another.
proof fn lemma_members_join(a: Seq<Group>, b: Seq<Group>, c: int)
    ensures
        members_of(a + b, c) == members_of(a, c) + members_of(b, c),
    decreases b.len(),
{
    if b.len() == 0 {
        assert(a + b =~= a);
    } else {
        assert((a + b).drop_last() =~= a + b.drop_last());
        lemma_members_join(a, b.drop_last(), c);
        assert(members_of(a + b, c) =~= members_of(a, c) + members_of(b, c));
    }
}

/// The run of a class is the blocks of the class.
proof fn lemma_run(level: u8, rows: Seq<Row>, c: int)
    requires
        0 <= c < 4,
    ensures
        parity::run_cids(rows, c) == blocks_of(rows, c),
        parity::run_hashes(level, rows, c).len() == blocks_of(rows, c).len(),
    decreases rows.len(),
{
    if rows.len() > 0 {
        lemma_run(level, rows.drop_last(), c);
    }
}

/// Cutting a run leaves nothing out.
proof fn lemma_cut(class: int, cids: Seq<Seq<u8>>, sizes: Seq<int>, n: nat, c: int)
    requires
        n <= sizes.len(),
        forall|i: int| 0 <= i < sizes.len() ==> 1 <= #[trigger] sizes[i],
        parity::total(sizes, n) <= cids.len(),
    ensures
        0 <= parity::total(sizes, n),
        members_of(parity::cut(class, cids, sizes, n), c) == if c == class {
            cids.subrange(0, parity::total(sizes, n))
        } else {
            Seq::empty()
        },
        forall|i: int|
            0 <= i < n ==> (#[trigger] parity::cut(class, cids, sizes, n)[i]).class == class && 1
                <= parity::cut(class, cids, sizes, n)[i].members.len(),
        parity::cut(class, cids, sizes, n).len() == n,
    decreases n,
{
    let all = parity::cut(class, cids, sizes, n);
    if n == 0 {
        assert(cids.subrange(0, 0) =~= Seq::<Seq<u8>>::empty());
    } else {
        let k = (n - 1) as nat;
        assert(1 <= sizes[k as int]);
        lemma_cut(class, cids, sizes, k, c);
        let a = parity::total(sizes, k);
        let b = parity::total(sizes, n);
        assert(all.drop_last() =~= parity::cut(class, cids, sizes, k));
        assert(cids.subrange(0, b) =~= cids.subrange(0, a) + cids.subrange(a, b));
        assert forall|i: int| 0 <= i < n implies (#[trigger] all[i]).class == class && 1
            <= all[i].members.len() by {
            if i < k {
                assert(all[i] == parity::cut(class, cids, sizes, k)[i]);
            }
        }
    }
}

/// The groups of the classes below `k` hold the blocks of those classes.
proof fn lemma_below(level: u8, rows: Seq<Row>, k: nat, c: int)
    requires
        k <= 4,
        0 <= c < 4,
    ensures
        ({
            let gs = parity::groups_below(level, rows, k);
            &&& members_of(gs, c) == if c < k {
                blocks_of(rows, c)
            } else {
                Seq::empty()
            }
            &&& forall|i: int|
                0 <= i < gs.len() ==> 0 <= (#[trigger] gs[i]).class < k && 1 <= gs[i].members.len()
            &&& forall|i: int, j: int|
                0 <= i < j < gs.len() ==> (#[trigger] gs[i]).class <= (#[trigger] gs[j]).class
        }),
    decreases k,
{
    if k > 0 {
        let d = k - 1;
        lemma_below(level, rows, d as nat, c);
        let front = parity::groups_below(level, rows, d as nat);
        let hashes = parity::run_hashes(level, rows, d);
        let sizes = parity::sizes_of(hashes);
        let cids = parity::run_cids(rows, d);
        let own = parity::class_groups(level, rows, d);
        lemma_run(level, rows, d);
        parity::law_groups_partition_their_run(hashes);
        lemma_cut(d, cids, sizes, sizes.len(), c);
        lemma_members_join(front, own, c);
        assert(cids.subrange(0, cids.len() as int) =~= cids);
        let gs = parity::groups_below(level, rows, k);
        assert(gs == front + own);
        if c == d {
            assert(members_of(front, c) =~= Seq::empty());
        }
        assert(members_of(gs, c) =~= if c < k {
            blocks_of(rows, c)
        } else {
            Seq::empty()
        });
        assert forall|i: int| 0 <= i < gs.len() implies 0 <= (#[trigger] gs[i]).class < k && 1
            <= gs[i].members.len() by {
            if i < front.len() {
                assert(gs[i] == front[i]);
            } else {
                assert(gs[i] == own[i - front.len()]);
            }
        }
        assert forall|i: int, j: int| 0 <= i < j < gs.len() implies (#[trigger] gs[i]).class
            <= (#[trigger] gs[j]).class by {
            if j < front.len() {
                assert(gs[i] == front[i] && gs[j] == front[j]);
            } else {
                assert(gs[j] == own[j - front.len()]);
                if i < front.len() {
                    assert(gs[i] == front[i]);
                } else {
                    assert(gs[i] == own[i - front.len()]);
                }
            }
        }
    }
}

/// The groups of a node hold every block that it refers to, once for each entry that does,
/// each in its class and in key order, the classes one after the other, and nothing else.
/// No group is empty.
pub proof fn law_groups_hold_the_blocks_of_their_class(level: u8, rows: Seq<Row>, c: int)
    requires
        0 <= c < 4,
    ensures
        ({
            let gs = parity::groups(level, rows);
            &&& members_of(gs, c) == blocks_of(rows, c)
            &&& forall|i: int|
                0 <= i < gs.len() ==> 0 <= (#[trigger] gs[i]).class < 4 && 1 <= gs[i].members.len()
            &&& forall|i: int, j: int|
                0 <= i < j < gs.len() ==> (#[trigger] gs[i]).class <= (#[trigger] gs[j]).class
        }),
{
    lemma_below(level, rows, 4, c);
}

// ---------------------------------------------------------------------------
// groups that are known
// ---------------------------------------------------------------------------

/// Are two lists of members the same but for one place?
pub open spec fn differ_at(a: Seq<Seq<u8>>, b: Seq<Seq<u8>>, pos: int) -> bool {
    &&& a.len() == b.len()
    &&& 0 <= pos < a.len()
    &&& a[pos] != b[pos]
    &&& forall|i: int| 0 <= i < a.len() && i != pos ==> #[trigger] a[i] == b[i]
}

/// A group is found in an index where it is there, with its class and its members, and the
/// ids that come back are those of such an entry.
pub proof fn law_a_known_group_is_found(
    index: Seq<Known>,
    class: int,
    members: Seq<Seq<u8>>,
    from: int,
)
    requires
        0 <= from <= index.len(),
    ensures
        match parity::find_exact(index, class, members, from) {
            Some(ids) => exists|i: int|
                from <= i < index.len() && #[trigger] index[i] == (Known { class, members, ids }),
            None => forall|i: int|
                from <= i < index.len() ==> (#[trigger] index[i]).class != class
                    || index[i].members != members,
        },
    decreases index.len() - from,
{
    if from < index.len() {
        if index[from].class == class && index[from].members == members {
            assert(index[from] == (Known { class, members, ids: index[from].ids }));
        } else {
            law_a_known_group_is_found(index, class, members, from + 1);
        }
    }
}

/// How many places differ.
proof fn lemma_differing(a: Seq<Seq<u8>>, b: Seq<Seq<u8>>, n: nat)
    requires
        a.len() == b.len(),
        n <= a.len(),
    ensures
        parity::differing(a, b, n) == 0 <==> forall|i: int| 0 <= i < n ==> #[trigger] a[i] == b[i],
        parity::differing(a, b, n) == 1 <==> exists|p: int| #[trigger] only_at(a, b, n, p),
    decreases n,
{
    if n > 0 {
        let k = (n - 1) as nat;
        lemma_differing(a, b, k);
        if parity::differing(a, b, n) == 0 {
            assert(a[k as int] == b[k as int]);
        }
        if forall|i: int| 0 <= i < n ==> #[trigger] a[i] == b[i] {
            assert(a[k as int] == b[k as int]);
        }
        if parity::differing(a, b, n) == 1 {
            if a[k as int] != b[k as int] {
                assert(only_at(a, b, n, k as int));
            } else {
                let p = choose|p: int| #[trigger] only_at(a, b, k, p);
                assert(only_at(a, b, n, p));
            }
        }
        if exists|p: int| #[trigger] only_at(a, b, n, p) {
            let p = choose|p: int| #[trigger] only_at(a, b, n, p);
            if p == k {
                assert(forall|i: int| 0 <= i < k ==> #[trigger] a[i] == b[i]);
            } else {
                assert(a[k as int] == b[k as int]);
                assert(only_at(a, b, k, p));
            }
        }
    }
}

/// Do the first `n` places of two lists differ at `p` alone?
spec fn only_at(a: Seq<Seq<u8>>, b: Seq<Seq<u8>>, n: nat, p: int) -> bool {
    &&& 0 <= p < n
    &&& a[p] != b[p]
    &&& forall|i: int| 0 <= i < n && i != p ==> #[trigger] a[i] == b[i]
}

/// The first place where two lists differ.
proof fn lemma_first_difference(a: Seq<Seq<u8>>, b: Seq<Seq<u8>>, i: int, p: int)
    requires
        differ_at(a, b, p),
        0 <= i <= p,
    ensures
        parity::first_difference(a, b, i) == p,
    decreases p - i,
{
    if i < p {
        assert(a[i] == b[i]);
        lemma_first_difference(a, b, i + 1, p);
    }
}

/// A group that is known but for one member is found in an index where such an entry is
/// there, of the same class: what comes back is where it differs, what it has there, and
/// its ids.
pub proof fn law_a_nearly_known_group_is_found(
    index: Seq<Known>,
    class: int,
    members: Seq<Seq<u8>>,
    from: int,
)
    requires
        0 <= from <= index.len(),
    ensures
        match parity::find_one_off(index, class, members, from) {
            Some(o) => exists|i: int|
                from <= i < index.len() && (#[trigger] index[i]).class == class && differ_at(
                    index[i].members,
                    members,
                    o.pos,
                ) && o.was == index[i].members[o.pos] && o.ids == index[i].ids,
            None => forall|i: int, p: int|
                from <= i < index.len() && index[i].class == class ==> !#[trigger] differ_at(
                    index[i].members,
                    members,
                    p,
                ),
        },
    decreases index.len() - from,
{
    if from < index.len() {
        let g = index[from];
        if g.members.len() == members.len() {
            lemma_differing(g.members, members, members.len());
        }
        if parity::nearly_covers(g, class, members) {
            let p = choose|p: int| #[trigger] only_at(g.members, members, members.len(), p);
            assert(differ_at(g.members, members, p));
            lemma_first_difference(g.members, members, 0, p);
            assert(index[from].class == class);
        } else {
            law_a_nearly_known_group_is_found(index, class, members, from + 1);
            if parity::find_one_off(index, class, members, from) is None {
                assert forall|i: int, p: int|
                    from <= i < index.len() && index[i].class == class implies !#[trigger] differ_at(
                    index[i].members,
                    members,
                    p,
                ) by {
                    if i == from && differ_at(index[i].members, members, p) {
                        assert(only_at(g.members, members, members.len(), p));
                    }
                }
            }
        }
    }
}

} // verus!
