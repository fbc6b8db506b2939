//! Which blocks form a parity group, and what a group's symbols are.
//!
//! A node's children are coded in groups; each group gets three parity blocks
//! ([`crate::rs`]), and the node lists their ids. What this module decides is the
//! membership, and every reader decides it the same way, because the number of
//! parity ids of a node is a function of its entries.
//!
//! Groups are content-defined on the child's key, never on its id. A child's id
//! changes on every write beneath it, so a boundary keyed on the id would regroup
//! two neighbouring groups on ordinary writes.
//!
//! ```text
//! h = first 4 bytes (LE) of BLAKE3("PT01-pgroup" || level || key)
//! close after this member  iff  the group holds >= MIN_GROUP  and  h < 2^32/3
//! forced close             iff  the group holds MAX_GROUP
//! ```
//!
//! A final group shorter than `MIN_GROUP` folds into the previous one when the two
//! together are at most `MAX_GROUP`, and otherwise stands alone.
//!
//! On a leaf the members are the referenced values, grouped by size class first
//! and content-defined by key within a class. Inline values are not members of
//! anything: they live in the leaf, and the leaf is a member of its parent's group.

use crate::gf;
use crate::gf::Tables;
use crate::linear;
use crate::node;
use crate::node::{Node, NodeView, Payload, Row, Value};
use crate::order;
use crate::rs;
use crate::rs::RsError;
use crate::seqs;
use crate::{blake3_hash, Cid};
use vstd::prelude::*;

verus! {

/// Parity blocks per group.
pub const PARITY: usize = 3;

/// A group closes on the hash only once it holds this many members.
pub const MIN_GROUP: usize = 7;

/// A group closes here whatever the hash says.
pub const MAX_GROUP: usize = 12;

/// After the minimum, one member in three closes the group.
const CLOSE_THRESHOLD: u32 = 1431655766;

/// The threshold, for vectors that pin the format's constants.
pub const CLOSE_THRESHOLD_FOR_VECTORS: u32 = 1431655766;

/// The size classes for referenced values, in bytes. The last holds the largest
/// value there is, so every referenced value has a class.
pub const CLASSES: [usize; 4] = [4096, 16384, 65536, 262144];

/// The longest state a leaf's parity member can have: a raw block holding a value
/// at the cap, plus its kind byte.
pub const MAX_MEMBER_VALUE: usize = 1 + node::MAX_VALUE;

/// The longest state a branch's parity member can have: a node at its limit, plus
/// its kind byte.
pub const MAX_MEMBER_NODE: usize = 1 + node::MAX_NODE;

// ---------------------------------------------------------------------------
// the model
// ---------------------------------------------------------------------------

/// The class of a referenced value of `len` bytes: the first that holds it, and
/// the last for anything longer.
pub open spec fn spec_class_of(len: int) -> int {
    if len <= 4096 {
        0
    } else if len <= 16384 {
        1
    } else if len <= 65536 {
        2
    } else {
        3
    }
}

/// The bytes whose digest groups a key.
pub open spec fn group_input(level: u8, key: Seq<u8>) -> Seq<u8> {
    seq![0x50u8, 0x54, 0x30, 0x31, 0x2d, 0x70, 0x67, 0x72, 0x6f, 0x75, 0x70] + seq![level] + key
}

/// The grouping hash of a key.
pub open spec fn group_hash(level: u8, key: Seq<u8>) -> u32 {
    seqs::le32(crate::blake3_digest(group_input(level, key))@, 0) as u32
}

/// Does a group that has grown to `open` members close after one of hash `h`?
pub open spec fn closes(open: int, h: u32) -> bool {
    open == MAX_GROUP || (open >= MIN_GROUP && h < CLOSE_THRESHOLD_FOR_VECTORS)
}

/// Groups closed so far, and how many members the open one holds.
#[verifier::ext_equal]
pub struct Grouping {
    pub sizes: Seq<int>,
    pub open: int,
}

/// Grouping a run of members, in key order.
pub open spec fn grouping(hashes: Seq<u32>) -> Grouping
    decreases hashes.len(),
{
    if hashes.len() == 0 {
        Grouping { sizes: Seq::empty(), open: 0 }
    } else {
        let g = grouping(hashes.drop_last());
        if closes(g.open + 1, hashes.last()) {
            Grouping { sizes: g.sizes.push(g.open + 1), open: 0 }
        } else {
            Grouping { sizes: g.sizes, open: g.open + 1 }
        }
    }
}

/// What becomes of the open group at the end of a run.
pub open spec fn folded(g: Grouping) -> Seq<int> {
    if g.open == 0 {
        g.sizes
    } else if g.sizes.len() > 0 && g.open < MIN_GROUP && g.sizes.last() + g.open <= MAX_GROUP {
        g.sizes.update(g.sizes.len() - 1, g.sizes.last() + g.open)
    } else {
        g.sizes.push(g.open)
    }
}

/// The group sizes of a run of members with these hashes.
pub open spec fn sizes_of(hashes: Seq<u32>) -> Seq<int> {
    folded(grouping(hashes))
}

/// The sum of the first `n` sizes.
pub open spec fn total(sizes: Seq<int>, n: nat) -> int
    decreases n,
{
    if n == 0 {
        0
    } else {
        total(sizes, (n - 1) as nat) + sizes[n - 1]
    }
}

/// A row that is a member: its class and its id.
pub struct Member {
    pub class: int,
    pub cid: Seq<u8>,
}

/// Is this row a member, of which class, and under which id?
pub open spec fn member(row: Row) -> Option<Member> {
    match row.held {
        Payload::Inline(_) => None,
        Payload::Ref { cid, len } => Some(Member { class: spec_class_of(len as int), cid }),
        Payload::Child { cid, .. } => Some(Member { class: 0, cid }),
    }
}

/// Is this row a member of that class?
pub open spec fn in_class(row: Row, class: int) -> bool {
    member(row) is Some && member(row)->Some_0.class == class
}

/// The hashes of the members of a class, in key order.
pub open spec fn run_hashes(level: u8, rows: Seq<Row>, class: int) -> Seq<u32>
    decreases rows.len(),
{
    if rows.len() == 0 {
        Seq::empty()
    } else {
        let rest = run_hashes(level, rows.drop_last(), class);
        if in_class(rows.last(), class) {
            rest.push(group_hash(level, rows.last().key))
        } else {
            rest
        }
    }
}

/// The ids of the members of a class, in key order.
pub open spec fn run_cids(rows: Seq<Row>, class: int) -> Seq<Seq<u8>>
    decreases rows.len(),
{
    if rows.len() == 0 {
        Seq::empty()
    } else {
        let rest = run_cids(rows.drop_last(), class);
        if in_class(rows.last(), class) {
            rest.push(member(rows.last())->Some_0.cid)
        } else {
            rest
        }
    }
}

/// A parity group: members of one class, in key order.
#[verifier::ext_equal]
pub struct Group {
    pub class: int,
    pub members: Seq<Seq<u8>>,
}

/// The first `n` groups that a run of ids is cut into.
pub open spec fn cut(class: int, cids: Seq<Seq<u8>>, sizes: Seq<int>, n: nat) -> Seq<Group>
    decreases n,
{
    if n == 0 {
        Seq::empty()
    } else {
        let m = (n - 1) as nat;
        cut(class, cids, sizes, m).push(
            Group { class, members: cids.subrange(total(sizes, m), total(sizes, n)) },
        )
    }
}

/// The groups of one class.
pub open spec fn class_groups(level: u8, rows: Seq<Row>, class: int) -> Seq<Group> {
    let sizes = sizes_of(run_hashes(level, rows, class));
    cut(class, run_cids(rows, class), sizes, sizes.len())
}

/// The groups of the classes below `c`, class by class.
pub open spec fn groups_below(level: u8, rows: Seq<Row>, c: nat) -> Seq<Group>
    decreases c,
{
    if c == 0 {
        Seq::empty()
    } else {
        groups_below(level, rows, (c - 1) as nat) + class_groups(level, rows, c - 1)
    }
}

/// The groups of a node, in the order their parity ids appear.
pub open spec fn groups(level: u8, rows: Seq<Row>) -> Seq<Group> {
    groups_below(level, rows, 4)
}

/// How many rows are members of the classes below `c`.
pub open spec fn members_below(level: u8, rows: Seq<Row>, c: nat) -> int
    decreases c,
{
    if c == 0 {
        0
    } else {
        members_below(level, rows, (c - 1) as nat) + run_hashes(level, rows, c - 1).len()
    }
}

/// A member's symbol: its length, then its state.
pub open spec fn spec_symbol(state: Seq<u8>) -> Seq<u8> {
    seqs::to_le32((state.len() % 4294967296) as int) + state
}

/// The symbols of some states.
pub open spec fn symbols(states: Seq<Seq<u8>>) -> Seq<Seq<u8>> {
    Seq::new(states.len(), |i: int| spec_symbol(states[i]))
}

// ---------------------------------------------------------------------------
// grouping
// ---------------------------------------------------------------------------

/// Which class a referenced value of `len` bytes belongs to.
pub fn class_of(len: usize) -> (c: usize)
    ensures
        c == spec_class_of(len as int),
        c < CLASSES@.len(),
{
    let mut c: usize = 0;
    while c < 3 && len > CLASSES[c]
        invariant
            c <= 3,
            c > 0 ==> len > CLASSES@[c - 1],
        ensures
            c <= 3,
            c > 0 ==> len > CLASSES@[c - 1],
            c == 3 || len <= CLASSES@[c as int],
        decreases 3 - c,
    {
        c = c + 1;
    }
    c
}

/// The grouping hash of one key, held as `prefix || suffix`.
pub fn group_hash_parts(level: u8, prefix: &[u8], suffix: &[u8]) -> (h: u32)
    ensures
        h == group_hash(level, prefix@ + suffix@),
{
    let mut state: Vec<u8> = vec![
        0x50u8, 0x54, 0x30, 0x31, 0x2d, 0x70, 0x67, 0x72, 0x6f, 0x75, 0x70,
    ];
    state.push(level);
    state.extend_from_slice(prefix);
    state.extend_from_slice(suffix);
    assert(state@ =~= group_input(level, prefix@ + suffix@));
    let d = blake3_hash(&state);
    seqs::u32_at(d.as_slice(), 0)
}

/// The sizes of a group list as numbers.
pub open spec fn ints(v: Seq<usize>) -> Seq<int> {
    v.map_values(|x: usize| x as int)
}

/// What holds of a grouping at every point of a run.
pub proof fn lemma_grouping(hashes: Seq<u32>)
    ensures
        ({
            let g = grouping(hashes);
            &&& 0 <= g.open < MAX_GROUP
            &&& total(g.sizes, g.sizes.len()) + g.open == hashes.len()
            &&& g.sizes.len() <= hashes.len()
            &&& forall|i: int|
                0 <= i < g.sizes.len() ==> MIN_GROUP <= #[trigger] g.sizes[i] <= MAX_GROUP
        }),
    decreases hashes.len(),
{
    if hashes.len() > 0 {
        let g0 = grouping(hashes.drop_last());
        lemma_grouping(hashes.drop_last());
        let g = grouping(hashes);
        if closes(g0.open + 1, hashes.last()) {
            lemma_total_prefix(g0.sizes, g.sizes, g0.sizes.len());
        }
    }
}

/// A sum depends only on what it sums.
pub proof fn lemma_total_prefix(a: Seq<int>, b: Seq<int>, n: nat)
    requires
        n <= a.len(),
        n <= b.len(),
        forall|i: int| 0 <= i < n ==> a[i] == b[i],
    ensures
        total(a, n) == total(b, n),
    decreases n,
{
    if n > 0 {
        lemma_total_prefix(a, b, (n - 1) as nat);
    }
}

/// Grouping loses no member: the sizes sum to the run, every group holds between
/// one and [`MAX_GROUP`] members, and only the last can be shorter than
/// [`MIN_GROUP`].
pub proof fn law_groups_partition_their_run(hashes: Seq<u32>)
    ensures
        ({
            let s = sizes_of(hashes);
            &&& total(s, s.len()) == hashes.len()
            &&& s.len() <= hashes.len()
            &&& forall|i: int| 0 <= i < s.len() ==> 1 <= #[trigger] s[i] <= MAX_GROUP
            &&& forall|i: int| 0 <= i < s.len() - 1 ==> MIN_GROUP <= #[trigger] s[i]
        }),
{
    let g = grouping(hashes);
    let s = sizes_of(hashes);
    lemma_grouping(hashes);
    if g.open > 0 {
        if g.sizes.len() > 0 && g.open < MIN_GROUP && g.sizes.last() + g.open <= MAX_GROUP {
            lemma_total_prefix(g.sizes, s, (g.sizes.len() - 1) as nat);
        } else {
            lemma_total_prefix(g.sizes, s, g.sizes.len());
            lemma_total_bounds(g.sizes, g.sizes.len());
        }
    }
}

/// Every group counts at least one.
proof fn lemma_total_bounds(s: Seq<int>, n: nat)
    requires
        n <= s.len(),
        forall|i: int| 0 <= i < s.len() ==> 1 <= #[trigger] s[i],
    ensures
        n <= total(s, n),
    decreases n,
{
    if n > 0 {
        lemma_total_bounds(s, (n - 1) as nat);
    }
}

/// Split a run of members, in key order, into groups.
///
/// `hashes` is the grouping hash of each member's key, in order. What comes back
/// is the group sizes, summing to `hashes.len()`.
pub fn group_sizes(hashes: &[u32]) -> (r: Vec<usize>)
    ensures
        ints(r@) == sizes_of(hashes@),
{
    let mut sizes: Vec<usize> = Vec::new();
    let mut open: usize = 0;
    let mut i: usize = 0;
    assert(hashes@.take(0) =~= Seq::<u32>::empty());
    while i < hashes.len()
        invariant
            i <= hashes@.len(),
            open < MAX_GROUP,
            grouping(hashes@.take(i as int)) == (Grouping { sizes: ints(sizes@), open: open as int }),
        decreases hashes@.len() - i,
    {
        let h = hashes[i];
        proof {
            assert(hashes@.take(i + 1).drop_last() =~= hashes@.take(i as int));
        }
        open = open + 1;
        if open == MAX_GROUP || (open >= MIN_GROUP && h < CLOSE_THRESHOLD) {
            let ghost before = sizes@;
            sizes.push(open);
            assert(ints(sizes@) =~= ints(before).push(open as int));
            open = 0;
        }
        i = i + 1;
    }
    assert(hashes@.take(i as int) =~= hashes@);
    let ghost g = grouping(hashes@);
    let ghost before = sizes@;
    proof {
        lemma_grouping(hashes@);
    }
    if open > 0 {
        let n = sizes.len();
        if n > 0 {
            let prev = sizes[n - 1];
            assert(ints(before)[n - 1] == prev);
            if open < MIN_GROUP && prev + open <= MAX_GROUP {
                sizes[n - 1] = prev + open;
                assert(ints(sizes@) =~= ints(before).update(n - 1, prev + open));
                return sizes;
            }
        }
        sizes.push(open);
        assert(ints(sizes@) =~= ints(before).push(open as int));
    }
    sizes
}

// ---------------------------------------------------------------------------
// the groups of a node
// ---------------------------------------------------------------------------

/// A run has a hash and an id per member.
pub proof fn lemma_run_lens(level: u8, rows: Seq<Row>, class: int)
    ensures
        run_hashes(level, rows, class).len() == run_cids(rows, class).len(),
        run_hashes(level, rows, class).len() <= rows.len(),
    decreases rows.len(),
{
    if rows.len() > 0 {
        lemma_run_lens(level, rows.drop_last(), class);
    }
}

/// The groups of a class are as many as its sizes.
pub proof fn lemma_cut_len(class: int, cids: Seq<Seq<u8>>, sizes: Seq<int>, n: nat)
    ensures
        cut(class, cids, sizes, n).len() == n,
    decreases n,
{
    if n > 0 {
        lemma_cut_len(class, cids, sizes, (n - 1) as nat);
    }
}

/// A node has at most as many groups as members.
pub proof fn lemma_groups_len(level: u8, rows: Seq<Row>, c: nat)
    ensures
        groups_below(level, rows, c).len() <= members_below(level, rows, c) <= c * rows.len(),
    decreases c,
{
    if c > 0 {
        let d = (c - 1) as nat;
        lemma_groups_len(level, rows, d);
        let h = run_hashes(level, rows, c - 1);
        law_groups_partition_their_run(h);
        lemma_cut_len(c - 1, run_cids(rows, c - 1), sizes_of(h), sizes_of(h).len());
        lemma_run_lens(level, rows, c - 1);
        assert(c * rows.len() == d * rows.len() + rows.len()) by (nonlinear_arith)
            requires
                c == d + 1,
        ;
    } else {
        assert(c * rows.len() == 0) by (nonlinear_arith)
            requires
                c == 0,
        ;
    }
}

/// Cutting gives groups of the sizes there are.
proof fn lemma_cut_sizes(class: int, cids: Seq<Seq<u8>>, sizes: Seq<int>, n: nat, i: int)
    requires
        0 <= i < n <= sizes.len(),
        total(sizes, sizes.len()) == cids.len(),
        forall|j: int| 0 <= j < sizes.len() ==> 1 <= #[trigger] sizes[j],
    ensures
        cut(class, cids, sizes, n)[i].members.len() == sizes[i],
    decreases n,
{
    lemma_cut_len(class, cids, sizes, (n - 1) as nat);
    if i < n - 1 {
        lemma_cut_sizes(class, cids, sizes, (n - 1) as nat, i);
    } else {
        lemma_total_mono(sizes, (n - 1) as nat, n);
        lemma_total_mono(sizes, n, sizes.len());
    }
}

/// Every group of a node holds between one and [`MAX_GROUP`] members.
pub proof fn lemma_group_sizes_below(level: u8, rows: Seq<Row>, c: nat, i: int)
    requires
        0 <= i < groups_below(level, rows, c).len(),
    ensures
        1 <= groups_below(level, rows, c)[i].members.len() <= MAX_GROUP,
    decreases c,
{
    let d = (c - 1) as nat;
    let k = groups_below(level, rows, d).len();
    if i < k {
        lemma_group_sizes_below(level, rows, d, i);
    } else {
        let h = run_hashes(level, rows, c - 1);
        let s = sizes_of(h);
        law_groups_partition_their_run(h);
        lemma_run_lens(level, rows, c - 1);
        lemma_cut_len(c - 1, run_cids(rows, c - 1), s, s.len());
        lemma_cut_sizes(c - 1, run_cids(rows, c - 1), s, s.len(), i - k);
    }
}

/// Every group of a node holds between one and [`MAX_GROUP`] members.
pub proof fn lemma_group_sizes(level: u8, rows: Seq<Row>, i: int)
    requires
        0 <= i < groups(level, rows).len(),
    ensures
        1 <= groups(level, rows)[i].members.len() <= MAX_GROUP,
{
    lemma_group_sizes_below(level, rows, 4, i);
}

/// The class and the id of the row at `i`, where it is a member.
fn member_at(node: &Node<'_>, i: usize) -> (r: Option<(usize, Cid)>)
    requires
        i < node@.rows.len(),
    ensures
        match r {
            None => member(node@.rows[i as int]) is None,
            Some((class, cid)) => member(node@.rows[i as int]) == Some(
                Member { class: class as int, cid: cid@ },
            ),
        },
{
    node.known_valid();
    assert(node::row_fits(node@.level, node@.rows[i as int]));
    if node.is_leaf() {
        match node.value(i) {
            Value::Inline(_) => None,
            Value::Ref { cid, len } => Some((class_of(len as usize), cid)),
        }
    } else {
        let (cid, _) = node.child(i);
        Some((0, cid))
    }
}

/// The members of one class: their hashes and their ids.
fn run_of(node: &Node<'_>, class: usize) -> (r: (Vec<u32>, Vec<Cid>))
    ensures
        r.0@ == run_hashes(node@.level, node@.rows, class as int),
        node::cids_of(r.1@) == run_cids(node@.rows, class as int),
{
    let level = node.level();
    let prefix = node.prefix();
    let mut hashes: Vec<u32> = Vec::new();
    let mut cids: Vec<Cid> = Vec::new();
    let n = node.len();
    let mut i: usize = 0;
    let ghost rows = node@.rows;
    assert(rows.take(0) =~= Seq::<Row>::empty());
    assert(node::cids_of(cids@) =~= Seq::<Seq<u8>>::empty());
    while i < n
        invariant
            n == rows.len(),
            rows == node@.rows,
            level == node@.level,
            prefix@ == node::prefix_bytes(rows),
            i <= n,
            hashes@ == run_hashes(level, rows.take(i as int), class as int),
            node::cids_of(cids@) == run_cids(rows.take(i as int), class as int),
        decreases n - i,
    {
        proof {
            assert(rows.take(i + 1).drop_last() =~= rows.take(i as int));
            assert(rows.take(i + 1).last() == rows[i as int]);
        }
        if let Some((c, cid)) = member_at(node, i) {
            if c == class {
                let suffix = node.suffix(i);
                hashes.push(group_hash_parts(level, prefix, suffix));
                let ghost before = cids@;
                cids.push(cid);
                assert(node::cids_of(cids@) =~= node::cids_of(before).push(cid@));
            }
        }
        i = i + 1;
    }
    assert(rows.take(n as int) =~= rows);
    (hashes, cids)
}

/// A list of groups as it is held.
pub open spec fn groups_view(v: Seq<(usize, Vec<Cid>)>) -> Seq<Group> {
    v.map_values(
        |g: (usize, Vec<Cid>)| Group { class: g.0 as int, members: node::cids_of(g.1@) },
    )
}

/// A run of ids from `lo` to `hi`.
fn part(cids: &Vec<Cid>, lo: usize, hi: usize) -> (r: Vec<Cid>)
    requires
        lo <= hi <= cids@.len(),
    ensures
        r@ == cids@.subrange(lo as int, hi as int),
{
    let mut out: Vec<Cid> = Vec::new();
    let mut i = lo;
    while i < hi
        invariant
            lo <= i <= hi <= cids@.len(),
            out@ == cids@.subrange(lo as int, i as int),
        decreases hi - i,
    {
        out.push(cids[i]);
        assert(cids@.subrange(lo as int, i + 1) =~= cids@.subrange(lo as int, i as int).push(
            cids@[i as int],
        ));
        i = i + 1;
    }
    out
}

/// Sums of sizes only grow.
pub proof fn lemma_total_mono(s: Seq<int>, n: nat, m: nat)
    requires
        n <= m <= s.len(),
        forall|i: int| 0 <= i < s.len() ==> 1 <= #[trigger] s[i],
    ensures
        0 <= total(s, n) <= total(s, m),
    decreases m,
{
    lemma_total_bounds(s, n);
    if n < m {
        lemma_total_mono(s, n, (m - 1) as nat);
    }
}

/// Append the groups of one run.
pub(crate) fn cut_run(class: usize, hashes: &Vec<u32>, cids: &Vec<Cid>, out: &mut Vec<(usize, Vec<Cid>)>)
    requires
        hashes@.len() == cids@.len(),
    ensures
        groups_view(final(out)@) == groups_view(old(out)@) + cut(
            class as int,
            node::cids_of(cids@),
            sizes_of(hashes@),
            sizes_of(hashes@).len(),
        ),
{
    let sizes = group_sizes(hashes.as_slice());
    let ghost ss = sizes_of(hashes@);
    let ghost cs = node::cids_of(cids@);
    proof {
        law_groups_partition_their_run(hashes@);
    }
    let mut at: usize = 0;
    let mut j: usize = 0;
    assert(groups_view(out@) =~= groups_view(old(out)@) + cut(class as int, cs, ss, 0));
    while j < sizes.len()
        invariant
            ss == ints(sizes@),
            cs == node::cids_of(cids@),
            j <= sizes@.len(),
            at == total(ss, j as nat),
            total(ss, ss.len()) == cids@.len(),
            forall|i: int| 0 <= i < ss.len() ==> 1 <= #[trigger] ss[i],
            groups_view(out@) == groups_view(old(out)@) + cut(class as int, cs, ss, j as nat),
        decreases sizes@.len() - j,
    {
        let size = sizes[j];
        assert(ss[j as int] == size);
        proof {
            lemma_total_mono(ss, (j + 1) as nat, ss.len());
        }
        let n = cids.len();
        let members = part(cids, at, at + size);
        let ghost before = out@;
        assert(node::cids_of(members@) =~= cs.subrange(at as int, at + size));
        out.push((class, members));
        proof {
            let g = Group { class: class as int, members: node::cids_of(members@) };
            assert(groups_view(out@) =~= groups_view(before).push(g));
            assert(cut(class as int, cs, ss, (j + 1) as nat) == cut(
                class as int,
                cs,
                ss,
                j as nat,
            ).push(g));
        }
        at = at + size;
        j = j + 1;
    }
}

/// A node's groups as `(class, member ids)`, in the order their parity ids appear.
/// The member ids are what the group is over: children for a branch, referenced
/// values for a leaf.
pub fn group_members(node: &Node<'_>) -> (r: Vec<(usize, Vec<Cid>)>)
    ensures
        groups_view(r@) == groups(node@.level, node@.rows),
{
    group_members_counted(node).0
}

/// [`group_members`], with the number of grouping hashes taken.
pub fn group_members_counted(node: &Node<'_>) -> (r: (Vec<(usize, Vec<Cid>)>, usize))
    ensures
        groups_view(r.0@) == groups(node@.level, node@.rows),
        r.1 == members_below(node@.level, node@.rows, 4),
{
    let mut out: Vec<(usize, Vec<Cid>)> = Vec::new();
    let mut hashed: usize = 0;
    let mut class: usize = 0;
    let n = node.len();
    node.known_valid();
    proof {
        assert(groups_view(out@) =~= Seq::<Group>::empty());
    }
    while class < 4
        invariant
            class <= 4,
            n == node@.rows.len(),
            n < 65536,
            groups_view(out@) == groups_below(node@.level, node@.rows, class as nat),
            hashed == members_below(node@.level, node@.rows, class as nat),
            hashed <= class * 65536,
        decreases 4 - class,
    {
        let (hashes, cids) = run_of(node, class);
        proof {
            lemma_run_lens(node@.level, node@.rows, class as int);
            assert(cids@.len() == node::cids_of(cids@).len());
        }
        cut_run(class, &hashes, &cids, &mut out);
        hashed = hashed + hashes.len();
        class = class + 1;
    }
    (out, hashed)
}

/// The groups of a node, as counts, in the order their parity ids appear.
pub fn group_sizes_of(node: &Node<'_>) -> (r: Vec<usize>)
    ensures
        r@.len() == groups(node@.level, node@.rows).len(),
        forall|i: int|
            0 <= i < r@.len() ==> (#[trigger] r@[i]) == groups(
                node@.level,
                node@.rows,
            )[i].members.len(),
{
    let gs = group_members(node);
    let mut out: Vec<usize> = Vec::new();
    let mut i: usize = 0;
    assert(groups_view(gs@).len() == gs@.len());
    while i < gs.len()
        invariant
            i <= gs@.len(),
            out@.len() == i,
            groups_view(gs@) == groups(node@.level, node@.rows),
            forall|j: int|
                0 <= j < i ==> (#[trigger] out@[j]) == groups(
                    node@.level,
                    node@.rows,
                )[j].members.len(),
        decreases gs@.len() - i,
    {
        assert(groups_view(gs@)[i as int].members.len() == gs@[i as int].1@.len());
        out.push(gs[i].1.len());
        i = i + 1;
    }
    out
}

/// How many parity ids a node must carry: three per group, and a pure function of
/// the entries.
pub fn pcount_of(node: &Node<'_>) -> (n: usize)
    ensures
        n == PARITY * groups(node@.level, node@.rows).len(),
{
    pcount_counted(node).0
}

/// [`pcount_of`], with the number of grouping hashes taken.
pub fn pcount_counted(node: &Node<'_>) -> (r: (usize, usize))
    ensures
        r.0 == PARITY * groups(node@.level, node@.rows).len(),
        r.1 == members_below(node@.level, node@.rows, 4),
{
    let (gs, hashed) = group_members_counted(node);
    node.known_valid();
    proof {
        lemma_groups_len(node@.level, node@.rows, 4);
        assert(groups_view(gs@).len() == gs@.len());
    }
    (3 * gs.len(), hashed)
}

// ---------------------------------------------------------------------------
// symbols
// ---------------------------------------------------------------------------

/// One member's coded symbol: `len:u32 LE || state`, and zeros for ever after.
///
/// `state` is the member's full block, `kind || body`, so a rebuilt symbol is the
/// block and verifies against its id by one hash. The length prefix is what ends
/// it.
pub fn symbol(state: &[u8]) -> (out: Vec<u8>)
    ensures
        out@ == spec_symbol(state@),
{
    let mut out: Vec<u8> = Vec::new();
    let n = state.len() as u64 % 4294967296;
    seqs::put_u32(&mut out, n as u32);
    out.extend_from_slice(state);
    assert(out@ =~= spec_symbol(state@));
    out
}

/// The symbols of some states.
fn all_symbols(states: &[Vec<u8>]) -> (out: Vec<Vec<u8>>)
    ensures
        seqs::views(out@) == symbols(seqs::views(states@)),
{
    let mut out: Vec<Vec<u8>> = Vec::new();
    let mut i: usize = 0;
    while i < states.len()
        invariant
            i <= states@.len(),
            out@.len() == i,
            forall|j: int| 0 <= j < i ==> (#[trigger] out@[j])@ == spec_symbol(states@[j]@),
        decreases states@.len() - i,
    {
        out.push(symbol(states[i].as_slice()));
        i = i + 1;
    }
    assert(seqs::views(out@) =~= symbols(seqs::views(states@)));
    out
}

/// The parity block `r` of a group with these symbols: the one trimmed string
/// whose bytes are the coded ones.
pub open spec fn parity_block(data: Seq<Seq<u8>>, r: int) -> Seq<u8> {
    choose|p: Seq<u8>| rs::is_parity(data, r, p)
}

/// A parity block is the parity block.
pub proof fn lemma_parity_block(data: Seq<Seq<u8>>, r: int, p: Seq<u8>)
    requires
        rs::is_parity(data, r, p),
    ensures
        p == parity_block(data, r),
        rs::is_parity(data, r, parity_block(data, r)),
{
    let q = parity_block(data, r);
    assert forall|i: int| 0 <= i implies seqs::byte_of(p, i) == seqs::byte_of(q, i) by {
        assert(seqs::byte_of(q, i) == rs::coded_byte(data, data.len() + r, i));
    }
    rs::law_trimmed_form_is_unique(p, q);
}

/// The three parity blocks of a group of member states.
pub open spec fn group_parity(states: Seq<Seq<u8>>) -> Seq<Seq<u8>> {
    Seq::new(PARITY as nat, |r: int| parity_block(symbols(states), r))
}

/// The three parity symbols for one group of member states, trimmed.
pub fn encode_group(states: &[Vec<u8>]) -> (r: Result<Vec<Vec<u8>>, RsError>)
    ensures
        match r {
            Err(e) => e == RsError::GroupSize(states@.len() as usize) && (states@.len() == 0
                || states@.len() > rs::MAX_K),
            Ok(out) => {
                &&& 0 < states@.len() <= rs::MAX_K
                &&& seqs::views(out@) == group_parity(seqs::views(states@))
                &&& forall|p: int|
                    0 <= p < PARITY ==> rs::is_parity(
                        symbols(seqs::views(states@)),
                        p,
                        (#[trigger] out@[p])@,
                    )
            },
        },
{
    let data = all_symbols(states);
    assert(data@.len() == seqs::views(data@).len());
    let r = rs::encode(data.as_slice(), PARITY);
    proof {
        if r is Ok {
            let out = r->Ok_0;
            let syms = symbols(seqs::views(states@));
            assert forall|p: int| 0 <= p < PARITY implies seqs::views(out@)[p] == group_parity(
                seqs::views(states@),
            )[p] by {
                lemma_parity_block(syms, p, out@[p]@);
            }
            assert(seqs::views(out@) =~= group_parity(seqs::views(states@)));
        }
    }
    r
}

/// The states in rebuilt symbols.
pub open spec fn states_of(syms: Seq<Seq<u8>>) -> Seq<Seq<u8>> {
    Seq::new(syms.len(), |i: int| syms[i].subrange(4, syms[i].len() as int))
}

/// Recover every member's state from any `k` of the `k + 3` blocks.
///
/// `have` holds the blocks as they are stored: data symbols as [`symbol`] produces
/// them, parity trimmed. `max_len` is the largest a member of this group may be:
/// [`MAX_MEMBER_VALUE`] and [`MAX_MEMBER_NODE`] are the two.
pub fn repair_group(k: usize, have: &[Option<Vec<u8>>], max_len: usize) -> (r: Result<
    Vec<Vec<u8>>,
    RsError,
>)
    ensures
        match (r, rs::repair_spec(k, PARITY, have@, max_len)) {
            (Ok(out), Ok(syms)) => seqs::views(out@) == states_of(syms),
            (Err(e), Err(f)) => e == f,
            _ => false,
        },
{
    let r = rs::repair(k, PARITY, have, max_len);
    match r {
        Err(e) => Err(e),
        Ok(syms) => {
            let ghost spec_syms = seqs::views(syms@);
            let mut out: Vec<Vec<u8>> = Vec::new();
            let mut i: usize = 0;
            proof {
                assert(spec_syms.len() == k && syms@.len() == k);
                assert forall|j: int| 0 <= j < syms@.len() implies (#[trigger] syms@[j])@.len()
                    >= 4 by {
                    rs::lemma_rebuilt_len(have@, k, PARITY, max_len, j);
                    assert(syms@[j]@ == spec_syms[j]);
                }
            }
            while i < syms.len()
                invariant
                    i <= syms@.len(),
                    out@.len() == i,
                    forall|j: int| 0 <= j < syms@.len() ==> (#[trigger] syms@[j])@.len() >= 4,
                    forall|j: int|
                        0 <= j < i ==> (#[trigger] out@[j])@ == syms@[j]@.subrange(
                            4,
                            syms@[j]@.len() as int,
                        ),
                decreases syms@.len() - i,
            {
                let s = syms[i].as_slice();
                let n = s.len();
                out.push(vstd::slice::slice_to_vec(vstd::slice::slice_subrange(s, 4, n)));
                i = i + 1;
            }
            assert(seqs::views(out@) =~= states_of(spec_syms));
            Ok(out)
        },
    }
}

/// Any three losses are repaired: from any `k` of a group's `k + 3` blocks come
/// back the states of its members.
pub proof fn law_a_group_survives_three_losses(
    states: Seq<Seq<u8>>,
    k: usize,
    have: Seq<Option<Vec<u8>>>,
    max_len: usize,
)
    requires
        k == states.len(),
        0 < k <= rs::MAX_K,
        rs::slots_of(symbols(states), PARITY as nat, have),
        rs::present(have, have.len()).len() >= k,
        forall|c: int|
            0 <= c < k ==> (#[trigger] states[c]).len() <= rs::ceiling(max_len)
                && states[c].len() < 4294967296,
    ensures
        rs::repair_spec(k, PARITY, have, max_len) is Ok,
        states_of(rs::repair_spec(k, PARITY, have, max_len)->Ok_0) == states,
{
    let data = symbols(states);
    assert forall|c: int| 0 <= c < k implies rs::is_symbol(#[trigger] data[c]) && data[c].len()
        <= 4 + rs::ceiling(max_len) by {
        let n = states[c].len() as int;
        assert(data[c] == spec_symbol(states[c]));
        assert(data[c].subrange(0, 4) =~= seqs::to_le32(n));
        assert(seqs::to_le32(n).subrange(0, 4) =~= seqs::to_le32(n));
        seqs::lemma_le32(n);
        seqs::lemma_le_window(data[c], 0, seqs::to_le32(n), 0, 4);
    }
    rs::law_any_m_losses_are_repairable(data, k, PARITY, have, max_len);
    assert(states_of(data) =~= states) by {
        assert forall|c: int| 0 <= c < k implies states_of(data)[c] == states[c] by {
            assert(data[c] == spec_symbol(states[c]));
            assert(states_of(data)[c] =~= states[c]);
        }
    }
}

// ---------------------------------------------------------------------------
// correcting a group in place
// ---------------------------------------------------------------------------

/// Byte `i` of a parity block corrected for one member.
pub open spec fn corrected(
    p: Seq<u8>,
    r: int,
    column: int,
    old_state: Seq<u8>,
    new_state: Seq<u8>,
    i: int,
) -> u8 {
    seqs::byte_of(p, i) ^ gf::gmul(
        rs::spec_coeff(r, column),
        seqs::byte_of(spec_symbol(new_state), i) ^ seqs::byte_of(spec_symbol(old_state), i),
    )
}

/// One corrected parity block.
fn correct(p: &Vec<u8>, r: usize, column: usize, old: &Vec<u8>, new: &Vec<u8>, Ghost(os): Ghost<
    Seq<u8>,
>, Ghost(ns): Ghost<Seq<u8>>) -> (v: Vec<u8>)
    requires
        r < PARITY,
        column < rs::MAX_K,
        old@ == spec_symbol(os),
        new@ == spec_symbol(ns),
    ensures
        rs::trimmed(v@),
        forall|i: int|
            0 <= i ==> #[trigger] seqs::byte_of(v@, i) == corrected(
                p@,
                r as int,
                column as int,
                os,
                ns,
                i,
            ),
{
    let t = Tables::new();
    let f = rs::coeff_with(&t, r, column);
    let mut width = p.len();
    if old.len() > width {
        width = old.len();
    }
    if new.len() > width {
        width = new.len();
    }
    let mut v: Vec<u8> = Vec::new();
    let mut i: usize = 0;
    while i < width
        invariant
            i <= width,
            v@.len() == i,
            f == rs::spec_coeff(r as int, column as int),
            old@ == spec_symbol(os),
            new@ == spec_symbol(ns),
            forall|j: int|
                0 <= j < i ==> #[trigger] v@[j] == corrected(
                    p@,
                    r as int,
                    column as int,
                    os,
                    ns,
                    j,
                ),
        decreases width - i,
    {
        let d = rs::byte_at(new.as_slice(), i) ^ rs::byte_at(old.as_slice(), i);
        v.push(rs::byte_at(p.as_slice(), i) ^ t.mul(f, d));
        i = i + 1;
    }
    let ghost full = v@;
    rs::trim(&mut v);
    assert forall|j: int| 0 <= j implies #[trigger] seqs::byte_of(v@, j) == corrected(
        p@,
        r as int,
        column as int,
        os,
        ns,
        j,
    ) by {
        assert(seqs::byte_of(v@, j) == seqs::byte_of(full, j));
        if j >= width {
            gf::lemma_xor(0, 0, 0);
            gf::lemma_mul_unit(f);
        }
    }
    v
}

/// A member changed: the new parity, from the old parity and the two symbols.
///
/// The code is linear, so a writer that holds the three old parity blocks and both
/// versions of the one member it touched needs nothing else.
///
/// This is for a member changing in place. A membership change moves the columns,
/// so the group is recoded from its members instead.
pub fn update_group(
    old_parity: &[Vec<u8>],
    column: usize,
    old_state: &[u8],
    new_state: &[u8],
) -> (r: Result<Vec<Vec<u8>>, RsError>)
    requires
        column < usize::MAX,
    ensures
        match r {
            Err(e) => if old_parity@.len() != PARITY {
                e == RsError::Ragged
            } else {
                column >= rs::MAX_K && e == RsError::GroupSize((column + 1) as usize)
            },
            Ok(out) => {
                &&& old_parity@.len() == PARITY
                &&& column < rs::MAX_K
                &&& out@.len() == PARITY
                &&& forall|p: int| 0 <= p < PARITY ==> rs::trimmed((#[trigger] out@[p])@)
                &&& forall|p: int, i: int|
                    0 <= p < PARITY && 0 <= i ==> #[trigger] seqs::byte_of(out@[p]@, i)
                        == corrected(
                        old_parity@[p]@,
                        p,
                        column as int,
                        old_state@,
                        new_state@,
                        i,
                    )
            },
        },
{
    if old_parity.len() != PARITY {
        return Err(RsError::Ragged);
    }
    if column >= rs::MAX_K {
        return Err(RsError::GroupSize(column + 1));
    }
    let old = symbol(old_state);
    let new = symbol(new_state);
    let a = correct(&old_parity[0], 0, column, &old, &new, Ghost(old_state@), Ghost(new_state@));
    let b = correct(&old_parity[1], 1, column, &old, &new, Ghost(old_state@), Ghost(new_state@));
    let c = correct(&old_parity[2], 2, column, &old, &new, Ghost(old_state@), Ghost(new_state@));
    let mut out: Vec<Vec<u8>> = Vec::new();
    out.push(a);
    out.push(b);
    out.push(c);
    Ok(out)
}

/// The one trimmed block whose bytes are the corrected ones.
pub open spec fn corrected_block(
    p: Seq<u8>,
    r: int,
    column: int,
    old_state: Seq<u8>,
    new_state: Seq<u8>,
) -> Seq<u8> {
    choose|q: Seq<u8>| is_corrected(q, p, r, column, old_state, new_state)
}

/// Is `q` the block `p` corrected for one member?
pub open spec fn is_corrected(
    q: Seq<u8>,
    p: Seq<u8>,
    r: int,
    column: int,
    old_state: Seq<u8>,
    new_state: Seq<u8>,
) -> bool {
    &&& rs::trimmed(q)
    &&& forall|i: int|
        0 <= i ==> #[trigger] seqs::byte_of(q, i) == corrected(
            p,
            r,
            column,
            old_state,
            new_state,
            i,
        )
}

/// A corrected block is the corrected block.
pub proof fn lemma_corrected_block(
    q: Seq<u8>,
    p: Seq<u8>,
    r: int,
    column: int,
    old_state: Seq<u8>,
    new_state: Seq<u8>,
)
    requires
        is_corrected(q, p, r, column, old_state, new_state),
    ensures
        q == corrected_block(p, r, column, old_state, new_state),
{
    let x = corrected_block(p, r, column, old_state, new_state);
    assert(is_corrected(x, p, r, column, old_state, new_state));
    assert forall|i: int| 0 <= i implies seqs::byte_of(q, i) == seqs::byte_of(x, i) by {
        assert(seqs::byte_of(x, i) == corrected(p, r, column, old_state, new_state, i));
    }
    rs::law_trimmed_form_is_unique(q, x);
}

/// Changing one entry of a column changes a product by that entry's change.
proof fn lemma_dot_change(a: Seq<u8>, d: Seq<u8>, c: int, y: u8, n: nat)
    requires
        0 <= c < n <= d.len(),
    ensures
        linear::dot(a, d.update(c, y), n) == linear::dot(a, d, n) ^ gf::gmul(a[c], y ^ d[c]),
    decreases n,
{
    let e = d.update(c, y);
    let m = (n - 1) as nat;
    let g = gf::gmul(a[c], y ^ d[c]);
    gf::lemma_mul_distrib(a[c], y, d[c]);
    if c == n - 1 {
        linear::lemma_dot_congruent(a, a, d, e, m);
        let x = linear::dot(a, d, m);
        let gy = gf::gmul(a[c], y);
        let gd = gf::gmul(a[c], d[c]);
        assert(x ^ gy == (x ^ gd) ^ (gy ^ gd)) by (bit_vector);
    } else {
        lemma_dot_change(a, d, c, y, m);
        let x = linear::dot(a, d, m);
        let t = gf::gmul(a[n - 1], d[n - 1]);
        assert(e[n - 1] == d[n - 1]);
        assert((x ^ g) ^ t == (x ^ t) ^ g) by (bit_vector);
    }
}

/// A correction is a recoding: the parity of a group in which one member changed
/// is the old parity corrected for that member.
pub proof fn law_update_equals_recoding(
    states: Seq<Seq<u8>>,
    column: int,
    new_state: Seq<u8>,
    r: int,
    old_parity: Seq<u8>,
    new_parity: Seq<u8>,
)
    requires
        0 <= column < states.len() <= rs::MAX_K,
        0 <= r < PARITY,
        rs::is_parity(symbols(states), r, old_parity),
        rs::trimmed(new_parity),
        forall|i: int|
            0 <= i ==> #[trigger] seqs::byte_of(new_parity, i) == corrected(
                old_parity,
                r,
                column,
                states[column],
                new_state,
                i,
            ),
    ensures
        rs::is_parity(symbols(states.update(column, new_state)), r, new_parity),
        new_parity == parity_block(symbols(states.update(column, new_state)), r),
{
    let data = symbols(states);
    let next = symbols(states.update(column, new_state));
    let k = states.len();
    assert forall|i: int| 0 <= i implies #[trigger] seqs::byte_of(new_parity, i)
        == rs::coded_byte(next, k + r, i) by {
        let row = rs::generator_row(k, k + r);
        let d = rs::column(data, i);
        let y = seqs::byte_of(spec_symbol(new_state), i);
        assert(rs::column(next, i) =~= d.update(column, y));
        lemma_dot_change(row, d, column, y, k);
        assert(seqs::byte_of(old_parity, i) == rs::coded_byte(data, k + r, i));
    }
    lemma_parity_block(next, r, new_parity);
}

// ---------------------------------------------------------------------------
// the parity a node already has
// ---------------------------------------------------------------------------

/// A group whose parity ids are known.
#[verifier::ext_equal]
pub struct Known {
    pub class: int,
    pub members: Seq<Seq<u8>>,
    pub ids: Seq<Seq<u8>>,
}

/// The groups of a node with their ids: none, where the node's parity count
/// disagrees with its entries.
pub open spec fn known_of(n: NodeView) -> Seq<Known> {
    let gs = groups(n.level, n.rows);
    if n.parity.len() != PARITY * gs.len() {
        Seq::empty()
    } else {
        Seq::new(
            gs.len(),
            |i: int|
                Known {
                    class: gs[i].class,
                    members: gs[i].members,
                    ids: n.parity.subrange(3 * i, 3 * i + 3),
                },
        )
    }
}

/// Does this entry cover exactly these members?
pub open spec fn covers(g: Known, class: int, members: Seq<Seq<u8>>) -> bool {
    g.class == class && g.members == members
}

/// The ids of the first entry, from `i` on, that covers exactly these members.
pub open spec fn find_exact(
    index: Seq<Known>,
    class: int,
    members: Seq<Seq<u8>>,
    i: int,
) -> Option<Seq<Seq<u8>>>
    decreases index.len() - i,
{
    if i < 0 || i >= index.len() {
        None
    } else if covers(index[i], class, members) {
        Some(index[i].ids)
    } else {
        find_exact(index, class, members, i + 1)
    }
}

/// How many of the first `n` members differ.
pub open spec fn differing(a: Seq<Seq<u8>>, b: Seq<Seq<u8>>, n: nat) -> nat
    decreases n,
{
    if n == 0 {
        0
    } else {
        differing(a, b, (n - 1) as nat) + (if a[n - 1] != b[n - 1] {
            1nat
        } else {
            0
        })
    }
}

/// The first place from `i` on where two member lists differ.
pub open spec fn first_difference(a: Seq<Seq<u8>>, b: Seq<Seq<u8>>, i: int) -> int
    decreases a.len() - i,
{
    if i < 0 || i >= a.len() || a[i] != b[i] {
        i
    } else {
        first_difference(a, b, i + 1)
    }
}

/// Does this entry cover these members but for exactly one?
pub open spec fn nearly_covers(g: Known, class: int, members: Seq<Seq<u8>>) -> bool {
    g.class == class && g.members.len() == members.len() && differing(
        g.members,
        members,
        members.len(),
    ) == 1
}

/// A group that differs in one place: where, what was there, and its ids.
#[verifier::ext_equal]
pub struct OneOff {
    pub pos: int,
    pub was: Seq<u8>,
    pub ids: Seq<Seq<u8>>,
}

/// The first entry, from `i` on, that covers these members but for exactly one.
pub open spec fn find_one_off(
    index: Seq<Known>,
    class: int,
    members: Seq<Seq<u8>>,
    i: int,
) -> Option<OneOff>
    decreases index.len() - i,
{
    if i < 0 || i >= index.len() {
        None
    } else if nearly_covers(index[i], class, members) {
        let pos = first_difference(index[i].members, members, 0);
        Some(OneOff { pos, was: index[i].members[pos], ids: index[i].ids })
    } else {
        find_one_off(index, class, members, i + 1)
    }
}

/// The parity a node already has, indexed by the members it covers.
///
/// A rewrite replaces a node, but most of its groups are untouched: the same
/// members, in the same order, in the same class. Their parity is a pure function
/// of those members, so a writer that has seen a group before copies the three ids
/// instead of recoding.
pub struct GroupIndex {
    groups: Vec<(usize, Vec<Cid>, [Cid; 3])>,
}

impl View for GroupIndex {
    type V = Seq<Known>;

    closed spec fn view(&self) -> Seq<Known> {
        self.groups@.map_values(
            |g: (usize, Vec<Cid>, [Cid; 3])|
                Known {
                    class: g.0 as int,
                    members: node::cids_of(g.1@),
                    ids: node::cids_of(g.2@),
                },
        )
    }
}

impl Default for GroupIndex {
    fn default() -> (r: GroupIndex)
        ensures
            r@ == Seq::<Known>::empty(),
    {
        let r = GroupIndex { groups: Vec::new() };
        assert(r@ =~= Seq::<Known>::empty());
        r
    }
}

/// Are two id lists the same?
fn same_ids(a: &[Cid], b: &[Cid]) -> (r: bool)
    ensures
        r == (node::cids_of(a@) == node::cids_of(b@)),
{
    if a.len() != b.len() {
        assert(node::cids_of(a@).len() != node::cids_of(b@).len());
        return false;
    }
    let mut i: usize = 0;
    while i < a.len()
        invariant
            i <= a@.len(),
            a@.len() == b@.len(),
            forall|j: int| 0 <= j < i ==> (#[trigger] a@[j])@ == b@[j]@,
        decreases a@.len() - i,
    {
        if !order::same(a[i].as_slice(), b[i].as_slice()) {
            assert(node::cids_of(a@)[i as int] != node::cids_of(b@)[i as int]);
            return false;
        }
        i = i + 1;
    }
    assert(node::cids_of(a@) =~= node::cids_of(b@));
    true
}

/// Where two id lists of one length differ, if in exactly one place.
fn one_difference(a: &[Cid], b: &[Cid]) -> (r: Option<usize>)
    requires
        a@.len() == b@.len(),
    ensures
        match r {
            None => differing(node::cids_of(a@), node::cids_of(b@), a@.len()) != 1,
            Some(p) => {
                &&& p < a@.len()
                &&& differing(node::cids_of(a@), node::cids_of(b@), a@.len()) == 1
                &&& p == first_difference(node::cids_of(a@), node::cids_of(b@), 0)
            },
        },
{
    let ghost x = node::cids_of(a@);
    let ghost y = node::cids_of(b@);
    let mut found: Option<usize> = None;
    let mut many = false;
    let mut i: usize = 0;
    while i < a.len()
        invariant
            i <= a@.len(),
            a@.len() == b@.len(),
            x == node::cids_of(a@),
            y == node::cids_of(b@),
            many <==> differing(x, y, i as nat) > 1,
            found is None <==> differing(x, y, i as nat) == 0,
            found is None ==> first_difference(x, y, 0) == first_difference(x, y, i as int),
            found is Some ==> found->0 < i && found->0 == first_difference(x, y, 0),
        decreases a@.len() - i,
    {
        let ghost here = first_difference(x, y, i as int);
        if !order::same(a[i].as_slice(), b[i].as_slice()) {
            assert(x[i as int] != y[i as int]);
            if found.is_some() {
                many = true;
            } else {
                found = Some(i);
            }
        } else {
            assert(x[i as int] == y[i as int]);
        }
        i = i + 1;
    }
    if many {
        None
    } else {
        found
    }
}

impl GroupIndex {
    /// Read a node's groups. A node whose parity count disagrees with its entries
    /// contributes nothing.
    pub fn of(node: &Node<'_>) -> (r: GroupIndex)
        ensures
            r@ == known_of(node@),
    {
        let mut out = GroupIndex::default();
        out.add(node);
        assert(out@ =~= known_of(node@));
        out
    }

    /// Add another node's groups.
    ///
    /// A rewrite usually spans several old nodes and produces several new ones,
    /// with the boundaries moving between them. Parity is a pure function of the
    /// members and the class, and position is not part of it, so a group found in
    /// any node this rewrite is replacing is the same group.
    pub fn add(&mut self, node: &Node<'_>)
        ensures
            final(self)@ == old(self)@ + known_of(node@),
    {
        let ids = node.parity();
        let members = group_members(node);
        let ghost gs = groups(node@.level, node@.rows);
        node.known_valid();
        proof {
            lemma_groups_len(node@.level, node@.rows, 4);
            assert(groups_view(members@).len() == members@.len());
        }
        if ids.len() != 3 * members.len() {
            assert(self@ =~= old(self)@ + known_of(node@));
            return;
        }
        let mut i: usize = 0;
        assert(self@ =~= old(self)@ + known_of(node@).take(0));
        while i < members.len()
            invariant
                i <= members@.len(),
                ids@.len() == 3 * members@.len(),
                node::cids_of(ids@) == node@.parity,
                groups_view(members@) == gs,
                gs == groups(node@.level, node@.rows),
                known_of(node@).len() == gs.len(),
                gs.len() == members@.len(),
                self@ == old(self)@ + known_of(node@).take(i as int),
            decreases members@.len() - i,
        {
            let n = ids.len();
            let trio: [Cid; 3] = [ids[3 * i], ids[3 * i + 1], ids[3 * i + 2]];
            let list = part(&members[i].1, 0, members[i].1.len());
            let class = members[i].0;
            let ghost before = self@;
            self.groups.push((class, list, trio));
            proof {
                let k = known_of(node@)[i as int];
                assert(groups_view(members@)[i as int] == gs[i as int]);
                assert(list@ =~= members@[i as int].1@);
                assert(node::cids_of(trio@) =~= node@.parity.subrange(3 * i, 3 * i + 3)) by {
                    assert(node@.parity[3 * i] == ids@[3 * i]@);
                    assert(node@.parity[3 * i + 1] == ids@[3 * i + 1]@);
                    assert(node@.parity[3 * i + 2] == ids@[3 * i + 2]@);
                }
                assert(self@ =~= before.push(k));
                assert(known_of(node@).take(i + 1) =~= known_of(node@).take(i as int).push(k));
            }
            i = i + 1;
        }
        assert(known_of(node@).take(i as int) =~= known_of(node@));
    }

    /// The three ids for exactly this group, if a node already had it.
    pub fn exact(&self, class: usize, members: &[Cid]) -> (r: Option<[Cid; 3]>)
        ensures
            match r {
                None => find_exact(self@, class as int, node::cids_of(members@), 0) is None,
                Some(ids) => find_exact(self@, class as int, node::cids_of(members@), 0) == Some(
                    node::cids_of(ids@),
                ),
            },
    {
        let mut i: usize = 0;
        let ghost want = node::cids_of(members@);
        while i < self.groups.len()
            invariant
                i <= self.groups@.len(),
                want == node::cids_of(members@),
                find_exact(self@, class as int, want, 0) == find_exact(
                    self@,
                    class as int,
                    want,
                    i as int,
                ),
            decreases self.groups@.len() - i,
        {
            let g = &self.groups[i];
            assert(self@[i as int].members == node::cids_of(g.1@));
            if g.0 == class && same_ids(g.1.as_slice(), members) {
                return Some(g.2);
            }
            i = i + 1;
        }
        None
    }

    /// A group that covers these members but for exactly one: the place, the
    /// member that was there, and the group's three ids.
    pub fn one_off(&self, class: usize, members: &[Cid]) -> (r: Option<(usize, Cid, [Cid; 3])>)
        ensures
            match r {
                None => find_one_off(self@, class as int, node::cids_of(members@), 0) is None,
                Some((pos, was, ids)) => {
                    &&& pos < members@.len()
                    &&& find_one_off(self@, class as int, node::cids_of(members@), 0) == Some(
                        OneOff { pos: pos as int, was: was@, ids: node::cids_of(ids@) },
                    )
                },
            },
    {
        let mut i: usize = 0;
        let ghost want = node::cids_of(members@);
        while i < self.groups.len()
            invariant
                i <= self.groups@.len(),
                want == node::cids_of(members@),
                find_one_off(self@, class as int, want, 0) == find_one_off(
                    self@,
                    class as int,
                    want,
                    i as int,
                ),
            decreases self.groups@.len() - i,
        {
            let g = &self.groups[i];
            assert(self@[i as int].members == node::cids_of(g.1@));
            if g.0 == class && g.1.len() == members.len() {
                if let Some(p) = one_difference(g.1.as_slice(), members) {
                    return Some((p, g.1[p], g.2));
                }
            }
            i = i + 1;
        }
        None
    }
}

} // verus!
