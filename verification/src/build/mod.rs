//! Build a whole tree from entries in key order, one pass, bottom-up.
//!
//! Every level is chunked by the same rule ([`crate::boundary`]); a node that closes
//! becomes one child entry of the level above. The root is the single node of the
//! lowest level that produces exactly one node. An empty tree is one empty leaf.

use crate::chunk;
use crate::chunk::{empty_leaf, Body, ByContent, Closed, CloseFault, LevelChunker, Pushed, Rule};
pub use crate::chunk::SplitRule;
use crate::node;
use crate::node::{BuildError, NodeBuilder, NodeView, Row, Value};
use crate::order;
use crate::store::{BlockMap, Blocks, BlocksMut, MemBlocks, Overlay};
use crate::tower;
use crate::tree;
use crate::Cid;
use vstd::prelude::*;

verus! {

/// Why a tree could not be built.
#[derive(Clone, Copy, Debug, PartialEq, Eq)]
pub enum TreeError {
    Node(BuildError),
    /// More levels than a `u8` can number.
    TooDeep,
    /// An earlier call failed after nodes had been closed; the builder's output can
    /// no longer be the canonical tree, so it refuses to go on.
    Poisoned,
}

/// Parity blocks with their ids: what a writer must store so that the redundancy
/// its nodes promise actually exists.
pub type ParityBlocks = Vec<(Cid, Vec<u8>)>;

// ---------------------------------------------------------------------------
// the model
// ---------------------------------------------------------------------------

/// A block under its id.
#[verifier::ext_equal]
pub struct Put {
    pub id: Seq<u8>,
    pub bytes: Seq<u8>,
}

/// The blocks of a list, by id; the last one under an id counts.
pub open spec fn map_of(puts: Seq<Put>) -> BlockMap
    decreases puts.len(),
{
    if puts.len() == 0 {
        Map::empty()
    } else {
        map_of(puts.drop_last()).insert(puts.last().id, puts.last().bytes)
    }
}

/// Does a store hold every block of a list? Only where no two of them clash.
pub open spec fn agrees(w: BlockMap, puts: Seq<Put>) -> bool {
    forall|i: int|
        0 <= i < puts.len() ==> w.contains_key((#[trigger] puts[i]).id) && w[puts[i].id]
            == puts[i].bytes
}

/// A node as a block.
pub open spec fn block_of(n: NodeView) -> Put {
    Put { id: chunk::node_id(n), bytes: node::encode(n) }
}

/// Nodes as blocks.
pub open spec fn blocks_of(ns: Seq<NodeView>) -> Seq<Put> {
    ns.map_values(|n: NodeView| block_of(n))
}

/// Blocks that were handed over.
pub open spec fn puts_of(v: Seq<(Cid, Vec<u8>)>) -> Seq<Put> {
    v.map_values(|b: (Cid, Vec<u8>)| Put { id: b.0@, bytes: b.1@ })
}

/// One level being built: the open node, the parity coded for the closed ones, the
/// first closed node while it is the only one, and how many were closed: none, one,
/// or two and more.
#[verifier::ext_equal]
pub struct LevelView {
    pub open: Seq<Row>,
    pub coded: Seq<Seq<u8>>,
    pub first: Option<NodeView>,
    pub closed: int,
}

/// A level that has seen nothing.
pub open spec fn new_level() -> LevelView {
    LevelView { open: Seq::empty(), coded: Seq::empty(), first: None, closed: 0 }
}

/// A build in progress: its levels, the blocks it knows of, and the nodes closed.
#[verifier::ext_equal]
pub struct State {
    pub levels: Seq<LevelView>,
    pub puts: Seq<Put>,
    pub nodes: Seq<NodeView>,
}

/// Why a build stops.
#[verifier::ext_equal]
pub enum Stop {
    Closing(CloseFault),
    Row(BuildError),
    TooDeep,
}

/// Is this error that stop?
pub open spec fn is_stop(e: TreeError, s: Stop) -> bool {
    match s {
        Stop::Closing(f) => e matches TreeError::Node(x) && chunk::is_fault(x, f),
        Stop::Row(x) => e == TreeError::Node(x),
        Stop::TooDeep => e == TreeError::TooDeep,
    }
}

/// A level opens when it gets its first entry.
pub open spec fn with_level(s: State, l: nat) -> State {
    if l == s.levels.len() {
        State { levels: s.levels.push(new_level()), puts: s.puts, nodes: s.nodes }
    } else {
        s
    }
}

/// A level after its chunker took an entry.
pub open spec fn with_open(s: State, l: nat, open: Seq<Row>, coded: Seq<Seq<u8>>) -> State {
    let lv = s.levels[l as int];
    State {
        levels: s.levels.update(
            l as int,
            LevelView { open, coded: lv.coded + coded, first: lv.first, closed: lv.closed },
        ),
        puts: s.puts,
        nodes: s.nodes,
    }
}

/// A level with another count of closed nodes.
pub open spec fn with_count(s: State, l: nat, first: Option<NodeView>, closed: int) -> State {
    let lv = s.levels[l as int];
    State {
        levels: s.levels.update(
            l as int,
            LevelView { open: lv.open, coded: lv.coded, first, closed },
        ),
        puts: s.puts,
        nodes: s.nodes,
    }
}

/// A node is handed over, and can be read back from then on.
pub open spec fn with_node(s: State, n: NodeView) -> State {
    State { levels: s.levels, puts: s.puts.push(block_of(n)), nodes: s.nodes.push(n) }
}

/// An entry for level `l`.
pub open spec fn spec_add(rule: Rule, s: State, l: nat, row: Row) -> Result<State, Stop>
    decreases 256 - l, 2nat, 0nat,
{
    if l > 255 {
        Err(Stop::TooDeep)
    } else {
        let t = with_level(s, l);
        match chunk::pushed(
            map_of(t.puts),
            Seq::empty(),
            l as u8,
            rule,
            t.levels[l as int].open,
            row,
        ) {
            Pushed::Closing(f) => Err(Stop::Closing(f)),
            Pushed::Row(e) => Err(Stop::Row(e)),
            Pushed::Done { closed, open, coded } => spec_closed(
                rule,
                with_open(t, l, open, coded),
                l,
                closed,
                closed.len(),
            ),
        }
    }
}

/// The first `n` nodes that level `l` just closed.
pub open spec fn spec_closed(rule: Rule, s: State, l: nat, nodes: Seq<NodeView>, n: nat) -> Result<
    State,
    Stop,
>
    decreases 256 - l, 1nat, n,
{
    if n == 0 || l > 255 {
        Ok(s)
    } else {
        match spec_closed(rule, s, l, nodes, (n - 1) as nat) {
            Err(e) => Err(e),
            Ok(t) => spec_taken(rule, t, l, nodes[n - 1]),
        }
    }
}

/// A node that level `l` closed: the first one waits until a second one shows that
/// the level is not the root's.
pub open spec fn spec_taken(rule: Rule, s: State, l: nat, n: NodeView) -> Result<State, Stop>
    decreases 256 - l, 0nat, 0nat,
{
    let t = with_node(s, n);
    let lv = t.levels[l as int];
    if l > 255 {
        Ok(s)
    } else if lv.closed == 0 {
        Ok(with_count(t, l, Some(n), 1))
    } else {
        let u = with_count(t, l, None, 2);
        match lv.first {
            None => spec_add(rule, u, l + 1, chunk::child_row(n)),
            Some(f) => match spec_add(rule, u, l + 1, chunk::child_row(f)) {
                Err(e) => Err(e),
                Ok(v) => spec_add(rule, v, l + 1, chunk::child_row(n)),
            },
        }
    }
}

/// A finished build.
#[verifier::ext_equal]
pub struct Built {
    pub state: State,
    pub root: NodeView,
    pub parity: Seq<Seq<u8>>,
}

/// What is left of level `l` when it ends: the open node, closed, if there is one.
pub open spec fn last_node(s: State, l: nat) -> Result<chunk::Made, CloseFault> {
    chunk::closing(map_of(s.puts), Seq::empty(), l as u8, s.levels[l as int].open)
}

/// A level whose open node is closed and whose parity is taken.
pub open spec fn drained(s: State, l: nat) -> State {
    let lv = s.levels[l as int];
    State {
        levels: s.levels.update(
            l as int,
            LevelView {
                open: Seq::empty(),
                coded: Seq::empty(),
                first: lv.first,
                closed: lv.closed,
            },
        ),
        puts: s.puts,
        nodes: s.nodes,
    }
}

/// Closing the levels from `l` up.
pub open spec fn spec_finish(rule: Rule, s: State, l: nat, parity: Seq<Seq<u8>>) -> Result<Built, Stop>
    decreases 256 - l,
{
    if l > 255 || l >= s.levels.len() {
        Err(Stop::TooDeep)
    } else {
        let lv = s.levels[l as int];
        let made = last_node(s, l);
        if lv.open.len() > 0 && made is Err {
            Err(Stop::Closing(made->Err_0))
        } else {
            let (nodes, coded) = if lv.open.len() > 0 {
                (seq![made->Ok_0.node], made->Ok_0.coded)
            } else {
                (Seq::empty(), Seq::empty())
            };
            let paid = parity + (lv.coded + coded);
            match spec_closed(rule, drained(s, l), l, nodes, nodes.len()) {
                Err(e) => Err(e),
                Ok(u) => match u.levels[l as int].first {
                    Some(root) => Ok(Built { state: u, root, parity: paid }),
                    None => spec_finish(rule, u, l + 1, paid),
                },
            }
        }
    }
}

// ---------------------------------------------------------------------------
// the shape of a build
// ---------------------------------------------------------------------------

/// The count of one level: the first node is kept while it is the only one, and
/// there is a level above exactly where there are two.
pub open spec fn tallied(levels: Seq<LevelView>, i: int) -> bool {
    &&& 0 <= levels[i].closed <= 2
    &&& levels[i].closed == 1 <==> levels[i].first is Some
    &&& levels[i].closed == 2 <==> i + 1 < levels.len()
}

/// What holds of one level: besides, it has an entry.
pub open spec fn level_shaped(levels: Seq<LevelView>, i: int) -> bool {
    tallied(levels, i) && (levels[i].open.len() > 0 || levels[i].closed > 0)
}

/// What holds of the levels from `l` up.
pub open spec fn shaped(levels: Seq<LevelView>, l: nat) -> bool {
    &&& levels.len() <= 256
    &&& forall|i: int| l <= i < levels.len() ==> #[trigger] level_shaped(levels, i)
}

/// What a step on level `l` leaves alone, and what only grows.
pub open spec fn stepped(s: State, t: State, l: nat) -> bool {
    &&& t.levels.len() >= s.levels.len()
    &&& forall|i: int| 0 <= i < l && i < s.levels.len() ==> #[trigger] t.levels[i] == s.levels[i]
    &&& s.puts.is_prefix_of(t.puts)
    &&& s.nodes.is_prefix_of(t.nodes)
}

/// Prefixes of prefixes.
proof fn lemma_prefix<A>(a: Seq<A>, b: Seq<A>, c: Seq<A>)
    requires
        a.is_prefix_of(b),
        b.is_prefix_of(c),
    ensures
        a.is_prefix_of(c),
{
    assert(a =~= c.subrange(0, a.len() as int));
}

/// A list is a prefix of itself and of what it is pushed to.
proof fn lemma_prefix_push<A>(a: Seq<A>, x: A)
    ensures
        a.is_prefix_of(a),
        a.is_prefix_of(a.push(x)),
{
    assert(a =~= a.subrange(0, a.len() as int));
    assert(a =~= a.push(x).subrange(0, a.len() as int));
}

/// An entry keeps the shape.
pub proof fn lemma_add_shaped(rule: Rule, s: State, l: nat, row: Row)
    requires
        l <= s.levels.len(),
        shaped(s.levels, l),
        spec_add(rule, s, l, row) is Ok,
    ensures
        ({
            let t = spec_add(rule, s, l, row)->Ok_0;
            &&& stepped(s, t, l)
            &&& l < t.levels.len()
            &&& shaped(t.levels, l)
        }),
    decreases 256 - l, 2nat, 0nat,
{
    let t = with_level(s, l);
    assert(l < t.levels.len());
    assert(t.levels.len() <= 256);
    let lv = t.levels[l as int];
    assert(tallied(t.levels, l as int)) by {
        if l < s.levels.len() {
            assert(level_shaped(s.levels, l as int));
        }
    }
    if let Pushed::Done { closed, open, coded } = chunk::pushed(
        map_of(t.puts),
        Seq::empty(),
        l as u8,
        rule,
        lv.open,
        row,
    ) {
        let u = with_open(t, l, open, coded);
        assert(tallied(u.levels, l as int));
        assert forall|i: int| l + 1 <= i < u.levels.len() implies #[trigger] level_shaped(
            u.levels,
            i,
        ) by {
            assert(level_shaped(s.levels, i));
        }
        lemma_prefix_push(s.puts, s.puts[0]);
        lemma_prefix_push(s.nodes, s.nodes[0]);
        lemma_closed_shaped(rule, u, l, closed, closed.len());
        let v = spec_add(rule, s, l, row)->Ok_0;
        lemma_prefix(s.puts, u.puts, v.puts);
        lemma_prefix(s.nodes, u.nodes, v.nodes);
        assert(closed.len() > 0 || open.len() > 0) by {
            lemma_pushed_something(map_of(t.puts), l as u8, rule, lv.open, row);
        }
        assert forall|i: int| l <= i < v.levels.len() implies #[trigger] level_shaped(
            v.levels,
            i,
        ) by {
            if i == l {
                assert(v.levels[i].open == open);
            }
        }
    }
}

/// An entry goes somewhere.
proof fn lemma_pushed_something(m: BlockMap, level: u8, rule: Rule, open: Seq<Row>, row: Row)
    ensures
        chunk::pushed(m, Seq::empty(), level, rule, open, row) matches Pushed::Done {
            closed,
            open: next,
            ..
        } ==> closed.len() > 0 || next.len() > 0,
{
}

/// Closed nodes keep the shape.
pub proof fn lemma_closed_shaped(rule: Rule, s: State, l: nat, nodes: Seq<NodeView>, n: nat)
    requires
        l < s.levels.len(),
        s.levels.len() <= 256,
        tallied(s.levels, l as int),
        shaped(s.levels, l + 1),
        spec_closed(rule, s, l, nodes, n) is Ok,
    ensures
        ({
            let t = spec_closed(rule, s, l, nodes, n)->Ok_0;
            &&& stepped(s, t, l)
            &&& tallied(t.levels, l as int)
            &&& shaped(t.levels, l + 1)
            &&& t.levels[l as int].open == s.levels[l as int].open
            &&& t.levels[l as int].coded == s.levels[l as int].coded
            &&& t.levels[l as int].closed >= s.levels[l as int].closed
            &&& n > 0 ==> t.levels[l as int].closed > 0
        }),
    decreases 256 - l, 1nat, n,
{
    lemma_prefix_push(s.puts, s.puts[0]);
    lemma_prefix_push(s.nodes, s.nodes[0]);
    if n > 0 {
        lemma_closed_shaped(rule, s, l, nodes, (n - 1) as nat);
        let t = spec_closed(rule, s, l, nodes, (n - 1) as nat)->Ok_0;
        lemma_taken_shaped(rule, t, l, nodes[n - 1]);
        let u = spec_taken(rule, t, l, nodes[n - 1])->Ok_0;
        lemma_prefix(s.puts, t.puts, u.puts);
        lemma_prefix(s.nodes, t.nodes, u.nodes);
    }
}

/// A closed node keeps the shape.
proof fn lemma_taken_shaped(rule: Rule, s: State, l: nat, n: NodeView)
    requires
        l < s.levels.len(),
        s.levels.len() <= 256,
        tallied(s.levels, l as int),
        shaped(s.levels, l + 1),
        spec_taken(rule, s, l, n) is Ok,
    ensures
        ({
            let t = spec_taken(rule, s, l, n)->Ok_0;
            &&& stepped(s, t, l)
            &&& stepped(with_node(s, n), t, l)
            &&& tallied(t.levels, l as int)
            &&& shaped(t.levels, l + 1)
            &&& t.levels[l as int].open == s.levels[l as int].open
            &&& t.levels[l as int].coded == s.levels[l as int].coded
            &&& t.levels[l as int].closed >= s.levels[l as int].closed
            &&& t.levels[l as int].closed > 0
        }),
    decreases 256 - l, 0nat, 0nat,
{
    let t = with_node(s, n);
    let lv = t.levels[l as int];
    let r = spec_taken(rule, s, l, n)->Ok_0;
    lemma_prefix_push(s.puts, block_of(n));
    lemma_prefix_push(s.nodes, n);
    lemma_prefix_push(t.puts, block_of(n));
    lemma_prefix_push(t.nodes, n);
    if lv.closed == 0 {
        assert(s.levels.len() == l + 1);
    } else {
        let u = with_count(t, l, None, 2);
        assert forall|i: int| l + 1 <= i < u.levels.len() implies #[trigger] level_shaped(
            u.levels,
            i,
        ) by {
            assert(level_shaped(s.levels, i));
        }
        match lv.first {
            None => {
                lemma_add_shaped(rule, u, l + 1, chunk::child_row(n));
            },
            Some(f) => {
                lemma_add_shaped(rule, u, l + 1, chunk::child_row(f));
                let v = spec_add(rule, u, l + 1, chunk::child_row(f))->Ok_0;
                lemma_add_shaped(rule, v, l + 1, chunk::child_row(n));
                lemma_prefix(u.puts, v.puts, r.puts);
                lemma_prefix(u.nodes, v.nodes, r.nodes);
                assert(v.levels[l as int] == u.levels[l as int]);
            },
        }
        assert(r.levels[l as int] == u.levels[l as int]);
        lemma_prefix(s.puts, u.puts, r.puts);
        lemma_prefix(s.nodes, u.nodes, r.nodes);
    }
}

// ---------------------------------------------------------------------------
// a build makes the tree of its rows
// ---------------------------------------------------------------------------

/// Does a store hold every block of a build, and is every node of it a node?
pub open spec fn backed(w: BlockMap, s: State) -> bool {
    &&& agrees(w, s.puts)
    &&& forall|i: int| 0 <= i < s.nodes.len() ==> (#[trigger] s.nodes[i]).valid()
}

/// A store that holds a list's blocks holds the map they make.
proof fn lemma_agrees(w: BlockMap, puts: Seq<Put>)
    requires
        agrees(w, puts),
    ensures
        map_of(puts).submap_of(w),
    decreases puts.len(),
{
    if puts.len() > 0 {
        let rest = puts.drop_last();
        assert forall|i: int| 0 <= i < rest.len() implies w.contains_key((#[trigger] rest[i]).id)
            && w[rest[i].id] == rest[i].bytes by {
            assert(rest[i] == puts[i]);
        }
        lemma_agrees(w, rest);
        let k = puts.len() - 1;
        assert(w.contains_key(puts[k].id));
        assert forall|id: Seq<u8>| #[trigger] map_of(puts).dom().contains(id) implies w.dom().contains(
            id,
        ) && map_of(puts)[id] == w[id] by {
            if id != puts[k].id {
                assert(map_of(rest).dom().contains(id));
                assert(w.dom().contains(id));
            }
        }
    }
}

/// What backs a build backs an earlier stage of it.
proof fn lemma_backed_before(w: BlockMap, s: State, t: State)
    requires
        backed(w, t),
        s.puts.is_prefix_of(t.puts),
        s.nodes.is_prefix_of(t.nodes),
    ensures
        backed(w, s),
{
    assert forall|i: int| 0 <= i < s.puts.len() implies w.contains_key((#[trigger] s.puts[i]).id)
        && w[s.puts[i].id] == s.puts[i].bytes by {
        assert(s.puts[i] == t.puts[i]);
    }
    assert forall|i: int| 0 <= i < s.nodes.len() implies (#[trigger] s.nodes[i]).valid() by {
        assert(s.nodes[i] == t.nodes[i]);
    }
}

/// A node that was handed over is kept.
proof fn lemma_handed_kept(w: BlockMap, s: State, n: NodeView, t: State)
    requires
        backed(w, t),
        with_node(s, n).puts.is_prefix_of(t.puts),
        with_node(s, n).nodes.is_prefix_of(t.nodes),
    ensures
        tower::kept(w, n),
{
    reveal(tower::kept);
    let a = with_node(s, n);
    assert(a.puts[s.puts.len() as int] == t.puts[s.puts.len() as int]);
    assert(a.nodes[s.nodes.len() as int] == t.nodes[s.nodes.len() as int]);
}

/// Does a level count these nodes?
pub open spec fn counts(w: BlockMap, lv: LevelView, ns: Seq<NodeView>) -> bool {
    &&& forall|i: int| 0 <= i < ns.len() ==> tower::kept(w, #[trigger] ns[i])
    &&& if ns.len() == 0 {
        lv.closed == 0 && lv.first is None
    } else if ns.len() == 1 {
        lv.closed == 1 && lv.first == Some(ns[0])
    } else {
        lv.closed == 2 && lv.first is None
    }
}

/// The rows a level has passed up: those of its nodes, once there are two.
pub open spec fn passed(ns: Seq<NodeView>) -> Seq<Row> {
    if ns.len() >= 2 {
        tower::child_rows(ns)
    } else {
        Seq::empty()
    }
}

/// The nodes a level has closed after these rows.
pub open spec fn closed_nodes(w: BlockMap, rule: Rule, l: nat, rows: Seq<Row>) -> Seq<NodeView> {
    tower::nodes_of(
        w,
        l as u8,
        chunk::cut_from(l as u8, rule, chunk::uncut(), rows).closed,
    )
}

/// Are the levels from `l` up what these rows make?
pub open spec fn grown(w: BlockMap, rule: Rule, levels: Seq<LevelView>, l: nat, rows: Seq<Row>) -> bool
    decreases 256 - l,
{
    if rows.len() == 0 {
        levels.len() == l
    } else {
        let ns = closed_nodes(w, rule, l, rows);
        &&& l <= 255
        &&& l < levels.len()
        &&& levels[l as int].open == chunk::cut_from(l as u8, rule, chunk::uncut(), rows).open
        &&& counts(w, levels[l as int], ns)
        &&& grown(w, rule, levels, l + 1, passed(ns))
    }
}

/// The levels from `l` up do not depend on those below.
proof fn lemma_grown_frame(
    w: BlockMap,
    rule: Rule,
    a: Seq<LevelView>,
    b: Seq<LevelView>,
    l: nat,
    rows: Seq<Row>,
)
    requires
        grown(w, rule, a, l, rows),
        a.len() == b.len(),
        forall|i: int| l <= i < a.len() ==> #[trigger] a[i] == b[i],
    ensures
        grown(w, rule, b, l, rows),
    decreases 256 - l,
{
    if rows.len() > 0 {
        let ns = closed_nodes(w, rule, l, rows);
        assert(a[l as int] == b[l as int]);
        lemma_grown_frame(w, rule, a, b, l + 1, passed(ns));
    }
}

/// What a push closes and leaves open is one more step of the cut.
proof fn lemma_pushed_step(
    m: BlockMap,
    w: BlockMap,
    level: u8,
    rule: Rule,
    c: chunk::Cut,
    row: Row,
)
    requires
        m.submap_of(w),
        chunk::pushed(m, Seq::empty(), level, rule, c.open, row) is Done,
    ensures
        chunk::pushed(m, Seq::empty(), level, rule, c.open, row) matches Pushed::Done {
            closed,
            open,
            ..
        } && {
            let d = chunk::step(level, rule, c, row);
            &&& d.open == open
            &&& tower::nodes_of(w, level, d.closed) == tower::nodes_of(w, level, c.closed) + closed
        },
{
    let d0 = chunk::made_room(c, row);
    let open = d0.open.push(row);
    let base = tower::nodes_of(w, level, c.closed);
    if chunk::overflows(c.open, row) {
        tower::lemma_fresh_close(m, w, level, c.open);
        assert(tower::nodes_of(w, level, d0.closed) =~= base + seq![
            tower::node_of(w, level, c.open),
        ]);
    }
    if chunk::fires(level, rule, open) {
        tower::lemma_fresh_close(m, w, level, open);
        assert(tower::nodes_of(w, level, d0.closed.push(open)) =~= tower::nodes_of(
            w,
            level,
            d0.closed,
        ) + seq![tower::node_of(w, level, open)]);
    }
    if let Pushed::Done { closed, open: o, coded } = chunk::pushed(
        m,
        Seq::empty(),
        level,
        rule,
        c.open,
        row,
    ) {
        assert(tower::nodes_of(w, level, chunk::step(level, rule, c, row).closed) =~= base + closed);
    }
}

/// An entry for level `l`, and what the levels from there up make of it.
proof fn lemma_add_grown(w: BlockMap, rule: Rule, s: State, l: nat, row: Row, rows: Seq<Row>)
    requires
        l <= s.levels.len(),
        shaped(s.levels, l),
        spec_add(rule, s, l, row) is Ok,
        backed(w, spec_add(rule, s, l, row)->Ok_0),
        grown(w, rule, s.levels, l, rows),
    ensures
        grown(w, rule, spec_add(rule, s, l, row)->Ok_0.levels, l, rows.push(row)),
    decreases 256 - l, 2nat, 0nat,
{
    let r = spec_add(rule, s, l, row)->Ok_0;
    lemma_add_shaped(rule, s, l, row);
    lemma_backed_before(w, s, r);
    lemma_agrees(w, s.puts);
    let t = with_level(s, l);
    let lv = t.levels[l as int];
    let c = chunk::cut_from(l as u8, rule, chunk::uncut(), rows);
    let m = map_of(t.puts);
    let base = tower::nodes_of(w, l as u8, c.closed);
    assert(rows.push(row).drop_last() =~= rows);
    assert(chunk::cut_from(l as u8, rule, chunk::uncut(), rows.push(row)) == chunk::step(
        l as u8,
        rule,
        c,
        row,
    ));
    if rows.len() == 0 {
        assert(c == chunk::uncut());
        assert(base =~= Seq::<NodeView>::empty());
        assert(l == s.levels.len());
    }
    assert(lv.open =~= c.open);
    assert(counts(w, lv, base));
    lemma_pushed_step(m, w, l as u8, rule, c, row);
    if let Pushed::Done { closed, open, coded } = chunk::pushed(
        m,
        Seq::empty(),
        l as u8,
        rule,
        lv.open,
        row,
    ) {
        let u = with_open(t, l, open, coded);
        assert(grown(w, rule, u.levels, l + 1, passed(base))) by {
            if rows.len() == 0 {
                assert(passed(base).len() == 0);
            } else {
                lemma_grown_frame(w, rule, s.levels, u.levels, l + 1, passed(base));
            }
        }
        assert(tallied(u.levels, l as int)) by {
            if l < s.levels.len() {
                assert(level_shaped(s.levels, l as int));
            }
        }
        assert forall|i: int| l + 1 <= i < u.levels.len() implies #[trigger] level_shaped(
            u.levels,
            i,
        ) by {
            assert(level_shaped(s.levels, i));
        }
        lemma_closed_grown(w, rule, u, l, closed, closed.len(), base);
        lemma_closed_shaped(rule, u, l, closed, closed.len());
        assert(closed.take(closed.len() as int) =~= closed);
        assert(closed_nodes(w, rule, l, rows.push(row)) == base + closed);
    }
}

/// Closed nodes, and what the levels above make of them.
proof fn lemma_closed_grown(
    w: BlockMap,
    rule: Rule,
    s: State,
    l: nat,
    nodes: Seq<NodeView>,
    n: nat,
    base: Seq<NodeView>,
)
    requires
        l < s.levels.len(),
        s.levels.len() <= 256,
        n <= nodes.len(),
        tallied(s.levels, l as int),
        shaped(s.levels, l + 1),
        spec_closed(rule, s, l, nodes, n) is Ok,
        backed(w, spec_closed(rule, s, l, nodes, n)->Ok_0),
        counts(w, s.levels[l as int], base),
        grown(w, rule, s.levels, l + 1, passed(base)),
    ensures
        ({
            let t = spec_closed(rule, s, l, nodes, n)->Ok_0;
            &&& counts(w, t.levels[l as int], base + nodes.take(n as int))
            &&& grown(w, rule, t.levels, l + 1, passed(base + nodes.take(n as int)))
        }),
    decreases 256 - l, 1nat, n,
{
    if n == 0 {
        assert(base + nodes.take(0) =~= base);
    } else {
        let t = spec_closed(rule, s, l, nodes, (n - 1) as nat)->Ok_0;
        let u = spec_closed(rule, s, l, nodes, n)->Ok_0;
        lemma_closed_shaped(rule, s, l, nodes, (n - 1) as nat);
        lemma_taken_shaped(rule, t, l, nodes[n - 1]);
        lemma_backed_before(w, t, u);
        lemma_closed_grown(w, rule, s, l, nodes, (n - 1) as nat, base);
        lemma_taken_grown(w, rule, t, l, nodes[n - 1], base + nodes.take(n - 1));
        assert((base + nodes.take(n - 1)).push(nodes[n - 1]) =~= base + nodes.take(n as int));
    }
}

/// One more closed node, and what the levels above make of it.
proof fn lemma_taken_grown(
    w: BlockMap,
    rule: Rule,
    s: State,
    l: nat,
    n: NodeView,
    base: Seq<NodeView>,
)
    requires
        l < s.levels.len(),
        s.levels.len() <= 256,
        tallied(s.levels, l as int),
        shaped(s.levels, l + 1),
        spec_taken(rule, s, l, n) is Ok,
        backed(w, spec_taken(rule, s, l, n)->Ok_0),
        counts(w, s.levels[l as int], base),
        grown(w, rule, s.levels, l + 1, passed(base)),
    ensures
        ({
            let t = spec_taken(rule, s, l, n)->Ok_0;
            &&& counts(w, t.levels[l as int], base.push(n))
            &&& grown(w, rule, t.levels, l + 1, passed(base.push(n)))
        }),
    decreases 256 - l, 0nat, 0nat,
{
    let t = with_node(s, n);
    let lv = t.levels[l as int];
    let r = spec_taken(rule, s, l, n)->Ok_0;
    let all = base.push(n);
    lemma_taken_shaped(rule, s, l, n);
    lemma_handed_kept(w, s, n, r);
    assert forall|i: int| 0 <= i < all.len() implies tower::kept(w, #[trigger] all[i]) by {
        if i < base.len() {
            assert(all[i] == base[i]);
            assert(tower::kept(w, base[i]));
        }
    }
    if lv.closed == 0 {
        assert(base.len() == 0);
        assert(s.levels.len() == l + 1);
    } else {
        let u = with_count(t, l, None, 2);
        assert forall|i: int| l + 1 <= i < u.levels.len() implies #[trigger] level_shaped(
            u.levels,
            i,
        ) by {
            assert(level_shaped(s.levels, i));
        }
        lemma_grown_frame(w, rule, s.levels, u.levels, l + 1, passed(base));
        match lv.first {
            None => {
                lemma_add_shaped(rule, u, l + 1, chunk::child_row(n));
                lemma_add_grown(w, rule, u, l + 1, chunk::child_row(n), passed(base));
                assert(passed(base).push(chunk::child_row(n)) =~= passed(all));
            },
            Some(f) => {
                lemma_add_shaped(rule, u, l + 1, chunk::child_row(f));
                let v = spec_add(rule, u, l + 1, chunk::child_row(f))->Ok_0;
                lemma_add_shaped(rule, v, l + 1, chunk::child_row(n));
                lemma_backed_before(w, v, r);
                lemma_add_grown(w, rule, u, l + 1, chunk::child_row(f), passed(base));
                let one = passed(base).push(chunk::child_row(f));
                lemma_add_grown(w, rule, v, l + 1, chunk::child_row(n), one);
                assert(base[0] == f);
                assert(one.push(chunk::child_row(n)) =~= passed(all));
                assert(v.levels[l as int] == u.levels[l as int]);
            },
        }
        assert(r.levels[l as int] == u.levels[l as int]);
    }
}

/// Closing the levels gives the root over their rows, and every node of the tree is
/// there.
proof fn lemma_finish_grown(
    w: BlockMap,
    rule: Rule,
    s: State,
    l: nat,
    parity: Seq<Seq<u8>>,
    rows: Seq<Row>,
)
    requires
        l < s.levels.len(),
        shaped(s.levels, l),
        spec_finish(rule, s, l, parity) is Ok,
        backed(w, spec_finish(rule, s, l, parity)->Ok_0.state),
        grown(w, rule, s.levels, l, rows),
        rows.len() > 0,
    ensures
        s.puts.is_prefix_of(spec_finish(rule, s, l, parity)->Ok_0.state.puts),
        s.nodes.is_prefix_of(spec_finish(rule, s, l, parity)->Ok_0.state.nodes),
        tower::top_from(w, rule, rows, l) == Some(spec_finish(rule, s, l, parity)->Ok_0.root),
        tower::stands_from(w, rule, rows, l),
    decreases 256 - l,
{
    let lv = s.levels[l as int];
    let made = last_node(s, l);
    let d = drained(s, l);
    let nodes: Seq<NodeView> = if lv.open.len() > 0 {
        seq![made->Ok_0.node]
    } else {
        Seq::empty()
    };
    let coded: Seq<Seq<u8>> = if lv.open.len() > 0 {
        made->Ok_0.coded
    } else {
        Seq::empty()
    };
    let c = chunk::cut_from(l as u8, rule, chunk::uncut(), rows);
    let base = closed_nodes(w, rule, l, rows);
    let r = spec_finish(rule, s, l, parity)->Ok_0;
    let u = spec_closed(rule, d, l, nodes, nodes.len())->Ok_0;
    assert(level_shaped(s.levels, l as int));
    assert(tallied(d.levels, l as int));
    assert forall|i: int| l + 1 <= i < d.levels.len() implies #[trigger] level_shaped(d.levels, i) by {
        assert(level_shaped(s.levels, i));
    }
    lemma_closed_shaped(rule, d, l, nodes, nodes.len());
    assert forall|i: int| l + 1 <= i < u.levels.len() implies #[trigger] level_shaped(u.levels, i) by {}
    lemma_finish_prefix(rule, u, l + 1, parity + (lv.coded + coded));
    lemma_prefix_push(u.puts, u.puts[0]);
    lemma_prefix_push(u.nodes, u.nodes[0]);
    assert(u.puts.is_prefix_of(r.state.puts) && u.nodes.is_prefix_of(r.state.nodes));
    lemma_prefix(s.puts, u.puts, r.state.puts);
    lemma_prefix(s.nodes, u.nodes, r.state.nodes);
    lemma_backed_before(w, u, r.state);
    lemma_backed_before(w, s, r.state);
    lemma_agrees(w, s.puts);
    lemma_grown_frame(w, rule, s.levels, d.levels, l + 1, passed(base));
    lemma_closed_grown(w, rule, d, l, nodes, nodes.len(), base);
    assert(nodes.take(nodes.len() as int) =~= nodes);
    let ns = tower::level_nodes(w, rule, l as u8, rows);
    assert(ns =~= base + nodes) by {
        if lv.open.len() > 0 {
            tower::lemma_fresh_close(map_of(s.puts), w, l as u8, lv.open);
            assert(tower::nodes_of(w, l as u8, c.closed.push(c.open)) =~= base + seq![
                tower::node_of(w, l as u8, c.open),
            ]);
        } else {
            assert(base + nodes =~= base);
        }
    }
    assert forall|i: int| 0 <= i < ns.len() implies tower::kept(w, #[trigger] ns[i]) by {}
    match u.levels[l as int].first {
        Some(root) => {
            assert(ns.len() == 1);
        },
        None => {
            assert(u.levels[l as int].closed == 2);
            assert(ns.len() >= 2);
            lemma_finish_grown(
                w,
                rule,
                u,
                l + 1,
                parity + (lv.coded + coded),
                tower::child_rows(ns),
            );
        },
    }
}

/// A finished build has all that it had before.
proof fn lemma_finish_prefix(rule: Rule, s: State, l: nat, parity: Seq<Seq<u8>>)
    requires
        shaped(s.levels, l),
    ensures
        spec_finish(rule, s, l, parity) is Ok ==> {
            let t = spec_finish(rule, s, l, parity)->Ok_0.state;
            s.puts.is_prefix_of(t.puts) && s.nodes.is_prefix_of(t.nodes)
        },
    decreases 256 - l,
{
    if spec_finish(rule, s, l, parity) is Ok {
        let lv = s.levels[l as int];
        let made = last_node(s, l);
        let d = drained(s, l);
        let nodes: Seq<NodeView> = if lv.open.len() > 0 {
            seq![made->Ok_0.node]
        } else {
            Seq::empty()
        };
        let coded: Seq<Seq<u8>> = if lv.open.len() > 0 {
            made->Ok_0.coded
        } else {
            Seq::empty()
        };
        assert(level_shaped(s.levels, l as int));
        assert(tallied(d.levels, l as int));
        assert forall|i: int| l + 1 <= i < d.levels.len() implies #[trigger] level_shaped(
            d.levels,
            i,
        ) by {
            assert(level_shaped(s.levels, i));
        }
        lemma_closed_shaped(rule, d, l, nodes, nodes.len());
        let u = spec_closed(rule, d, l, nodes, nodes.len())->Ok_0;
        if u.levels[l as int].first is None {
            lemma_finish_prefix(rule, u, l + 1, parity + (lv.coded + coded));
            let t = spec_finish(rule, s, l, parity)->Ok_0.state;
            lemma_prefix(s.puts, u.puts, t.puts);
            lemma_prefix(s.nodes, u.nodes, t.nodes);
        }
    }
}

// ---------------------------------------------------------------------------
// the builder
// ---------------------------------------------------------------------------

struct Level<R: SplitRule> {
    chunker: LevelChunker<R>,
    /// The first closed node, held back until a second one proves this level is not
    /// the root.
    first: Option<Closed>,
    /// None, one, or two and more.
    closed: u8,
}

/// Is this that level?
spec fn is_level<R: SplitRule>(lv: Level<R>, l: int, rule: Rule, v: LevelView) -> bool {
    &&& lv.chunker.wf()
    &&& lv.chunker.level() == l
    &&& lv.chunker.rule() == rule
    &&& lv.chunker.index() == Seq::<crate::parity::Known>::empty()
    &&& lv.chunker.open() == v.open
    &&& lv.chunker.coded() == v.coded
    &&& lv.closed == v.closed
    &&& match (lv.first, v.first) {
        (None, None) => true,
        (Some(c), Some(n)) => c.is(n),
        _ => false,
    }
}

/// Are these those levels?
spec fn are_levels<R: SplitRule>(levels: Seq<Level<R>>, rule: Rule, vs: Seq<LevelView>) -> bool {
    &&& levels.len() == vs.len()
    &&& forall|i: int| 0 <= i < levels.len() ==> is_level(#[trigger] levels[i], i, rule, vs[i])
}

/// Is every closed node a node?
pub open spec fn all_valid(nodes: Seq<NodeView>) -> bool {
    forall|i: int| 0 <= i < nodes.len() ==> (#[trigger] nodes[i]).valid()
}

/// Is the build, so far, that of the tree of these rows, in every store that holds
/// its blocks?
#[verifier::opaque]
pub open spec fn on_course(rule: Rule, s: State, rows: Seq<Row>) -> bool {
    forall|w: BlockMap| #[trigger] backed(w, s) ==> grown(w, rule, s.levels, 0, rows)
}

/// The rows pushed are sorted, and each is stored as the format says.
pub open spec fn proper(rows: Seq<Row>) -> bool {
    &&& node::sorted_rows(rows)
    &&& forall|i: int|
        0 <= i < rows.len() ==> node::leaf_verdict(
            (#[trigger] rows[i]).key,
            rows[i].held,
        ) is Ok
}

/// What was handed over since: the nodes closed meanwhile.
pub open spec fn handed(
    before: Seq<(Cid, Vec<u8>)>,
    after: Seq<(Cid, Vec<u8>)>,
    s: State,
    t: State,
) -> bool {
    &&& s.nodes.is_prefix_of(t.nodes)
    &&& puts_of(after) == puts_of(before) + blocks_of(t.nodes.skip(s.nodes.len() as int))
}

/// A sink that kept what was in it, and took nodes besides, each under its id.
pub open spec fn grew(before: Seq<(Cid, Vec<u8>)>, after: Seq<(Cid, Vec<u8>)>) -> bool {
    &&& before.is_prefix_of(after)
    &&& forall|i: int|
        before.len() <= i < after.len() ==> (#[trigger] after[i]).0@ == crate::spec_block_id(
            crate::kind::TREE_NODE,
            after[i].1@,
        )
}

/// Not growing.
proof fn lemma_grew_none(a: Seq<(Cid, Vec<u8>)>)
    ensures
        grew(a, a),
{
    assert(a =~= a.subrange(0, a.len() as int));
}

/// Growing twice.
proof fn lemma_grew(
    a: Seq<(Cid, Vec<u8>)>,
    b: Seq<(Cid, Vec<u8>)>,
    c: Seq<(Cid, Vec<u8>)>,
)
    requires
        grew(a, b),
        grew(b, c),
    ensures
        grew(a, c),
{
    assert(a =~= c.subrange(0, a.len() as int)) by {
        assert(a =~= b.subrange(0, a.len() as int));
        assert(b =~= c.subrange(0, b.len() as int));
        assert forall|i: int| 0 <= i < a.len() implies a[i] == c[i] by {
            assert(a[i] == b.subrange(0, a.len() as int)[i]);
            assert(b[i] == c.subrange(0, b.len() as int)[i]);
        }
    }
    assert forall|i: int| a.len() <= i < c.len() implies (#[trigger] c[i]).0@
        == crate::spec_block_id(crate::kind::TREE_NODE, c[i].1@) by {
        if i < b.len() {
            assert(b[i] == c.subrange(0, b.len() as int)[i]);
        }
    }
}

/// Handing over twice.
proof fn lemma_handed(
    a: Seq<(Cid, Vec<u8>)>,
    b: Seq<(Cid, Vec<u8>)>,
    c: Seq<(Cid, Vec<u8>)>,
    s: State,
    t: State,
    u: State,
)
    requires
        handed(a, b, s, t),
        handed(b, c, t, u),
    ensures
        handed(a, c, s, u),
{
    lemma_prefix(s.nodes, t.nodes, u.nodes);
    let x = blocks_of(t.nodes.skip(s.nodes.len() as int));
    let y = blocks_of(u.nodes.skip(t.nodes.len() as int));
    let z = blocks_of(u.nodes.skip(s.nodes.len() as int));
    assert forall|i: int| 0 <= i < z.len() implies z[i] == (x + y)[i] by {
        if i < x.len() {
            assert(t.nodes[s.nodes.len() + i] == u.nodes[s.nodes.len() + i]);
        }
    }
    assert(z =~= x + y);
    assert(puts_of(a) + x + y =~= puts_of(a) + (x + y));
}

/// Handing over nothing.
proof fn lemma_handed_none(a: Seq<(Cid, Vec<u8>)>, s: State, t: State)
    requires
        s.nodes == t.nodes,
    ensures
        handed(a, a, s, t),
{
    lemma_prefix_push(s.nodes, s.nodes[0]);
    assert(puts_of(a) + blocks_of(t.nodes.skip(s.nodes.len() as int)) =~= puts_of(a));
}

/// A fault of a closed node stays.
proof fn lemma_closed_err(rule: Rule, s: State, l: nat, nodes: Seq<NodeView>, k: nat, n: nat)
    requires
        k <= n,
        spec_closed(rule, s, l, nodes, k) is Err,
    ensures
        spec_closed(rule, s, l, nodes, n) == spec_closed(rule, s, l, nodes, k),
    decreases n,
{
    if k < n {
        lemma_closed_err(rule, s, l, nodes, k, (n - 1) as nat);
    }
}

/// One more closed node.
proof fn lemma_closed_step(
    rule: Rule,
    s: State,
    l: nat,
    nodes: Seq<NodeView>,
    k: nat,
    t: State,
)
    requires
        k < nodes.len(),
        l <= 255,
        spec_closed(rule, s, l, nodes, k) == Ok::<State, Stop>(t),
    ensures
        spec_closed(rule, s, l, nodes, k + 1) == spec_taken(rule, t, l, nodes[k as int]),
        spec_taken(rule, t, l, nodes[k as int]) is Err ==> spec_closed(
            rule,
            s,
            l,
            nodes,
            nodes.len(),
        ) == spec_taken(rule, t, l, nodes[k as int]),
{
    if spec_closed(rule, s, l, nodes, k + 1) is Err {
        lemma_closed_err(rule, s, l, nodes, k + 1, nodes.len());
    }
}

/// All closed nodes but the first.
proof fn lemma_are_rest(out: Seq<Closed>, nodes: Seq<NodeView>)
    requires
        chunk::are(out, nodes),
        out.len() > 0,
    ensures
        out[0].is(nodes[0]),
        chunk::are(out.skip(1), nodes.skip(1)),
{
    let a = out.skip(1);
    let b = nodes.skip(1);
    assert forall|i: int| 0 <= i < a.len() implies (#[trigger] a[i]).is(b[i]) by {
        assert(out[i + 1].is(nodes[i + 1]));
    }
}

/// Streaming tree builder. Nodes are handed to the sink of the call that closes
/// them, as `(cid, bytes)`.
pub struct TreeBuilder<R: SplitRule + Copy> {
    /// Every block this build has produced or been handed, so a parity member can
    /// be read back the moment its parent needs it. A reference whose bytes the
    /// builder never saw is a miss, and a miss is refused.
    seen: Overlay<'static, MemBlocks>,
    levels: Vec<Level<R>>,
    /// Last key pushed: order must hold across node boundaries too.
    last: Option<Vec<u8>>,
    poisoned: bool,
    rule: R,
    state: Ghost<State>,
    rows: Ghost<Seq<Row>>,
}

impl<R: SplitRule + Copy> TreeBuilder<R> {
    /// The build in progress.
    pub closed spec fn state(&self) -> State {
        self.state@
    }

    /// The rows pushed so far.
    pub closed spec fn rows(&self) -> Seq<Row> {
        self.rows@
    }

    pub closed spec fn rule(&self) -> Rule {
        chunk::rule_of(&self.rule)
    }

    /// Did an earlier call fail past the point of no return?
    pub closed spec fn poisoned(&self) -> bool {
        self.poisoned
    }

    /// The levels are what the state says.
    spec fn tied(&self) -> bool {
        &&& self.seen.held() == map_of(self.state@.puts)
        &&& are_levels(self.levels@, self.rule(), self.state@.levels)
        &&& all_valid(self.state@.nodes)
    }

    /// A builder that has not failed is on course for the tree of its rows.
    pub closed spec fn wf(&self) -> bool {
        !self.poisoned ==> {
            &&& self.tied()
            &&& shaped(self.state@.levels, 0)
            &&& proper(self.rows@)
            &&& on_course(self.rule(), self.state@, self.rows@)
            &&& self.rows@.len() == 0 <==> self.state@.levels.len() == 0
            &&& match self.last {
                None => self.rows@.len() == 0,
                Some(k) => self.rows@.len() > 0 && self.rows@.last().key == k@,
            }
        }
    }

    /// A builder with a different split rule. The format uses
    /// [`boundary::splits_after`](crate::boundary::splits_after); anything else
    /// exists for comparison.
    pub fn with_rule(rule: R) -> (r: Self)
        ensures
            r.wf(),
            !r.poisoned(),
            r.rule() == chunk::rule_of(&rule),
            r.rows() == Seq::<Row>::empty(),
            r.state() == (State { levels: Seq::empty(), puts: Seq::empty(), nodes: Seq::empty() }),
    {
        let ghost state = State {
            levels: Seq::empty(),
            puts: Seq::empty(),
            nodes: Seq::empty(),
        };
        let r = TreeBuilder {
            seen: Overlay::new(None),
            levels: Vec::new(),
            last: None,
            poisoned: false,
            rule,
            state: Ghost(state),
            rows: Ghost(Seq::empty()),
        };
        proof {
            assert(r.seen.held() =~= map_of(state.puts));
            reveal(on_course);
        }
        r
    }

    /// Hand the builder a value block it did not write, so a reference naming it
    /// can be coded. Without this a caller that stored its own values would be
    /// refused, since parity over a member whose bytes nobody has is parity over
    /// nothing.
    pub fn see(&mut self, cid: Cid, bytes: &[u8])
        requires
            old(self).wf(),
        ensures
            final(self).wf(),
            final(self).poisoned() == old(self).poisoned(),
            final(self).rule() == old(self).rule(),
            final(self).rows() == old(self).rows(),
            final(self).state() == (State {
                levels: old(self).state().levels,
                puts: old(self).state().puts.push(Put { id: cid@, bytes: bytes@ }),
                nodes: old(self).state().nodes,
            }),
    {
        let ghost before = self.state@;
        let ghost put = Put { id: cid@, bytes: bytes@ };
        let ghost after = State {
            levels: before.levels,
            puts: before.puts.push(put),
            nodes: before.nodes,
        };
        self.seen.put(cid, bytes);
        self.state = Ghost(after);
        proof {
            assert(after.puts.drop_last() =~= before.puts);
            lemma_prefix_push(before.puts, put);
            lemma_prefix_push(before.nodes, before.nodes[0]);
            lemma_on_course_more(self.rule(), before, after, self.rows@);
        }
    }

    /// Add an entry to level `l`.
    fn add(&mut self, l: usize, key: &[u8], body: &Body, sink: &mut Vec<(Cid, Vec<u8>)>) -> (r:
        Result<(), TreeError>)
        requires
            old(self).tied(),
            l <= old(self).state@.levels.len(),
            shaped(old(self).state@.levels, l as nat),
        ensures
            final(self).rule == old(self).rule,
            final(self).last == old(self).last,
            final(self).rows == old(self).rows,
            final(self).poisoned == old(self).poisoned,
            ({
                let row = Row { key: key@, held: body@ };
                match spec_add(old(self).rule(), old(self).state@, l as nat, row) {
                    Ok(t) => {
                        &&& r is Ok
                        &&& final(self).state@ == t
                        &&& final(self).tied()
                        &&& handed(old(sink)@, final(sink)@, old(self).state@, t)
                    },
                    Err(stop) => r matches Err(e) && is_stop(e, stop),
                }
            }),
            grew(old(sink)@, final(sink)@),
        decreases 256 - l, 2nat,
    {
        let ghost rule = self.rule();
        let ghost s = self.state@;
        let ghost row = Row { key: key@, held: body@ };
        let ghost t = with_level(s, l as nat);
        proof {
            lemma_grew_none(sink@);
        }
        if l == self.levels.len() {
            if l > 255 {
                return Err(TreeError::TooDeep);
            }
            let level = Level {
                chunker: LevelChunker::new(l as u8, self.rule),
                first: None,
                closed: 0,
            };
            self.levels.push(level);
            self.state = Ghost(t);
            proof {
                assert forall|i: int| 0 <= i < self.levels@.len() implies is_level(
                    #[trigger] self.levels@[i],
                    i,
                    rule,
                    t.levels[i],
                ) by {
                    if i < s.levels.len() {
                        assert(t.levels[i] == s.levels[i]);
                    }
                }
            }
        }
        let ghost lv = t.levels[l as int];
        assert(is_level(self.levels@[l as int], l as int, rule, lv));
        let mut done: Vec<Closed> = Vec::new();
        let ghost want = chunk::pushed(
            map_of(t.puts),
            Seq::empty(),
            l as u8,
            rule,
            lv.open,
            row,
        );
        let ghost levels0 = self.levels@;
        match self.levels[l].chunker.push(key, body, &self.seen, &mut done) {
            Err(e) => {
                return Err(TreeError::Node(e));
            },
            Ok(_) => {},
        }
        let ghost nodes = want->closed;
        let ghost u = with_open(t, l as nat, want->open, want->coded);
        self.state = Ghost(u);
        proof {
            assert(done@.skip(0) =~= done@);
            assert forall|i: int| 0 <= i < self.levels@.len() implies is_level(
                #[trigger] self.levels@[i],
                i,
                rule,
                u.levels[i],
            ) by {
                if i != l {
                    assert(self.levels@[i] == levels0[i]);
                    assert(is_level(levels0[i], i, rule, t.levels[i]));
                }
            }
            assert(tallied(u.levels, l as int)) by {
                if l < s.levels.len() {
                    assert(level_shaped(s.levels, l as int));
                }
            }
            assert forall|i: int| l + 1 <= i < u.levels.len() implies #[trigger] level_shaped(
                u.levels,
                i,
            ) by {
                assert(level_shaped(s.levels, i));
            }
        }
        let r = self.closed(l, done, Ghost(nodes), sink);
        r
    }

    /// Pass the nodes level `l` just closed to the sink and to the level above.
    #[verifier::rlimit(40)]
    fn closed(
        &mut self,
        l: usize,
        done: Vec<Closed>,
        Ghost(nodes): Ghost<Seq<NodeView>>,
        sink: &mut Vec<(Cid, Vec<u8>)>,
    ) -> (r: Result<(), TreeError>)
        requires
            old(self).tied(),
            chunk::are(done@, nodes),
            l < old(self).state@.levels.len(),
            old(self).state@.levels.len() <= 256,
            tallied(old(self).state@.levels, l as int),
            shaped(old(self).state@.levels, (l + 1) as nat),
        ensures
            final(self).rule == old(self).rule,
            final(self).last == old(self).last,
            final(self).rows == old(self).rows,
            final(self).poisoned == old(self).poisoned,
            match spec_closed(old(self).rule(), old(self).state@, l as nat, nodes, nodes.len()) {
                Ok(t) => {
                    &&& r is Ok
                    &&& final(self).state@ == t
                    &&& final(self).tied()
                    &&& handed(old(sink)@, final(sink)@, old(self).state@, t)
                },
                Err(stop) => r matches Err(e) && is_stop(e, stop),
            },
            grew(old(sink)@, final(sink)@),
        decreases 256 - l, 1nat,
    {
        let ghost rule = self.rule();
        let ghost s = self.state@;
        let ghost sink0 = sink@;
        let mut todo = done;
        let ghost mut k: nat = 0;
        proof {
            lemma_handed_none(sink@, s, s);
            assert(nodes.skip(0) =~= nodes);
            lemma_grew_none(sink@);
        }
        while todo.len() > 0
            invariant
                self.tied(),
                self.rule == old(self).rule,
                self.last == old(self).last,
                self.rows == old(self).rows,
                self.poisoned == old(self).poisoned,
                rule == self.rule(),
                rule == old(self).rule(),
                s == old(self).state@,
                sink0 == old(sink)@,
                k <= nodes.len(),
                chunk::are(todo@, nodes.skip(k as int)),
                l < s.levels.len(),
                s.levels.len() <= 256,
                tallied(s.levels, l as int),
                shaped(s.levels, (l + 1) as nat),
                spec_closed(rule, s, l as nat, nodes, k) == Ok::<State, Stop>(self.state@),
                handed(sink0, sink@, s, self.state@),
                grew(sink0, sink@),
            decreases todo@.len(),
        {
            let ghost t = self.state@;
            let ghost n = nodes[k as int];
            let ghost sink1 = sink@;
            let ghost next = spec_taken(rule, t, l as nat, n);
            proof {
                lemma_closed_shaped(rule, s, l as nat, nodes, k);
                lemma_closed_step(rule, s, l as nat, nodes, k, t);
            }
            let ghost before = todo@;
            let node = todo.remove(0);
            proof {
                lemma_are_rest(before, nodes.skip(k as int));
                assert(nodes.skip(k as int).skip(1) =~= nodes.skip((k + 1) as int));
                assert(todo@ =~= before.skip(1));
            }
            let r = self.taken(l, node, Ghost(n), sink);
            proof {
                lemma_grew(sink0, sink1, sink@);
            }
            match r {
                Err(e) => return Err(e),
                Ok(_) => {},
            }
            proof {
                lemma_taken_shaped(rule, t, l as nat, n);
                lemma_handed(sink0, sink1, sink@, s, t, self.state@);
                k = k + 1;
            }
        }
        Ok(())
    }

    /// Hand a block to the sink, and remember it.
    fn hand_over(&mut self, node: &Closed, Ghost(n): Ghost<NodeView>, sink: &mut Vec<(Cid, Vec<u8>)>)
        requires
            old(self).tied(),
            node.is(n),
        ensures
            final(self).rule == old(self).rule,
            final(self).last == old(self).last,
            final(self).rows == old(self).rows,
            final(self).poisoned == old(self).poisoned,
            final(self).levels@ == old(self).levels@,
            final(self).state@ == with_node(old(self).state@, n),
            final(self).tied(),
            handed(old(sink)@, final(sink)@, old(self).state@, with_node(old(self).state@, n)),
            grew(old(sink)@, final(sink)@),
    {
        let ghost t = self.state@;
        // Readable before the level above asks for it as a member.
        self.seen.put(node.cid, node.bytes.as_slice());
        sink.push((node.cid, vstd::slice::slice_to_vec(node.bytes.as_slice())));
        let ghost a = with_node(t, n);
        self.state = Ghost(a);
        proof {
            assert(a.puts.drop_last() =~= t.puts);
            assert(self.seen.held() =~= map_of(a.puts));
            assert forall|i: int| 0 <= i < a.nodes.len() implies (#[trigger] a.nodes[i]).valid() by {
                if i < t.nodes.len() {
                    assert(a.nodes[i] == t.nodes[i]);
                }
            }
            assert(a.nodes.skip(t.nodes.len() as int) =~= seq![n]);
            assert(blocks_of(seq![n]) =~= seq![block_of(n)]);
            assert(puts_of(sink@) =~= puts_of(old(sink)@) + seq![block_of(n)]);
            lemma_prefix_push(t.nodes, n);
            lemma_prefix_push(old(sink)@, sink@.last());
        }
    }

    /// Count a node of level `l`, giving back the first one where this is the
    /// second.
    fn count(&mut self, l: usize, node: &Closed, Ghost(n): Ghost<NodeView>) -> (r: Option<
        Option<Closed>,
    >)
        requires
            old(self).tied(),
            node.is(n),
            l < old(self).state@.levels.len(),
        ensures
            final(self).rule == old(self).rule,
            final(self).last == old(self).last,
            final(self).rows == old(self).rows,
            final(self).poisoned == old(self).poisoned,
            final(self).tied(),
            ({
                let s = old(self).state@;
                let lv = s.levels[l as int];
                match r {
                    None => lv.closed == 0 && final(self).state@ == with_count(
                        s,
                        l as nat,
                        Some(n),
                        1,
                    ),
                    Some(first) => {
                        &&& lv.closed != 0
                        &&& final(self).state@ == with_count(s, l as nat, None, 2)
                        &&& match (first, lv.first) {
                            (None, None) => true,
                            (Some(c), Some(f)) => c.is(f),
                            _ => false,
                        }
                    },
                }
            }),
    {
        let ghost rule = self.rule();
        let ghost a = self.state@;
        let ghost levels0 = self.levels@;
        assert(is_level(self.levels@[l as int], l as int, rule, a.levels[l as int]));
        let mut first: Option<Closed> = None;
        if self.levels[l].closed == 0 {
            let copy = Closed {
                min_key: vstd::slice::slice_to_vec(node.min_key.as_slice()),
                cid: node.cid,
                agg: node.agg,
                bytes: vstd::slice::slice_to_vec(node.bytes.as_slice()),
            };
            assert(copy.is(n));
            self.levels[l].closed = 1;
            self.levels[l].first = Some(copy);
            self.state = Ghost(with_count(a, l as nat, Some(n), 1));
            assert forall|i: int| 0 <= i < self.levels@.len() implies is_level(
                #[trigger] self.levels@[i],
                i,
                rule,
                self.state@.levels[i],
            ) by {
                assert(is_level(levels0[i], i, rule, a.levels[i]));
            }
            None
        } else {
            self.levels[l].closed = 2;
            std::mem::swap(&mut first, &mut self.levels[l].first);
            self.state = Ghost(with_count(a, l as nat, None, 2));
            assert forall|i: int| 0 <= i < self.levels@.len() implies is_level(
                #[trigger] self.levels@[i],
                i,
                rule,
                self.state@.levels[i],
            ) by {
                assert(is_level(levels0[i], i, rule, a.levels[i]));
            }
            Some(first)
        }
    }

    /// Pass one node that level `l` closed to the sink and to the level above.
    fn taken(
        &mut self,
        l: usize,
        node: Closed,
        Ghost(n): Ghost<NodeView>,
        sink: &mut Vec<(Cid, Vec<u8>)>,
    ) -> (r: Result<(), TreeError>)
        requires
            old(self).tied(),
            node.is(n),
            l < old(self).state@.levels.len(),
            old(self).state@.levels.len() <= 256,
            tallied(old(self).state@.levels, l as int),
            shaped(old(self).state@.levels, (l + 1) as nat),
        ensures
            final(self).rule == old(self).rule,
            final(self).last == old(self).last,
            final(self).rows == old(self).rows,
            final(self).poisoned == old(self).poisoned,
            match spec_taken(old(self).rule(), old(self).state@, l as nat, n) {
                Ok(t) => {
                    &&& r is Ok
                    &&& final(self).state@ == t
                    &&& final(self).tied()
                    &&& handed(old(sink)@, final(sink)@, old(self).state@, t)
                },
                Err(stop) => r matches Err(e) && is_stop(e, stop),
            },
            grew(old(sink)@, final(sink)@),
        decreases 256 - l, 0nat,
    {
        let ghost rule = self.rule();
        let ghost s = self.state@;
        let ghost sink0 = sink@;
        self.hand_over(&node, Ghost(n), sink);
        let ghost a = self.state@;
        let ghost lv = a.levels[l as int];
        let ghost sink1 = sink@;
        match self.count(l, &node, Ghost(n)) {
            None => {
                let ghost b = self.state@;
                proof {
                    lemma_handed_none(sink@, a, b);
                    lemma_handed(sink0, sink@, sink@, s, a, b);
                }
                Ok(())
            },
            Some(first) => {
                let ghost b = self.state@;
                proof {
                    assert forall|i: int| l + 1 <= i < b.levels.len() implies #[trigger] level_shaped(
                        b.levels,
                        i,
                    ) by {
                        assert(level_shaped(s.levels, i));
                    }
                    lemma_handed_none(sink@, a, b);
                    lemma_handed(sink0, sink@, sink@, s, a, b);
                }
                if let Some(f) = first {
                    let e = f.as_child();
                    assert(e@ == chunk::child_row(lv.first->Some_0));
                    let r = self.add(l + 1, e.key.as_slice(), &e.body, sink);
                    proof {
                        lemma_grew(sink0, sink1, sink@);
                    }
                    match r {
                        Err(e) => return Err(e),
                        Ok(_) => {},
                    }
                    proof {
                        lemma_add_shaped(rule, b, (l + 1) as nat, e@);
                        lemma_handed(sink0, sink1, sink@, s, b, self.state@);
                    }
                }
                let e = node.as_child();
                assert(e@ == chunk::child_row(n));
                let ghost sink3 = sink@;
                let ghost d = self.state@;
                let r = self.add(l + 1, e.key.as_slice(), &e.body, sink);
                proof {
                    lemma_grew(sink0, sink3, sink@);
                }
                match r {
                    Err(e) => return Err(e),
                    Ok(_) => {},
                }
                proof {
                    lemma_add_shaped(rule, d, (l + 1) as nat, e@);
                    lemma_handed(sink0, sink3, sink@, s, d, self.state@);
                }
                Ok(())
            },
        }
    }
}

/// More blocks leave a build on course.
proof fn lemma_on_course_more(rule: Rule, s: State, t: State, rows: Seq<Row>)
    requires
        s.puts.is_prefix_of(t.puts),
        s.nodes.is_prefix_of(t.nodes),
        s.levels == t.levels,
    ensures
        on_course(rule, s, rows) ==> on_course(rule, t, rows),
{
    reveal(on_course);
    if on_course(rule, s, rows) {
        assert forall|w: BlockMap| #[trigger] backed(w, t) implies grown(w, rule, t.levels, 0, rows) by {
            lemma_backed_before(w, s, t);
        }
    }
}

// ---------------------------------------------------------------------------
// the public interface
// ---------------------------------------------------------------------------

/// Why an entry is refused before anything changes.
pub open spec fn refusal(rows: Seq<Row>, row: Row) -> Option<BuildError> {
    if rows.len() > 0 && !order::lt(rows.last().key, row.key) {
        Some(BuildError::NotSorted)
    } else {
        match node::leaf_verdict(row.key, row.held) {
            Err(e) => Some(e),
            Ok(_) => None,
        }
    }
}

/// A builder as a mathematical value.
#[verifier::ext_equal]
pub struct BuilderView {
    pub state: State,
    pub rows: Seq<Row>,
    pub poisoned: bool,
}

/// What pushing a row does, and says.
pub open spec fn push_outcome(
    rule: Rule,
    before: BuilderView,
    row: Row,
    r: Result<(), TreeError>,
    after: BuilderView,
) -> bool {
    if before.poisoned {
        r == Err::<(), TreeError>(TreeError::Poisoned) && after == before
    } else {
        match refusal(before.rows, row) {
            Some(e) => r == Err::<(), TreeError>(TreeError::Node(e)) && after == before,
            None => match spec_add(rule, before.state, 0, row) {
                Ok(t) => {
                    &&& r is Ok
                    &&& after == (BuilderView {
                        state: t,
                        rows: before.rows.push(row),
                        poisoned: false,
                    })
                },
                Err(stop) => {
                    &&& r is Err
                    &&& is_stop(r->Err_0, stop)
                    &&& after.poisoned
                },
            },
        }
    }
}

/// Is `root` the tree of these rows, whole, in this store: the root the rows alone
/// settle, every node held, and the rows read back under it?
pub open spec fn delivers(w: BlockMap, rule: Rule, rows: Seq<Row>, root: Seq<u8>) -> bool {
    &&& tower::stands(w, rule, rows)
    &&& tower::top(w, rule, rows) is Some
    &&& chunk::node_id(tower::top(w, rule, rows)->Some_0) == root
    &&& tree::items(w, root) == rows.map_values(|r: Row| tree::entry(r))
}

/// How a build ends.
pub open spec fn outcome(rule: Rule, b: BuilderView) -> Result<Built, Stop> {
    if b.rows.len() == 0 {
        Ok(
            Built {
                state: with_node(b.state, chunk::empty_node()),
                root: chunk::empty_node(),
                parity: Seq::empty(),
            },
        )
    } else {
        spec_finish(rule, b.state, 0, Seq::empty())
    }
}

/// Rows that are stored as the format says fit a node of their own.
proof fn lemma_proper_small(rows: Seq<Row>)
    requires
        proper(rows),
    ensures
        tower::all_small(rows),
{
    assert(node::logical(Seq::<Row>::empty()) == node::HEADER);
    assert forall|i: int| 0 <= i < rows.len() implies tower::small(#[trigger] rows[i]) by {
        assert(node::leaf_verdict(rows[i].key, rows[i].held) is Ok);
    }
}

/// A build that ends delivers the tree of its rows.
proof fn lemma_delivers(w: BlockMap, rule: Rule, b: BuilderView)
    requires
        shaped(b.state.levels, 0),
        proper(b.rows),
        on_course(rule, b.state, b.rows),
        b.rows.len() > 0,
        outcome(rule, b) is Ok,
        backed(w, outcome(rule, b)->Ok_0.state),
    ensures
        delivers(w, rule, b.rows, chunk::node_id(outcome(rule, b)->Ok_0.root)),
{
    let e = outcome(rule, b)->Ok_0;
    lemma_finish_prefix(rule, b.state, 0, Seq::empty());
    lemma_backed_before(w, b.state, e.state);
    reveal(on_course);
    assert(grown(w, rule, b.state.levels, 0, b.rows));
    lemma_finish_grown(w, rule, b.state, 0, Seq::empty(), b.rows);
    lemma_proper_small(b.rows);
    tower::law_a_standing_tree_holds_its_rows(w, rule, b.rows);
}

/// The empty tree delivers nothing, whole.
proof fn lemma_delivers_none(w: BlockMap, rule: Rule)
    requires
        tower::kept(w, chunk::empty_node()),
    ensures
        delivers(w, rule, Seq::empty(), chunk::node_id(chunk::empty_node())),
{
    let none = Seq::<Row>::empty();
    assert(chunk::chunks(0, rule, none) =~= Seq::<Seq<Row>>::empty());
    assert(tower::level_nodes(w, rule, 0, none) =~= Seq::<NodeView>::empty());
    tower::law_a_standing_tree_holds_its_rows(w, rule, none);
}

impl<R: SplitRule + Copy> View for TreeBuilder<R> {
    type V = BuilderView;

    open spec fn view(&self) -> BuilderView {
        BuilderView { state: self.state(), rows: self.rows(), poisoned: self.poisoned() }
    }
}

impl<R: SplitRule + Copy> TreeBuilder<R> {
    /// Add the next entry. Keys must be strictly increasing.
    ///
    /// A refused entry (bad order, key too long, wrong value encoding) leaves the
    /// builder exactly as it was: everything that can refuse an entry is checked
    /// before anything changes, so what a caller tried first never shows in the
    /// root. A failure past that point poisons the builder.
    pub fn push(&mut self, key: &[u8], value: Value<'_>, sink: &mut Vec<(Cid, Vec<u8>)>) -> (r:
        Result<(), TreeError>)
        requires
            old(self).wf(),
        ensures
            final(self).wf(),
            final(self).rule() == old(self).rule(),
            push_outcome(
                old(self).rule(),
                old(self)@,
                Row { key: key@, held: value@ },
                r,
                final(self)@,
            ),
            r is Ok ==> handed(old(sink)@, final(sink)@, old(self)@.state, final(self)@.state),
            final(self)@ == old(self)@ ==> final(sink)@ == old(sink)@,
            grew(old(sink)@, final(sink)@),
    {
        proof {
            lemma_grew_none(sink@);
        }
        let ghost row = Row { key: key@, held: value@ };
        let ghost rule = self.rule();
        if self.poisoned {
            return Err(TreeError::Poisoned);
        }
        if let Some(k) = &self.last {
            if !order::before(k.as_slice(), key) {
                return Err(TreeError::Node(BuildError::NotSorted));
            }
        }
        match NodeBuilder::check_leaf(key, &value) {
            Err(e) => return Err(TreeError::Node(e)),
            Ok(_) => {},
        }
        let body = match value {
            Value::Inline(b) => Body::Inline(vstd::slice::slice_to_vec(b)),
            Value::Ref { cid, len } => Body::Ref { cid, len },
        };
        assert(body@ == value@);
        let ghost s = self.state@;
        let ghost rows = self.rows@;
        if let Err(e) = self.add(0, key, &body, sink) {
            self.poisoned = true;
            return Err(e);
        }
        self.last = Some(vstd::slice::slice_to_vec(key));
        self.rows = Ghost(rows.push(row));
        proof {
            let t = self.state@;
            lemma_add_shaped(rule, s, 0, row);
            assert(proper(rows.push(row))) by {
                lemma_proper_push(rows, row);
            }
            reveal(on_course);
            assert forall|w: BlockMap| #[trigger] backed(w, t) implies grown(
                w,
                rule,
                t.levels,
                0,
                rows.push(row),
            ) by {
                lemma_backed_before(w, s, t);
                lemma_add_grown(w, rule, s, 0, row, rows);
            }
        }
        Ok(())
    }

    /// Add the next entry from raw bytes, letting the format choose how the value
    /// is stored and handing any value block to the same sink as the nodes.
    ///
    /// This is what a caller should reach for: [`TreeBuilder::push`] takes a
    /// [`Value`] already decided, which means restating [`Value::for_bytes`].
    pub fn push_bytes(&mut self, key: &[u8], bytes: &[u8], sink: &mut Vec<(Cid, Vec<u8>)>) -> (r:
        Result<(), TreeError>)
        requires
            old(self).wf(),
        ensures
            final(self).wf(),
            final(self).rule() == old(self).rule(),
            push_outcome(
                old(self).rule(),
                told(old(self)@, bytes@),
                Row { key: key@, held: node::stored_as(bytes@) },
                r,
                final(self)@,
            ),
            r is Ok ==> puts_of(final(sink)@) == puts_of(old(sink)@) + blocks_of(
                final(self)@.state.nodes.skip(old(self)@.state.nodes.len() as int),
            ) + value_puts(bytes@),
            final(self)@ == told(old(self)@, bytes@) ==> final(sink)@ == old(sink)@,
            r is Err ==> grew(old(sink)@, final(sink)@),
    {
        let (value, block) = Value::for_bytes(bytes);
        // Registered before the push: the leaf's parity reads the member back the
        // moment the entry goes in.
        if let Some((cid, b)) = block {
            self.see(cid, b);
        }
        let ghost mid = self@;
        assert(mid == told(old(self)@, bytes@));
        match self.push(key, value, sink) {
            Err(e) => return Err(e),
            Ok(_) => {},
        }
        let ghost before = sink@;
        proof {
            assert(puts_of(before) + Seq::<Put>::empty() =~= puts_of(before));
        }
        if let Some((cid, b)) = block {
            sink.push((cid, vstd::slice::slice_to_vec(b)));
            assert(puts_of(sink@) =~= puts_of(before) + seq![Put { id: cid@, bytes: bytes@ }]);
        }
        proof {
            assert(mid.rows.push(Row { key: key@, held: node::stored_as(bytes@) }).len()
                != mid.rows.len());
        }
        Ok(())
    }

    /// Close every level and return the root's id.
    ///
    /// The parity blocks this build coded are dropped. That is right for a caller
    /// building a tree it is not going to store, and wrong for one that is: the
    /// nodes it just took name parity ids whose bytes then exist nowhere. A caller
    /// that stores the tree wants [`TreeBuilder::finish_with_parity`].
    pub fn finish(self, sink: &mut Vec<(Cid, Vec<u8>)>) -> (r: Result<Cid, TreeError>)
        requires
            self.wf(),
        ensures
            self.poisoned() ==> r == Err::<Cid, TreeError>(TreeError::Poisoned),
            !self.poisoned() ==> match outcome(self.rule(), self@) {
                Ok(b) => {
                    &&& r is Ok
                    &&& r->Ok_0@ == chunk::node_id(b.root)
                    &&& handed(old(sink)@, final(sink)@, self@.state, b.state)
                    &&& all_valid(b.state.nodes)
                    &&& forall|w: BlockMap| #[trigger]
                        agrees(w, b.state.puts) ==> delivers(
                            w,
                            self.rule(),
                            self@.rows,
                            r->Ok_0@,
                        )
                },
                Err(stop) => r is Err && is_stop(r->Err_0, stop),
            },
            self.poisoned() ==> final(sink)@ == old(sink)@,
            grew(old(sink)@, final(sink)@),
    {
        match self.finish_with_parity(sink) {
            Err(e) => Err(e),
            Ok((root, _)) => Ok(root),
        }
    }

    /// Close every level, returning the root's id and the parity blocks the build
    /// coded.
    ///
    /// They are returned and not handed to the sink, because the order in which
    /// nodes and parity are stored is the caller's decision. Every group of a fresh
    /// tree is coded: there is no older tree to reuse from.
    pub fn finish_with_parity(self, sink: &mut Vec<(Cid, Vec<u8>)>) -> (r: Result<
        (Cid, ParityBlocks),
        TreeError,
    >)
        requires
            self.wf(),
        ensures
            self.poisoned() ==> r == Err::<(Cid, ParityBlocks), TreeError>(TreeError::Poisoned),
            !self.poisoned() ==> match outcome(self.rule(), self@) {
                Ok(b) => {
                    &&& r is Ok
                    &&& r->Ok_0.0@ == chunk::node_id(b.root)
                    &&& chunk::coded_view(r->Ok_0.1@) == b.parity
                    &&& chunk::coded_ok(r->Ok_0.1@)
                    &&& handed(old(sink)@, final(sink)@, self@.state, b.state)
                    &&& all_valid(b.state.nodes)
                    &&& forall|w: BlockMap| #[trigger]
                        agrees(w, b.state.puts) ==> delivers(
                            w,
                            self.rule(),
                            self@.rows,
                            r->Ok_0.0@,
                        )
                },
                Err(stop) => r is Err && is_stop(r->Err_0, stop),
            },
            self.poisoned() ==> final(sink)@ == old(sink)@,
            grew(old(sink)@, final(sink)@),
    {
        proof {
            lemma_grew_none(sink@);
        }
        if self.poisoned {
            return Err(TreeError::Poisoned);
        }
        let mut me = self;
        let ghost rule = self.rule();
        let ghost s0 = self.state@;
        let ghost rows = self.rows@;
        if me.levels.len() == 0 {
            let leaf = empty_leaf();
            me.hand_over(&leaf, Ghost(chunk::empty_node()), sink);
            let parity: ParityBlocks = Vec::new();
            proof {
                let b = outcome(rule, self@)->Ok_0;
                assert(chunk::coded_view(parity@) =~= b.parity);
                assert forall|w: BlockMap| #[trigger] agrees(w, b.state.puts) implies delivers(
                    w,
                    rule,
                    rows,
                    leaf.cid@,
                ) by {
                    assert(backed(w, b.state));
                    lemma_prefix_push(b.state.puts, b.state.puts[0]);
                    lemma_prefix_push(b.state.nodes, b.state.nodes[0]);
                    lemma_handed_kept(w, s0, chunk::empty_node(), b.state);
                    assert(rows =~= Seq::<Row>::empty());
                    lemma_delivers_none(w, rule);
                }
            }
            return Ok((leaf.cid, parity));
        }
        let mut parity: ParityBlocks = Vec::new();
        let mut l: usize = 0;
        proof {
            assert(chunk::coded_view(parity@) =~= Seq::<Seq<u8>>::empty());
            lemma_handed_none(sink@, s0, s0);
        }
        loop
            invariant
                me.tied(),
                me.rule() == rule,
                rule == self.rule(),
                s0 == self.state@,
                rows == self.rows@,
                self.wf(),
                !self.poisoned,
                rows.len() > 0,
                l < me.state@.levels.len(),
                shaped(me.state@.levels, l as nat),
                chunk::coded_ok(parity@),
                handed(old(sink)@, sink@, s0, me.state@),
                grew(old(sink)@, sink@),
                spec_finish(rule, s0, 0, Seq::empty()) == spec_finish(
                    rule,
                    me.state@,
                    l as nat,
                    chunk::coded_view(parity@),
                ),
            decreases 256 - l,
        {
            let ghost s = me.state@;
            let ghost sink1 = sink@;
            let ghost parity0 = chunk::coded_view(parity@);
            let ghost lv = s.levels[l as int];
            let ghost made = last_node(s, l as nat);
            let ghost nodes: Seq<NodeView> = if lv.open.len() > 0 {
                seq![made->Ok_0.node]
            } else {
                Seq::empty()
            };
            let ghost coded: Seq<Seq<u8>> = if lv.open.len() > 0 {
                made->Ok_0.coded
            } else {
                Seq::empty()
            };
            let mut done: Vec<Closed> = Vec::new();
            match me.close_level(l, &mut done, &mut parity, Ghost(nodes), Ghost(coded)) {
                Err(e) => return Err(e),
                Ok(_) => {},
            }
            proof {
                let d = me.state@;
                assert(level_shaped(s.levels, l as int));
                assert(tallied(d.levels, l as int));
                assert forall|i: int| l + 1 <= i < d.levels.len() implies #[trigger] level_shaped(
                    d.levels,
                    i,
                ) by {
                    assert(level_shaped(s.levels, i));
                }
            }
            let ghost d = me.state@;
            let r = me.closed(l, done, Ghost(nodes), sink);
            proof {
                lemma_grew(old(sink)@, sink1, sink@);
            }
            match r {
                Err(e) => return Err(e),
                Ok(_) => {},
            }
            let ghost u = me.state@;
            proof {
                lemma_closed_shaped(rule, d, l as nat, nodes, nodes.len());
                lemma_handed_none(sink1, s, d);
                lemma_handed(old(sink)@, sink1, sink1, s0, s, d);
                lemma_handed(old(sink)@, sink1, sink@, s0, d, u);
                assert(is_level(me.levels@[l as int], l as int, rule, u.levels[l as int]));
            }
            if let Some(root) = &me.levels[l].first {
                proof {
                    let b = outcome(rule, self@)->Ok_0;
                    assert(b.state == u);
                    assert forall|w: BlockMap| #[trigger] agrees(w, b.state.puts) implies delivers(
                        w,
                        rule,
                        rows,
                        root.cid@,
                    ) by {
                        assert(backed(w, b.state));
                        lemma_delivers(w, rule, self@);
                    }
                }
                return Ok((root.cid, parity));
            }
            l = l + 1;
        }
    }

    /// Close the open node of level `l` and take the parity coded for the level.
    fn close_level(
        &mut self,
        l: usize,
        done: &mut Vec<Closed>,
        parity: &mut ParityBlocks,
        Ghost(nodes): Ghost<Seq<NodeView>>,
        Ghost(coded): Ghost<Seq<Seq<u8>>>,
    ) -> (r: Result<(), TreeError>)
        requires
            old(self).tied(),
            l < old(self).state@.levels.len() <= 256,
            old(done)@.len() == 0,
            chunk::coded_ok(old(parity)@),
            ({
                let s = old(self).state@;
                let made = last_node(s, l as nat);
                if s.levels[l as int].open.len() > 0 {
                    nodes == seq![made->Ok_0.node] && coded == made->Ok_0.coded
                } else {
                    nodes == Seq::<NodeView>::empty() && coded == Seq::<Seq<u8>>::empty()
                }
            }),
        ensures
            final(self).rule == old(self).rule,
            ({
                let s = old(self).state@;
                let lv = s.levels[l as int];
                let made = last_node(s, l as nat);
                match r {
                    Err(e) => {
                        &&& lv.open.len() > 0
                        &&& made is Err
                        &&& is_stop(e, Stop::Closing(made->Err_0))
                    },
                    Ok(_) => {
                        &&& lv.open.len() == 0 || made is Ok
                        &&& final(self).tied()
                        &&& final(self).state@ == drained(s, l as nat)
                        &&& chunk::are(final(done)@, nodes)
                        &&& chunk::coded_ok(final(parity)@)
                        &&& chunk::coded_view(final(parity)@) == chunk::coded_view(old(parity)@) + (
                        lv.coded + coded)
                    },
                }
            }),
    {
        let ghost rule = self.rule();
        let ghost s = self.state@;
        let ghost lv = s.levels[l as int];
        let ghost levels0 = self.levels@;
        assert(is_level(self.levels@[l as int], l as int, rule, lv));
        match self.levels[l].chunker.finish(&self.seen, done) {
            Err(e) => return Err(TreeError::Node(e)),
            Ok(_) => {},
        }
        proof {
            assert(done@.skip(0) =~= done@);
            assert(chunk::are(done@, nodes));
            assert(lv.coded + Seq::<Seq<u8>>::empty() =~= lv.coded);
        }
        let mut more = self.levels[l].chunker.take_coded();
        let ghost before = parity@;
        let ghost added = more@;
        parity.append(&mut more);
        let ghost d = drained(s, l as nat);
        self.state = Ghost(d);
        proof {
            assert(parity@ == before + added);
            assert(chunk::coded_view(parity@) =~= chunk::coded_view(before) + chunk::coded_view(added));
            assert forall|i: int| 0 <= i < parity@.len() implies (#[trigger] parity@[i]).0@
                == crate::spec_block_id(crate::kind::PARITY, parity@[i].1@) by {
                if i < before.len() {
                    assert(parity@[i] == before[i]);
                } else {
                    assert(parity@[i] == added[i - before.len()]);
                }
            }
            assert forall|i: int| 0 <= i < self.levels@.len() implies is_level(
                #[trigger] self.levels@[i],
                i,
                rule,
                d.levels[i],
            ) by {
                assert(is_level(levels0[i], i, rule, s.levels[i]));
            }
        }
        Ok(())
    }
}

/// One more proper row.
proof fn lemma_proper_push(rows: Seq<Row>, row: Row)
    requires
        proper(rows),
        refusal(rows, row) is None,
    ensures
        proper(rows.push(row)),
{
    let all = rows.push(row);
    assert forall|i: int, j: int| 0 <= i < j < all.len() implies order::lt(
        (#[trigger] all[i]).key,
        (#[trigger] all[j]).key,
    ) by {
        if j < rows.len() {
            assert(order::lt(rows[i].key, rows[j].key));
        } else if i < rows.len() - 1 {
            assert(order::lt(rows[i].key, rows[rows.len() - 1].key));
            order::lemma_lt_trans(rows[i].key, rows.last().key, row.key);
        }
    }
    assert forall|i: int| 0 <= i < all.len() implies node::leaf_verdict(
        (#[trigger] all[i]).key,
        all[i].held,
    ) is Ok by {
        if i < rows.len() {
            assert(all[i] == rows[i]);
        }
    }
}

/// The block that bytes are kept in, if they do not go into the leaf.
pub open spec fn value_puts(bytes: Seq<u8>) -> Seq<Put> {
    if bytes.len() > node::MAX_INLINE {
        seq![Put { id: crate::spec_block_id(crate::kind::RAW, bytes), bytes }]
    } else {
        Seq::empty()
    }
}

/// A builder that has been told of a value's block.
pub open spec fn told(b: BuilderView, bytes: Seq<u8>) -> BuilderView {
    if bytes.len() > node::MAX_INLINE {
        BuilderView {
            state: State {
                levels: b.state.levels,
                puts: b.state.puts.push(
                    Put { id: crate::spec_block_id(crate::kind::RAW, bytes), bytes },
                ),
                nodes: b.state.nodes,
            },
            rows: b.rows,
            poisoned: b.poisoned,
        }
    } else {
        b
    }
}

impl TreeBuilder<ByContent> {
    /// A builder with the format's split rule.
    pub fn new() -> (r: Self)
        ensures
            r.wf(),
            !r.poisoned(),
            r.rule() == chunk::rule_of(&ByContent),
            r.rows() == Seq::<Row>::empty(),
            r.state() == (State { levels: Seq::empty(), puts: Seq::empty(), nodes: Seq::empty() }),
    {
        TreeBuilder::with_rule(ByContent)
    }
}

/// The root of the empty tree: one empty leaf. Every tree starts here, and two empty
/// trees have the same root.
pub fn empty_root() -> (r: Cid)
    ensures
        r@ == chunk::node_id(chunk::empty_node()),
{
    empty_leaf().cid
}

/// Put the empty tree into `blocks` and return its root: what a new store needs
/// before it can take a write.
pub fn init<B: BlocksMut>(blocks: &mut B) -> (r: Cid)
    ensures
        r@ == chunk::node_id(chunk::empty_node()),
        final(blocks).held() == old(blocks).held().insert(r@, node::encode(chunk::empty_node())),
{
    let leaf = empty_leaf();
    blocks.insert_block(leaf.cid, leaf.bytes.as_slice());
    leaf.cid
}

/// A builder that has seen nothing.
pub open spec fn blank() -> BuilderView {
    BuilderView {
        state: State { levels: Seq::empty(), puts: Seq::empty(), nodes: Seq::empty() },
        rows: Seq::empty(),
        poisoned: false,
    }
}

/// Why a build of a list of rows does not get to its end.
#[verifier::ext_equal]
pub enum Halt {
    Refused(BuildError),
    Stopped(Stop),
}

/// Is this error that halt?
pub open spec fn is_halt(e: TreeError, h: Halt) -> bool {
    match h {
        Halt::Refused(x) => e == TreeError::Node(x),
        Halt::Stopped(s) => is_stop(e, s),
    }
}

/// Pushing the first `n` rows.
pub open spec fn fed(rule: Rule, rows: Seq<Row>, n: nat) -> Result<BuilderView, Halt>
    decreases n,
{
    if n == 0 {
        Ok(blank())
    } else {
        match fed(rule, rows, (n - 1) as nat) {
            Err(h) => Err(h),
            Ok(b) => match refusal(b.rows, rows[n - 1]) {
                Some(e) => Err(Halt::Refused(e)),
                None => match spec_add(rule, b.state, 0, rows[n - 1]) {
                    Err(stop) => Err(Halt::Stopped(stop)),
                    Ok(t) => Ok(
                        BuilderView { state: t, rows: b.rows.push(rows[n - 1]), poisoned: false },
                    ),
                },
            },
        }
    }
}

/// Building a tree from rows.
pub open spec fn spec_build(rule: Rule, rows: Seq<Row>) -> Result<Built, Halt> {
    match fed(rule, rows, rows.len()) {
        Err(h) => Err(h),
        Ok(b) => match outcome(rule, b) {
            Err(stop) => Err(Halt::Stopped(stop)),
            Ok(built) => Ok(built),
        },
    }
}

/// A row that halts a build halts it for good.
proof fn lemma_fed_err(rule: Rule, rows: Seq<Row>, k: nat, n: nat)
    requires
        k <= n,
        fed(rule, rows, k) is Err,
    ensures
        fed(rule, rows, n) == fed(rule, rows, k),
    decreases n,
{
    if k < n {
        lemma_fed_err(rule, rows, k, (n - 1) as nat);
    }
}

/// Entries with their values, as rows.
pub open spec fn rows_of(entries: Seq<(&[u8], Value<'_>)>) -> Seq<Row> {
    entries.map_values(|e: (&[u8], Value<'_>)| Row { key: e.0@, held: e.1@ })
}

/// Build a tree from entries in key order; returns the root's id.
pub fn build(entries: &[(&[u8], Value<'_>)], sink: &mut Vec<(Cid, Vec<u8>)>) -> (r: Result<
    Cid,
    TreeError,
>)
    ensures
        ({
            let rule = chunk::rule_of(&ByContent);
            let rows = rows_of(entries@);
            match spec_build(rule, rows) {
                Err(h) => r is Err && is_halt(r->Err_0, h),
                Ok(b) => {
                    &&& r is Ok
                    &&& r->Ok_0@ == chunk::node_id(b.root)
                    &&& puts_of(final(sink)@) == puts_of(old(sink)@) + blocks_of(b.state.nodes)
                    &&& all_valid(b.state.nodes)
                    &&& forall|w: BlockMap| #[trigger]
                        agrees(w, b.state.puts) ==> delivers(w, rule, rows, r->Ok_0@)
                },
            }
        }),
        grew(old(sink)@, final(sink)@),
{
    let mut t = TreeBuilder::new();
    let ghost rule = chunk::rule_of(&ByContent);
    let ghost rows = rows_of(entries@);
    let ghost s0 = t@.state;
    let n = entries.len();
    let mut i: usize = 0;
    proof {
        lemma_handed_none(sink@, s0, s0);
        lemma_grew_none(sink@);
        assert(rows.take(0) =~= Seq::<Row>::empty());
    }
    while i < n
        invariant
            i <= n,
            n == entries@.len(),
            n == rows.len(),
            rows == rows_of(entries@),
            rule == chunk::rule_of(&ByContent),
            t.wf(),
            t.rule() == rule,
            !t.poisoned(),
            s0 == blank().state,
            fed(rule, rows, i as nat) == Ok::<BuilderView, Halt>(t@),
            t@.rows == rows.take(i as int),
            handed(old(sink)@, sink@, s0, t@.state),
            grew(old(sink)@, sink@),
        decreases n - i,
    {
        let e = &entries[i];
        let ghost before = t@;
        let ghost sink1 = sink@;
        assert(rows[i as int] == Row { key: e.0@, held: e.1@ });
        let r = t.push(e.0, e.1, sink);
        proof {
            lemma_grew(old(sink)@, sink1, sink@);
        }
        match r {
            Err(x) => {
                proof {
                    lemma_fed_err(rule, rows, (i + 1) as nat, rows.len());
                }
                return Err(x);
            },
            Ok(_) => {},
        }
        proof {
            assert(rows.take(i + 1) =~= rows.take(i as int).push(rows[i as int]));
            lemma_handed(old(sink)@, sink1, sink@, s0, before.state, t@.state);
        }
        i = i + 1;
    }
    let ghost last = t@;
    let ghost sink2 = sink@;
    proof {
        assert(rows.take(i as int) =~= rows);
    }
    let r = t.finish(sink);
    proof {
        lemma_grew(old(sink)@, sink2, sink@);
        if outcome(rule, last) is Ok {
            let b = outcome(rule, last)->Ok_0;
            assert(last.state.nodes.skip(0) =~= last.state.nodes);
            assert(puts_of(sink2) == puts_of(old(sink)@) + blocks_of(last.state.nodes));
            let k = last.state.nodes.len() as int;
            assert(b.state.nodes =~= last.state.nodes + b.state.nodes.skip(k));
            assert(blocks_of(b.state.nodes) =~= blocks_of(last.state.nodes) + blocks_of(
                b.state.nodes.skip(k),
            ));
        }
    }
    r
}

} // verus!
