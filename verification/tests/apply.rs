//! Writing: an incremental edit gives exactly the tree a rebuild from scratch
//! gives, emits exactly the nodes that are new, and reads only what it touches.

use freenet_prolly::seqs::{Bytes, Length};
use freenet_prolly::apply::{apply, apply_with, ApplyError, Edit, Options, MAX_VALUE};
use freenet_prolly::boundary::{splits_after, MAX_LOGICAL};
use freenet_prolly::build::{SplitRule, TreeBuilder};
use freenet_prolly::chunk::ByContent;
use freenet_prolly::node::{Agg, Node, NodeBuilder, Value, HEADER, MAX_INLINE};
use freenet_prolly::parity::{encode_group, group_members, MAX_GROUP};
use freenet_prolly::read::get;
use freenet_prolly::store::{BlockMap, Blocks, BlocksMut, ReadError};
use freenet_prolly::{block_id, kind, Cid};
use std::cell::{Cell, RefCell};
use std::collections::{BTreeMap, HashMap, HashSet};

type Entries = BTreeMap<Vec<u8>, Vec<u8>>;

/// Members a single edit can drag in: one group per level of the path, each up to
/// `MAX_GROUP`.
fn parity_budget() -> usize {
    5 * MAX_GROUP
}

/// The parity blocks of a node, where every member is held.
fn blocks_of(n: &Node<'_>, store: &MemBlocks) -> Option<Vec<(Cid, Vec<u8>)>> {
    let tag = if n.is_leaf() {
        kind::RAW
    } else {
        kind::TREE_NODE
    };
    let mut out = Vec::new();
    for (_, ids) in group_members(n) {
        let mut states = Vec::new();
        for id in &ids {
            let mut state = vec![tag];
            state.extend_from_slice(store.0.get(id)?);
            states.push(state);
        }
        for block in encode_group(&states).ok()? {
            out.push((block_id(kind::PARITY, &block), block));
        }
    }
    Some(out)
}

/// Blocks held in memory, with the map in view.
#[derive(Clone, Default)]
struct MemBlocks(HashMap<Cid, Vec<u8>>);

impl MemBlocks {
    fn insert(&mut self, cid: Cid, bytes: &[u8]) {
        self.0.insert(cid, bytes.to_vec());
    }

    /// Hold everything a call handed over.
    #[allow(dead_code)]
    fn keep(&mut self, blocks: Vec<(Cid, Vec<u8>)>) {
        for (cid, bytes) in blocks {
            self.0.insert(cid, bytes);
        }
    }
}

impl Blocks for MemBlocks {
    fn held(&self) -> BlockMap {
        unreachable!()
    }

    fn get(&self, cid: &Cid) -> Option<&[u8]> {
        self.0.get(cid).map(|b| b.as_slice())
    }
}

impl BlocksMut for MemBlocks {
    fn insert_block(&mut self, cid: Cid, bytes: &[u8]) {
        self.insert(cid, bytes);
    }
}

fn rng(seed: u64) -> impl FnMut() -> u64 {
    let mut s = seed | 1;
    move || {
        s ^= s << 13;
        s ^= s >> 7;
        s ^= s << 17;
        s
    }
}

/// `n` entries shaped like a real identity tree — records (~40 B keys, 60–400 B
/// values), edges (~150 B keys, tiny values), index terms — sorted, keys unique.
fn dataset(seed: u64, n: usize) -> Vec<(Vec<u8>, Vec<u8>)> {
    let mut r = rng(seed);
    let domains: [&[u8]; 4] = [b"post", b"comment", b"profile", b"inventory-item"];
    let rels: [&[u8]; 3] = [b"follows", b"likes", b"member-of"];
    let mut out = Vec::with_capacity(n);
    for _ in 0..n {
        let kind = r() % 10;
        let mut key = Vec::new();
        let vlen;
        if kind < 6 {
            key.extend_from_slice(b"d/");
            key.extend_from_slice(domains[(r() % 4) as usize]);
            key.push(b'/');
            key.extend_from_slice(&r().to_be_bytes());
            key.extend_from_slice(&r().to_be_bytes());
            vlen = 60 + (r() % 341) as usize;
        } else if kind < 9 {
            key.extend_from_slice(b"e/");
            key.extend_from_slice(rels[(r() % 3) as usize]);
            key.push(b'/');
            for _ in 0..(16 + r() % 6) {
                key.extend_from_slice(&r().to_be_bytes());
            }
            vlen = (r() % 17) as usize;
        } else {
            key.extend_from_slice(b"i/post/title/");
            for _ in 0..(1 + r() % 8) {
                key.extend_from_slice(&r().to_be_bytes());
            }
            vlen = 16;
        }
        let mut val = vec![0u8; vlen];
        for b in val.iter_mut() {
            *b = r() as u8;
        }
        out.push((key, val));
    }
    out.sort();
    out.dedup_by(|a, b| a.0 == b.0);
    out
}

/// Walk the tree at `root` and check it against `want`.
///
/// `Err` carries what is wrong and where, not just that something is.
fn check_tree(blocks: &MemBlocks, root: &Cid, want: &Entries) -> Result<(), String> {
    let mut w = Walk {
        blocks,
        entries: Vec::new(),
        // One entry per level: how many children the last branch seen at that
        // level had, and whether it has been followed by another. Checked in
        // traversal order, which is key order, so "the last one" is the one
        // nothing follows.
        widths: BTreeMap::new(),
    };
    let node = w.node(root, "root")?;
    if !node.is_leaf() && node.len() < 2 {
        return Err(format!(
            "the root is a branch with {} child(ren) — the tree should have lost a level",
            node.len()
        ));
    }
    let agg = w.descend(root, &node, "root")?;

    for (level, seen) in &w.widths {
        if let Some(idx) = seen.thin {
            if idx + 1 < seen.count {
                return Err(format!(
                    "branch {idx} of {} at level {level} has a single child; only a level's last node may have one",
                    seen.count
                ));
            }
        }
    }

    let got = w.entries;
    if got.len() != want.len() {
        return Err(mismatch(&got, want));
    }
    for (i, ((k, seen), (wk, wv))) in got.iter().zip(want).enumerate() {
        if k != wk {
            return Err(mismatch(&got, want));
        }
        match seen {
            Seen::Inline(b) if b != wv => {
                return Err(format!(
                    "entry {i} ({}) holds {} B inline, the map has {} B",
                    String::from_utf8_lossy(k),
                    b.len(),
                    wv.len()
                ))
            }
            Seen::Ref(cid, len) => {
                if *len as usize != wv.len() || *cid != block_id(kind::RAW, wv) {
                    return Err(format!(
                        "entry {i} ({}) references a {len} B value, the map has {} B",
                        String::from_utf8_lossy(k),
                        wv.len()
                    ));
                }
                if wv.len() <= MAX_INLINE {
                    return Err(format!(
                        "entry {i} ({}) is {} B and would fit inline, but is kept in its own block",
                        String::from_utf8_lossy(k),
                        wv.len()
                    ));
                }
            }
            _ => {}
        }
    }
    // The root's aggregate covers the whole tree, so it is also the one number
    // a caller sees without reading anything.
    let total = want.iter().fold(Agg::default(), |a, (k, v)| Agg {
        count: a.count + 1,
        bytes: a.bytes + k.len() as u64 + v.len() as u64,
    });
    if agg != total {
        return Err(format!(
            "root aggregate is {agg:?}, the map adds up to {total:?}"
        ));
    }
    Ok(())
}

/// Where two entry sequences first differ, and by how much — so a failure names
/// the damage rather than leaving the reader to diff two long lists.
fn mismatch(got: &[(Vec<u8>, Seen)], want: &Entries) -> String {
    let want: Vec<&Vec<u8>> = want.keys().collect();
    let at = (0..got.len().min(want.len()))
        .find(|&i| &got[i].0 != want[i])
        .unwrap_or(got.len().min(want.len()));
    let show = |k: Option<&Vec<u8>>| match k {
        Some(k) => String::from_utf8_lossy(k).into_owned(),
        None => "<end>".into(),
    };
    format!(
        "the tree holds {} entries, the map has {} — first difference at {at}: tree {}, map {}",
        got.len(),
        want.len(),
        show(got.get(at).map(|(k, _)| k)),
        show(want.get(at).copied()),
    )
}

#[derive(Default)]
struct Level {
    count: usize,
    /// The index of the FIRST branch at this level with a single child. The
    /// first, not the latest: if a middle branch is thin and the level's last
    /// one is too, keeping the latest would report the legal one and miss the
    /// illegal one.
    thin: Option<usize>,
}

/// A value as the LEAF holds it — which of the two shapes, not the bytes. The
/// bytes of a referenced value may live somewhere this walk cannot reach.
enum Seen {
    Inline(Vec<u8>),
    Ref(Cid, u32),
}

struct Walk<'a> {
    blocks: &'a MemBlocks,
    entries: Vec<(Vec<u8>, Seen)>,
    widths: BTreeMap<u8, Level>,
}

impl<'a> Walk<'a> {
    fn node(&self, id: &Cid, whose: &str) -> Result<Node<'a>, String> {
        let b = self
            .blocks
            .get(id)
            .ok_or_else(|| format!("{whose} names {id:?}, which is not in the store"))?;
        Node::parse(b).map_err(|e| format!("{whose} names a block that is not a node: {e:?}"))
    }

    /// Returns what this subtree actually adds up to.
    fn descend(&mut self, id: &Cid, node: &Node<'_>, whose: &str) -> Result<Agg, String> {
        let mut sum = Agg::default();
        if node.is_leaf() {
            for i in 0..node.len() {
                let key = node.key(i);
                let bytes = match node.value(i) {
                    Value::Inline(b) => {
                        if b.len() > MAX_INLINE {
                            return Err(format!(
                                "leaf {id:?} holds {} B inline, over the {MAX_INLINE} B limit",
                                b.len()
                            ));
                        }
                        self.entries.push((key.clone(), Seen::Inline(b.to_vec())));
                        b.len() as u64
                    }
                    Value::Ref { cid, len } => {
                        // If the caller keeps value blocks here too, the block
                        // must be what the leaf says it is. If it does not, the
                        // id itself is checked against the reference map above,
                        // which binds the bytes just as tightly.
                        if let Some(v) = self.blocks.get(&cid) {
                            if v.len() != len as usize || block_id(kind::RAW, v) != cid {
                                return Err(format!(
                                    "leaf {id:?} records a {len} B value for {}, the block is {} B and hashes to {:?}",
                                    String::from_utf8_lossy(&key),
                                    v.len(),
                                    block_id(kind::RAW, v)
                                ));
                            }
                        }
                        self.entries.push((key.clone(), Seen::Ref(cid, len)));
                        len as u64
                    }
                };
                sum = sum
                    .checked_add(Agg {
                        count: 1,
                        bytes: key.len() as u64 + bytes,
                    })
                    .ok_or("aggregate overflow")?;
            }
        } else {
            let lvl = self.widths.entry(node.level()).or_default();
            lvl.count += 1;
            if node.len() == 1 && lvl.thin.is_none() {
                lvl.thin = Some(lvl.count - 1);
            }
            for i in 0..node.len() {
                let (cid, agg) = node.child(i);
                let child = self.node(&cid, &format!("child {i} of {whose} ({id:?})"))?;
                if child.level() + 1 != node.level() {
                    return Err(format!(
                        "child {i} of {whose} is level {}, its parent is level {}",
                        child.level(),
                        node.level()
                    ));
                }
                if child.is_empty() {
                    return Err(format!("child {i} of {whose} is an empty node"));
                }
                let first = child.key(0);
                if first != node.key(i) {
                    return Err(format!(
                        "{whose} records first key {} for child {i}, the child starts at {}",
                        String::from_utf8_lossy(&node.key(i)),
                        String::from_utf8_lossy(&first)
                    ));
                }
                let real = self.descend(&cid, &child, &format!("child {i} of {whose}"))?;
                if real != agg {
                    return Err(format!(
                        "{whose} records {agg:?} for child {i}, it really holds {real:?}"
                    ));
                }
                sum = sum.checked_add(real).ok_or("aggregate overflow")?;
            }
        }
        if node.agg() != sum {
            return Err(format!(
                "{whose} records its own aggregate as {:?}, its contents add up to {sum:?}",
                node.agg()
            ));
        }
        Ok(sum)
    }
}

fn value_of(v: &[u8]) -> Value<'_> {
    if v.len() <= MAX_INLINE {
        Value::Inline(v)
    } else {
        Value::Ref {
            cid: block_id(kind::RAW, v),
            len: v.len() as u32,
        }
    }
}

/// The oracle: build `m` from scratch. Returns the root and the tree's blocks, nodes
/// only. It pushes raw bytes, so the inline-or-reference choice is the library's own.
fn scratch<R: SplitRule + Copy>(rule: R, m: &Entries) -> (Cid, MemBlocks) {
    let mut handed = Vec::new();
    let mut t = TreeBuilder::with_rule(rule);
    for (k, v) in m {
        t.push_bytes(k, v, &mut handed).unwrap();
    }
    let root = t.finish(&mut handed).unwrap();
    let mut nodes = MemBlocks::default();
    for (c, b) in handed {
        if Node::parse(&b).is_ok() {
            nodes.insert(c, &b);
        }
    }
    (root, nodes)
}

/// A block source that records what was read.
struct Counting<'a> {
    inner: &'a MemBlocks,
    reads: RefCell<HashSet<Cid>>,
}
impl Blocks for Counting<'_> {
    fn held(&self) -> BlockMap {
        unreachable!()
    }

    fn get(&self, cid: &Cid) -> Option<&[u8]> {
        self.reads.borrow_mut().insert(*cid);
        self.inner.get(cid)
    }
}

fn ids(b: &MemBlocks) -> HashSet<Cid> {
    b.0.keys().copied().collect()
}

#[derive(Default, Debug)]
struct Stats {
    batches: usize,
    edits: usize,
    emitted: usize,
    reads: usize,
    tree_nodes: usize,
    stray_reads: usize,
}

/// One compared step. `m` and `store` are advanced to the edited state.
fn step<R: SplitRule + Copy>(
    opts: Options<R>,
    m: &mut Entries,
    store: &mut MemBlocks,
    root: &mut Cid,
    batch: &[(Vec<u8>, Edit)],
    stats: &mut Stats,
) -> Result<(), String> {
    let rule = opts.rule;
    let (_, old_nodes) = scratch(rule, m);
    let mut noops = 0;
    // Edits that hit the first key of a node: the node before it may have to be
    // re-read (it could have been closed by the hard limit because of that key).
    let first_keys: HashSet<Vec<u8>> = old_nodes
        .0
        .values()
        .map(|b| Node::parse(b).unwrap())
        .filter(|n| !n.is_empty())
        .map(|n| n.key(0))
        .collect();
    let first_key_edits = batch.iter().filter(|(k, _)| first_keys.contains(k)).count();
    for (k, e) in batch {
        let noop = match e {
            Edit::Put(v) => m.get(k) == Some(v),
            Edit::Delete => !m.contains_key(k),
        };
        noops += noop as usize;
        match e {
            Edit::Put(v) => m.insert(k.clone(), v.clone()),
            Edit::Delete => m.remove(k),
        };
    }
    let (want_root, new_nodes) = scratch(rule, m);

    let counting = Counting {
        inner: store,
        reads: RefCell::default(),
    };
    let mut emitted: Vec<(Cid, Vec<u8>)> = Vec::new();
    let applied = apply_with(opts, &counting, root, batch, &mut emitted)
    .map_err(|e| format!("apply failed: {e:?}"))?;
    let reads = counting.reads.into_inner();

    if applied.root != want_root {
        return Err("incremental root != from-scratch root".into());
    }
    let (old, new) = (ids(&old_nodes), ids(&new_nodes));
    let emitted_nodes: HashSet<Cid> = emitted
        .iter()
        .filter(|(_, b)| Node::parse(b).is_ok())
        .map(|(c, _)| *c)
        .collect();
    let want_emitted: HashSet<Cid> = new.difference(&old).copied().collect();
    if emitted_nodes != want_emitted {
        return Err(format!(
            "emitted {} nodes, new∖old is {}",
            emitted_nodes.len(),
            want_emitted.len()
        ));
    }
    if emitted.len() != emitted.iter().map(|(c, _)| c).collect::<HashSet<_>>().len() {
        return Err("a block was emitted twice".into());
    }
    if noops == batch.len() && !emitted.is_empty() {
        return Err("a batch that changes nothing emitted a block".into());
    }
    let replaced: HashSet<Cid> = applied.replaced.iter().copied().collect();
    let want_replaced: HashSet<Cid> = old.difference(&new).copied().collect();
    if replaced != want_replaced {
        return Err(format!(
            "replaced {} nodes, old∖new is {}",
            replaced.len(),
            want_replaced.len()
        ));
    }
    // Every value that must live in its own block was emitted, unless it is a no-op.
    for (k, e) in batch {
        if let Edit::Put(v) = e {
            if v.len() > MAX_INLINE && noops == 0 {
                let id = block_id(kind::RAW, v);
                if !emitted.iter().any(|(c, _)| *c == id) && !store.0.contains_key(&id) {
                    return Err(format!("value block for {k:?} never emitted"));
                }
            }
        }
    }
    // Reads: only nodes that were replaced — plus, per no-op edit, its path.
    let height = Node::parse(&old_nodes.0[root]).unwrap().level() as usize + 1;
    // Which node an edit LANDS in, at each level: the last one whose first key
    // is at or below the edit's — the rule the descent itself uses.
    //
    // A node's ENTRIES are not its coverage. A key in the gap after a node's
    // last entry still lands in that node, and re-chunking it can leave it
    // byte-identical: an insert that starts a node of its own leaves everything
    // before it alone. So the node is read, is not "replaced", and is exactly
    // the one the edit went to. Judging that by "does an edit fall between this
    // node's first and last entry" calls a legitimate read a stray one.
    let mut by_level: HashMap<u8, Vec<(Vec<u8>, Cid)>> = HashMap::new();
    for (id, b) in old_nodes.0.iter() {
        let n = Node::parse(b).unwrap();
        if !n.is_empty() {
            by_level.entry(n.level()).or_default().push((n.key(0), *id));
        }
    }
    let mut landed: HashSet<Cid> = HashSet::new();
    for nodes in by_level.values_mut() {
        nodes.sort();
        for (k, _) in batch {
            let i = match nodes.binary_search_by_key(&k, |(min, _)| min) {
                Ok(i) => i,
                Err(0) => 0,
                Err(i) => i - 1,
            };
            landed.insert(nodes[i].1);
        }
    }
    // PARITY MEMBERS. Every group a rebuild touches is recoded from its
    // members, so the members of every node the rebuild emitted are legitimate
    // reads — and ONLY those. Stated exactly rather than as "parity reads
    // something": an accidental whole-node read still shows as stray, because a
    // node that is not a member of anything the rebuild emitted is not in here.
    // What a rewrite may read besides nodes: the blocks the nodes NAME.
    //
    // A group's parity is a pure function of its members, so a rewrite gets its
    // ids from one of three places — copied from an old node that already had
    // the group, corrected from that node's three parity blocks and the one
    // member that changed, or coded from the members. The second and third read
    // blocks the old node names; the third reads blocks the new node names.
    //
    // It is stated as "named by a node this rewrite touched" and not as "parity
    // reads something": a node that is a member of nothing involved is still
    // stray, which is the walk-the-whole-tree failure this guards against.
    let mut named: HashSet<Cid> = HashSet::new();
    let mut note = |n: &Node<'_>| {
        for i in 0..n.len() {
            if n.is_leaf() {
                if let Value::Ref { cid, .. } = n.value(i) {
                    named.insert(cid);
                }
            } else {
                named.insert(n.child(i).0);
            }
        }
        for p in n.parity() {
            named.insert(p);
        }
    };
    for bytes in new_nodes.0.values() {
        note(&Node::parse(bytes).unwrap());
    }
    for c in &replaced {
        if let Some(bytes) = old_nodes.0.get(c) {
            note(&Node::parse(bytes).unwrap());
        }
    }
    let members = named;
    let stray = reads
        .difference(&replaced)
        .filter(|c| !landed.contains(*c))
        .filter(|c| !members.contains(*c))
        .count();
    // Above the leaves the neighbour is always re-read when a branch's first
    // child is replaced (no aggregate bound exists there; upper levels are warm).
    let first_child_replaced = old_nodes
        .0
        .values()
        .map(|b| Node::parse(b).unwrap())
        .filter(|n| !n.is_leaf() && replaced.contains(&n.child(0).0))
        .count();
    if stray > (noops + first_key_edits + first_child_replaced) * height {
        let what: Vec<String> = reads
            .difference(&replaced)
            .filter(|c| !landed.contains(*c))
            .filter(|c| !members.contains(*c))
            .map(|c| {
                let n = Node::parse(&old_nodes.0[c]).unwrap();
                let touched = batch
                    .iter()
                    .filter(|(k, _)| n.key(0) <= *k && *k <= n.key(n.len() - 1))
                    .count();
                format!(
                    "level {} entries {} edits-in-range {}",
                    n.level(),
                    n.len(),
                    touched
                )
            })
            .collect();
        return Err(format!(
            "{stray} reads outside the replaced nodes ({noops} no-ops, {first_key_edits} first-key edits): {what:?}"
        ));
    }

    for (c, b) in &emitted {
        if block_id(
            if Node::parse(b).is_ok() {
                kind::TREE_NODE
            } else {
                kind::RAW
            },
            b,
        ) != *c
        {
            return Err("an emitted block does not hash to its id".into());
        }
        store.insert(*c, b);
    }
    *root = applied.root;
    // The second witness. The comparisons above are all against a from-scratch
    // rebuild; this one asks whether what we have is a tree, independently of
    // what a rebuild would have produced.
    check_tree(store, root, m).map_err(|e| format!("invariant walk: {e}"))?;
    stats.batches += 1;
    stats.edits += batch.len();
    stats.emitted += emitted_nodes.len();
    stats.reads += reads.len();
    stats.stray_reads += stray;
    stats.tree_nodes = new.len();
    Ok(())
}

fn random_batch(r: &mut impl FnMut() -> u64, m: &Entries, max: usize) -> Vec<(Vec<u8>, Edit)> {
    let n = 1 + (r() as usize % max);
    let keys: Vec<&Vec<u8>> = m.keys().collect();
    let clustered = r() % 2 == 0;
    let anchor = if keys.is_empty() {
        0
    } else {
        r() as usize % keys.len()
    };
    let mut out: BTreeMap<Vec<u8>, Edit> = BTreeMap::new();
    for _ in 0..n {
        let existing = if keys.is_empty() {
            None
        } else {
            let i = if clustered {
                (anchor + (r() as usize % 60)) % keys.len()
            } else {
                r() as usize % keys.len()
            };
            Some(keys[i].clone())
        };
        let fresh = |r: &mut dyn FnMut() -> u64, base: Option<&Vec<u8>>| {
            let mut k = base.cloned().unwrap_or_else(|| b"d/post/".to_vec());
            k.extend_from_slice(&r().to_be_bytes());
            k
        };
        let val = |r: &mut dyn FnMut() -> u64, len: usize| vec![r() as u8; len];
        let (k, e) = match (r() % 10, existing) {
            (0..=2, base) => {
                let len = 40 + (r() % 300) as usize;
                (fresh(r, base.as_ref()), Edit::Put(val(r, len)))
            }
            (3, base) => {
                let len = 1500 + (r() % 3000) as usize;
                (fresh(r, base.as_ref()), Edit::Put(val(r, len)))
            }
            (4, Some(k)) => {
                let len = m[&k].len();
                (k, Edit::Put(val(r, len)))
            }
            (5, Some(k)) => {
                let len = (r() % 900) as usize;
                (k, Edit::Put(val(r, len)))
            }
            (6, Some(k)) => {
                // flip inline <-> reference
                let len = if m[&k].len() > MAX_INLINE { 100 } else { 2000 };
                (k, Edit::Put(val(r, len)))
            }
            (7, Some(k)) => {
                let same = m[&k].clone();
                (k, Edit::Put(same))
            }
            (8, base) => (fresh(r, base.as_ref()), Edit::Delete),
            (_, Some(k)) => (k, Edit::Delete),
            (_, None) => (fresh(r, None), Edit::Put(val(r, 100))),
        };
        out.insert(k, e);
    }
    out.into_iter().collect()
}

fn run<R: SplitRule + Copy>(rule: R, seed: u64, start: usize, batches: usize) -> Result<Stats, String> {
    let mut m: Entries = dataset(seed, start).into_iter().collect();
    let (mut root, mut store) = scratch(rule, &m);
    let mut r = rng(seed ^ 0xabcdef);
    let mut stats = Stats::default();
    for _ in 0..batches {
        let batch = random_batch(&mut r, &m, 50);
        let opts = Options {
            rule,
            recheck_neighbour: true,
        };
        step(opts, &mut m, &mut store, &mut root, &batch, &mut stats)?;
    }
    // and the tree still answers like the map
    for (k, v) in m.iter().step_by(37) {
        if get(&store, &root, k).map_err(|e| format!("{e:?}"))? != Some(value_of(v)) {
            return Err("get disagrees with the reference map".into());
        }
    }
    Ok(stats)
}

/// Control: a rule that depends on how many entries were pushed before, on the history
/// of the process and not on the contents.
#[derive(Clone, Copy)]
struct HistoryDependent<'a>(&'a Cell<usize>);

impl SplitRule for HistoryDependent<'_> {
    fn decides(&self, _level: u8, _key: Bytes, _before: Length, _after: Length) -> bool {
        unreachable!()
    }

    fn splits(&self, _level: u8, _key: &[u8], _before: usize, after: usize) -> bool {
        if after < 1024 {
            return false;
        }
        let pushed = self.0.get();
        self.0.set(pushed + 1);
        pushed % 29 == 0
    }
}

#[test]
fn random_edit_sequences_match_a_rebuild_and_a_history_dependent_rule_is_caught() {
    let mut total = Stats::default();
    for (seed, start) in [(1u64, 0usize), (2, 30), (3, 3000), (4, 20_000)] {
        let s = run(ByContent, seed, start, 60).unwrap();
        println!(
            "start {start:5}: {} batches, {} edits, tree {} nodes; per batch: {:.1} nodes emitted, {:.1} read; {} reads outside replaced nodes",
            s.batches,
            s.edits,
            s.tree_nodes,
            s.emitted as f64 / s.batches as f64,
            s.reads as f64 / s.batches as f64,
            s.stray_reads
        );
        total.batches += s.batches;
    }
    assert_eq!(total.batches, 240);
    let pushed = Cell::new(0);
    let control = run(HistoryDependent(&pushed), 3, 3000, 60);
    println!("history-dependent control: {control:?}");
    assert!(
        control.is_err(),
        "the comparison must catch a history-dependent rule"
    );
}

fn put(k: &[u8], v: &[u8]) -> (Vec<u8>, Edit) {
    (k.to_vec(), Edit::Put(v.to_vec()))
}
fn del(k: &[u8]) -> (Vec<u8>, Edit) {
    (k.to_vec(), Edit::Delete)
}

/// Run one batch through every comparison on a tree built from `m`.
fn check(m: &mut Entries, batch: Vec<(Vec<u8>, Edit)>) -> Stats {
    try_check(Options::default(), m, batch).unwrap()
}
fn try_check<R: SplitRule + Copy>(opts: Options<R>, m: &mut Entries, batch: Vec<(Vec<u8>, Edit)>) -> Result<Stats, String> {
    let (mut root, mut store) = scratch(opts.rule, m);
    let mut stats = Stats::default();
    step(opts, m, &mut store, &mut root, &batch, &mut stats)?;
    Ok(stats)
}

/// Leaves of the tree for `m`, in key order, as (first key, last key).
fn leaves(m: &Entries) -> Vec<(Vec<u8>, Vec<u8>)> {
    let (_, nodes) = scratch(ByContent, m);
    let mut v: Vec<_> = nodes
        .0
        .values()
        .map(|b| Node::parse(b).unwrap())
        .filter(|n| n.is_leaf() && !n.is_empty())
        .map(|n| (n.key(0), n.key(n.len() - 1)))
        .collect();
    v.sort();
    v
}

#[test]
fn named_edge_cases() {
    let base: Entries = dataset(9, 6000).into_iter().collect();
    let lv = leaves(&base);
    assert!(lv.len() > 100);
    let (first5, last5) = (&lv[5], &lv[lv.len() - 1]);

    // delete a node's first key; change its size; insert into the gap before it
    // (on honest data the parent's aggregate proves the leaf before was not
    // force-closed, so touching a first key reads nothing extra at the leaves)
    for batch in [vec![del(&first5.0)], vec![put(&first5.0, &[1; 700])]] {
        let s = check(&mut base.clone(), batch);
        assert_eq!(s.stray_reads, 0, "no read outside the replaced nodes");
    }
    let mut gap = lv[4].1.clone();
    gap.push(0);
    assert!(gap < first5.0 && !base.contains_key(&gap));
    check(&mut base.clone(), vec![put(&gap, &[2; 90])]);

    // delete a whole node; the level's last node; first and last node at once
    let whole = |a: &Vec<u8>, b: &Vec<u8>| -> Vec<(Vec<u8>, Edit)> {
        base.range(a.clone()..=b.clone())
            .map(|(k, _)| del(k))
            .collect()
    };
    check(&mut base.clone(), whole(&first5.0, &first5.1));
    check(&mut base.clone(), whole(&last5.0, &last5.1));
    let mut both = whole(&lv[0].0, &lv[0].1);
    both.extend(whole(&last5.0, &last5.1));
    check(&mut base.clone(), both);

    // append past the end; prepend before the start
    check(&mut base.clone(), vec![put(&[0xff; 20], &[3; 50])]);
    check(&mut base.clone(), vec![put(&[0x00], &[3; 50])]);

    // inline <-> reference, and a no-op batch emits nothing and reads little
    let k = base.keys().nth(3000).unwrap().clone();
    let mut m = base.clone();
    check(&mut m, vec![put(&k, &[4; 5000])]);
    check(&mut m, vec![put(&k, &[4; 10])]);
    let same = base[&k].clone();
    let s = check(
        &mut base.clone(),
        vec![put(&k, &same), del(b"zzz-absent-key")],
    );
    assert_eq!(s.emitted, 0, "a no-op batch emits nothing");
    // ... also when the unchanged value lives in its own block
    let mut m = base.clone();
    check(&mut m, vec![put(&k, &[4; 5000])]);
    check(&mut m, vec![put(&k, &[4; 5000])]);
}

#[test]
fn height_collapses_and_grows_in_one_batch() {
    let base: Entries = dataset(10, 9000).into_iter().collect();
    let height = |m: &Entries| {
        let (root, nodes) = scratch(ByContent, m);
        Node::parse(&nodes.0[&root]).unwrap().level() + 1
    };
    assert!(height(&base) >= 3);

    // 3 levels -> one leaf
    let mut m = base.clone();
    let batch: Vec<_> = base.keys().skip(5).map(|k| del(k)).collect();
    check(&mut m, batch);
    assert_eq!((m.len(), height(&m)), (5, 1));

    // 3 levels -> empty
    let mut m = base.clone();
    check(&mut m, base.keys().map(|k| del(k)).collect());
    assert!(m.is_empty());

    // empty -> 3 levels, and one leaf -> 3 levels
    let all: Vec<_> = base.iter().map(|(k, v)| put(k, v)).collect();
    let mut m = Entries::new();
    check(&mut m, all.clone());
    assert_eq!(height(&m), height(&base));
    let mut m: Entries = base
        .iter()
        .take(5)
        .map(|(k, v)| (k.clone(), v.clone()))
        .collect();
    check(&mut m, all);
    assert_eq!(m, base);
}

/// A leaf closed by the hard limit ends because of the entry AFTER it. Editing
/// that entry must re-chunk the leaf before it.
#[test]
fn an_edit_behind_a_force_closed_node_rechunks_it() {
    let big = vec![7u8; 1000];
    let mut m = Entries::new();
    let mut s = HEADER;
    let mut i = 0;
    while s + NodeBuilder::leaf_cost(b"99999", &Value::Inline(&big)) <= MAX_LOGICAL {
        let key = (0..)
            .map(|j| format!("{i:05}.{j}").into_bytes())
            .find(|k| {
                let c = NodeBuilder::leaf_cost(k, &Value::Inline(b""));
                !splits_after(0, k, s, s + c)
            })
            .unwrap();
        s += NodeBuilder::leaf_cost(&key, &Value::Inline(b""));
        m.insert(key, vec![]);
        i += 1;
    }
    let filled = m.len();
    m.insert(b"99999".to_vec(), big);
    m.extend(dataset(2, 400).into_iter().map(|(mut k, v)| {
        k.insert(0, b'z');
        (k, v)
    }));
    let lv = leaves(&m);
    assert_eq!(
        lv[1].0,
        b"99999".to_vec(),
        "the big entry opens the second leaf"
    );
    assert_eq!(
        m.range(..b"99999".to_vec()).count(),
        filled,
        "and the first leaf was closed by the limit"
    );
    // Shrinking or deleting the entry lets the first leaf take more: a rebuild
    // moves that boundary, so the edit must too. The comparison shows it.
    check(&mut m.clone(), vec![put(b"99999", &[1; 3])]);
    check(&mut m.clone(), vec![del(b"99999")]);
    // Control: without the neighbour re-check the same edits give a wrong tree.
    let off = Options {
        recheck_neighbour: false,
        ..Options::default()
    };
    for batch in [vec![put(b"99999", &[1; 3])], vec![del(b"99999")]] {
        let got = try_check(off, &mut m.clone(), batch);
        assert_eq!(
            got.err().as_deref(),
            Some("incremental root != from-scratch root")
        );
    }
}

#[test]
fn a_rejected_batch_leaves_no_trace() {
    let m: Entries = dataset(11, 2000).into_iter().collect();
    let (root, store) = scratch(ByContent, &m);
    let k = m.keys().nth(900).unwrap().clone();
    let bad: Vec<(Vec<(Vec<u8>, Edit)>, ApplyError)> = vec![
        (
            vec![put(b"b", b"1"), put(b"a", b"2")],
            ApplyError::NotSorted,
        ),
        (
            vec![put(b"a", b"1"), put(b"a", b"2")],
            ApplyError::NotSorted,
        ),
        (
            vec![put(&k, b"x"), put(&[b'z'; 600], b"")],
            ApplyError::KeyTooLong,
        ),
        (
            vec![put(&k, b"x"), put(b"zz", &vec![0; MAX_VALUE + 1])],
            ApplyError::ValueTooLong,
        ),
    ];
    for (batch, want) in bad {
        let counting = Counting {
            inner: &store,
            reads: RefCell::default(),
        };
        let mut emitted = Vec::new();
        let got = apply(&counting, &root, &batch, &mut emitted);
        assert_eq!(got, Err(want));
        assert_eq!(emitted.len(), 0);
        assert!(
            counting.reads.borrow().is_empty(),
            "refused before any read"
        );
    }
    // the largest legal value is accepted
    let mut ok = Vec::new();
    apply(&store, &root, &[put(b"zz", &vec![0; MAX_VALUE])], &mut ok).unwrap();
    assert!(ok.len() >= 2);
}

/// Start holding only what `Need` names, one round at a time.
#[test]
fn a_cold_edit_resumes_round_by_round_and_emits_only_at_the_end() {
    let mut m: Entries = dataset(12, 20_000).into_iter().collect();
    let (root, full) = scratch(ByContent, &m);
    let mut r = rng(77);
    println!("cold apply: rounds (one Need per round), 20k entries");
    for size in [1usize, 5, 25] {
        let mut batch = BTreeMap::new();
        while batch.len() < size {
            let k = m.keys().nth(r() as usize % m.len()).unwrap().clone();
            batch.insert(k, Edit::Put(vec![r() as u8; 200]));
        }
        let batch: Vec<_> = batch.into_iter().collect();
        let mut held = MemBlocks::default();
        let (mut rounds, mut fetched, mut widest) = (0, 0, 0);
        let emitted;
        let applied = loop {
            let mut out = Vec::new();
            match apply(&held, &root, &batch, &mut out) {
                Ok(a) => {
                    emitted = out;
                    break a;
                }
                Err(ApplyError::Read(ReadError::Need(ids))) => {
                    assert!(out.is_empty(), "nothing is emitted before success");
                    assert!(!ids.is_empty());
                    rounds += 1;
                    fetched += ids.len();
                    widest = widest.max(ids.len());
                    for id in ids {
                        held.insert(id, &full.0[&id]);
                    }
                }
                Err(e) => panic!("{e:?}"),
            }
        };
        for (k, e) in &batch {
            if let Edit::Put(v) = e {
                m.insert(k.clone(), v.clone());
            }
        }
        assert_eq!(applied.root, scratch(ByContent, &m).0);
        assert!(!emitted.is_empty());
        // The walk needs every block of the NEW tree: what the rounds fetched,
        // plus what this apply emitted.
        let mut after = full.clone();
        emitted.iter().for_each(|(c, b)| after.insert(*c, b));
        check_tree(&after, &applied.root, &m).unwrap();
        println!(
            "  batch {size:2}: {rounds} rounds, {fetched} blocks fetched, widest round {widest}"
        );
        // A cold edit also fetches the members of every group it touches: up to
        // MAX_GROUP members per group, on each level of the path.
        let per_edit = 12 + parity_budget();
        assert!(
            fetched < per_edit * size + 8 + 4 * MAX_GROUP,
            "fetched {fetched} for {size} edits"
        );
        m = dataset(12, 20_000).into_iter().collect();
    }
}

/// Any order of single edits that ends with the same
/// contents ends with the same root.
#[test]
fn any_edit_order_reaches_the_same_root() {
    let target: Entries = dataset(13, 1500).into_iter().collect();
    let mut roots = Vec::new();
    for seed in [1u64, 2, 3] {
        let mut r = rng(seed);
        let mut order: Vec<&Vec<u8>> = target.keys().collect();
        for i in (1..order.len()).rev() {
            order.swap(i, r() as usize % (i + 1));
        }
        let (mut root, mut store) = scratch(ByContent, &Entries::new());
        // insert in this order, with detours: junk keys added and removed again,
        // values first written wrong and then corrected
        for (n, k) in order.iter().enumerate() {
            let mut edits = vec![put(k, if n % 3 == 0 { b"wrong" } else { &target[*k] })];
            if n % 5 == 0 {
                let mut junk = (*k).clone();
                junk.push(b'~');
                edits.push(put(&junk, b"junk"));
            }
            for e in edits {
                let mut out = Vec::new();
                root = apply(&store, &root, &[e], &mut out).unwrap().root;
                out.iter().for_each(|(c, b)| store.insert(*c, b));
            }
        }
        for (n, k) in order.iter().enumerate() {
            let mut edits = Vec::new();
            if n % 3 == 0 {
                edits.push(put(k, &target[*k]));
            }
            if n % 5 == 0 {
                let mut junk = (*k).clone();
                junk.push(b'~');
                edits.push(del(&junk));
            }
            for e in edits {
                let mut out = Vec::new();
                root = apply(&store, &root, &[e], &mut out).unwrap().root;
                out.iter().for_each(|(c, b)| store.insert(*c, b));
            }
        }
        check_tree(&store, &root, &target).unwrap();
        roots.push(root);
    }
    assert_eq!(roots[0], scratch(ByContent, &target).0);
    assert!(roots.iter().all(|r| *r == roots[0]));
}

/// A level can shrink to one node that the batch never touched: everything else
/// is deleted. The survivor itself is then the root — not a branch holding it.
#[test]
fn deleting_everything_but_an_untouched_node_makes_that_node_the_root() {
    let keep_leaf = |n: usize, which: &dyn Fn(usize) -> usize| {
        let base: Entries = dataset(3, n).into_iter().collect();
        let lv = leaves(&base);
        let (lo, hi) = lv[which(lv.len())].clone();
        let batch: Vec<_> = base
            .keys()
            .filter(|k| **k < lo || **k > hi)
            .map(|k| del(k))
            .collect();
        let mut m = base.clone();
        let r = try_check(Options::default(), &mut m, batch);
        (lv.len(), r.map(|_| ()))
    };
    let mut failures = 0;
    for (n, name, which) in [
        (200usize, "first", &(|_| 0usize) as &dyn Fn(usize) -> usize),
        (200, "last", &|len| len - 1),
        (6000, "#40", &|_| 40usize),
        (30_000, "#700", &|_| 700usize),
    ] {
        let (leaves, r) = keep_leaf(n, which);
        println!("n={n} leaves={leaves} keep={name}: {r:?}");
        failures += r.is_err() as usize;
    }
    assert_eq!(failures, 0);
    // One level up: keep one whole level-1 subtree of a height-3 tree.
    let base: Entries = dataset(3, 30_000).into_iter().collect();
    let (_, nodes) = scratch(ByContent, &base);
    let mut level1: Vec<Vec<u8>> = nodes
        .0
        .values()
        .map(|b| Node::parse(b).unwrap())
        .filter(|n| n.level() == 1)
        .map(|n| n.key(0))
        .collect();
    level1.sort();
    assert!(level1.len() > 8, "the tree has a level above level 1");
    let (lo, hi) = (level1[3].clone(), level1[4].clone());
    let batch: Vec<_> = base
        .keys()
        .filter(|k| **k < lo || **k >= hi)
        .map(|k| del(k))
        .collect();
    let mut m = base.clone();
    try_check(Options::default(), &mut m, batch).unwrap();
    assert!(m.len() > 100);
}

#[derive(Clone, Copy, Debug)]
enum Order {
    /// Every key above the last: an append-only log, a feed, records keyed by
    /// time.
    Ascending,
    /// Every key below the first.
    Descending,
    /// Ends inward, so both edges of the tree move.
    Alternating,
}

fn ordered_keys(n: usize, order: Order) -> Vec<Vec<u8>> {
    let k = |i: usize| format!("k/{i:08}").into_bytes();
    match order {
        Order::Ascending => (0..n).map(k).collect(),
        Order::Descending => (0..n).rev().map(k).collect(),
        Order::Alternating => (0..n)
            .map(|i| {
                if i % 2 == 0 {
                    k(i / 2)
                } else {
                    k(n - 1 - i / 2)
                }
            })
            .collect(),
    }
}

/// Write `n` entries in `order`, `per_batch` at a time, through every comparison —
/// which compares against a from-scratch build AND checks that exactly the new
/// nodes were emitted. The second part matters here: a node that survived
/// unchanged is referenced, not handed over again.
fn run_ordered(vlen: usize, order: Order, per_batch: usize, n: usize) -> Result<(), String> {
    let mut m = Entries::new();
    let (mut root, mut store) = scratch(ByContent, &m);
    let mut stats = Stats::default();
    let keys = ordered_keys(n, order);
    for (b, chunk) in keys.chunks(per_batch).enumerate() {
        let mut batch: Vec<(Vec<u8>, Edit)> = chunk
            .iter()
            .map(|k| (k.clone(), Edit::Put(vec![(b % 251) as u8; vlen])))
            .collect();
        // A step takes a sorted batch; which ORDER the batches arrive in is
        // what this test varies.
        batch.sort_by_key(|a| a.0.clone());
        step(
            Options::default(),
            &mut m,
            &mut store,
            &mut root,
            &batch,
            &mut stats,
        )
        .map_err(|e| {
            format!(
                "vlen {vlen} {order:?} batch {per_batch} at {}: {e}",
                b * per_batch
            )
        })?;
    }
    Ok(())
}

/// An append that lands in a new node leaves everything before it
/// byte-identical. When that happens at the old ROOT's level, nothing holds the
/// surviving node — the level above does not exist yet — so it has to be passed
/// up along with its new sibling.
#[test]
fn writing_in_key_order_equals_a_rebuild() {
    let mut runs = 0;
    for vlen in [0usize, 150, 900] {
        // Enough entries to cross several splits at every size.
        let n = (20_000 / (vlen + 12) + 30).min(400);
        for order in [Order::Ascending, Order::Descending, Order::Alternating] {
            for per_batch in [1usize, 5] {
                run_ordered(vlen, order, per_batch, n).unwrap();
                runs += 1;
            }
        }
    }
    assert_eq!(runs, 18);
}

/// The same shape one level up: a height-2 tree whose ROOT BRANCH splits while
/// its first branch survives byte-identically.
#[test]
fn appends_that_split_a_root_branch_keep_the_tree() {
    let mut m = Entries::new();
    let (mut root, mut store) = scratch(ByContent, &m);
    let mut heights = Vec::new();
    for i in 0..4000u32 {
        let (k, v) = (format!("k/{i:08}").into_bytes(), vec![(i % 251) as u8; 300]);
        let mut out = Vec::new();
        root = apply(
            &store,
            &root,
            &[(k.clone(), Edit::Put(v.clone()))],
            &mut out,
        )
        .unwrap_or_else(|e| panic!("append {i}: {e:?}"))
        .root;
        for (c, b) in &out {
            store.insert(*c, b);
        }
        m.insert(k, v);
        let h = Node::parse(&store.0[&root]).unwrap().level() + 1;
        let grew = heights.last() != Some(&h);
        if grew {
            heights.push(h);
        }
        if grew || i % 250 == 249 {
            assert_eq!(root, scratch(ByContent, &m).0, "diverged at append {i}");
            check_tree(&store, &root, &m).unwrap();
        }
    }
    assert!(
        heights.contains(&3),
        "the tree must have grown past height 2, so a root branch split: {heights:?}"
    );
    assert_eq!(m.len(), 4000);
}

/// A log at a size where it would be noticed: 20k appends one
/// at a time, checked against the oracle as it goes. `step` is O(n) per call, so
/// this drives `apply` directly and rebuilds only at checkpoints.
#[test]
fn twenty_thousand_appends_one_at_a_time() {
    let mut m = Entries::new();
    let (mut root, mut store) = scratch(ByContent, &m);
    let mut checks = 0;
    for i in 0..20_000u32 {
        let (k, v) = (format!("k/{i:08}").into_bytes(), vec![(i % 251) as u8; 120]);
        let mut out = Vec::new();
        root = apply(
            &store,
            &root,
            &[(k.clone(), Edit::Put(v.clone()))],
            &mut out,
        )
        .unwrap()
        .root;
        for (c, b) in &out {
            store.insert(*c, b);
        }
        m.insert(k, v);
        if i % 1000 == 999 || i < 40 {
            assert_eq!(
                root,
                scratch(ByContent, &m).0,
                "diverged at {} entries",
                m.len()
            );
            check_tree(&store, &root, &m).unwrap();
            checks += 1;
        }
    }
    let h = Node::parse(&store.0[&root]).unwrap().level() + 1;
    println!("20k appends: final height {h}, {} checkpoints", checks);
    assert!(h >= 3, "20k entries should be at least three levels deep");
    // And the whole tree still reads back.
    for (k, v) in m.iter().step_by(97) {
        assert_eq!(get(&store, &root, k).unwrap(), Some(value_of(v)));
    }
}

/// **Reuse changes what is READ, never what is WRITTEN.**
///
/// Parity is a pure function of a group's members, so copying an untouched
/// group's ids from the node being replaced and coding that group from its
/// members must give the same three ids. This is the oracle for that: every
/// case below is applied incrementally AND built from scratch, and the two
/// trees are required to be identical block for block — not merely to have the
/// same root, which a shared bug in both paths could satisfy.
///
/// The cases are the ones where the grouping is most likely to move: an update
/// with no membership change, an insert that shifts a group boundary and one
/// that does not, a delete, a value crossing a size class, and a short tail
/// folding and unfolding.
#[test]
fn reuse_gives_the_same_bytes_as_coding_every_group() {
    // Values large enough to be stored by REFERENCE, so the leaves carry parity
    // and the leaf grouping (by size class) is exercised, not only the branches.
    let big = |n: usize, b: u8| vec![b; n];
    let mut base: Entries = dataset(11, 900).into_iter().collect();
    for (i, (_, v)) in base.iter_mut().enumerate() {
        // A spread across the first two size classes.
        *v = big(if i % 3 == 0 { 1100 } else { 5000 }, i as u8);
    }
    let keys: Vec<Vec<u8>> = base.keys().cloned().collect();
    let mid = keys[keys.len() / 2].clone();
    let mut before_mid = keys[keys.len() / 2 - 1].clone();
    before_mid.push(0);
    let mut fresh = keys[3].clone();
    fresh.push(7);

    let cases: Vec<(&'static str, Vec<(Vec<u8>, Edit)>)> = vec![
        (
            "an update beneath a child, no membership change",
            vec![put(&mid, &big(5000, 0xaa))],
        ),
        (
            "an insert between two existing keys",
            vec![put(&before_mid, &big(5000, 0xbb))],
        ),
        (
            "another insert, elsewhere",
            vec![put(&fresh, &big(5000, 0xcc))],
        ),
        ("a delete", vec![del(&mid)]),
        (
            "a value crossing a size class",
            vec![put(&keys[1], &big(20_000, 0xdd))],
        ),
        (
            "several edits at once, which moves boundaries",
            keys.iter()
                .step_by(97)
                .map(|k| put(k, &big(1100, 0xee)))
                .collect(),
        ),
    ];

    // Every case runs twice. With the writer's parity blocks in the store a
    // one-member change can be CORRECTED; without them the same change must
    // fall back to a recode. Both passes assert the same bytes, so the fallback
    // is a negative control that actually executes rather than a comment about
    // one.
    for (what, batch) in &cases {
        let mut counts = Vec::new();
        for with_parity in [true, false] {
            let mut m = base.clone();
            let (mut root, mut store) = scratch(ByContent, &m);
            // Values live in the store too: a leaf's parity is over them.
            for (k, v) in &m {
                let _ = k;
                let (val, block) = Value::for_bytes(v);
                let _ = val;
                if let Some((c, b)) = block {
                    store.insert(c, b);
                }
            }

            // The parity BLOCKS a writer would have put after its own commit. The
            // library lists parity ids and does not emit the bytes, so a writer
            // that did not keep them has nothing to correct — which is the second
            // pass.
            if with_parity {
                let mut parity_blocks: Vec<(Cid, Vec<u8>)> = Vec::new();
                for bytes in store.0.values() {
                    if let Ok(n) = Node::parse(bytes) {
                        if let Some(ps) = blocks_of(&n, &store) {
                            parity_blocks.extend(ps);
                        }
                    }
                }
                for (c, b) in parity_blocks {
                    store.insert(c, &b);
                }
            }

            let parity_ids: HashSet<Cid> = store
                .0
                .iter()
                .filter(|(c, b)| block_id(kind::PARITY, b) == **c)
                .map(|(c, _)| *c)
                .collect();
            let counting = Counting {
                inner: &store,
                reads: RefCell::default(),
            };
            let mut emitted = Vec::new();
            let applied = apply(&counting, &root, batch, &mut emitted)
                .unwrap_or_else(|e| panic!("{what}: {e:?}"));
            let reads = counting.reads.into_inner();
            let old_nodes: Vec<Vec<u8>> = applied
                .replaced
                .iter()
                .map(|c| store.0[c].clone())
                .collect();
            store.keep(emitted);
            root = applied.root;
            // What a rewrite read says where each group's parity came from. A group
            // that was reused has no member read, one that was corrected had its old
            // parity blocks read, and one that was coded had its members read.
            let corrected = reads.intersection(&parity_ids).count();
            let members: Vec<HashSet<Cid>> = old_nodes
                .iter()
                .flat_map(|b| group_members(&Node::parse(b).unwrap()))
                .map(|(_, ids)| ids.into_iter().collect())
                .collect();
            let untouched = members.iter().filter(|g| g.is_disjoint(&reads)).count();

            for (k, e) in batch {
                match e {
                    Edit::Put(v) => {
                        m.insert(k.clone(), v.clone());
                    }
                    Edit::Delete => {
                        m.remove(k);
                    }
                }
            }
            let (want_root, want_nodes) = scratch(ByContent, &m);
            assert_eq!(root, want_root, "{what}: the root differs from a rebuild");

            // Block for block, not just the root: identical roots with different
            // parity ids is impossible, but identical roots are also what a bug
            // shared by both paths would produce, so the nodes are compared too.
            for (cid, bytes) in &want_nodes.0 {
                let got = store
                    .0
                    .get(cid)
                    .unwrap_or_else(|| panic!("{what}: the rebuild's node {cid:?} is missing"));
                assert_eq!(got, bytes, "{what}: node bytes differ");
            }

            // And reuse must actually have happened, or the equality above is the
            // equality of two recodes.
            assert!(untouched > 0, "{what}: no group was reused");
            if with_parity {
                assert!(
                    corrected > 0,
                    "{what}: the old parity was there and no group was corrected"
                );
            } else {
                assert_eq!(
                    corrected, 0,
                    "{what}: no old parity block exists, yet a group claimed to correct one"
                );
            }
            counts.push((untouched, reads.len()));
        }

        // Without the old parity blocks more members have to be read.
        let ((u0, _), (u1, _)) = (counts[0], counts[1]);
        assert!(u0 >= u1, "{what}: {u0} groups untouched, but without parity {u1}");
    }
}
