//! The boundary rule: tree validity, size spread, edit locality. Every property that says
//! "the rule gives X" is paired with a control rule that must not give X.

use freenet_prolly::seqs::{Bytes, Length};
use freenet_prolly::boundary::{
    self, check_node, check_node_counted, check_parity, split_hash, split_hash_parts, splits_after,
    splits_after_parts, BoundaryError, MAX_LOGICAL, MIN_SPLIT,
};
use freenet_prolly::build::{SplitRule, TreeBuilder, TreeError};
use freenet_prolly::chunk::ByContent;
use freenet_prolly::node::{Agg, BuildError, Node, NodeBuilder, Value, HEADER, MAX_INLINE};
use freenet_prolly::parity::{encode_group, pcount_of, repair_group, symbol, MAX_MEMBER_VALUE, PARITY};
use freenet_prolly::{block_id, kind, Cid};
use std::collections::HashMap;

/// The symbols that are not lost.
fn present(all: &[Vec<u8>], kept: impl Fn(usize) -> bool) -> Vec<Option<Vec<u8>>> {
    (0..all.len())
        .map(|j| if kept(j) { Some(all[j].clone()) } else { None })
        .collect()
}

fn rng(seed: u64) -> impl FnMut() -> u64 {
    let mut s = seed | 1;
    move || {
        s ^= s << 13;
        s ^= s >> 7;
        s ^= s << 17;
        s
    }
}

/// `n` entries shaped like a real identity tree — records (~40 B keys, 60–400 B
/// values), edges (~150 B keys, tiny values), index terms — sorted, keys unique.
fn dataset(seed: u64, n: usize) -> Vec<(Vec<u8>, Vec<u8>)> {
    let mut r = rng(seed);
    let domains: [&[u8]; 4] = [b"post", b"comment", b"profile", b"inventory-item"];
    let rels: [&[u8]; 3] = [b"follows", b"likes", b"member-of"];
    let mut out = Vec::with_capacity(n);
    for _ in 0..n {
        let kind = r() % 10;
        let mut key = Vec::new();
        let vlen;
        if kind < 6 {
            key.extend_from_slice(b"d/");
            key.extend_from_slice(domains[(r() % 4) as usize]);
            key.push(b'/');
            key.extend_from_slice(&r().to_be_bytes());
            key.extend_from_slice(&r().to_be_bytes());
            vlen = 60 + (r() % 341) as usize;
        } else if kind < 9 {
            key.extend_from_slice(b"e/");
            key.extend_from_slice(rels[(r() % 3) as usize]);
            key.push(b'/');
            for _ in 0..(16 + r() % 6) {
                key.extend_from_slice(&r().to_be_bytes());
            }
            vlen = (r() % 17) as usize;
        } else {
            key.extend_from_slice(b"i/post/title/");
            for _ in 0..(1 + r() % 8) {
                key.extend_from_slice(&r().to_be_bytes());
            }
            vlen = 16;
        }
        let mut val = vec![0u8; vlen];
        for b in val.iter_mut() {
            *b = r() as u8;
        }
        out.push((key, val));
    }
    out.sort();
    out.dedup_by(|a, b| a.0 == b.0);
    out
}

type Entries = Vec<(Vec<u8>, Vec<u8>)>;
type Nodes = HashMap<Cid, Vec<u8>>;

fn build_with<R: SplitRule + Copy>(rule: R, e: &Entries) -> (Cid, Nodes) {
    let mut handed = Vec::new();
    let mut t = TreeBuilder::with_rule(rule);
    for (k, v) in e {
        t.push(k, Value::Inline(v), &mut handed).unwrap();
    }
    let root = t.finish(&mut handed).unwrap();
    (root, handed.into_iter().collect())
}
fn build(e: &Entries) -> (Cid, Nodes) {
    build_with(ByContent, e)
}

/// Control: close a node once it reaches 4 KiB. Depends on position, not content.
#[derive(Clone, Copy)]
struct BySize;

impl SplitRule for BySize {
    fn decides(&self, _level: u8, _key: Bytes, _before: Length, _after: Length) -> bool {
        unreachable!()
    }

    fn splits(&self, _level: u8, _key: &[u8], _before: usize, after: usize) -> bool {
        after >= 4096
    }
}

/// Control: content-defined but size-blind (constant hazard, mean about 4 KiB).
#[derive(Clone, Copy)]
struct Geometric;

impl SplitRule for Geometric {
    fn decides(&self, _level: u8, _key: Bytes, _before: Length, _after: Length) -> bool {
        unreachable!()
    }

    fn splits(&self, level: u8, key: &[u8], before: usize, after: usize) -> bool {
        after >= MIN_SPLIT
            && (boundary::split_hash(level, key) as u64) * 3584 < ((after - before) as u64) << 32
    }
}

/// One node of a walk: its level, its aggregate and its first key.
fn go(
    c: Cid,
    nodes: &Nodes,
    want: Option<u8>,
    last: bool,
    out: &mut Entries,
) -> (u8, Agg, Vec<u8>) {
    let n = Node::parse(&nodes[&c]).expect("every node parses");
    if let Some(l) = want {
        assert_eq!(n.level(), l, "child level is parent level - 1");
    }
    if n.is_leaf() {
        for i in 0..n.len() {
            match n.value(i) {
                Value::Inline(v) => out.push((n.key(i), v.to_vec())),
                _ => unreachable!(),
            }
        }
    } else {
        // Only the last node of a level may hold a single child; the root never does.
        assert!(
            n.len() >= 2 || (want.is_some() && last),
            "single-child branch that is not the last of its level"
        );
        for i in 0..n.len() {
            let (child, agg) = n.child(i);
            let last = last && i + 1 == n.len();
            let (_, got, min) = go(child, nodes, Some(n.level() - 1), last, out);
            assert_eq!(got, agg, "recorded child aggregate is the child's");
            assert_eq!(min, n.key(i), "branch key is the child's min key");
        }
    }
    let min = if n.is_empty() { vec![] } else { n.key(0) };
    (n.level(), n.agg(), min)
}

/// Walk the tree; returns entries in order, height, and per-level node sizes (logical).
fn walk(root: Cid, nodes: &Nodes) -> (Entries, usize) {
    let mut out = Vec::new();
    let (level, agg, _) = go(root, nodes, None, true, &mut out);
    assert_eq!(agg.count as usize, out.len());
    (out, level as usize + 1)
}

#[test]
fn tree_holds_exactly_the_entries() {
    for n in [0usize, 1, 2, 50, 3000] {
        let e = dataset(7, n);
        let (root, nodes) = build(&e);
        let (got, height) = walk(root, &nodes);
        assert_eq!(got, e);
        if n <= 2 {
            assert_eq!((height, nodes.len()), (1, 1));
        }
        if n == 3000 {
            assert!(height >= 2);
        }
    }
}

#[test]
fn same_entries_same_root_different_entries_different_root() {
    let e = dataset(11, 4000);
    let (a, _) = build(&e);
    let (b, _) = build(&e.clone());
    assert_eq!(a, b);
    let mut f = e.clone();
    f[1234].1[0] ^= 1;
    assert_ne!(build(&f).0, a);
}

#[test]
fn order_is_enforced_across_node_boundaries_and_oversized_values_are_refused() {
    // Fill until a node closes, then push a key smaller than the last one.
    let mut closed = Vec::new();
    let mut t = TreeBuilder::new();
    let v = [0u8; 300];
    let mut i = 0u32;
    while {
        t.push(format!("k{i:06}").as_bytes(), Value::Inline(&v), &mut closed)
            .unwrap();
        i += 1;
        i < 200
    } {}
    assert_eq!(
        t.push(b"k000000", Value::Inline(&v), &mut closed),
        Err(TreeError::Node(BuildError::NotSorted))
    );
    assert!(
        closed.len() > 5,
        "the run above must have crossed node boundaries"
    );

    let mut t = TreeBuilder::new();
    assert_eq!(
        t.push(b"big", Value::Inline(&vec![0u8; MAX_INLINE + 1]), &mut closed),
        Err(TreeError::Node(BuildError::ValueTooLong))
    );
    t.push(b"big", Value::Inline(&vec![0u8; MAX_INLINE]), &mut closed)
        .unwrap();
}

/// A push that fails must leave the builder exactly as it was: otherwise the
/// same contents hash two ways depending on what the caller tried first.
#[test]
fn a_rejected_push_does_not_change_the_root() {
    let e = dataset(1, 400);
    let cid = [5u8; 32];
    let long_key = vec![b'k'; 600];
    let run = |noise: bool| {
        let mut sink = Vec::new();
        let mut t = TreeBuilder::new();
        let mut rejected = 0;
        for (i, (k, v)) in e.iter().enumerate() {
            if i % 7 != 0 {
                t.push(k, Value::Inline(v), &mut sink).unwrap();
                continue;
            }
            if noise {
                // (an empty key is only out of order once something was pushed)
                let unsorted: &[u8] = if i == 0 { &long_key } else { b"" };
                let bad = [
                    t.push(k, Value::Inline(&[0u8; 9000]), &mut sink),
                    t.push(k, Value::Ref { cid, len: 10 }, &mut sink),
                    t.push(&long_key, Value::Inline(b""), &mut sink),
                    t.push(unsorted, Value::Inline(b""), &mut sink),
                ];
                rejected += bad.iter().filter(|r| r.is_err()).count();
            }
            // The builder codes a referenced value into its leaf's parity, so
            // it must have been handed the bytes. A `Ref` it never saw is
            // refused — which is the point, not an obstacle.
            t.see(cid, &vec![0xab; 9000]);
            t.push(k, Value::Ref { cid, len: 9000 }, &mut sink).unwrap();
        }
        (t.finish(&mut sink).unwrap(), rejected)
    };
    let (clean, _) = run(false);
    let (noisy, rejected) = run(true);
    assert_eq!(
        rejected,
        4 * e.len().div_ceil(7),
        "every bad push was refused"
    );
    assert_eq!(clean, noisy, "same contents, different root");
}

fn leaf_sizes(nodes: &Nodes) -> Vec<usize> {
    let mut v: Vec<(Vec<u8>, usize)> = nodes
        .values()
        .filter_map(|b| {
            let n = Node::parse(b).unwrap();
            if n.is_leaf() {
                Some((n.key(0), b.len()))
            } else {
                None
            }
        })
        .collect();
    v.sort();
    v.into_iter().map(|(_, s)| s).collect()
}

/// (mean, coefficient of variation, mean over groups of 8 of max/mean-of-all)
fn spread(sizes: &[usize]) -> (f64, f64, f64) {
    let n = sizes.len() as f64;
    let mean = sizes.iter().sum::<usize>() as f64 / n;
    let var = sizes
        .iter()
        .map(|&s| (s as f64 - mean).powi(2))
        .sum::<f64>()
        / n;
    let groups: Vec<f64> = sizes
        .chunks(8)
        .filter(|g| g.len() == 8)
        .map(|g| *g.iter().max().unwrap() as f64)
        .collect();
    let pad = groups.iter().sum::<f64>() / groups.len() as f64 / mean;
    (mean, var.sqrt() / mean, pad)
}

#[test]
fn sizes_are_tight_and_a_size_blind_rule_is_not() {
    let e = dataset(3, 60_000);
    let (_, ours) = build(&e);
    let (_, ctrl) = build_with(Geometric, &e);
    let (so, sc) = (leaf_sizes(&ours), leaf_sizes(&ctrl));
    let (m, cv, pad) = spread(&so);
    let (cm, ccv, cpad) = spread(&sc);
    let mut sorted = so.clone();
    sorted.sort();
    let pct = |p: usize| sorted[sorted.len() * p / 100];
    println!("leaves (encoded bytes), {} entries", e.len());
    println!("  rule       nodes   mean    cv   max-of-8/mean");
    println!("  weibull-4  {:5}  {m:5.0}  {cv:.2}  {pad:.2}", so.len());
    println!("  geometric  {:5}  {cm:5.0}  {ccv:.2}  {cpad:.2}", sc.len());
    println!(
        "  weibull-4 percentiles: min {} p1 {} p50 {} p99 {} max {}",
        sorted[0],
        pct(1),
        pct(50),
        pct(99),
        sorted[sorted.len() - 1]
    );
    assert!((3700.0..4500.0).contains(&m), "mean {m}");
    assert!(cv < 0.35 && pad < 1.55, "cv {cv} pad {pad}");
    assert!(
        ccv > 0.6 && cpad > 1.9,
        "control must be loose: cv {ccv} pad {cpad}"
    );
}

/// Nodes of `new` that `old` does not have.
fn fresh(old: &Nodes, new: &Nodes) -> usize {
    new.keys().filter(|c| !old.contains_key(*c)).count()
}

fn stats(mut v: Vec<usize>) -> (f64, usize, usize) {
    v.sort();
    let mean = v.iter().sum::<usize>() as f64 / v.len() as f64;
    (mean, v[v.len() * 99 / 100], v[v.len() - 1])
}

#[derive(Clone, Copy)]
enum Edit {
    Insert,
    Delete,
    SameLen,
    Grow,
}

fn locality<R: SplitRule + Copy>(
    rule: R,
    edit: Edit,
    entries: usize,
    trials: usize,
) -> (f64, usize, usize, usize) {
    let base = dataset(5, entries);
    let (root, old) = build_with(rule, &base);
    let (_, height) = walk(root, &old);
    let mut r = rng(99);
    let mut changed = Vec::new();
    for _ in 0..trials {
        let mut e = base.clone();
        let i = (r() % e.len() as u64) as usize;
        match edit {
            Edit::Insert => {
                let mut k = e[i].0.clone();
                k.extend_from_slice(&r().to_be_bytes());
                let v = vec![r() as u8; 60 + (r() % 341) as usize];
                e.insert(i + 1, (k, v));
            }
            Edit::Delete => {
                e.remove(i);
            }
            Edit::SameLen => {
                if e[i].1.is_empty() {
                    continue;
                }
                e[i].1[0] ^= 0xff;
            }
            Edit::Grow => e[i].1.extend_from_slice(&[r() as u8; 120]),
        }
        let (_, new) = build_with(rule, &e);
        changed.push(fresh(&old, &new));
    }
    let (mean, p99, max) = stats(changed);
    (mean, p99, max, height)
}

/// One edit rewrites the path to it and a few neighbours; a positional rule drags a run
/// of nodes along.
#[test]
fn one_edit_rewrites_a_few_nodes_of_a_small_tree() {
    let mut by_content = 0.0;
    for (name, edit) in [
        ("insert", Edit::Insert),
        ("delete", Edit::Delete),
        ("value, same len", Edit::SameLen),
        ("value, +120 B", Edit::Grow),
    ] {
        let (mean, p99, max, h) = locality(ByContent, edit, 4_000, 40);
        println!("  {name:15} {mean:5.2}  {p99:4}  {max:4}   ({h})");
        assert!(mean < h as f64 + 3.0, "{name}: mean {mean}");
        assert!(p99 <= h + 11, "{name}: p99 {p99}");
        if let Edit::SameLen = edit {
            assert_eq!(max, h, "a same-length value edit rewrites the path only");
        }
        if let Edit::Insert = edit {
            by_content = mean;
        }
    }
    let (mean, _, _, h) = locality(BySize, Edit::Insert, 4_000, 40);
    println!("  insert, by-size control: mean {mean:.0} (height {h})");
    // A size threshold re-joins the old chain only when two running sums happen
    // to cross 4 KiB at the same entry, so an insert drags a run of leaves along.
    assert!(mean > by_content + 4.0, "control must cascade: {mean}");
}

/// A tree whose first leaf is closed by the hard limit, not by content: tiny
/// entries with keys ground so the rule never fires, then one large entry that
/// cannot fit. Pins MAX_LOGICAL, "close before the overflowing entry", and the
/// restart of the rule at s_before = HEADER.
fn forced_split_tree_into(keep: &mut Nodes) -> Cid {
    let mut e: Entries = Vec::new();
    let mut s = HEADER;
    let big = vec![7u8; 1000];
    let mut i = 0;
    while s + NodeBuilder::leaf_cost(b"99999", &Value::Inline(&big)) <= MAX_LOGICAL {
        let key = (0..)
            .map(|j| format!("{i:05}.{j}").into_bytes())
            .find(|k| {
                let c = NodeBuilder::leaf_cost(k, &Value::Inline(b""));
                !splits_after(0, k, s, s + c)
            })
            .unwrap();
        s += NodeBuilder::leaf_cost(&key, &Value::Inline(b""));
        e.push((key, vec![]));
        i += 1;
    }
    let filled = e.len();
    e.push((b"99999".to_vec(), big));
    e.extend(dataset(2, 40).into_iter().map(|(mut k, v)| {
        k.insert(0, b'z');
        (k, v)
    }));
    let (root, nodes) = build(&e);
    let first = nodes
        .values()
        .map(|b| Node::parse(b).unwrap())
        .find(|n| n.is_leaf() && n.key(0) == e[0].0)
        .unwrap();
    assert_eq!(
        first.len(),
        filled,
        "the limit, not content, closed the first leaf"
    );
    assert!(
        s > MAX_LOGICAL - 1100,
        "and it was nearly full: {s}"
    );
    assert_eq!(walk(root, &nodes).0, e);
    keep.extend(nodes);
    root
}

/// What a host can hold a single node to.
#[test]
fn every_built_node_passes_the_per_node_split_check_and_a_miscut_node_does_not() {
    let e = dataset(3, 60_000);
    let (_, nodes) = build(&e);
    let mut checked = 0;
    for bytes in nodes.values() {
        assert_eq!(check_node(&Node::parse(bytes).unwrap()), Ok(()));
        checked += 1;
    }
    assert!(checked > 3000);
    let (_, forced) = {
        let mut nodes = Nodes::new();
        let root = forced_split_tree_into(&mut nodes);
        (root, nodes)
    };
    for bytes in forced.values() {
        assert_eq!(check_node(&Node::parse(bytes).unwrap()), Ok(()));
    }

    // Control: the same entries cut by a positional rule parse fine, and are refused.
    let (_, miscut) = build_with(BySize, &e);
    let refused = miscut
        .values()
        .filter(|b| {
            matches!(
                check_node(&Node::parse(b).unwrap()),
                Err(BoundaryError::InteriorSplit(_))
            )
        })
        .count();
    println!("positional cut: {refused}/{} nodes refused", miscut.len());
    // A Weibull node would have ended before 4 KiB with probability
    // 1 − exp(−(4096/4400)⁴) ≈ 0.53, so about half the positional nodes hold an
    // entry that should have closed them.
    assert!(
        refused * 10 > miscut.len() * 4,
        "{refused}/{}",
        miscut.len()
    );

    // A node over the limit (the raw builder allows up to MAX_NODE).
    let mut b = NodeBuilder::leaf();
    let mut i = 0u32;
    while b.logical_len() <= MAX_LOGICAL {
        let key = (0..)
            .map(|j| format!("{i:05}.{j}").into_bytes())
            .find(|k| {
                let c = NodeBuilder::leaf_cost(k, &Value::Inline(b""));
                b.logical_len() + c > MAX_LOGICAL
                    || !splits_after(0, k, b.logical_len(), b.logical_len() + c)
            })
            .unwrap();
        b.push(&key, Value::Inline(b"")).unwrap();
        i += 1;
    }
    let bytes = b.finish().unwrap();
    assert_eq!(
        check_node(&Node::parse(&bytes).unwrap()),
        Err(BoundaryError::TooLarge)
    );

    // Cost on the worst case a host can be handed: ~12 KiB of minimum-size entries.
    let mut b = NodeBuilder::leaf();
    let mut i = 0u32;
    loop {
        let base = b.logical_len();
        if base + 13 + 6 > MAX_LOGICAL {
            break;
        }
        let Some(key) = (0..200u32)
            .map(|j| format!("{i:04}{j:02}").into_bytes())
            .find(|k| !splits_after(0, k, base, base + 13 + k.len()))
        else {
            break;
        };
        if base + 13 + key.len() > MAX_LOGICAL {
            break;
        }
        b.push(&key, Value::Inline(b"")).unwrap();
        i += 1;
    }
    let entries = b.len();
    let bytes = b.finish().unwrap();
    let t = std::time::Instant::now();
    for _ in 0..200 {
        let n = Node::parse(&bytes).unwrap();
        check_node(&n).unwrap();
    }
    println!(
        "worst-case node: {entries} entries, {} B; parse + check_node = {:?} each (native, opt-level 2)",
        bytes.len(),
        t.elapsed() / 200
    );
    assert!(entries > 500);
}

/// Feeding BLAKE3 the node's shared prefix and then an entry's suffix must give
/// the digest of the joined key — that identity is the only reason `check_node`
/// can avoid building a key per entry, so it is asserted rather than assumed.
#[test]
fn the_two_slice_split_hash_is_the_same_hash() {
    let mut r = rng(4242);
    let mut checked = 0;
    for _ in 0..2000 {
        let len = (r() % 40) as usize;
        let key: Vec<u8> = (0..len).map(|_| r() as u8).collect();
        // Every possible split of this key, including both empty ends.
        for cut in 0..=key.len() {
            let (prefix, suffix) = key.split_at(cut);
            assert_eq!(
                split_hash_parts(0, prefix, suffix),
                split_hash(0, &key),
                "key {key:?} split at {cut}"
            );
            checked += 1;
        }
        // And the decision built on it agrees too, at a size where it can fire.
        let level = r() as u8;
        let cut = (r() as usize) % (key.len() + 1);
        let (prefix, suffix) = key.split_at(cut);
        assert_eq!(
            splits_after_parts(level, prefix, suffix, 4000, 4300),
            splits_after(level, &key, 4000, 4300)
        );
    }
    println!("two-slice split hash: {checked} splits identical to the joined key");
    assert!(checked > 20_000);
}

/// `pcount` is a pure function of the entries, so a node carrying the wrong
/// amount of parity is refused and one carrying the right amount is not.
#[test]
fn a_node_with_the_wrong_parity_count_is_refused_and_the_right_one_is_not() {
    let build = |parity: usize| {
        let mut b = NodeBuilder::branch(1);
        for i in 0..4u8 {
            b.push_child(
                &[b'k', i],
                [i; 32],
                Agg {
                    count: 1,
                    bytes: 10,
                },
            )
            .unwrap();
        }
        for i in 0..parity {
            b.push_parity([0x90 + i as u8; 32]).unwrap();
        }
        b.finish().unwrap()
    };
    // Four children is one group, so the node requires exactly PARITY ids.
    let probe = build(PARITY);
    let want = pcount_of(&Node::parse(&probe).expect("parses"));
    assert_eq!(want, PARITY, "four children are one group");

    // The control: the right count is accepted, so the refusals below are about
    // the COUNT and not about parity being rejected wholesale.
    let right = build(want);
    let n = Node::parse(&right).expect("a node with parity is well-formed");
    assert_eq!(n.parity_count(), want);
    assert_eq!(check_parity(&n), Ok(()));
    assert_eq!(check_node(&n), Ok(()));

    for parity in [0usize, 1, want - 1, want + 1, 2 * want] {
        let bytes = build(parity);
        // It PARSES — the region's size is all `parse` decides — and the count
        // is settled here, where the entries are known.
        let n = Node::parse(&bytes).expect("a node with parity is well-formed");
        assert_eq!(n.parity_count(), parity);
        assert_eq!(
            check_parity(&n),
            Err(BoundaryError::WrongParityCount(want, parity)),
            "{parity} ids where {want} are required"
        );
    }
}

/// The parity of a group of unequal members: the stored length of its first block and
/// the ids of all.
fn parity_vector(k: usize) -> (usize, [Cid; PARITY]) {
    let states = parity_members(k);
    let parity = encode_group(&states).expect("a codeable group");
    let ids: [Cid; PARITY] =
        std::array::from_fn(|i| block_id(kind::PARITY, &parity[i]));
    // The STORED length of the first parity block, which is a function of its
    // own bytes and not of the group's longest member. Frozen so that a change
    // to trimming shows up here rather than only in the ids.
    (parity[0].len(), ids)
}

/// Deterministic members of unequal length, each a plausible block state
/// (`kind ‖ body`).
fn parity_members(k: usize) -> Vec<Vec<u8>> {
    (0..k)
        .map(|i| {
            // Lengths 1, 17, 49, 97, … — no two alike, and none a multiple of
            // the others, so a padding bug cannot cancel out.
            let len = 1 + i * i * 8 + i * 8;
            let mut s = Vec::with_capacity(1 + len);
            s.push(if i % 2 == 0 {
                kind::RAW
            } else {
                kind::TREE_NODE
            });
            s.extend((0..len).map(|b| (b as u8).wrapping_mul(i as u8 + 3)));
            s
        })
        .collect()
}

/// Every way to lose three of the `k + 3`, rebuilt, digested. This is what
/// says a repairer on another target gets the same bytes back — the claim
/// "anyone can repair without a key" rests on it.
/// A repair sweep over a group of UNEQUAL lengths, with the cases that make
/// trimming hard forced rather than hoped for: the longest member dropped, and
/// a parity block among the lost. The k = 1/7/12 vectors use one shape of
/// member each; this is the shape where the width is not recoverable from
/// what survives.
fn parity_uneven_digest() -> [u8; 32] {
    // Strictly increasing, so the LAST member is the one that sets the width.
    let states: Vec<Vec<u8>> = (0..6).map(|i| vec![(i as u8) + 1; 1 + i * 37]).collect();
    let k = states.len();
    let parity = encode_group(&states).expect("codeable");
    let all: Vec<Vec<u8>> = states
        .iter()
        .map(|s| symbol(s))
        .chain(parity.iter().cloned())
        .collect();
    let mut h = blake3::Hasher::new();
    // Every loss that includes the longest member, and every one that includes
    // a parity block — the two cases the equal-length vectors cannot reach.
    let mut cases = 0usize;
    let mut parity_lost = 0usize;
    for a in 0..k + PARITY {
        for b in a + 1..k + PARITY {
            let gone = [k - 1, a, b];
            if a == k - 1 || b == k - 1 {
                continue;
            }
            let have: Vec<Option<Vec<u8>>> = present(&all, |j| !gone.contains(&j));
            let got = repair_group(k, &have, MAX_MEMBER_VALUE).expect("k of k+PARITY present");
            assert_eq!(got, states, "uneven: lost {gone:?}");
            for s in &got {
                h.update(s);
            }
            cases += 1;
            if a >= k || b >= k {
                parity_lost += 1;
            }
        }
    }
    assert!(cases > 20, "only {cases} uneven cases");
    assert!(
        parity_lost > 0,
        "no case dropped a parity block: that half of the sweep is untested"
    );
    *h.finalize().as_bytes()
}

fn parity_repair_digest(k: usize) -> [u8; 32] {
    let states = parity_members(k);
    let parity = encode_group(&states).expect("a codeable group");
    let all: Vec<Vec<u8>> = states
        .iter()
        .map(|s| symbol(s))
        .chain(parity.iter().cloned())
        .collect();
    let n = k + PARITY;
    let mut h = blake3::Hasher::new();
    let mut cases = 0usize;
    for a in 0..n {
        for b in a + 1..n {
            for c in b + 1..n {
                let have: Vec<Option<Vec<u8>>> = present(&all, |j| j != a && j != b && j != c);
                let got = repair_group(k, &have, MAX_MEMBER_VALUE).expect("k of k+PARITY present");
                assert_eq!(got, states, "k = {k}: lost {a},{b},{c}");
                for s in &got {
                    h.update(s);
                }
                cases += 1;
            }
        }
    }
    assert_eq!(
        cases,
        n * (n - 1) * (n - 2) / 6,
        "k = {k}: combinations missed"
    );
    *h.finalize().as_bytes()
}

/// The parity code end to end.
#[test]
fn the_parity_code_is_deterministic_and_repairs() {
    for k in [1usize, 7, 12] {
        let (width, ids) = parity_vector(k);
        assert_eq!(parity_vector(k), (width, ids), "k = {k}: not deterministic");
        assert!(
            ids[0] != ids[1] && ids[1] != ids[2],
            "k = {k}: parity ids repeat"
        );
        let states = parity_members(k);
        // The stored parity length is its own, and never the group's width.
        assert!(
            width <= 4 + states.iter().map(|s| s.len()).max().unwrap(),
            "a parity block longer than the untrimmed width"
        );
        // Every way to lose three, rebuilt and compared — the assertion lives
        // inside the digest helper, which also counts the combinations.
        let _ = parity_repair_digest(k);
    }
    // The members really are of unequal length, or padding is never exercised.
    let states = parity_members(12);
    let mut lens: Vec<usize> = states.iter().map(|s| s.len()).collect();
    let before = lens.len();
    lens.sort_unstable();
    lens.dedup();
    assert_eq!(lens.len(), before, "the members must differ in length");
}

/// What a host can be made to do by a node it is going to refuse.
///
/// `check_node` pays a grouping hash per member, which is the most
/// expensive thing in it — so a node that fails a cheaper check must be refused
/// before buying any. Counted, because the outcome is "refused" either way and
/// no assertion about it can see the difference.
#[test]
fn a_node_refused_for_anything_cheaper_costs_no_grouping() {

    // A well-formed branch, for the control: it pays one hash per child.
    let good = {
        let mut b = NodeBuilder::branch(1);
        for i in 0..8u8 {
            b.push_child(
                &[b'k', i],
                [i; 32],
                Agg {
                    count: 1,
                    bytes: 10,
                },
            )
            .unwrap();
        }
        // Eight children are one group, so PARITY ids.
        for p in 0..PARITY as u8 {
            b.push_parity([0x70 + p; 32]).unwrap();
        }
        b.finish().unwrap()
    };
    let n = Node::parse(&good).expect("parses");
    let (outcome, hashes) = check_node_counted(&n);
    assert_eq!(outcome, Ok(()));
    assert_eq!(
        hashes,
        8,
        "the control must pay one hash per member"
    );

    // The cheapest refusals of all: a node whose parity count is wrong is
    // refused only AFTER the entry walk, but one that is over the hard limit
    // never reaches the grouping at all.
    let oversized = {
        let mut b = NodeBuilder::branch(1);
        let mut i = 0u32;
        while b.logical_len() < MAX_LOGICAL - 200 {
            b.push_child(
                &[b'k', (i >> 8) as u8, i as u8],
                [i as u8; 32],
                Agg {
                    count: 1,
                    bytes: 10,
                },
            )
            .unwrap();
            i += 1;
        }
        b.finish().unwrap()
    };
    let n = Node::parse(&oversized).expect("parses");
    let (outcome, hashes) = check_node_counted(&n);
    if outcome == Ok(()) {
        // It fitted; then it must have paid for every member, which is the
        // honest control for the counter rather than a silent skip.
        assert_eq!(hashes, n.len());
    } else {
        assert!(
            matches!(
                outcome,
                Err(BoundaryError::TooLarge) | Err(BoundaryError::InteriorSplit(_))
            ),
            "unexpected refusal {outcome:?}"
        );
        assert_eq!(hashes, 0, "an entry-level refusal bought grouping");
    }
}
