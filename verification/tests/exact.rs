//! No more and no less: what a change hands over, what a diff asks for, what a proof
//! holds, what a chunker keeps.

use freenet_prolly::apply::{apply, apply_into, Edit};
use freenet_prolly::boundary::splits_after;
use freenet_prolly::build::init;
use freenet_prolly::chunk::{Body, ByContent, Closed, LevelChunker};
use freenet_prolly::diff::{diff, Change, Resume};
use freenet_prolly::node::{BuildError, Node, NodeBuilder, Value, HEADER};
use freenet_prolly::proofs::{
    prove, prove_aggregate, prove_range, verify, verify_aggregate, verify_range, Proof, ProofError,
    Proven,
};
use freenet_prolly::range::{range, Bound, PageEnd, Range};
use freenet_prolly::read::get;
use freenet_prolly::store::{Blocks, MemBlocks};
use freenet_prolly::{block_id, kind, Cid};
use std::collections::HashSet;

fn key(i: u32) -> Vec<u8> {
    format!("k/{i:06}").into_bytes()
}

fn put(i: u32, byte: u8) -> (Vec<u8>, Edit) {
    let len = if i % 7 == 0 { 1500 } else { 90 };
    (key(i), Edit::Put(vec![byte; len]))
}

fn tree(n: u32) -> (MemBlocks, Cid) {
    let mut blocks = MemBlocks::default();
    let start = init(&mut blocks);
    let edits: Vec<(Vec<u8>, Edit)> = (0..n).map(|i| put(i, (i % 251) as u8)).collect();
    let root = apply_into(&mut blocks, &start, &edits).unwrap().root;
    (blocks, root)
}

fn nodes(blocks: &MemBlocks, root: Cid, out: &mut HashSet<Cid>) {
    if !out.insert(root) {
        return;
    }
    let n = Node::parse(blocks.get(&root).unwrap()).unwrap();
    if !n.is_leaf() {
        for i in 0..n.len() {
            nodes(blocks, n.child(i).0, out);
        }
    }
}

fn node_set(blocks: &MemBlocks, root: Cid) -> HashSet<Cid> {
    let mut out = HashSet::new();
    nodes(blocks, root, &mut out);
    out
}

/// What a change hands over is the nodes that are new, and what it replaces the nodes
/// that are gone; the batch again hands nothing over.
#[test]
fn a_change_hands_over_what_is_new_and_names_what_is_gone() {
    let (mut blocks, root) = tree(3_000);
    let old = node_set(&blocks, root);
    let batches: Vec<Vec<(Vec<u8>, Edit)>> = vec![
        vec![put(1_234, 9)],
        vec![put(0, 8), put(2_999, 7), put(3_000, 6)],
        (500..900).map(|i| (key(i), Edit::Delete)).collect(),
        (0..2_998).map(|i| (key(i), Edit::Delete)).collect(),
        (0..3_000).map(|i| (key(i), Edit::Delete)).collect(),
    ];
    for batch in batches {
        let mut out = Vec::new();
        let got = apply(&blocks, &root, &batch, &mut out).unwrap();
        for (cid, bytes) in &out {
            blocks.insert(*cid, bytes);
        }
        let new = node_set(&blocks, got.root);
        let given: HashSet<Cid> = out
            .iter()
            .filter(|(cid, bytes)| block_id(kind::TREE_NODE, bytes) == *cid)
            .map(|(cid, _)| *cid)
            .collect();
        let gone: HashSet<Cid> = got.replaced.iter().copied().collect();
        assert_eq!(gone.len(), got.replaced.len());
        assert_eq!(given, new.difference(&old).copied().collect());
        assert_eq!(gone, old.difference(&new).copied().collect());

        let mut again = Vec::new();
        let same = apply(&blocks, &got.root, &batch, &mut again).unwrap();
        assert_eq!(same.root, got.root);
        assert!(same.replaced.is_empty());
        assert!(again.is_empty());
    }
}

/// The parity that is reported is promised by a node that was handed over, and none of
/// it comes twice.
#[test]
fn reported_parity_is_promised_parity() {
    let (blocks, root) = tree(3_000);
    let batch = vec![put(700, 1), put(1_400, 2), put(2_101, 3)];
    let mut out = Vec::new();
    let got = apply(&blocks, &root, &batch, &mut out).unwrap();
    assert!(!got.parity.is_empty());
    let mut promised = HashSet::new();
    for (cid, bytes) in &out {
        if block_id(kind::TREE_NODE, bytes) == *cid {
            let n = Node::parse(bytes).unwrap();
            promised.extend(n.parity());
        }
    }
    let ids: HashSet<Cid> = got.parity.iter().map(|(cid, _)| *cid).collect();
    assert_eq!(ids.len(), got.parity.len());
    for (cid, bytes) in &got.parity {
        assert_eq!(block_id(kind::PARITY, bytes), *cid);
        assert!(promised.contains(cid));
    }
}

/// A diff says all it has to say with none of the nodes both trees share, and lists the
/// nodes the old tree has not.
#[test]
fn a_diff_does_without_what_both_trees_have() {
    let (mut blocks, a) = tree(4_000);
    let batch = vec![put(1_000, 200), (key(2_500), Edit::Delete), put(4_001, 3)];
    let b = apply_into(&mut blocks, &a, &batch).unwrap().root;
    let (na, nb) = (node_set(&blocks, a), node_set(&blocks, b));
    let mut thin = MemBlocks::new();
    for id in na.symmetric_difference(&nb) {
        thin.insert(*id, blocks.get(id).unwrap());
    }
    let full = diff(&blocks, &a, &b, &Range::default(), None).unwrap();
    let part = diff(&thin, &a, &b, &Range::default(), None).unwrap();
    assert!(part.need.is_empty());
    assert_eq!(part.next, None);
    assert_eq!(part.changes, full.changes);
    assert_eq!(part.changes.len(), 3);
    let listed: HashSet<Cid> = part.new_blocks.iter().copied().collect();
    assert_eq!(listed, nb.difference(&na).copied().collect());
}

/// The pages of a diff are the diff: one change a page, and an empty one at the end.
#[test]
fn the_pages_of_a_diff_are_the_diff() {
    let (mut blocks, a) = tree(2_000);
    let batch: Vec<(Vec<u8>, Edit)> = (0..20).map(|i| put(i * 90, 250)).collect();
    let b = apply_into(&mut blocks, &a, &batch).unwrap().root;
    let full = diff(&blocks, &a, &b, &Range::default(), None).unwrap().changes;
    assert_eq!(full.len(), 20);
    for (max, pages) in [(1usize, 21usize), (3, 7), (20, 2)] {
        let r = Range {
            max_entries: max,
            ..Range::default()
        };
        let mut told: Vec<Change<'_>> = Vec::new();
        let mut at: Option<Resume> = None;
        let mut n = 0;
        loop {
            let p = diff(&blocks, &a, &b, &r, at.as_ref()).unwrap();
            n += 1;
            told.extend(p.changes);
            at = p.next;
            if at.is_none() {
                break;
            }
        }
        assert_eq!(told, full);
        assert_eq!(n, pages);
    }
}

/// The pages of a range are the range, both ways, whatever bounds and limits; and there
/// is one page more than entries at most.
#[test]
fn the_pages_of_a_range_are_the_range() {
    let (blocks, root) = tree(400);
    let bounds = [
        (Bound::Unbounded, Bound::Unbounded, 0u32, 400u32),
        (Bound::Included(key(10)), Bound::Excluded(key(60)), 10, 60),
        (Bound::Excluded(key(10)), Bound::Included(key(60)), 11, 61),
        (Bound::Included(b"a".to_vec()), Bound::Included(b"k/000003x".to_vec()), 0, 4),
        (Bound::Included(key(60)), Bound::Excluded(key(10)), 0, 0),
    ];
    for (lo, hi, from, to) in bounds {
        for reverse in [false, true] {
            for (max_entries, max_bytes) in [(1usize, 1_000_000usize), (7, 1_000_000), (1_000, 300)] {
                let mut r = Range {
                    lo: lo.clone(),
                    hi: hi.clone(),
                    reverse,
                    after: None,
                    max_entries,
                    max_bytes,
                };
                let mut got = Vec::new();
                let mut n = 0;
                loop {
                    let p = range(&blocks, &root, &r).unwrap();
                    n += 1;
                    got.extend(p.entries.into_iter().map(|(k, _)| k));
                    if p.next.is_none() {
                        assert!(matches!(p.end, PageEnd::EndOfRange | PageEnd::EndOfTree));
                        break;
                    }
                    r.after = p.next;
                }
                let mut want: Vec<Vec<u8>> = (from..to).map(key).collect();
                if reverse {
                    want.reverse();
                }
                assert!(n <= want.len() + 1);
                assert_eq!(got, want);
            }
        }
    }
}

fn without(p: &Proof, i: usize) -> Proof {
    let mut nodes = p.nodes.clone();
    nodes.remove(i);
    Proof {
        nodes,
        value: p.value.clone(),
    }
}

fn with(p: &Proof, i: usize, b: &[u8]) -> Proof {
    let mut nodes = p.nodes.clone();
    nodes.insert(i, b.to_vec());
    Proof {
        nodes,
        value: p.value.clone(),
    }
}

/// A key proof says nothing without one of its blocks, and is refused with one more.
#[test]
fn a_key_proof_holds_what_it_must() {
    let (blocks, root) = tree(4_000);
    let mut pad = NodeBuilder::leaf();
    pad.push(b"pad", Value::Inline(b"x")).unwrap();
    let pad = pad.finish().unwrap();
    for k in [key(0), key(2_000), key(3_999), b"k/0020005".to_vec(), b"a".to_vec()] {
        let p = prove(&blocks, &root, &k).unwrap();
        let there = get(&blocks, &root, &k).unwrap().is_some();
        assert_eq!(verify(&root, &k, &p).unwrap() != Proven::Absent, there);
        let last = p.nodes.len() - 1;
        assert_eq!(verify(&root, &k, &without(&p, last)), Err(ProofError::Incomplete));
        for i in 1..p.nodes.len() {
            assert_eq!(verify(&root, &k, &without(&p, i)), Err(ProofError::Incomplete));
        }
        if last > 0 {
            assert_eq!(verify(&root, &k, &without(&p, 0)), Err(ProofError::WrongRoot));
            assert_eq!(
                verify(&root, &k, &with(&p, last + 1, &pad)),
                Err(ProofError::Extra)
            );
        }
        for i in 0..=p.nodes.len() {
            assert!(verify(&root, &k, &with(&p, i, &pad)).is_err());
        }
        assert_eq!(verify(&[7; 32], &k, &p), Err(ProofError::WrongRoot));
    }
}

/// A count proof is accepted, holds two blocks a level at most, and every one of them
/// is needed; so is a page proof's.
#[test]
fn count_and_page_proofs_hold_what_they_must() {
    let (blocks, root) = tree(20_000);
    let height = Node::parse(blocks.get(&root).unwrap()).unwrap().level() as usize + 1;
    let mut pad = NodeBuilder::leaf();
    pad.push(b"pad", Value::Inline(b"x")).unwrap();
    let pad = pad.finish().unwrap();
    for (lo, hi) in [(0u32, 20_000u32), (3, 19_996), (777, 778), (5_000, 15_000)] {
        let r = Range {
            lo: Bound::Excluded(key(lo)),
            hi: Bound::Excluded(key(hi)),
            ..Range::default()
        };
        let p = prove_aggregate(&blocks, &root, &r).unwrap();
        assert!(p.nodes.len() <= 2 * height - 1);
        let said = verify_aggregate(&root, &r, &p).unwrap();
        assert_eq!(said.agg().count, (hi - lo - 1) as u64);
        for i in 0..p.nodes.len() {
            assert!(verify_aggregate(&root, &r, &without(&p, i)).is_err());
        }
        for i in 0..=p.nodes.len() {
            assert!(verify_aggregate(&root, &r, &with(&p, i, &pad)).is_err());
        }
        let valued = Proof {
            nodes: p.nodes.clone(),
            value: Some(vec![1]),
        };
        assert_eq!(verify_aggregate(&root, &r, &valued), Err(ProofError::Extra));

        let r = Range {
            max_entries: 50,
            ..r
        };
        let p = prove_range(&blocks, &root, &r).unwrap();
        let page = verify_range(&root, &r, &p).unwrap();
        assert_eq!(page.entries.len(), 50.min((hi - lo - 1) as usize));
        for i in 0..p.nodes.len() {
            assert!(verify_range(&root, &r, &without(&p, i)).is_err());
        }
        for i in 0..=p.nodes.len() {
            assert!(verify_range(&root, &r, &with(&p, i, &pad)).is_err());
        }
    }
}

/// A chunker neither loses nor reorders what is pushed, closes where the rule says, and
/// names its nodes by their bytes.
#[test]
fn a_chunker_keeps_every_entry() {
    let blocks = MemBlocks::new();
    let mut c = LevelChunker::new(0, ByContent);
    let mut out: Vec<Closed> = Vec::new();
    let mut size = HEADER;
    for i in 0..3_000u32 {
        let v = vec![i as u8; 40];
        let k = key(i);
        let next = size + 13 + k.len() + v.len();
        let closes = splits_after(0, &k, size, next);
        c.push(&k, &Body::Inline(v), &blocks, &mut out).unwrap();
        assert_eq!(c.is_clean(), closes);
        size = if closes { HEADER } else { next };
    }
    assert!(out.len() > 3);
    c.finish(&blocks, &mut out).unwrap();
    let mut seen = Vec::new();
    for n in &out {
        let parsed = Node::parse(&n.bytes).unwrap();
        assert!(parsed.len() > 0);
        assert_eq!(n.cid, block_id(kind::TREE_NODE, &n.bytes));
        assert_eq!(n.min_key, parsed.key(0));
        assert_eq!(n.agg, parsed.agg());
        for i in 0..parsed.len() {
            seen.push(parsed.key(i));
        }
    }
    assert_eq!(seen, (0..3_000).map(key).collect::<Vec<_>>());
}

/// An entry that is refused out of order leaves the open node and what was closed as
/// they were.
#[test]
fn a_refused_entry_leaves_the_chunker_as_it_was() {
    let blocks = MemBlocks::new();
    let mut c = LevelChunker::new(0, ByContent);
    let mut out: Vec<Closed> = Vec::new();
    let mut last = 0;
    for i in 0..40u32 {
        c.push(&key(i), &Body::Inline(vec![1; 40]), &blocks, &mut out).unwrap();
        last = i;
        if !c.is_clean() && i > 10 {
            break;
        }
    }
    let closed = out.len();
    let body = Body::Inline(vec![2; 40]);
    assert_eq!(
        c.push(&key(last), &body, &blocks, &mut out),
        Err(BuildError::NotSorted)
    );
    assert_eq!(out.len(), closed);
    assert!(!c.is_clean());
    c.push(&key(last + 1), &body, &blocks, &mut out).unwrap();
    c.finish(&blocks, &mut out).unwrap();
    let total: u64 = out.iter().map(|n| n.agg.count).sum();
    assert_eq!(total, last as u64 + 2);
}
