//! One thing after the other: what a change hands over first, what a diff asks for next,
//! what a stop leaves behind, and that nothing else stops a change.

use freenet_prolly::apply::{apply, apply_into, ApplyError, Edit};
use freenet_prolly::build::{init, TreeBuilder, TreeError};
use freenet_prolly::chunk::{Body, ByContent, Closed, LevelChunker};
use freenet_prolly::diff::{diff, DiffError};
use freenet_prolly::node::{BuildError, Node};
use freenet_prolly::proofs::{prove, prove_range, verify, verify_range, Proven};
use freenet_prolly::range::{Range, MAX_NEED};
use freenet_prolly::store::{Blocks, MemBlocks, ReadError};
use freenet_prolly::{block_id, kind, Cid};
use std::collections::HashSet;

fn key(i: u32) -> Vec<u8> {
    format!("k/{i:06}").into_bytes()
}

fn put(i: u32, byte: u8) -> (Vec<u8>, Edit) {
    let len = if i % 7 == 0 { 1500 } else { 90 };
    (key(i), Edit::Put(vec![byte; len]))
}

fn tree(n: u32) -> (MemBlocks, Cid) {
    let mut blocks = MemBlocks::default();
    let start = init(&mut blocks);
    let edits: Vec<(Vec<u8>, Edit)> = (0..n).map(|i| put(i, (i % 251) as u8)).collect();
    let root = apply_into(&mut blocks, &start, &edits).unwrap().root;
    (blocks, root)
}

fn children(blocks: &MemBlocks, id: &Cid) -> Vec<(Vec<u8>, Cid)> {
    let n = Node::parse(blocks.get(id).unwrap()).unwrap();
    if n.is_leaf() {
        return Vec::new();
    }
    (0..n.len()).map(|i| (n.key(i), n.child(i).0)).collect()
}

/// Values come first, in the order of the edits; then nodes, and no node is a child of one
/// before it.
#[test]
fn children_come_before_their_parents() {
    let (blocks, root) = tree(3_000);
    let batches: Vec<Vec<(Vec<u8>, Edit)>> = vec![
        vec![put(700, 1), put(1_400, 2), put(2_100, 3)],
        (3_000..6_000).map(|i| put(i, 5)).collect(),
        (10..2_900).map(|i| (key(i), Edit::Delete)).collect(),
    ];
    for batch in batches {
        let mut out = Vec::new();
        let got = apply(&blocks, &root, &batch, &mut out).unwrap();
        let values: Vec<Cid> = batch
            .iter()
            .filter_map(|(_, e)| match e {
                Edit::Put(v) if v.len() > 1024 => Some(block_id(kind::RAW, v)),
                _ => None,
            })
            .collect();
        let mut seen = HashSet::new();
        let owed: Vec<Cid> = values.into_iter().filter(|id| seen.insert(*id)).collect();
        let n = owed.len();
        let first: Vec<Cid> = out[..n].iter().map(|(id, _)| *id).collect();
        assert_eq!(first, owed);
        let nodes = &out[n..];
        for (i, (_, bytes)) in nodes.iter().enumerate() {
            let node = Node::parse(bytes).unwrap();
            if node.is_leaf() {
                continue;
            }
            for k in 0..node.len() {
                let child = node.child(k).0;
                assert!(nodes[i + 1..].iter().all(|(id, _)| *id != child));
            }
        }
        assert_eq!(nodes.last().unwrap().0, got.root);
    }
}

/// A diff that holds no more than the roots asks for the first child that differs, and
/// then for its siblings that differ, in key order, the old tree's before the new one's.
#[test]
fn a_diff_asks_for_the_block_it_is_stuck_on_and_its_siblings() {
    let (mut blocks, a) = tree(6_000);
    for batch in [
        vec![put(3_333, 200)],
        vec![put(100, 200), put(3_000, 201), put(5_900, 202)],
        (0..6_000).map(|i| put(i, 203)).collect::<Vec<_>>(),
    ] {
        let b = apply_into(&mut blocks, &a, &batch).unwrap().root;
        let mut thin = MemBlocks::new();
        thin.insert(a, blocks.get(&a).unwrap());
        thin.insert(b, blocks.get(&b).unwrap());
        let (ca, cb) = (children(&blocks, &a), children(&blocks, &b));
        assert_eq!(ca.len(), cb.len());
        let at = (0..ca.len()).find(|i| ca[*i].1 != cb[*i].1).unwrap();
        let mut want = vec![ca[at].1];
        for i in at..ca.len() {
            assert_eq!(ca[i].0, cb[i].0);
            if ca[i].1 != cb[i].1 {
                for id in [ca[i].1, cb[i].1] {
                    if want.len() < MAX_NEED && !want.contains(&id) {
                        want.push(id);
                    }
                }
            }
        }
        let page = diff(&thin, &a, &b, &Range::default(), None).unwrap();
        assert_eq!(page.need, want);
        assert!(page.changes.is_empty());
        assert_eq!(page.next, None);
    }
}

/// Roots that are missing are asked for, the old one first.
#[test]
fn a_diff_asks_for_the_roots_first() {
    let (mut blocks, a) = tree(200);
    let b = apply_into(&mut blocks, &a, &[put(5, 9)]).unwrap().root;
    let none = MemBlocks::new();
    assert_eq!(diff(&none, &a, &b, &Range::default(), None).unwrap().need, vec![a, b]);
    let mut one = MemBlocks::new();
    one.insert(a, blocks.get(&a).unwrap());
    assert_eq!(diff(&one, &a, &b, &Range::default(), None).unwrap().need, vec![b]);
}

/// What stops a diff is the fault of a root, the old one first, or of the slot it stands
/// on; a faulty block elsewhere does not stop it.
#[test]
fn a_diff_reports_the_fault_it_runs_into() {
    let (mut blocks, a) = tree(6_000);
    let b = apply_into(&mut blocks, &a, &[put(3_333, 200)]).unwrap().root;
    let r = Range::default();
    let fault = |blocks: &MemBlocks| match diff(blocks, &a, &b, &r, None) {
        Err(DiffError::Read(ReadError::Corrupt(id, _))) => Some(id),
        Ok(page) => {
            assert_eq!(page.changes.len(), 1);
            None
        }
        Err(e) => panic!("{e:?}"),
    };
    let (ca, cb) = (children(&blocks, &a), children(&blocks, &b));
    let at = (0..ca.len()).find(|i| ca[*i].1 != cb[*i].1).unwrap();
    let shared = (0..ca.len()).find(|i| ca[*i].1 == cb[*i].1).unwrap();
    assert_eq!(fault(&blocks), None);
    let mut bad = blocks;
    bad.insert(ca[shared].1, b"no node");
    assert_eq!(fault(&bad), None);
    bad.insert(cb[at].1, b"no node");
    assert_eq!(fault(&bad), Some(cb[at].1));
    bad.insert(ca[at].1, b"no node");
    assert_eq!(fault(&bad), Some(ca[at].1));
    bad.insert(b, b"no node");
    assert_eq!(fault(&bad), Some(b));
    bad.insert(a, b"no node");
    assert_eq!(fault(&bad), Some(a));
}

/// What a builder handed over stays there when it stops, whatever stops it.
#[test]
fn a_builder_that_stops_leaves_what_it_handed_over() {
    let mut t = TreeBuilder::new();
    let mut sink: Vec<(Cid, Vec<u8>)> = vec![([7; 32], b"before".to_vec())];
    for i in 0..2_000u32 {
        t.push_bytes(&key(i), &[1; 60], &mut sink).unwrap();
    }
    assert!(sink.len() > 3);
    let had = sink.clone();
    let refused = t.push_bytes(&key(5), &[1; 60], &mut sink);
    assert_eq!(refused, Err(TreeError::Node(BuildError::NotSorted)));
    assert_eq!(sink, had);
    for (id, bytes) in &sink[1..] {
        assert_eq!(block_id(kind::TREE_NODE, bytes), *id);
    }
    let had = sink.clone();
    let root = t.finish(&mut sink).unwrap();
    assert_eq!(sink[..had.len()], had[..]);
    assert!(sink.len() > had.len());
    assert!(sink.iter().any(|x| x.0 == root));
}

/// A node that cannot be closed at the end leaves what was closed before.
#[test]
fn a_chunker_that_cannot_finish_leaves_what_it_closed() {
    let blocks = MemBlocks::new();
    let mut c = LevelChunker::new(0, ByContent);
    let mut out: Vec<Closed> = Vec::new();
    for i in 0..400u32 {
        c.push(&key(i), &Body::Inline(vec![1; 90]), &blocks, &mut out).unwrap();
    }
    let absent = [9u8; 32];
    let refer = Body::Ref {
        cid: absent,
        len: 2_000,
    };
    let closed: Vec<Cid> = out.iter().map(|n| n.cid).collect();
    assert!(!closed.is_empty());
    let pushed = c.push(&key(400), &refer, &blocks, &mut out);
    if pushed.is_ok() {
        assert_eq!(
            c.finish(&blocks, &mut out),
            Err(BuildError::MissingMember(absent))
        );
    } else {
        assert_eq!(pushed, Err(BuildError::MissingMember(absent)));
    }
    assert_eq!(out.iter().map(|n| n.cid).collect::<Vec<_>>(), closed);
}

/// Where the whole tree and its values are held, a batch that is in order is carried out,
/// whatever it does, and both calls give one answer.
#[test]
fn a_batch_in_order_is_carried_out() {
    let (blocks, root) = tree(1_500);
    let all: Vec<Vec<(Vec<u8>, Edit)>> = vec![
        Vec::new(),
        vec![(Vec::new(), Edit::Put(vec![1; 262_144]))],
        vec![(vec![255; 512], Edit::Put(Vec::new()))],
        vec![(b"nothing there".to_vec(), Edit::Delete)],
        (0..1_500).map(|i| (key(i), Edit::Delete)).collect(),
        (0..1_500).filter(|i| i % 2 == 0).map(|i| put(i, 77)).collect(),
        (0..3_000).map(|i| put(i, (i % 3) as u8)).collect(),
    ];
    for batch in all {
        let mut out = Vec::new();
        let got = apply(&blocks, &root, &batch, &mut out).unwrap();
        let mut inside = tree(1_500).0;
        let same = apply_into(&mut inside, &root, &batch).unwrap();
        assert_eq!(same.root, got.root);
        assert_eq!(same.replaced, got.replaced);
        assert_eq!(same.parity, got.parity);
        for (id, bytes) in &out {
            assert_eq!(inside.get(id), Some(bytes.as_slice()));
        }
    }
}

/// A batch that is refused is refused alike by both calls, and the store stays as it was.
#[test]
fn both_calls_refuse_alike() {
    let (blocks, root) = tree(1_500);
    let bare = || {
        let mut b = MemBlocks::new();
        b.insert(root, blocks.get(&root).unwrap());
        b
    };
    let twice = vec![put(1, 1), put(1, 2)];
    let long = vec![(vec![1; 513], Edit::Delete)];
    let big = vec![(key(1), Edit::Put(vec![0; 262_145]))];
    let spread = vec![put(3, 1), put(700, 1), put(1_400, 1)];
    for (mut inside, batch) in [
        (tree(1_500).0, &twice),
        (tree(1_500).0, &long),
        (tree(1_500).0, &big),
        (bare(), &spread),
    ] {
        let mut out = vec![([3u8; 32], b"kept".to_vec())];
        let e = apply(&inside, &root, batch, &mut out).unwrap_err();
        assert_eq!(out, vec![([3u8; 32], b"kept".to_vec())]);
        assert_eq!(apply_into(&mut inside, &root, batch).unwrap_err(), e);
        if let ApplyError::Read(ReadError::Need(ids)) = e {
            for id in &ids {
                assert!(inside.get(id).is_none());
                assert!(blocks.get(id).is_some());
            }
        }
    }
}

/// A value that reads like a node, and stands in the store under its own id, does not come
/// in the way of a proof.
#[test]
fn a_value_that_reads_like_a_node_is_no_node() {
    let (mut blocks, root) = tree(3_000);
    let leaf = {
        let mut id = root;
        while let Some((_, c)) = children(&blocks, &id).first() {
            id = *c;
        }
        blocks.get(&id).unwrap().to_vec()
    };
    assert!(leaf.len() > 1_024);
    let name = key(2_999);
    let root = apply_into(&mut blocks, &root, &[(name.clone(), Edit::Put(leaf.clone()))])
        .unwrap()
        .root;
    let own = block_id(kind::RAW, &leaf);
    assert!(Node::parse(blocks.get(&own).unwrap()).is_ok());
    let p = prove(&blocks, &root, &name).unwrap();
    assert!(verify(&root, &name, &p).unwrap() != Proven::Absent);
    let r = Range::default();
    let p = prove_range(&blocks, &root, &r).unwrap();
    assert!(!verify_range(&root, &r, &p).unwrap().entries.is_empty());
}

/// Whatever single block is missing, the two calls answer alike: the same change, with
/// everything it lists in the same order, or the same error.
#[test]
fn two_calls_answer_alike_whatever_is_missing() {
    let mut empty = MemBlocks::new();
    let start = init(&mut empty);
    let edits: Vec<(Vec<u8>, Edit)> = (0..900).map(|i| put(i, (i % 251) as u8)).collect();
    let mut all = vec![(start, empty.get(&start).unwrap().to_vec())];
    let root = apply(&empty, &start, &edits, &mut all).unwrap().root;
    let store = |skip: usize| {
        let mut b = MemBlocks::new();
        for (i, (id, bytes)) in all.iter().enumerate() {
            if i != skip {
                b.insert(*id, bytes);
            }
        }
        b
    };
    let batches = [
        vec![put(3, 9)],
        vec![put(100, 9), (key(450), Edit::Delete), put(899, 9)],
        (300..420).map(|i| (key(i), Edit::Delete)).collect(),
    ];
    let (mut made, mut refused) = (0, 0);
    for skip in 0..all.len() {
        for batch in &batches {
            let mut out = Vec::new();
            let one = apply(&store(skip), &root, batch, &mut out);
            let mut inside = store(skip);
            let two = apply_into(&mut inside, &root, batch);
            assert_eq!(one, two);
            match one {
                Ok(_) => {
                    made += 1;
                    for (id, bytes) in &out {
                        assert_eq!(inside.get(id), Some(bytes.as_slice()));
                    }
                }
                Err(_) => {
                    refused += 1;
                    assert!(out.is_empty());
                }
            }
        }
    }
    assert!(made > 100);
    assert!(refused > 10);
}
