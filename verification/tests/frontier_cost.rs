//! What naming the blocks of a page costs.

use freenet_prolly::apply::{apply_into, Edit};
use freenet_prolly::build::init;
use freenet_prolly::node::Node;
use freenet_prolly::range::{frontier_of, Bound, Range};
use freenet_prolly::store::{BlockMap, Blocks, BlocksMut};
use freenet_prolly::Cid;
use std::collections::HashMap;

/// Blocks held in memory, with the map in view.
#[derive(Clone, Default)]
struct MemBlocks(HashMap<Cid, Vec<u8>>);

impl MemBlocks {
    fn insert(&mut self, cid: Cid, bytes: &[u8]) {
        self.0.insert(cid, bytes.to_vec());
    }

    /// Hold everything a call handed over.
    #[allow(dead_code)]
    fn keep(&mut self, blocks: Vec<(Cid, Vec<u8>)>) {
        for (cid, bytes) in blocks {
            self.0.insert(cid, bytes);
        }
    }
}

impl Blocks for MemBlocks {
    fn held(&self) -> BlockMap {
        unreachable!()
    }

    fn get(&self, cid: &Cid) -> Option<&[u8]> {
        self.0.get(cid).map(|b| b.as_slice())
    }
}

impl BlocksMut for MemBlocks {
    fn insert_block(&mut self, cid: Cid, bytes: &[u8]) {
        self.insert(cid, bytes);
    }
}

/// What a frontier costs, on the shape where it costs the most: a wide upper
/// tree with long keys, every branch held and no leaf. The assertion is
/// structural; the time is only printed.
#[test]
fn the_cost_of_a_frontier_measured() {
    // Long keys, so building one per child is a real allocation.
    let mut full = MemBlocks::default();
    let root0 = init(&mut full);
    let edits: Vec<(Vec<u8>, Edit)> = (0..40_000u32)
        .map(|i| {
            let mut k = b"d/some/rather/long/key/prefix/shared/by/everything/".to_vec();
            k.extend_from_slice(format!("{i:012}").as_bytes());
            (k, Edit::Put(vec![7u8; 40]))
        })
        .collect();
    let root = apply_into(&mut full, &root0, &edits).unwrap().root;

    // Branches held, no leaves: the frontier walks the whole upper tree.
    let mut held = MemBlocks::default();
    for (id, b) in full.0.iter() {
        if Node::parse(b).is_ok_and(|n| !n.is_leaf()) {
            held.insert(*id, b);
        }
    }
    let r = Range {
        lo: Bound::Unbounded,
        hi: Bound::Unbounded,
        max_entries: usize::MAX,
        max_bytes: usize::MAX,
        ..Range::default()
    };
    for _ in 0..20 {
        let _ = frontier_of(&held, &root, &r).unwrap();
    }
    let t = std::time::Instant::now();
    let runs = 200;
    let mut n = 0;
    for _ in 0..runs {
        n = frontier_of(&held, &root, &r).unwrap().len();
    }
    println!(
        "frontier over {} branches, {} B keys: {:?} each, names {n}",
        held.0.len(),
        50 + 12,
        t.elapsed() / runs
    );
    assert_eq!(n, 64, "the frontier is capped, whatever it costs");
    assert!(held.0.len() > 20, "the walk must cross a real upper tree");
}
