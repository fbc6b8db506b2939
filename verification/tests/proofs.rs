//! Proofs: what an honest one says, and what refusing a hostile one costs.

use freenet_prolly::apply::{apply_into, Edit};
use freenet_prolly::build::init;
use freenet_prolly::node::{NodeBuilder, Value};
use freenet_prolly::proofs::{
    prove, prove_range, verify, verify_counted, verify_range, verify_range_bytes,
    verify_range_bytes_counted, verify_range_counted, Proof, ProofError, Proven, MAGIC,
};
use freenet_prolly::range::{Bound, Range};
use freenet_prolly::store::{Blocks, MemBlocks};
use freenet_prolly::Cid;

fn entries(n: u32) -> Vec<(Vec<u8>, Edit)> {
    (0..n)
        .map(|i| {
            (
                format!("k/{i:08}").into_bytes(),
                Edit::Put(vec![(i % 251) as u8; 120]),
            )
        })
        .collect()
}

fn tree() -> (MemBlocks, Cid, Vec<Vec<u8>>) {
    let mut blocks = MemBlocks::default();
    let root = init(&mut blocks);
    let edits = entries(20_000);
    let root = apply_into(&mut blocks, &root, &edits).unwrap().root;
    let keys = edits.into_iter().map(|(k, _)| k).collect();
    (blocks, root, keys)
}

fn padded(honest: &Proof, n: usize) -> Proof {
    let mut nodes = honest.nodes.clone();
    for i in 0..n {
        let mut b = NodeBuilder::leaf();
        b.push(format!("pad/{i:012}").as_bytes(), Value::Inline(&[0u8; 64]))
            .unwrap();
        nodes.push(b.finish().unwrap());
    }
    Proof { nodes, value: None }
}

/// A padded key proof is refused from its shape: not one of thousands of valid leaves
/// is hashed.
#[test]
fn a_hostile_proof_is_refused_for_the_price_of_an_honest_one() {
    let (blocks, root, _) = tree();
    let key = b"k/00010000".to_vec();
    let honest = prove(&blocks, &root, &key).unwrap();
    assert!(matches!(
        verify(&root, &key, &honest).unwrap(),
        Proven::Present(_)
    ));

    let (_, honest_work) = verify_counted(&root, &key, &honest);
    assert_eq!(honest_work, honest.nodes.len());

    // The honest path, then thousands of distinct, individually valid leaves.
    for n in [1_000usize, 10_000, 65_000] {
        let hostile = padded(&honest, n);
        let (got, work) = verify_counted(&root, &key, &hostile);
        assert!(got.is_err(), "{n} pad nodes must be refused");
        assert_eq!(
            work, 0,
            "{n} pad nodes cost {work} blocks hashed; the shape should \
             have refused it after the root"
        );
    }
    println!("honest proof: {honest_work} blocks hashed; 65,000 padded nodes: 0");
}

/// A length no block can have is refused before anything is copied.
#[test]
fn decode_refuses_impossible_lengths_before_copying() {
    let mut b = Vec::from(&MAGIC[..]);
    b.extend_from_slice(&1u16.to_le_bytes());
    b.extend_from_slice(&(u32::MAX - 1).to_le_bytes()); // a node "larger than the world"
    assert_eq!(Proof::decode(&b), Err(ProofError::TooLarge("a node")));

    let mut b = Vec::from(&MAGIC[..]);
    b.extend_from_slice(&0u16.to_le_bytes());
    b.extend_from_slice(&(u32::MAX - 1).to_le_bytes()); // a value the same
    assert_eq!(Proof::decode(&b), Err(ProofError::TooLarge("a value")));
}

/// The cost of refusing a padded listing proof, in blocks hashed and node bodies copied,
/// with an entry limit and without one.
#[test]
fn a_padded_range_proof_costs_nothing_to_refuse() {
    let (blocks, root, keys) = tree();
    let r = Range {
        lo: Bound::Included(keys[500].clone()),
        max_entries: 50,
        ..Range::default()
    };
    let honest = prove_range(&blocks, &root, &r).unwrap();
    let (got, honest_work) = verify_range_counted(&root, &r, &honest);
    got.unwrap();
    assert_eq!(honest_work, honest.nodes.len());

    let big = padded(&honest, 20_000);
    let (got, work) = verify_range_counted(&root, &r, &big);
    assert!(matches!(got, Err(ProofError::TooLarge(_))));
    assert_eq!(work, 0, "padding must not be hashed");

    // With no entry limit there is no bound to derive, so it is refused before the proof
    // is touched.
    let unlimited = Range {
        max_entries: 0,
        ..r.clone()
    };
    let (got, work) = verify_range_counted(&root, &unlimited, &big);
    assert!(matches!(got, Err(ProofError::Unsupported(_))));
    assert_eq!(
        work, 0,
        "an unlimited range must be refused before the proof is parsed"
    );

    // And from the wire: refused before the bytes are copied.
    let wire = big.encode();
    let (got, work) = verify_range_bytes_counted(&root, &r, &wire);
    assert!(matches!(got, Err(ProofError::TooLarge(_))));
    assert_eq!(
        work.copied,
        0,
        "{} B of padding was copied before being refused",
        wire.len()
    );
    println!(
        "listing proof: honest {honest_work} blocks; 20,000 pad nodes ({} B) cost 0 hashed, 0 copied",
        wire.len()
    );
}

/// A question whose bounds are empty is answered, or refused, without decoding or hashing
/// anything.
#[test]
fn an_empty_question_costs_nothing_at_either_door() {
    let (blocks, root, keys) = tree();
    // Reverse, resumed exactly at its lower bound: the bounds are empty.
    let q = Range {
        lo: Bound::Included(keys[100].clone()),
        hi: Bound::Included(keys[300].clone()),
        reverse: true,
        after: Some(keys[100].clone()),
        max_entries: 20,
        ..Range::default()
    };
    let honest = prove_range(&blocks, &root, &q).unwrap();
    assert!(honest.nodes.is_empty());
    let wire = honest.encode();

    let (got, work) = verify_range_bytes_counted(&root, &q, &wire);
    assert!(got.unwrap().entries.is_empty());
    assert_eq!(work.hashed, 0);
    assert_eq!(work.copied, 0);
    assert!(verify_range(&root, &q, &honest).unwrap().entries.is_empty());

    // A padded proof aimed at an empty question: refused without decoding.
    let padded = {
        let real = prove_range(
            &blocks,
            &root,
            &Range {
                after: None,
                ..q.clone()
            },
        )
        .unwrap();
        padded(&real, 5_000).encode()
    };
    assert!(padded.len() > 500_000);
    assert_eq!(
        verify_range_bytes(&root, &q, &padded),
        Err(ProofError::Extra)
    );
    let (_, work) = verify_range_bytes_counted(&root, &q, &padded);
    assert_eq!(work.hashed, 0, "padding was hashed");
    assert_eq!(
        work.copied,
        0,
        "{} B was copied to refuse an empty question",
        padded.len()
    );
    println!("empty question: answered and refused at 0 hashed, 0 copied");
}

/// A prover cannot pass off a page it could not complete itself.
#[test]
fn a_prover_that_cannot_complete_the_page_refuses() {
    let (blocks, root, keys) = tree();
    let r = Range {
        lo: Bound::Included(keys[500].clone()),
        max_entries: 50,
        ..Range::default()
    };
    assert!(prove_range(&blocks, &root, &r).is_ok());

    // A store with only the root: the scan cannot finish the page.
    let mut partial = MemBlocks::default();
    partial.insert(root, blocks.get(&root).unwrap());
    assert_eq!(
        prove_range(&partial, &root, &r),
        Err(ProofError::Incomplete),
        "a prover missing blocks must refuse, not ship a short page"
    );
}
