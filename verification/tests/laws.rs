//! What holds of the library as a whole, on concrete values.

use freenet_prolly::aggregate::{aggregate, aggregate_verified, AggError};
use freenet_prolly::apply::{apply, apply_into, ApplyError, Edit};
use freenet_prolly::build::{build, init, TreeBuilder, TreeError};
use freenet_prolly::cursor::{Cursor, LevelCursor};
use freenet_prolly::diff::{diff, Change};
use freenet_prolly::node::{Agg, BuildError, Node, NodeBuilder, NodeError, Value};
use freenet_prolly::parity::{self, GroupIndex};
use freenet_prolly::proofs::{
    prove, prove_aggregate, prove_range, prove_with_value, verify, verify_aggregate, verify_bytes,
    verify_range, verify_range_bytes, Proof, ProofError, Proven, ProvenOwned, ProvenValue,
};
use freenet_prolly::range::{
    above_lo, below_hi, range, value_bytes, Bound, PageEnd, Range, RangeError,
};
use freenet_prolly::read::get;
use freenet_prolly::rs;
use freenet_prolly::store::{load, Blocks, Held, MemBlocks, Overlay, ReadError};
use freenet_prolly::{block_id, kind, pack, Cid};

fn key(i: u32) -> Vec<u8> {
    format!("k/{i:06}").into_bytes()
}

/// A tree of `n` entries, every fifth value in a block of its own.
fn tree(n: u32) -> (MemBlocks, Cid) {
    let mut blocks = MemBlocks::default();
    let start = init(&mut blocks);
    let edits: Vec<(Vec<u8>, Edit)> = (0..n)
        .map(|i| {
            let len = if i % 5 == 0 { 1500 } else { 90 };
            (key(i), Edit::Put(vec![(i % 251) as u8; len]))
        })
        .collect();
    let root = apply_into(&mut blocks, &start, &edits).unwrap().root;
    (blocks, root)
}

/// A store with the blocks of a proof and nothing else.
fn store_of(p: &Proof) -> MemBlocks {
    let mut blocks = MemBlocks::new();
    for n in &p.nodes {
        blocks.insert(block_id(kind::TREE_NODE, n), n);
    }
    blocks
}

fn whole() -> Range {
    Range::default()
}

/// Decoding gives back what was encoded, and every other reading is refused by name.
#[test]
fn a_proof_round_trips_through_its_bytes() {
    let (blocks, root) = tree(2_000);
    for p in [
        prove(&blocks, &root, &key(7)).unwrap(),
        prove_with_value(&blocks, &root, &key(5)).unwrap(),
        Proof::default(),
        Proof {
            nodes: vec![vec![], vec![1, 2, 3]],
            value: Some(vec![]),
        },
    ] {
        let bytes = p.encode();
        assert_eq!(p.bytes(), bytes.len());
        assert_eq!(Proof::decode(&bytes), Ok(p));
        let mut long = bytes.clone();
        long.push(0);
        assert_eq!(
            Proof::decode(&long),
            Err(ProofError::Malformed("trailing bytes"))
        );
        assert_eq!(
            Proof::decode(&bytes[..bytes.len() - 1]),
            Err(ProofError::Malformed("truncated"))
        );
    }
    assert_eq!(
        Proof::default().encode(),
        vec![0x50, 0x50, 0x30, 0x31, 0, 0, 0xff, 0xff, 0xff, 0xff]
    );
    assert_eq!(
        Proof::decode(b"XX01\0\0\xff\xff\xff\xff"),
        Err(ProofError::Malformed("magic"))
    );
    assert_eq!(Proof::decode(b"PP"), Err(ProofError::Malformed("truncated")));
}

/// A key proof says what the tree says, present or absent, and so does any store that
/// holds its blocks.
#[test]
fn a_proven_answer_is_the_trees() {
    let (blocks, root) = tree(3_000);
    for i in [0u32, 1, 4, 5, 1_499, 1_500, 2_999] {
        let k = key(i);
        let p = prove(&blocks, &root, &k).unwrap();
        let found = get(&blocks, &root, &k).unwrap().unwrap();
        assert_eq!(verify(&root, &k, &p), Ok(Proven::Present(found)));
        assert_eq!(get(&store_of(&p), &root, &k), Ok(Some(found)));
        let height = Node::parse(blocks.get(&root).unwrap()).unwrap().level() as usize + 1;
        assert_eq!(p.nodes.len(), height, "one block per level");
    }
    for k in [b"".to_vec(), b"k/000003x".to_vec(), b"zz".to_vec()] {
        let p = prove(&blocks, &root, &k).unwrap();
        assert_eq!(verify(&root, &k, &p), Ok(Proven::Absent));
        assert_eq!(
            verify_bytes(&root, &k, &p.encode()),
            Ok(ProvenOwned::Absent)
        );
    }
    // A carried value stands for the reference to it.
    let p = prove_with_value(&blocks, &root, &key(10)).unwrap();
    let bytes = vec![10u8; 1500];
    assert_eq!(
        verify(&root, &key(10), &p),
        Ok(Proven::Present(Value::Inline(&bytes)))
    );
    assert_eq!(
        verify_bytes(&root, &key(10), &p.encode()),
        Ok(ProvenOwned::Present(ProvenValue::Inline(bytes)))
    );
}

/// A page proof establishes the page, and an aggregate proof the count.
#[test]
fn a_proven_page_and_count_are_the_trees() {
    let (blocks, root) = tree(3_000);
    for (lo, hi, reverse, max) in [
        (0u32, 3_000u32, false, 40usize),
        (700, 760, false, 500),
        (700, 760, true, 30),
        (2_900, 9_999, true, 10),
    ] {
        let r = Range {
            lo: Bound::Included(key(lo)),
            hi: Bound::Excluded(key(hi)),
            reverse,
            max_entries: max,
            ..whole()
        };
        let p = prove_range(&blocks, &root, &r).unwrap();
        let got = verify_range(&root, &r, &p).unwrap();
        assert_eq!(verify_range_bytes(&root, &r, &p.encode()), Ok(got.clone()));
        let page = range(&blocks, &root, &r).unwrap();
        assert_eq!(got.next, page.next);
        assert_eq!(got.entries.len(), page.entries.len());
        for ((a, x), (b, y)) in got.entries.iter().zip(&page.entries) {
            assert_eq!(a, b);
            match (x, y) {
                (ProvenValue::Inline(x), Value::Inline(y)) => assert_eq!(x, y),
                (ProvenValue::Ref { cid, len }, Value::Ref { cid: c, len: l }) => {
                    assert_eq!((cid, len), (c, l))
                }
                _ => panic!("different kinds of value"),
            }
        }
        // No block can be left out.
        for i in 0..p.nodes.len() {
            let mut fewer = p.clone();
            fewer.nodes.remove(i);
            assert!(verify_range(&root, &r, &fewer).is_err());
        }
        let r = Range {
            lo: Bound::Included(key(lo)),
            hi: Bound::Excluded(key(hi)),
            ..whole()
        };
        let p = prove_aggregate(&blocks, &root, &r).unwrap();
        assert_eq!(
            verify_aggregate(&root, &r, &p).unwrap(),
            aggregate(&blocks, &root, &r).unwrap()
        );
        assert_eq!(
            aggregate(&store_of(&p), &root, &r).unwrap(),
            aggregate(&blocks, &root, &r).unwrap()
        );
    }
}

/// Each way a proof can fail, by name.
#[test]
fn every_refusal_of_a_proof_has_its_name() {
    let (blocks, root) = tree(3_000);
    let k = key(1_234);
    let honest = prove(&blocks, &root, &k).unwrap();
    assert!(honest.nodes.len() >= 2);

    let mut p = honest.clone();
    p.nodes.pop();
    assert_eq!(verify(&root, &k, &p), Err(ProofError::Incomplete));
    assert_eq!(
        verify(&root, &k, &Proof::default()),
        Err(ProofError::Incomplete)
    );
    assert_eq!(verify(&[7; 32], &k, &honest), Err(ProofError::WrongRoot));
    let mut p = honest.clone();
    *p.nodes.last_mut().unwrap() = vec![1, 2, 3];
    assert_eq!(verify(&root, &k, &p), Err(ProofError::NotANode));
    let mut p = honest.clone();
    let last = p.nodes.last().unwrap().clone();
    p.nodes.push(last);
    assert_eq!(verify(&root, &k, &p), Err(ProofError::OutOfOrder));
    let mut p = honest.clone();
    let mut b = NodeBuilder::leaf();
    b.push(b"pad", Value::Inline(b"")).unwrap();
    p.nodes.push(b.finish().unwrap());
    assert_eq!(verify(&root, &k, &p), Err(ProofError::Extra));
    let mut p = honest.clone();
    p.value = Some(vec![1]);
    assert_eq!(verify(&root, &k, &p), Err(ProofError::BadValue));
    let mut p = prove_with_value(&blocks, &root, &key(10)).unwrap();
    p.value = Some(vec![9; 1500]);
    assert_eq!(verify(&root, &key(10), &p), Err(ProofError::BadValue));

    // A child that is not what its parent says.
    let mut leaf = NodeBuilder::leaf();
    leaf.push(b"a", Value::Inline(b"1")).unwrap();
    let leaf = leaf.finish().unwrap();
    let id = block_id(kind::TREE_NODE, &leaf);
    let mut lie = NodeBuilder::branch(1);
    lie.push_child(b"a", id, Agg { count: 9, bytes: 9 }).unwrap();
    let lie = lie.finish().unwrap();
    let p = Proof {
        nodes: vec![lie.clone(), leaf],
        value: None,
    };
    assert_eq!(
        verify(&block_id(kind::TREE_NODE, &lie), b"a", &p),
        Err(ProofError::Mismatch(id))
    );

    // Questions.
    let limited = Range {
        max_entries: 5,
        ..whole()
    };
    let count = prove_aggregate(&blocks, &root, &whole()).unwrap();
    assert_eq!(
        verify_aggregate(&root, &limited, &count),
        Err(ProofError::WrongRange)
    );
    assert_eq!(
        prove_aggregate(&blocks, &root, &limited),
        Err(AggError::NotWholeRange("a limit"))
    );
    let unlimited = Range {
        max_entries: 0,
        ..whole()
    };
    assert_eq!(
        prove_range(&blocks, &root, &unlimited),
        Err(ProofError::Unsupported("a page with no entry limit"))
    );
    let p = prove_range(&blocks, &root, &limited).unwrap();
    let mut short = p.clone();
    short.nodes.pop();
    assert_eq!(
        verify_range(&root, &limited, &short),
        Err(ProofError::NotComplete)
    );
    let mut swapped = p.clone();
    let n = swapped.nodes.len();
    swapped.nodes.swap(n - 1, n - 2);
    assert_eq!(
        verify_range(&root, &limited, &swapped),
        Err(ProofError::OutOfOrder)
    );
    let mut trailed = p;
    trailed.value = Some(vec![]);
    assert_eq!(
        verify_range(&root, &limited, &trailed),
        Err(ProofError::Extra)
    );
}

/// What an error says.
#[test]
fn errors_speak() {
    for (e, text) in [
        (ProofError::Malformed("magic"), "not a proof: magic"),
        (ProofError::NotANode, "a block in the proof is not a node"),
        (
            ProofError::Incomplete,
            "the proof does not contain the whole path",
        ),
        (
            ProofError::Extra,
            "the proof carries a block that is not on the path",
        ),
        (
            ProofError::OutOfOrder,
            "the proof's blocks are not in read order",
        ),
        (
            ProofError::WrongRoot,
            "the proof does not start at this root",
        ),
        (
            ProofError::Mismatch([1; 32]),
            "a block is not what its parent says it is",
        ),
        (
            ProofError::BadValue,
            "the carried value is not the one the leaf names",
        ),
        (
            ProofError::WrongRange,
            "the proof is for a different range",
        ),
        (
            ProofError::TooLarge("a node"),
            "the proof is impossibly large: a node",
        ),
        (
            ProofError::Unsupported("this range"),
            "a proof cannot be made for this range",
        ),
        (
            ProofError::NotComplete,
            "the listing is missing entries it should contain",
        ),
    ] {
        assert_eq!(e.message(), text);
    }
}

/// What a part of a tree answers, the whole tree answers too.
#[test]
fn more_blocks_never_change_an_answer() {
    let (blocks, root) = tree(2_000);
    let k = key(333);
    let r = Range {
        lo: Bound::Included(key(100)),
        max_entries: 20,
        ..whole()
    };
    let p = prove(&blocks, &root, &k).unwrap();
    assert_eq!(get(&store_of(&p), &root, &k), get(&blocks, &root, &k));
    assert_eq!(
        get(&store_of(&p), &root, &key(1_999)).map(|v| v.is_some()),
        Err(ReadError::Need(vec![missing_for(&p, &blocks, &root, 1_999)]))
    );
    let p = prove_range(&blocks, &root, &r).unwrap();
    let part = store_of(&p);
    let few = range(&part, &root, &r).unwrap();
    let all = range(&blocks, &root, &r).unwrap();
    assert_eq!(few.entries, all.entries);
    assert_eq!((few.next, few.end), (all.next, all.end));
}

/// The first block on the way to a key that a proof does not hold.
fn missing_for(p: &Proof, blocks: &MemBlocks, root: &Cid, i: u32) -> Cid {
    let held = store_of(p);
    let full = prove(blocks, root, &key(i)).unwrap();
    full.nodes
        .iter()
        .map(|n| block_id(kind::TREE_NODE, n))
        .find(|c| held.get(c).is_none())
        .unwrap()
}

/// Applying what a tree already holds gives the same root and hands nothing over.
#[test]
fn restating_changes_nothing() {
    let (blocks, root) = tree(1_000);
    let same: Vec<(Vec<u8>, Edit)> = [1u32, 5, 999]
        .iter()
        .map(|&i| {
            let len = if i % 5 == 0 { 1500 } else { 90 };
            (key(i), Edit::Put(vec![(i % 251) as u8; len]))
        })
        .chain([(b"zz".to_vec(), Edit::Delete)])
        .collect();
    let mut out = Vec::new();
    let got = apply(&blocks, &root, &same, &mut out).unwrap();
    assert_eq!(got.root, root);
    assert!(got.replaced.is_empty());
    assert!(out.is_empty());
    assert_eq!(
        apply(&blocks, &[1; 32], &same, &mut out),
        Err(ApplyError::Read(ReadError::Need(vec![[1; 32]])))
    );
}

/// Equal contents have equal roots, whatever way they came about.
#[test]
fn equal_contents_have_equal_roots() {
    let (mut blocks, root) = tree(800);
    let there = apply_into(&mut blocks, &root, &[(b"x".to_vec(), Edit::Put(vec![3; 4000]))])
        .unwrap()
        .root;
    assert_ne!(there, root);
    let back = apply_into(&mut blocks, &there, &[(b"x".to_vec(), Edit::Delete)])
        .unwrap()
        .root;
    assert_eq!(back, root);
    let mut sink = Vec::new();
    let mut t = TreeBuilder::new();
    for i in 0..800u32 {
        let len = if i % 5 == 0 { 1500 } else { 90 };
        t.push_bytes(&key(i), &vec![(i % 251) as u8; len], &mut sink)
            .unwrap();
    }
    assert_eq!(t.finish(&mut sink), Ok(root));
}

/// A diff turns one tree into the other, and reads the same backwards.
#[test]
fn a_diff_is_the_way_from_one_tree_to_the_other() {
    let mut blocks = MemBlocks::default();
    let mut sink = Vec::new();
    let a = build(
        &[
            (&b"a"[..], Value::Inline(b"1")),
            (&b"b"[..], Value::Inline(b"2")),
        ],
        &mut sink,
    )
    .unwrap();
    let b = build(
        &[
            (&b"b"[..], Value::Inline(b"3")),
            (&b"c"[..], Value::Inline(b"4")),
        ],
        &mut sink,
    )
    .unwrap();
    for (c, x) in &sink {
        blocks.insert(*c, x);
    }
    let there = diff(&blocks, &a, &b, &whole(), None).unwrap();
    assert_eq!(
        there.changes,
        vec![
            Change::Removed {
                key: b"a".to_vec(),
                old: Value::Inline(b"1")
            },
            Change::Changed {
                key: b"b".to_vec(),
                old: Value::Inline(b"2"),
                new: Value::Inline(b"3")
            },
            Change::Added {
                key: b"c".to_vec(),
                new: Value::Inline(b"4")
            },
        ]
    );
    assert_eq!(there.changes[1].key(), b"b");
    let back = diff(&blocks, &b, &a, &whole(), None).unwrap();
    assert_eq!(back.changes.len(), 3);
    assert_eq!(
        back.changes[0],
        Change::Added {
            key: b"a".to_vec(),
            new: Value::Inline(b"1")
        }
    );
}

/// A page carries on where the last one ended, in both directions.
#[test]
fn pages_follow_each_other() {
    let (blocks, root) = tree(500);
    for reverse in [false, true] {
        let mut r = Range {
            reverse,
            max_entries: 37,
            ..whole()
        };
        let mut keys = Vec::new();
        loop {
            let page = range(&blocks, &root, &r).unwrap();
            keys.extend(page.entries.iter().map(|(k, _)| k.clone()));
            if page.finished() {
                break;
            }
            assert_eq!(page.end, PageEnd::Limit);
            r.after = page.next;
        }
        if reverse {
            keys.reverse();
        }
        assert_eq!(keys, (0..500).map(key).collect::<Vec<_>>());
    }
    let none = Range {
        max_entries: 0,
        ..whole()
    };
    assert_eq!(
        range(&blocks, &root, &none).map(|p| p.entries.len()),
        Err(RangeError::NoLimit)
    );
    // A prefix is every key that begins with it.
    let some = range(&blocks, &root, &Range::prefix(b"k/00012")).unwrap();
    assert_eq!(some.entries.len(), 10);
    let top = Range::prefix(&[0xff, 0xff]);
    assert_eq!(top.hi, Bound::Unbounded);
    assert_eq!(Range::prefix(b"ab\xff").hi, Bound::Excluded(b"ac".to_vec()));
}

/// A count and its check agree where the writer was honest.
#[test]
fn what_can_be_verified_was_claimed() {
    let (blocks, root) = tree(1_500);
    for (lo, hi) in [(0u32, 1_500u32), (10, 11), (700, 701), (1_400, 9_000)] {
        let r = Range {
            lo: Bound::Included(key(lo)),
            hi: Bound::Excluded(key(hi)),
            ..whole()
        };
        let claimed = aggregate(&blocks, &root, &r).unwrap().agg();
        assert_eq!(claimed, aggregate_verified(&blocks, &root, &r).unwrap().agg());
        assert_eq!(claimed.count, (hi.min(1_500) - lo) as u64);
    }
    let big = Agg {
        count: u64::MAX,
        bytes: 1,
    };
    assert_eq!(big.checked_add(Agg { count: 1, bytes: 1 }), None);
    assert_eq!(
        Agg { count: 1, bytes: 2 }.checked_add(Agg { count: 3, bytes: 4 }),
        Some(Agg { count: 4, bytes: 6 })
    );
}

/// Cursors walk the entries and the levels in key order.
#[test]
fn cursors_walk_in_key_order() {
    let (blocks, root) = tree(600);
    let mut c = Cursor::seek(&blocks, &root, b"").unwrap();
    let mut seen = 0;
    while let Some((k, _)) = c.peek() {
        assert_eq!(k, key(seen));
        seen += 1;
        c.next().unwrap();
    }
    assert_eq!(seen, 600);
    let mut c = Cursor::seek_last(&blocks, &root).unwrap();
    assert_eq!(c.peek().unwrap().0, key(599));
    c.prev().unwrap();
    assert_eq!(c.peek().unwrap().0, key(598));
    let c = Cursor::seek_before(&blocks, &root, &key(10)).unwrap();
    assert_eq!(c.peek().unwrap().0, key(9));
    let mut l = LevelCursor::seek(&blocks, &root, 0, b"").unwrap().unwrap();
    assert!(l.is_first());
    let mut leaves = 1;
    while l.advance().unwrap() {
        leaves += 1;
    }
    assert!(leaves > 10);
    assert!(l.next_min_key().is_none());
    assert_eq!(
        l.id(),
        LevelCursor::seek_last(&blocks, &root, 0)
            .unwrap()
            .unwrap()
            .id()
    );
}

/// Nodes and stores: each error by name.
#[test]
fn readers_name_what_is_wrong() {
    let mut blocks = MemBlocks::new();
    let absent = [3u8; 32];
    assert!(matches!(load(&blocks, &absent), Err(ReadError::Need(ids)) if ids == vec![absent]));
    blocks.insert(absent, b"junk");
    assert!(matches!(
        load(&blocks, &absent),
        Err(ReadError::Corrupt(c, NodeError::TooShort)) if c == absent
    ));
    assert_eq!(
        value_bytes(&blocks, &absent, 3),
        Err(ReadError::Mismatch(absent))
    );
    assert_eq!(value_bytes(&blocks, &absent, 4), Ok(&b"junk"[..]));
    let mut over = Overlay::new(Some(&blocks));
    assert!(!over.holds(&absent));
    over.put([4; 32], b"new");
    assert!(over.holds(&[4; 32]));
    assert_eq!(over.get(&[4; 32]), Some(&b"new"[..]));
    assert_eq!(over.get(&absent), Some(&b"junk"[..]));
    let (held, root) = tree(300);
    let top = Held::root(&held, &root).unwrap();
    assert!(top.upper().is_none());
    let first = top.open(&held, 0).unwrap();
    assert_eq!(first.upper().map(|k| k.to_vec()), top.child_upper(0));
    let mut sink = Vec::new();
    let mut t = TreeBuilder::new();
    assert_eq!(
        t.push(
            b"k",
            Value::Ref {
                cid: [9; 32],
                len: 5000
            },
            &mut sink
        ),
        Ok(())
    );
    assert!(matches!(t.finish(&mut sink), Err(TreeError::Node(_))));
    assert_eq!(
        NodeBuilder::leaf().push(&vec![b'k'; 600], Value::Inline(b"")),
        Err(BuildError::KeyTooLong)
    );
}

/// A group of a node is found again by its members.
#[test]
fn groups_are_found_by_their_members() {
    let (blocks, root) = tree(2_000);
    let top = Node::parse(blocks.get(&root).unwrap()).unwrap();
    let ids = top.parity();
    assert_eq!(ids.len(), parity::pcount_of(&top));
    assert_eq!(
        parity::group_sizes_of(&top).iter().sum::<usize>(),
        top.len()
    );
    let index = GroupIndex::of(&top);
    let mut at = 0;
    for (class, members) in parity::group_members(&top) {
        assert_eq!(
            index.exact(class, &members),
            Some([ids[at], ids[at + 1], ids[at + 2]])
        );
        assert_eq!(index.exact(class, &members[1..]), None);
        at += 3;
    }
}

/// The helpers of the erasure code, and the named errors of a pack.
#[test]
fn small_parts_do_what_they_say() {
    let mut v = vec![1, 0, 2, 0, 0];
    rs::trim(&mut v);
    assert_eq!(v, vec![1, 0, 2]);
    assert_eq!(rs::byte_at(&v, 2), 2);
    assert_eq!(rs::byte_at(&v, 3), 0);
    assert_eq!(rs::mul_pub(2, 0x80), 0x1d);
    assert_eq!(rs::div_pub(0x1d, 2), 0x80);
    let many: Vec<(u8, Vec<u8>)> = (0..70_000u32)
        .map(|i| (kind::RAW, i.to_le_bytes().to_vec()))
        .collect();
    assert_eq!(
        pack::build(&many),
        Err(pack::BuildError::TooManyMembers(70_000))
    );
    let body = pack::build(&[(kind::RAW, vec![1, 2, 3])]).unwrap();
    assert_eq!(
        body,
        [&b"PK01\x01\x00\x00\x03\x00\x00\x00"[..], &[1, 2, 3]].concat()
    );
    assert_eq!(
        pack::members(&body[..body.len() - 1]).map(|m| m.len()),
        Err(pack::PackError::Truncated { member: 0 })
    );
}

/// The range of a prefix holds exactly the keys that start with it.
#[test]
fn a_prefix_range_holds_its_keys() {
    let keys: [&[u8]; 12] = [
        b"",
        b"a",
        b"ab",
        b"ab\x00",
        b"ab\xff\xff",
        b"ac",
        b"b",
        b"a\xff",
        b"a\xff\x00",
        b"\xff",
        b"\xff\xff",
        b"\xff\xff\x01",
    ];
    for p in [&b""[..], b"a", b"ab", b"a\xff", b"\xff", b"\xff\xff"] {
        let r = Range::prefix(p);
        for k in keys {
            assert_eq!(
                above_lo(k, &r.lo) && below_hi(k, &r.hi),
                k.starts_with(p),
                "prefix {p:?}, key {k:?}"
            );
        }
    }
    assert_eq!(Range::prefix(b"a\xff").hi, Bound::Excluded(b"b".to_vec()));
    assert_eq!(Range::prefix(b"\xff").hi, Bound::Unbounded);
}
