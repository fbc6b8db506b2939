//! A child at the top level.
//!
//! A level is a byte of a stranger's block, and every place that asks "is this child one
//! level below its parent?" gives the same refusal at the top of the range.

use freenet_prolly::aggregate::{aggregate_verified, fraud};
use freenet_prolly::node::{Agg, Node, NodeBuilder, Value};
use freenet_prolly::proofs::{prove, verify_bytes, verify_range_bytes, Proof};
use freenet_prolly::range::{range, Range, RangeError};
use freenet_prolly::store::{MemBlocks, ReadError};
use freenet_prolly::{block_id, kind, read, Cid};

fn id(b: &[u8]) -> Cid {
    block_id(kind::TREE_NODE, b)
}

/// A branch at `level` holding one child, `a` → an arbitrary id.
fn lone_branch(level: u8) -> Vec<u8> {
    let mut n = NodeBuilder::branch(level);
    n.push_child(b"a", [7u8; 32], Agg { count: 1, bytes: 1 })
        .unwrap();
    n.finish().unwrap()
}

/// `parent` (level `p`) naming `child` (level `c`) truthfully in every other
/// respect: its real hash, its first key, its aggregate. Only the level can be
/// wrong.
fn pair(p: u8, c: u8) -> (Vec<u8>, Vec<u8>) {
    let child = if c == 0 {
        let mut n = NodeBuilder::leaf();
        n.push(b"a", Value::Inline(b"1")).unwrap();
        n.finish().unwrap()
    } else {
        lone_branch(c)
    };
    let mut n = NodeBuilder::branch(p);
    n.push_child(b"a", id(&child), Node::parse(&child).unwrap().agg())
        .unwrap();
    (n.finish().unwrap(), child)
}

/// What every entry point says about one parent/child pair .
fn answers(parent: &[u8], child: &[u8]) -> Vec<(&'static str, String)> {
    let root = id(parent);
    let mut b = MemBlocks::default();
    b.insert(root, parent);
    b.insert(id(child), child);
    let all = Range::default();
    let path = Proof {
        nodes: vec![parent.to_vec(), child.to_vec()],
        value: None,
    }
    .encode();
    let run = |f: &dyn Fn() -> String| f();
    let is_mismatch = |e: &ReadError| matches!(e, ReadError::Mismatch(_));
    vec![
        (
            "read::get",
            run(&|| {
                format!(
                    "{:?}",
                    read::get(&b, &root, b"a")
                        .map_err(|e| is_mismatch(&e))
                        .map(|v| v.is_some())
                )
            }),
        ),
        ("fraud", run(&|| format!("{}", fraud(parent, child)))),
        (
            "range::range",
            run(&|| {
                format!(
                    "{:?}",
                    range(&b, &root, &all)
                        .map(|p| p.entries.len())
                        .map_err(|e| matches!(e, RangeError::Read(ReadError::Mismatch(_))))
                )
            }),
        ),
        (
            "aggregate_verified",
            run(&|| format!("{}", aggregate_verified(&b, &root, &all).is_err())),
        ),
        (
            "prove",
            run(&|| {
                format!(
                    "{:?}",
                    prove(&b, &root, b"a")
                        .map(|_| ())
                        .map_err(|e| is_mismatch(&e))
                )
            }),
        ),
        (
            "verify_bytes",
            run(&|| format!("{}", verify_bytes(&root, b"a", &path).is_err())),
        ),
        (
            "verify_range_bytes",
            run(&|| format!("{}", verify_range_bytes(&root, &all, &path).is_err())),
        ),
    ]
}

/// The expected answer at every door: a refusal —
/// `Mismatch` where a read reports one, `true` from `fraud` (the pair IS a
/// proof: the parent names a block that contradicts it).
#[test]
fn a_level_255_child_is_refused_at_every_entry_point_without_panicking() {
    let (parent, child) = pair(1, 255);
    let want = [
        ("read::get", "Err(true)"),
        ("fraud", "true"),
        ("range::range", "Err(true)"),
        ("aggregate_verified", "true"),
        ("prove", "Err(true)"),
        ("verify_bytes", "true"),
        ("verify_range_bytes", "true"),
    ];
    let got = answers(&parent, &child);
    assert_eq!(
        got.len(),
        want.len(),
        "an entry point was dropped from the list"
    );
    // Every door is tried before any is asserted, so a failure lists all of them.
    let mut wrong = Vec::new();
    for ((door, ans), (name, want)) in got.iter().zip(want) {
        assert_eq!(*door, name);
        if ans != want {
            wrong.push(format!("{door} answered {ans}, want {want}"));
        }
    }
    assert!(
        wrong.is_empty(),
        "on a level-255 child — a stranger's block is a trap:\n  {}",
        wrong.join("\n  ")
    );
}

/// And the mirror, 255 under 255 — `255 + 1` wrapped is 0, not 255, so it is refused
/// for what it is.
#[test]
fn every_other_wrong_level_is_refused_too() {
    for (p, c) in [(1u8, 255u8), (255, 255), (255, 253), (2, 0), (1, 1), (3, 1)] {
        let (parent, child) = pair(p, c);
        assert!(
            fraud(&parent, &child),
            "fraud accepted a level-{c} child under a level-{p} parent"
        );
    }
}

/// CONTROL: adjacent levels — including the top of the range, 254 under 255 —
/// are ACCEPTED, so the refusals above are about the level and not about the
/// fixture.
#[test]
fn adjacent_levels_are_accepted_up_to_the_top() {
    for (p, c) in [(1u8, 0u8), (2, 1), (255, 254)] {
        let (parent, child) = pair(p, c);
        assert!(
            !fraud(&parent, &child),
            "fraud refuted an honest level-{c}-under-{p} pair"
        );
    }
    // Through a READ, where the child can actually be reached: a leaf under 1.
    let (parent, child) = pair(1, 0);
    for (door, got) in answers(&parent, &child) {
        let ok = matches!(
            (door, got.as_str()),
            ("read::get", "Ok(true)")
                | ("fraud", "false")
                | ("range::range", "Ok(1)")
                | ("aggregate_verified", "false")
                | ("prove", "Ok(())")
                | ("verify_bytes", "false")
                | ("verify_range_bytes", "false")
        );
        assert!(ok, "CONTROL {door}: an honest pair answered {got}");
    }
}
