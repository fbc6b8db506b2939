//! Packs of named members: the bytes they make and the members they give back.

use freenet_prolly::{kind, pack};

/// A member whose bytes are a function of its seed and length.
fn member(kind: u8, seed: u8, len: usize) -> (u8, Vec<u8>) {
    (
        kind,
        (0..len)
            .map(|i| (i as u8).wrapping_mul(31).wrapping_add(seed))
            .collect(),
    )
}

/// A named set of members: what one vector covers.
type Case = (&'static str, Vec<(u8, Vec<u8>)>);

/// The cases, in order.
fn cases() -> Vec<Case> {
    let raw = kind::RAW;
    vec![
        // A member may be empty: the length field is what says so, and a
        // zero-length body is still a block with an id.
        ("one-empty", vec![member(raw, 0, 0)]),
        ("one-small", vec![member(raw, 7, 13)]),
        // Offered out of order: build sorts by block id, so the bytes say
        // nothing about the order they arrived in.
        (
            "three-unordered",
            vec![member(raw, 3, 40), member(raw, 1, 9), member(raw, 2, 77)],
        ),
        // The same block twice is one member: a pack is a SET.
        (
            "duplicates",
            vec![member(raw, 5, 20), member(raw, 5, 20), member(raw, 6, 4)],
        ),
        (
            "many",
            (0..12u8)
                .map(|i| member(raw, i, 1 + i as usize * 3))
                .collect(),
        ),
    ]
}

fn hex(b: &[u8]) -> String {
    b.iter().map(|x| format!("{x:02x}")).collect()
}

#[test]
fn emit() {
    for (name, members) in cases() {
        let body = pack::build(&members).expect("every case builds");
        println!("VEC {name} {}", hex(&body));
    }
}

/// Every pack is accepted back, and its members are the set that went in.
#[test]
fn every_vector_parses_back_to_the_members_it_was_built_from() {
    for (name, members) in cases() {
        let body = pack::build(&members).expect("builds");
        let got = pack::members(&body).unwrap_or_else(|e| panic!("case {name}: {e:?}"));
        // De-duplicated by id, so the count is the distinct members, not the
        // ones offered.
        let mut want: Vec<_> = members
            .iter()
            .map(|(k, b)| freenet_prolly::block_id(*k, b))
            .collect();
        want.sort();
        want.dedup();
        assert_eq!(
            got.iter().map(|m| m.id).collect::<Vec<_>>(),
            want,
            "case {name}: the members that come back are not the set that went in"
        );
        // And the bytes round-trip: rebuilding from what came out gives the
        // same body.
        let again = pack::build(
            &got.iter()
                .map(|m| (m.kind, m.body.to_vec()))
                .collect::<Vec<_>>(),
        )
        .expect("rebuilds");
        assert_eq!(again, body, "case {name}: the body is not a fixed point");
    }
}
