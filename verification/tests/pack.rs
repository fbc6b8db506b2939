//! Packs: the format, the policy, and what refusing costs.

use freenet_prolly::seqs::Bytes;
use freenet_prolly::kind;
use freenet_prolly::pack::{build, check, check_counted, members, well_formed, BuildError, PackError, Policy, HEADER, MAGIC, MAX_PACK, MIN_MEMBER};

/// A policy standing in for the Block contract's: `RAW` and `TREE_NODE`
/// ride, a body is capped, and a body is "well formed" when it does not
/// start with the refusal byte. The last one is a stand-in on purpose —
/// what makes a TREE_NODE valid is the contract's, and a test here that
/// encoded it would be this module deciding it after all.
struct Contractish {
    max: usize,
    refuse: bool,
}

impl Default for Contractish {
    fn default() -> Self {
        Contractish {
            max: 256 * 1024 + 64,
            refuse: true,
        }
    }
}

impl Policy for Contractish {
    fn spec_packable(&self, _kind: u8) -> bool {
        unreachable!()
    }
    fn spec_max_body(&self, _kind: u8) -> usize {
        unreachable!()
    }
    fn spec_well_formed(&self, _kind: u8, _body: Bytes) -> bool {
        unreachable!()
    }
    fn packable(&self, kind: u8) -> bool {
        kind == kind::RAW || kind == kind::TREE_NODE
    }
    fn max_body(&self, _kind: u8) -> usize {
        self.max
    }
    fn well_formed(&self, _kind: u8, body: &[u8]) -> bool {
        !(self.refuse && body.first() == Some(&0xBA))
    }
}

fn member(seed: u8, len: usize) -> (u8, Vec<u8>) {
    (
        kind::RAW,
        (0..len)
            .map(|i| (i as u8).wrapping_mul(31).wrapping_add(seed))
            .collect(),
    )
}

fn pack_of(n: u8) -> Vec<u8> {
    let members: Vec<_> = (0..n).map(|i| member(i, 1 + i as usize * 3)).collect();
    build(&members).expect("builds")
}

// ---- the format ------------------------------------------------------

#[test]
fn a_built_pack_is_accepted_by_the_walk_that_refuses_things() {
    // The control for every refusal below: they must fail for their own
    // reason and not because `check` refuses everything.
    for n in 1..=8u8 {
        let body = pack_of(n);
        assert_eq!(check(&body, &Contractish::default()), Ok(()), "n={n}");
        assert_eq!(members(&body).map(|m| m.len()), Ok(n as usize));
    }
}

#[test]
fn a_pack_is_a_set_so_the_same_block_twice_is_one_member() {
    let a = member(1, 10);
    let body = build(&[a.clone(), a.clone(), a]).expect("builds");
    assert_eq!(members(&body).map(|m| m.len()), Ok(1));
}

#[test]
fn the_order_is_by_block_id_so_two_writers_agree() {
    let ms = vec![member(3, 40), member(1, 9), member(2, 77)];
    let mut reversed = ms.clone();
    reversed.reverse();
    assert_eq!(build(&ms), build(&reversed));
}

#[test]
fn a_pack_of_nothing_is_not_a_pack() {
    assert_eq!(build(&[]), Err(BuildError::Empty));
    let mut empty = Vec::from(&MAGIC[..]);
    empty.extend_from_slice(&0u16.to_le_bytes());
    assert_eq!(
        check(&empty, &Contractish::default()),
        Err(PackError::Empty)
    );
}

#[test]
fn trailing_bytes_are_a_second_encoding_of_the_same_set() {
    let mut body = pack_of(2);
    body.push(0);
    assert_eq!(
        check(&body, &Contractish::default()),
        Err(PackError::TrailingBytes { left: 1 })
    );
}

#[test]
fn members_out_of_order_are_refused() {
    // Built, then the two members swapped by hand: the bytes are otherwise
    // a pack, so only the order can be what refuses this.
    let ms = vec![member(1, 4), member(2, 4)];
    let body = build(&ms).expect("builds");
    let cut = HEADER + MIN_MEMBER + 4;
    let mut swapped = Vec::from(&body[..HEADER]);
    swapped.extend_from_slice(&body[cut..]);
    swapped.extend_from_slice(&body[HEADER..cut]);
    assert_eq!(swapped.len(), body.len());
    assert_eq!(
        check(&swapped, &Contractish::default()),
        Err(PackError::OutOfOrder { member: 1 })
    );
    // ... and the same bytes in the order build chose are fine, so the
    // swap is what this test measured.
    assert_eq!(check(&body, &Contractish::default()), Ok(()));
}

/// `build` de-duplicates, so the only way to reach this is by hand — and
/// "strictly ascending" is two rules, not one: no duplicates AND no
/// descent. A walk that only refused descent would accept two copies of
/// one block, which is a second encoding of the same set.
#[test]
fn the_same_member_twice_is_refused() {
    let (k, b) = member(4, 6);
    let mut body = Vec::from(&MAGIC[..]);
    body.extend_from_slice(&2u16.to_le_bytes());
    for _ in 0..2 {
        body.push(k);
        body.extend_from_slice(&(b.len() as u32).to_le_bytes());
        body.extend_from_slice(&b);
    }
    assert_eq!(
        check(&body, &Contractish::default()),
        Err(PackError::OutOfOrder { member: 1 })
    );
    // The control: one copy of the same member is a pack, so the refusal
    // above is the repetition and not these bytes.
    let one = build(&[(k, b)]).expect("builds");
    assert_eq!(check(&one, &Contractish::default()), Ok(()));
}

#[test]
fn a_count_that_cannot_fit_is_refused_from_two_lengths() {
    let mut body = Vec::from(&MAGIC[..]);
    body.extend_from_slice(&u16::MAX.to_le_bytes());
    body.extend_from_slice(&[0u8; 9]);
    assert_eq!(
        check(&body, &Contractish::default()),
        Err(PackError::CountDoesNotFit {
            count: 65535,
            have: 9
        })
    );
}

#[test]
fn a_body_that_is_not_a_pack_is_refused_before_anything_else() {
    assert_eq!(
        check(b"", &Contractish::default()),
        Err(PackError::NotAPack)
    );
    assert_eq!(
        check(b"PK0", &Contractish::default()),
        Err(PackError::NotAPack)
    );
    assert_eq!(
        check(b"XX01\x01\x00", &Contractish::default()),
        Err(PackError::NotAPack)
    );
}

// ---- the policy, each part biting separately -------------------------

#[test]
fn the_policy_refuses_a_kind_it_does_not_want_in_a_pack() {
    let body = build(&[(9, vec![1, 2, 3])]).expect("builds");
    assert_eq!(
        check(&body, &Contractish::default()),
        Err(PackError::KindNotPackable { member: 0, kind: 9 })
    );
    // The control: the FORMAT has no opinion about kinds, so the same
    // bytes walk cleanly without a policy. Without this, the assertion
    // above would also pass if the format itself had refused kind 9.
    assert_eq!(members(&body).map(|m| m.len()), Ok(1));
}

#[test]
fn the_policy_caps_a_member_from_its_length_field() {
    let body = build(&[member(1, 100)]).expect("builds");
    let tight = Contractish {
        max: 99,
        ..Default::default()
    };
    assert_eq!(
        check(&body, &tight),
        Err(PackError::MemberTooLong {
            member: 0,
            len: 100,
            max: 99
        })
    );
    // Exactly at the cap is accepted: a bound that refuses its own limit
    // is a different bound from the one documented.
    let at = Contractish {
        max: 100,
        ..Default::default()
    };
    assert_eq!(check(&body, &at), Ok(()));
}

#[test]
fn the_policy_refuses_a_member_that_is_not_a_block_of_its_kind() {
    let body = build(&[(kind::RAW, vec![0xBA, 1, 2])]).expect("builds");
    assert_eq!(
        check(&body, &Contractish::default()),
        Err(PackError::MemberNotWellFormed {
            member: 0,
            kind: kind::RAW
        })
    );
    // The control: with that rule switched off the same bytes pass, so
    // the refusal above is the body check and not the length or the kind.
    let permissive = Contractish {
        refuse: false,
        ..Default::default()
    };
    assert_eq!(check(&body, &permissive), Ok(()));
}

// ---- what refusing COSTS ---------------------------------------------

#[test]
fn a_hostile_count_is_refused_without_hashing_anything() {
    let mut body = Vec::from(&MAGIC[..]);
    body.extend_from_slice(&u16::MAX.to_le_bytes());
    body.extend_from_slice(&vec![0u8; 1024]);
    let (got, ids, bodies) = check_counted(&body, &Contractish::default());
    assert!(got.is_err());
    assert_eq!(ids, 0, "a declared count bought hashing");
    assert_eq!(bodies, 0);
}

#[test]
fn an_unpackable_kind_is_refused_without_hashing_however_big_the_pack() {
    // One honest member, then a megabyte under a kind the policy refuses.
    // The honest one is hashed; the hostile one must cost nothing.
    let big = vec![7u8; 900 * 1024];
    let body = build(&[member(1, 8), (9, big)]).expect("builds");
    let (got, ids, _) = check_counted(&body, &Contractish::default());
    assert!(matches!(got, Err(PackError::KindNotPackable { .. })));
    assert!(ids <= 1, "{ids} ids hashed to refuse a kind byte");
    // The control: the same pack under a policy that accepts kind 9 pays
    // for both, so the number above is the refusal saving work and not the
    // counter being broken.
    struct Wide;
    impl Policy for Wide {
        fn spec_packable(&self, _kind: u8) -> bool {
            unreachable!()
        }
        fn spec_max_body(&self, _kind: u8) -> usize {
            unreachable!()
        }
        fn spec_well_formed(&self, _kind: u8, _body: Bytes) -> bool {
            unreachable!()
        }
        fn packable(&self, _k: u8) -> bool {
            true
        }
        fn max_body(&self, _k: u8) -> usize {
            MAX_PACK
        }
        fn well_formed(&self, _k: u8, _b: &[u8]) -> bool {
            true
        }
    }
    let (got, ids, bodies) = check_counted(&body, &Wide);
    assert_eq!(got, Ok(()));
    assert_eq!(ids, 2);
    assert_eq!(bodies, 2);
}

#[test]
fn an_over_long_member_is_refused_from_the_length_field_alone() {
    let body = build(&[(kind::RAW, vec![3u8; 600 * 1024])]).expect("builds");
    let (got, ids, bodies) = check_counted(&body, &Contractish::default());
    assert!(matches!(got, Err(PackError::MemberTooLong { .. })));
    assert_eq!(ids, 0, "a length field bought a hash");
    assert_eq!(bodies, 0);
}

// ---- the two doors agree ---------------------------------------------

#[test]
fn what_the_format_accepts_and_what_it_yields_are_the_same_walk() {
    struct Wide;
    impl Policy for Wide {
        fn spec_packable(&self, _kind: u8) -> bool {
            unreachable!()
        }
        fn spec_max_body(&self, _kind: u8) -> usize {
            unreachable!()
        }
        fn spec_well_formed(&self, _kind: u8, _body: Bytes) -> bool {
            unreachable!()
        }
        fn packable(&self, _k: u8) -> bool {
            true
        }
        fn max_body(&self, _k: u8) -> usize {
            MAX_PACK
        }
        fn well_formed(&self, _k: u8, _b: &[u8]) -> bool {
            true
        }
    }
    // Every prefix of a real pack, plus the pack itself: `check` under the
    // format-only policy and `members` must agree on every one of them,
    // whether they accept or refuse.
    let body = pack_of(6);
    for cut in 0..=body.len() {
        let slice = &body[..cut];
        assert_eq!(
            check(slice, &Wide).is_ok(),
            members(slice).is_ok(),
            "the two doors disagree at {cut} bytes"
        );
    }
    // And it is not vacuous: some prefixes are accepted and some are not.
    assert!(members(&body).is_ok());
    assert!(members(&body[..body.len() - 1]).is_err());
}

// ---- nothing panics ---------------------------------------------------

#[test]
fn no_input_panics() {
    let good = pack_of(5);
    let mut inputs: Vec<Vec<u8>> = vec![
        Vec::new(),
        b"P".to_vec(),
        b"PK01".to_vec(),
        b"PK01\xff\xff".to_vec(),
        vec![0u8; HEADER + MIN_MEMBER],
        vec![0xff; 1024],
    ];
    // Every prefix, and every single-byte corruption at a few offsets: a
    // parser is handed bytes by strangers, and "it did not panic on the
    // inputs I thought of" is not the claim being made here.
    for cut in 0..=good.len() {
        inputs.push(good[..cut].to_vec());
    }
    for at in 0..good.len().min(64) {
        let mut bad = good.clone();
        bad[at] ^= 0xff;
        inputs.push(bad);
    }
    for i in &inputs {
        let _ = check(i, &Contractish::default());
        let _ = members(i);
        let _ = well_formed(i, &Contractish::default());
    }
}

// ---- build's own bounds ----------------------------------------------

#[test]
fn build_refuses_a_body_it_could_not_express() {
    // Over MAX_PACK: the caller learns from its own input rather than from
    // a host refusing the commit later.
    let big = vec![0u8; MAX_PACK];
    assert!(matches!(
        build(&[(kind::RAW, big)]),
        Err(BuildError::TooLarge(_))
    ));
}

#[test]
fn build_and_the_walk_agree_about_max_pack() {
    // One byte under the ceiling, with the header and member overhead
    // accounted for, builds and walks; the size boundary is a place two readers of
    // one format drift.
    let body_len = MAX_PACK - HEADER - MIN_MEMBER;
    let body = build(&[(kind::RAW, vec![1u8; body_len])]).expect("builds at the ceiling");
    assert_eq!(body.len(), MAX_PACK);
    struct Huge;
    impl Policy for Huge {
        fn spec_packable(&self, _kind: u8) -> bool {
            unreachable!()
        }
        fn spec_max_body(&self, _kind: u8) -> usize {
            unreachable!()
        }
        fn spec_well_formed(&self, _kind: u8, _body: Bytes) -> bool {
            unreachable!()
        }
        fn packable(&self, _k: u8) -> bool {
            true
        }
        fn max_body(&self, _k: u8) -> usize {
            MAX_PACK
        }
        fn well_formed(&self, _k: u8, _b: &[u8]) -> bool {
            true
        }
    }
    assert_eq!(check(&body, &Huge), Ok(()));
}
