//! The erasure code: the field, the rows, and what can be rebuilt.

use freenet_prolly::gf::Tables;
use freenet_prolly::rs::{coeff, div_pub, encode, mul_pub, repair, repair_counted, trim, x_of, RsError, MAX_K, MAX_M};

/// Multiplication in the field.
fn mul(a: u8, b: u8) -> u8 {
    mul_pub(a, b)
}

/// Division in the field.
fn div(a: u8, b: u8) -> u8 {
    div_pub(a, b)
}

/// The symbols that are not lost.
fn present(all: &[Vec<u8>], kept: impl Fn(usize) -> bool) -> Vec<Option<Vec<u8>>> {
    (0..all.len())
        .map(|j| if kept(j) { Some(all[j].clone()) } else { None })
        .collect()
}


/// The field is a field: the tables are inverses of each other, and every
/// non-zero element has a multiplicative inverse. Built from the polynomial
/// rather than pasted, so this is what says the polynomial is right.
#[test]
fn the_field_tables_are_consistent() {
    let t = Tables::new();
    for x in 1..=255u8 {
        assert_eq!(
            t.exp(t.log(x) as usize), x,
            "log/exp disagree at {x}"
        );
        assert_eq!(mul(x, div(1, x)), 1, "{x} has no inverse");
    }
    assert_eq!(mul(0, 7), 0);
    assert_eq!(mul(7, 0), 0);
    // 0x11D is what makes 2 a generator: the powers of 2 must visit every
    // non-zero element exactly once before returning to 1.
    let mut seen = [false; 256];
    let mut x = 1u8;
    for _ in 0..255 {
        assert!(
            !seen[x as usize],
            "2 is not a generator under this polynomial"
        );
        seen[x as usize] = true;
        x = mul(x, 2);
    }
    assert_eq!(x, 1);
}

/// Systematic: the data symbols are not touched, only `m` are added. And
/// the code is a pure function of its input, at every group size and `m`.
#[test]
fn encoding_is_deterministic_at_every_group_size() {
    for m in 1..=MAX_M {
        for k in 1..=MAX_K {
            // Non-zero: an all-zero data symbol codes to all-zero parity,
            // which is correct and makes the distinctness check below vacuous.
            let data: Vec<Vec<u8>> = (0..k).map(|i| sym(&[i as u8 + 1; 16])).collect();
            let a = encode(&data, m).expect("a codeable group");
            let b = encode(&data, m).expect("a codeable group");
            assert_eq!(a, b, "k = {k}, m = {m}: not deterministic");
            assert_eq!(a.len(), m);
            // Trimmed, so a parity block is at most the longest symbol and may
            // be shorter — never a fixed width.
            assert!(a.iter().all(|p| p.len() <= 20));
            // k = 1 is the degenerate case worth naming: DIFFERENT scalar
            // multiples of one symbol, not copies of it.
            if k == 1 {
                for r in 1..m {
                    assert_ne!(
                        a[r - 1],
                        a[r],
                        "k = 1, m = {m}: parity rows {} and {r} equal",
                        r - 1
                    );
                }
            }
        }
    }
}

/// A symbol as the format defines it: a length prefix, then that many
/// bytes. `repair` reads the prefix to know where a rebuilt block ends, so
/// a fixture of raw padded vectors would be testing a shape the format
/// never produces.
fn sym(payload: &[u8]) -> Vec<u8> {
    let mut v = (payload.len() as u32).to_le_bytes().to_vec();
    v.extend_from_slice(payload);
    v
}

/// A deterministic RAGGED group: member i is a length-prefixed payload of
/// (5 + 7i) mod 61 + 1 bytes, LCG-filled. The fixture the frozen vectors hash.
fn fixture(k: usize) -> Vec<Vec<u8>> {
    let mut s: u32 = 0x1234_5678;
    (0..k)
        .map(|i| {
            let n = (5 + 7 * i) % 61 + 1;
            let mut v = (n as u32).to_le_bytes().to_vec();
            for _ in 0..n {
                s = s.wrapping_mul(1_103_515_245).wrapping_add(12_345);
                v.push((s >> 16) as u8);
            }
            v
        })
        .collect()
}

fn digests(rows: &[Vec<u8>]) -> Vec<String> {
    rows.iter()
        .map(|r| blake3::hash(r).to_hex()[..16].to_string())
        .collect()
}

/// The three rows of the three-row code, k = 1..=12. Rows 0-2 of every tree ever
/// written are these bytes; if a row moves, every parity block stops validating.
/// `m = 8` must give the same first three rows too.
const M3_ROWS: [[&str; 3]; 12] = [
    ["c3833a016daaf230", "042116bd34406c36", "7a728b14f64a56ed"],
    ["6b593b07b9161e44", "bf4218b88a1fb4d9", "fcaaa7c50a7d2104"],
    ["3b7e54b395fb6af0", "fa5f6b8dc6eb36f2", "102746ebfcf9cdd1"],
    ["6a80e45b830b1476", "8ec88dab2467127c", "b1a252d3039233f8"],
    ["86d12c7abcc608d1", "4ae4459df8d5fc2f", "84019914ee3b2d45"],
    ["01e1a51ad552ab75", "70f3a26273c3a8a9", "573cf2039c53d896"],
    ["1d0bcd95a8c0800d", "1dfa230f790d6fc6", "c5278c0d6e84e5b9"],
    ["668c8fc211c5edd0", "e130f7873793b949", "69b962a4faf3386b"],
    ["62161483c08c5c06", "efe57ab79229f240", "ffa3caf80d9fb1f1"],
    ["485c95dc6d2a6cd2", "a30fe73469b64bf9", "7332f8e00c204151"],
    ["5ee68021e8031810", "311b34c72fe38a12", "d20811919e17a52a"],
    ["bbec068ca8b4bed7", "35b643f5fc5e0c1c", "34afe3c9d3cc2be7"],
];

#[test]
fn rows_0_to_2_are_byte_identical_to_the_three_row_code() {
    for k in 1..=12 {
        let want: Vec<String> = M3_ROWS[k - 1].iter().map(|s| s.to_string()).collect();
        assert_eq!(
            digests(&encode(&fixture(k), 3).unwrap()),
            want,
            "k = {k}, m = 3"
        );
        for m in 3..=MAX_M {
            assert_eq!(
                digests(&encode(&fixture(k), m).unwrap()[..3]),
                want,
                "k = {k}, m = {m}: rows 0-2 moved"
            );
        }
    }
    // Past the three-row code's k (12), a larger m still starts with the m = 3 rows.
    for k in 13..=MAX_K {
        let three = encode(&fixture(k), 3).unwrap();
        assert_eq!(
            &encode(&fixture(k), MAX_M).unwrap()[..3],
            &three[..],
            "k = {k}"
        );
    }
}

/// The rows a larger code adds (x = 255..251), at the group sizes
/// that matter: 1, the tree's 12, the SDK load pieces' ~21 and the most, 36.
const M8_ROWS: [(usize, [&str; 8]); 4] = [
    (
        1,
        [
            "c3833a016daaf230",
            "042116bd34406c36",
            "7a728b14f64a56ed",
            "cf14335ab272a022",
            "5e689115757fa9a5",
            "085548bd87c0ac73",
            "57722fd54b1f468d",
            "2495c5fe498e17b6",
        ],
    ),
    (
        12,
        [
            "bbec068ca8b4bed7",
            "35b643f5fc5e0c1c",
            "34afe3c9d3cc2be7",
            "4fddd45c91d08f6d",
            "9520d12b67e3050c",
            "123bdc1f1d2e5197",
            "6765b512b721a52a",
            "1c17c6118965d7e8",
        ],
    ),
    (
        21,
        [
            "bc5ad567c307646b",
            "d8601c58e7572896",
            "638454b8082a043e",
            "f70876df5054655e",
            "b1107f81fab33d42",
            "c48d12a843633b27",
            "7734f52f39d5b530",
            "acb12358e9025c7d",
        ],
    ),
    (
        36,
        [
            "a936e42e9948a536",
            "106d7007a1af3279",
            "d9fbd52bba0a0dee",
            "0befbf03fa8a9ae2",
            "391cc2308eefd782",
            "f8d4f3baecc2f8ab",
            "9639de87e3f5170e",
            "1d373d6339333c7c",
        ],
    ),
];

#[test]
fn the_m8_rows_are_frozen() {
    let mut wrong = Vec::new();
    for (k, want) in M8_ROWS {
        let got = digests(&encode(&fixture(k), MAX_M).unwrap());
        if got != want.iter().map(|s| s.to_string()).collect::<Vec<_>>() {
            wrong.push(format!("k = {k}: {got:?}"));
        }
    }
    assert!(
        wrong.is_empty(),
        "the m = 8 rows moved:\n{}",
        wrong.join("\n")
    );
}

/// WHERE the added rows are, spelled out: x = 255, 254, 253, 252, 251. A
/// codec that put them right after the data columns (x = 39..) would pass
/// every round trip today and pin a row that MAX_K could not grow past.
#[test]
fn the_added_rows_sit_at_the_top_of_the_field() {
    assert_eq!(
        (0..MAX_M).map(x_of).collect::<Vec<u8>>(),
        vec![0, 1, 2, 255, 254, 253, 252, 251]
    );
    // And the coefficient is that x's: C[3][0] = 1 / (255 ⊕ 3).
    assert_eq!(coeff(3, 0), div(1, 255 ^ 3));
    assert_eq!(coeff(7, MAX_K - 1), div(1, 251 ^ (3 + MAX_K as u8 - 1)));
}

/// Any three losses, at every group size, with symbols of UNEQUAL length —
/// which is the case trimming exists for. m = 3, exhaustively.
#[test]
fn any_three_losses_are_repairable_at_every_group_size() {
    for k in 1..=MAX_K {
        let data = fixture(k);
        let parity = encode(&data, 3).expect("a codeable group");
        let all: Vec<Vec<u8>> = data.iter().chain(parity.iter()).cloned().collect();
        let n = k + 3;
        for a in 0..n {
            for b in a + 1..n {
                for c in b + 1..n {
                    let have: Vec<Option<Vec<u8>>> = present(&all, |j| j != a && j != b && j != c);
                    let got = repair(k, 3, &have, usize::MAX).expect("k of k+3 present");
                    assert_eq!(got, data, "k = {k}: lost {a},{b},{c}");
                }
            }
        }
    }
}

/// Any m losses for every m ≤ 8 and every k ≤ 36: all the extreme patterns
/// (the first m, the last m, every data symbol when k ≤ m, every parity
/// symbol) and 40 seeded random ones per (k, m).
#[test]
fn any_m_losses_are_repairable_for_every_m() {
    let mut s: u64 = 0x9E37_79B9_7F4A_7C15;
    let mut rnd = |n: usize| {
        s ^= s << 13;
        s ^= s >> 7;
        s ^= s << 17;
        (s % n as u64) as usize
    };
    let mut cases = 0usize;
    for m in 1..=MAX_M {
        for k in 1..=MAX_K {
            let data = fixture(k);
            let parity = encode(&data, m).expect("a codeable group");
            let all: Vec<Vec<u8>> = data.iter().chain(parity.iter()).cloned().collect();
            let n = k + m;
            let mut patterns: Vec<Vec<usize>> =
                vec![(0..m).collect(), (n - m..n).collect(), (k..n).collect()];
            if k <= m {
                patterns.push((0..k).collect());
            }
            for _ in 0..40 {
                let mut lost: Vec<usize> = Vec::new();
                while lost.len() < m {
                    let j = rnd(n);
                    if !lost.contains(&j) {
                        lost.push(j);
                    }
                }
                patterns.push(lost);
            }
            for lost in patterns {
                let have: Vec<Option<Vec<u8>>> = present(&all, |j| !lost.contains(&j));
                let got = repair(k, m, &have, usize::MAX).expect("k of k+m present");
                assert_eq!(got, data, "k = {k}, m = {m}: lost {lost:?}");
                cases += 1;
            }
        }
    }
    println!("  {cases} erasure patterns repaired (m = 1..=8, k = 1..=36)");
    assert!(
        cases > 8 * 36 * 40,
        "the sweep ran fewer cases than it names"
    );
}

/// Fewer than k blocks cannot be repaired, and says so rather than
/// returning something plausible; m out of range is refused by name.
#[test]
fn too_few_blocks_is_refused() {
    let k = 8;
    let data: Vec<Vec<u8>> = (0..k).map(|i| sym(&[i as u8 + 1; 8])).collect();
    let parity = encode(&data, 3).unwrap();
    let all: Vec<Vec<u8>> = data.iter().chain(parity.iter()).cloned().collect();
    // Four losses out of k + 3 = 11 leaves 7 < 8.
    let have: Vec<Option<Vec<u8>>> = present(&all, |j| j >= 4);
    assert_eq!(
        repair(k, 3, &have, usize::MAX),
        Err(RsError::NotEnough(k - 1))
    );
    // m + 1 losses at m = 8.
    let p8 = encode(&fixture(20), 8).unwrap();
    let all8: Vec<Vec<u8>> = fixture(20).into_iter().chain(p8).collect();
    let have8: Vec<Option<Vec<u8>>> =
        present(&all8, |j| j >= 9);
    assert_eq!(
        repair(20, 8, &have8, usize::MAX),
        Err(RsError::NotEnough(19))
    );
    assert_eq!(encode(&[], 3), Err(RsError::GroupSize(0)));
    assert!(matches!(
        encode(&vec![vec![0u8; 4]; MAX_K + 1], 3),
        Err(RsError::GroupSize(_))
    ));
    assert_eq!(encode(&fixture(4), 0), Err(RsError::ParityCount(0)));
    assert_eq!(
        encode(&fixture(4), MAX_M + 1),
        Err(RsError::ParityCount(MAX_M + 1))
    );
    assert_eq!(repair(4, 0, &[], usize::MAX), Err(RsError::ParityCount(0)));
    assert_eq!(
        repair(4, 3, &vec![None; 8], usize::MAX),
        Err(RsError::Ragged),
        "k + m slots, not k + 3 by habit"
    );
    // Ragged input is NOT an error: a symbol is zero past its end, which is
    // exactly what makes trimming lossless.
    assert!(encode(&[sym(&[1u8; 4]), sym(&[2u8; 5])], 3).is_ok());
}

/// The Cauchy coefficients, spelled out for every row and column. If the
/// construction or the index sets ever move, this fails before any vector
/// does and says which cell changed.
#[test]
fn the_cauchy_coefficients_are_what_the_rule_says() {
    let xs = [0u8, 1, 2, 255, 254, 253, 252, 251];
    for (r, &x) in xs.iter().enumerate() {
        for c in 0..MAX_K {
            let y = 3 + c as u8;
            assert_ne!(x, y, "x_{r} = y_{c}: a zero denominator");
            assert_eq!(coeff(r, c), div(1, x ^ y), "C[{r}][{c}]");
            assert_ne!(coeff(r, c), 0, "C[{r}][{c}] must be invertible");
        }
    }
}
