//! Parity groups: how members are grouped, coded, updated and rebuilt.

use freenet_prolly::node::MAX_VALUE;
use freenet_prolly::parity::{class_of, encode_group, group_sizes, repair_group, symbol, update_group, CLASSES, CLOSE_THRESHOLD_FOR_VECTORS, MAX_GROUP, MAX_MEMBER_VALUE, MIN_GROUP, PARITY};
use freenet_prolly::rs;

const CLOSE_THRESHOLD: u32 = CLOSE_THRESHOLD_FOR_VECTORS;

/// The symbols that are not lost.
fn present(n: usize, all: &[Vec<u8>], kept: impl Fn(usize) -> bool) -> Vec<Option<Vec<u8>>> {
    (0..n)
        .map(|j| if kept(j) { Some(all[j].clone()) } else { None })
        .collect()
}

fn hashes(n: usize, closing: &[usize]) -> Vec<u32> {
    (0..n)
        .map(|i| if closing.contains(&i) { 0 } else { u32::MAX })
        .collect()
}

/// The close rule: never before MIN_GROUP, always by MAX_GROUP.
#[test]
fn a_group_never_closes_early_and_never_runs_past_the_maximum() {
    // A hash that always closes: every group is exactly MIN_GROUP until
    // the tail.
    let all_close: Vec<u32> = vec![0; 30];
    let sizes = group_sizes(&all_close);
    assert!(sizes.iter().all(|&s| (MIN_GROUP..=MAX_GROUP).contains(&s)));
    assert_eq!(sizes.iter().sum::<usize>(), 30);
    assert_eq!(sizes[0], MIN_GROUP, "a group closed before the minimum");

    // A hash that never closes: every group is exactly MAX_GROUP.
    let none: Vec<u32> = vec![u32::MAX; 30];
    let sizes = group_sizes(&none);
    assert_eq!(sizes.iter().sum::<usize>(), 30);
    assert!(sizes[..sizes.len() - 1].iter().all(|&s| s == MAX_GROUP));
}

/// Only the last group can be short, so the fold happens at most once and
/// never cascades. That is what makes the reserve worst case exactly
/// `⌊n / MIN_GROUP⌋ + 1` per run.
#[test]
fn at_most_one_group_is_short_and_the_fold_never_cascades() {
    for n in 1..=60usize {
        for closing in [
            vec![],
            (0..n).step_by(7).collect::<Vec<_>>(),
            (0..n).collect(),
        ] {
            let sizes = group_sizes(&hashes(n, &closing));
            assert_eq!(sizes.iter().sum::<usize>(), n, "n = {n}: members lost");
            assert!(
                sizes.iter().all(|&s| s <= MAX_GROUP),
                "n = {n}: a group over the maximum"
            );
            let short = sizes.iter().filter(|&&s| s < MIN_GROUP).count();
            assert!(short <= 1, "n = {n}: {short} short groups");
            if short == 1 {
                assert!(
                    *sizes.last().expect("non-empty") < MIN_GROUP,
                    "n = {n}: a short group that is not the last"
                );
            }
        }
    }
}

/// The fold: a short tail joins the previous group when it fits, and
/// stands alone when it does not.
#[test]
fn a_short_tail_folds_only_when_it_fits() {
    // 7 then 2: folds to one group of 9.
    let mut h = vec![u32::MAX; 9];
    h[6] = 0;
    assert_eq!(group_sizes(&h), vec![9]);
    // 12 then 2: 14 > MAX_GROUP, so the tail stands alone.
    let mut h = vec![u32::MAX; 14];
    h[11] = 0;
    assert_eq!(group_sizes(&h), vec![12, 2]);
    // A run shorter than MIN_GROUP is one group, with nothing to fold into.
    assert_eq!(group_sizes(&[u32::MAX; 3]), vec![3]);
    assert_eq!(group_sizes(&[]), Vec::<usize>::new());
}

/// Every referenced value falls in exactly one class, and the boundaries
/// are inclusive upper bounds.
#[test]
fn the_size_classes_cover_every_referenced_value() {
    assert_eq!(class_of(1025), 0);
    assert_eq!(class_of(4 * 1024), 0, "the boundary is inclusive");
    assert_eq!(class_of(4 * 1024 + 1), 1);
    assert_eq!(class_of(16 * 1024), 1);
    assert_eq!(class_of(64 * 1024), 2);
    assert_eq!(class_of(64 * 1024 + 1), 3);
    assert_eq!(class_of(MAX_VALUE), 3, "the largest value a Ref can hold");
}

/// A symbol carries its own length, so trimming is lossless: a group round
/// trips through its parity at wildly unequal lengths.
#[test]
fn a_group_round_trips_through_its_parity_at_unequal_lengths() {
    let states: Vec<Vec<u8>> = vec![
        vec![0u8; 1],
        (0..100u8).collect(),
        vec![7u8; 4096],
        vec![9u8; 33],
    ];
    let parity = encode_group(&states).expect("a codeable group");
    let k = states.len();
    let all: Vec<Vec<u8>> = states
        .iter()
        .map(|s| symbol(s))
        .chain(parity.iter().cloned())
        .collect();
    // Lose the three largest data symbols — including the LONGEST, which
    // is the case that makes trimming non-trivial: nothing left says how
    // far the group reaches except the rebuilt length prefixes.
    let have: Vec<Option<Vec<u8>>> = present(k + PARITY, &all, |j| !(1..=3).contains(&j));
    assert_eq!(
        repair_group(k, &have, MAX_MEMBER_VALUE).expect("repairable"),
        states
    );
}

/// The delta update equals coding the group from scratch — in place, and
/// across the length boundary in both directions, which is where a rule
/// that read a parity block's length as the width would break.
#[test]
fn an_incremental_update_equals_coding_the_group_again() {
    let base: Vec<Vec<u8>> = (0..5).map(|i| vec![i as u8 + 1; 40 + i * 7]).collect();
    let old_parity = encode_group(&base).expect("codeable");
    for (what, column, new_state) in [
        ("in place, same length", 2, vec![0xaa; 54]),
        ("grows past the longest", 0, vec![0xbb; 5_000]),
        ("shrinks below every other", 4, vec![0xcc; 1]),
        ("becomes empty", 3, Vec::new()),
    ] {
        let mut want_states = base.clone();
        want_states[column] = new_state.clone();
        let want = encode_group(&want_states).expect("codeable");
        let got =
            update_group(&old_parity, column, &base[column], &new_state).expect("updatable");
        assert_eq!(got, want, "{what}: delta differs from a fresh coding");
    }
}

/// Members that are all empty code to empty parity, and it is legal.
#[test]
fn all_empty_members_give_empty_parity() {
    // An empty STATE still has a non-zero length prefix of zero... which is
    // four zero bytes, so the symbol is entirely zero and so is the parity.
    let states: Vec<Vec<u8>> = vec![Vec::new(); 4];
    let parity = encode_group(&states).expect("codeable");
    assert!(parity.iter().all(|p| p.is_empty()), "empty parity expected");
    // And it repairs: every index reads zero, the prefixes say zero, and
    // the members come back empty.
    let all: Vec<Option<Vec<u8>>> = (0..4 + PARITY).map(|_| Some(Vec::new())).collect();
    assert_eq!(
        repair_group(4, &all, MAX_MEMBER_VALUE).expect("repairable"),
        states
    );
}

fn blocks(states: &[Vec<u8>]) -> (usize, Vec<Vec<u8>>) {
    let parity = encode_group(states).expect("codeable");
    let all: Vec<Vec<u8>> = states
        .iter()
        .map(|s| symbol(s))
        .chain(parity.iter().cloned())
        .collect();
    (states.len(), all)
}

fn lose(k: usize, all: &[Vec<u8>], gone: &[usize]) -> Vec<Option<Vec<u8>>> {
    present(k + PARITY, all, |j| !gone.contains(&j))
}

/// The cases trimming makes non-trivial, each named because each is a
/// different reason the width could be unrecoverable.
#[test]
fn the_cases_that_trimming_makes_hard_all_repair() {
    // 1. The LONGEST member is the one lost: nothing left says how far the
    //    group reaches except the rebuilt length prefix.
    let states: Vec<Vec<u8>> = vec![vec![1u8; 10], vec![2u8; 20], vec![3u8; 500]];
    let (k, all) = blocks(&states);
    assert_eq!(
        repair_group(k, &lose(k, &all, &[2]), MAX_MEMBER_VALUE).unwrap(),
        states
    );

    // 2. BOTH of two equal-longest members lost, which is the case where
    //    the parity tail can cancel while the data is not zero.
    let states: Vec<Vec<u8>> = vec![vec![1u8; 8], vec![5u8; 300], vec![9u8; 300]];
    let (k, all) = blocks(&states);
    assert_eq!(
        repair_group(k, &lose(k, &all, &[1, 2]), MAX_MEMBER_VALUE).unwrap(),
        states
    );

    // 3. A member whose parity tail CANCELLED: two equal-longest members
    //    chosen so the trimmed parity stops short of the data. Constructed,
    //    not hoped for — the assertion below is what says it happened.
    let a = vec![0xa5u8; 64];
    let scale = rs::mul_pub(rs::coeff(0, 1), rs::div_pub(1, rs::coeff(0, 2)));
    let b: Vec<u8> = a.iter().map(|&x| rs::mul_pub(x, scale)).collect();
    let states = vec![vec![7u8; 4], a.clone(), b];
    let (k, all) = blocks(&states);
    let parity = &all[k];
    assert!(
        parity.len() < 4 + states[1].len(),
        "the fixture must really cancel: parity is {} and the data reaches {}",
        parity.len(),
        4 + states[1].len()
    );
    assert_eq!(
        repair_group(k, &lose(k, &all, &[1]), MAX_MEMBER_VALUE).unwrap(),
        states
    );

    // 4. A PARITY block lost along with two data blocks.
    let states: Vec<Vec<u8>> = (0..6).map(|i| vec![i as u8 + 1; 30 + i * 11]).collect();
    let (k, all) = blocks(&states);
    assert_eq!(
        repair_group(k, &lose(k, &all, &[0, 3, k + 1]), MAX_MEMBER_VALUE).unwrap(),
        states
    );

    // 5. All-empty members: every block is empty, and it still repairs.
    let states: Vec<Vec<u8>> = vec![Vec::new(); 5];
    let (k, all) = blocks(&states);
    assert!(
        all.iter().skip(k).all(|p| p.is_empty()),
        "parity must be empty"
    );
    assert_eq!(
        repair_group(k, &lose(k, &all, &[0, 1, 2]), MAX_MEMBER_VALUE).unwrap(),
        states
    );
}

/// **What a hostile group costs a repairer.** Parity ids are not checkable
/// by a host, so a writer can list ids of blocks whose bytes it chose; a
/// keeper repairing that tree solves whatever the rebuilt prefixes claim.
/// Unbounded, a prefix of 4 GiB is four billion byte columns before the
/// caller ever gets a block to hash — a stall, from a tree that validated.
///
/// Counted, because the answer is "refused" either way.
#[test]
fn a_rebuilt_length_past_its_kinds_ceiling_is_refused_after_the_prefixes() {
    // A group whose symbols say their members are 4 GiB long. Nothing
    // here is a real block; that is the point — the ids were a stranger's.
    let huge = u32::MAX as usize;
    let states: Vec<Vec<u8>> = (0..4)
        .map(|i| {
            let mut v = (huge as u32).to_le_bytes().to_vec();
            v.push(i as u8);
            v
        })
        .collect();
    let parity = rs::encode(&states, PARITY).expect("codeable");
    let all: Vec<Vec<u8>> = states.iter().cloned().chain(parity).collect();
    let have: Vec<Option<Vec<u8>>> = present(4 + PARITY, &all, |j| j >= PARITY);

    let (got, columns) = rs::repair_counted(4, PARITY, &have, MAX_MEMBER_VALUE);
    assert_eq!(got, Err(rs::RsError::MemberTooLong(huge)));
    assert_eq!(
        columns,
        4,
        "a hostile length was solved past its prefix"
    );

    // The control: an honest member at the ceiling still repairs, so the
    // bound is a bound and not a refusal of everything large.
    let big = vec![0xabu8; MAX_MEMBER_VALUE];
    let small = vec![1u8, 2, 3];
    let states = vec![big.clone(), small.clone()];
    let parity = encode_group(&states).expect("codeable");
    let all: Vec<Vec<u8>> = states
        .iter()
        .map(|s| symbol(s))
        .chain(parity.iter().cloned())
        .collect();
    let have: Vec<Option<Vec<u8>>> = present(2 + PARITY, &all, |j| j != 0);
    assert_eq!(
        repair_group(2, &have, MAX_MEMBER_VALUE).expect("an honest member at the cap"),
        states
    );
    let (_, columns) = rs::repair_counted(2, PARITY, &have, MAX_MEMBER_VALUE);
    assert!(
        columns > MAX_MEMBER_VALUE,
        "the control must really solve the whole member"
    );
}

/// The close comparison is `<`, at exactly `2³²/3 + 1`.
///
/// `group_sizes` is otherwise exercised with synthetic hashes of `0` and
/// `u32::MAX`, which cannot tell `<` from `<=` at the threshold. Searching
/// for a real key whose grouping hash lands exactly on it is a 2³² search,
/// so the comparison is pinned here with injected values instead — and the
/// threshold itself is on the vectors' const line, so a change to either
/// shows up in two places.
#[test]
fn the_close_threshold_comparison_is_pinned_at_its_exact_value() {
    // A run long enough that the FOLD cannot hide the difference: with a
    // short tail, a group of 7 and a tail of 1 merge back into 8 and both
    // answers look alike. Nineteen members give 7+12 against 12+7.
    let run = |seventh: u32| {
        let mut h = vec![u32::MAX; 6];
        h.push(seventh);
        h.extend(std::iter::repeat_n(u32::MAX, 12));
        group_sizes(&h)
    };
    assert_eq!(
        run(CLOSE_THRESHOLD - 1),
        vec![7, 12],
        "a hash one below the threshold must close the group"
    );
    assert_eq!(
        run(CLOSE_THRESHOLD),
        vec![12, 7],
        "a hash AT the threshold must not: the comparison is `<`, not `<=`"
    );
}

/// The class boundaries are inclusive upper bounds, pinned at each edge.
#[test]
fn the_class_edges_are_where_the_rule_says() {
    for (i, &c) in CLASSES.iter().enumerate() {
        assert_eq!(class_of(c), i, "{c} must be the top of class {i}");
        if i + 1 < CLASSES.len() {
            assert_eq!(
                class_of(c + 1),
                i + 1,
                "{} must open class {}",
                c + 1,
                i + 1
            );
        }
    }
    assert_eq!(class_of(4096), 0);
    assert_eq!(class_of(4097), 1);
    assert_eq!(class_of(MAX_VALUE), CLASSES.len() - 1);
}
