//! The Reed-Solomon code itself: a systematic Cauchy generator over GF(2^8),
//! and the recovery of erased symbols.
//!
//! Everything here is pinned to the byte. "Parity is a pure function of the
//! children" is what makes it deduplicate, verifiable by plain hash, and
//! repairable by anyone without a key.
//!
//! - Field GF(2^8), reducing polynomial 0x11D, generator 2 ([`crate::gf`]).
//! - Generator matrix `[I ; C]`, systematic, with `C` an m x k Cauchy matrix:
//!   `C[r][c] = 1 / (x_r + y_c)`. The number of parity rows `m` is a parameter of
//!   each call, and each row is fixed by its own `x`:
//!   - data columns `y_c = 3 + c`;
//!   - parity rows `x_r = r` for the first three;
//!   - `x_r = 255 - (r - 3)` for the rest, at the top of the field.
//! - Layout: byte `i` of every data symbol is one codeword. Parity `p` byte `i`
//!   is the sum over `c` of `C[p][c] * data_c[i]`.

use crate::gf;
use crate::gf::Tables;
use crate::linear;
use crate::seqs;
use vstd::prelude::*;

verus! {

/// The most parity symbols the codec makes for one group.
pub const MAX_M: usize = 8;

/// The largest group the codec can code.
pub const MAX_K: usize = 36;

/// Why a group cannot be coded or repaired.
#[derive(Clone, Copy, Debug, PartialEq, Eq, Structural)]
pub enum RsError {
    /// A group of 0, or of more than [`MAX_K`].
    GroupSize(usize),
    /// A parity count of 0, or of more than [`MAX_M`].
    ParityCount(usize),
    /// The wrong number of slots.
    Ragged,
    /// Fewer than `k` blocks present.
    NotEnough(usize),
    /// The rows are not independent. No group of this code gives it.
    Singular,
    /// A rebuilt member claims to be longer than its kind allows. The prefix
    /// came out of a solve over blocks a stranger may have chosen, so it is a
    /// claim and is bounded before it costs anything.
    MemberTooLong(usize),
}

/// `x_r` of parity row `r`.
pub open spec fn spec_x(r: int) -> u8 {
    if r < 3 {
        r as u8
    } else {
        (255 - (r - 3)) as u8
    }
}

/// `y_c` of data column `c`.
pub open spec fn spec_y(c: int) -> u8 {
    (3 + c) as u8
}

/// `C[r][c]` of the Cauchy generator.
pub open spec fn spec_coeff(r: int, c: int) -> u8 {
    gf::ginv(spec_x(r) ^ spec_y(c))
}

/// Row `j` of `[I ; C]` for a group of `k`.
pub open spec fn generator_row(k: nat, j: int) -> Seq<u8> {
    if j < k {
        linear::unit(k, j)
    } else {
        Seq::new(k, |c: int| spec_coeff(j - k, c))
    }
}

/// Byte `i` of every symbol of a group: one codeword.
pub open spec fn column(data: Seq<Seq<u8>>, i: int) -> Seq<u8> {
    Seq::new(data.len(), |c: int| seqs::byte_of(data[c], i))
}

/// Byte `i` of block `j` of the coded group: a data byte, or a parity byte.
pub open spec fn coded_byte(data: Seq<Seq<u8>>, j: int, i: int) -> u8 {
    linear::dot(generator_row(data.len(), j), column(data, i), data.len())
}

/// No trailing zero: the stored form of a parity block.
pub open spec fn trimmed(s: Seq<u8>) -> bool {
    s.len() == 0 || s.last() != 0
}

/// `p` is parity `r` of the group, as it is stored.
pub open spec fn is_parity(data: Seq<Seq<u8>>, r: int, p: Seq<u8>) -> bool {
    &&& trimmed(p)
    &&& forall|i: int|
        0 <= i ==> #[trigger] seqs::byte_of(p, i) == coded_byte(data, data.len() + r, i)
}

/// `x_r` of parity row `r`: the first three rows at `r`, the rest from the top of
/// the field down (255, 254, ...).
pub fn x_of(r: usize) -> (x: u8)
    requires
        r < MAX_M,
    ensures
        x == spec_x(r as int),
{
    if r < 3 {
        r as u8
    } else {
        (255 - (r - 3)) as u8
    }
}

/// The row and column values never meet, so no denominator is zero, and no two
/// rows or columns share one.
pub proof fn lemma_denominators(r: int, c: int)
    requires
        0 <= r < MAX_M,
        0 <= c < MAX_K,
    ensures
        spec_x(r) != spec_y(c),
        spec_x(r) ^ spec_y(c) != 0,
        spec_coeff(r, c) != 0,
{
    gf::lemma_xor(spec_x(r), spec_y(c), 0);
    gf::lemma_inverse(spec_x(r) ^ spec_y(c));
}

/// Multiplication in the field.
pub fn mul_pub(a: u8, b: u8) -> (p: u8)
    ensures
        p == gf::gmul(a, b),
{
    Tables::new().mul(a, b)
}

/// Division in the field by a non-zero element.
pub fn div_pub(a: u8, b: u8) -> (q: u8)
    requires
        b != 0,
    ensures
        q == gf::gmul(a, gf::ginv(b)),
        gf::gmul(q, b) == a,
{
    Tables::new().div(a, b)
}

/// `C[r][c]` of the Cauchy generator.
///
/// `x_r` from [`x_of`], `y_c = 3 + c`. The sets are disjoint, so the denominator
/// is never zero and the matrix is defined for every `k`, including `k = 1`, where
/// the parity symbols are different scalar multiples of the single data symbol.
pub fn coeff(r: usize, c: usize) -> (f: u8)
    requires
        r < MAX_M,
        c < MAX_K,
    ensures
        f == spec_coeff(r as int, c as int),
        f != 0,
{
    coeff_with(&Tables::new(), r, c)
}

/// [`coeff`], with the tables at hand.
pub fn coeff_with(t: &Tables, r: usize, c: usize) -> (f: u8)
    requires
        r < MAX_M,
        c < MAX_K,
    ensures
        f == spec_coeff(r as int, c as int),
        f != 0,
{
    proof {
        lemma_denominators(r as int, c as int);
        gf::lemma_mul_unit(gf::ginv(spec_x(r as int) ^ spec_y(c as int)));
    }
    t.div(1, x_of(r) ^ ((3 + c) as u8))
}

/// Drop trailing zero bytes. The canonical stored form of a parity block.
pub fn trim(v: &mut Vec<u8>)
    ensures
        trimmed(final(v)@),
        final(v)@.len() <= old(v)@.len(),
        forall|i: int| seqs::byte_of(final(v)@, i) == seqs::byte_of(old(v)@, i),
{
    while v.len() > 0 && v[v.len() - 1] == 0
        invariant
            v@.len() <= old(v)@.len(),
            forall|i: int| seqs::byte_of(v@, i) == seqs::byte_of(old(v)@, i),
        decreases v@.len(),
    {
        let ghost before = v@;
        v.pop();
        assert forall|i: int| seqs::byte_of(v@, i) == seqs::byte_of(old(v)@, i) by {
            assert(seqs::byte_of(before, i) == seqs::byte_of(old(v)@, i));
        }
    }
}

/// Byte `i` of a block, which is zero past its end: the whole of what makes
/// trimming lossless.
pub fn byte_at(b: &[u8], i: usize) -> (x: u8)
    ensures
        x == seqs::byte_of(b@, i as int),
{
    if i < b.len() {
        b[i]
    } else {
        0
    }
}

/// Trimming loses nothing: two trimmed blocks that read alike are the same block.
pub proof fn law_trimmed_form_is_unique(a: Seq<u8>, b: Seq<u8>)
    requires
        trimmed(a),
        trimmed(b),
        forall|i: int| 0 <= i ==> seqs::byte_of(a, i) == seqs::byte_of(b, i),
    ensures
        a == b,
{
    if a.len() > b.len() {
        assert(seqs::byte_of(a, a.len() - 1) == seqs::byte_of(b, a.len() - 1));
    }
    if b.len() > a.len() {
        assert(seqs::byte_of(a, b.len() - 1) == seqs::byte_of(b, b.len() - 1));
    }
    assert forall|i: int| 0 <= i < a.len() implies a[i] == b[i] by {
        assert(seqs::byte_of(a, i) == seqs::byte_of(b, i));
    }
    assert(a =~= b);
}

/// The length of the longest block.
fn widest(data: &[Vec<u8>]) -> (w: usize)
    ensures
        forall|c: int| 0 <= c < data@.len() ==> (#[trigger] data@[c])@.len() <= w,
{
    let mut w: usize = 0;
    for c in 0..data.len()
        invariant
            forall|d: int| 0 <= d < c ==> (#[trigger] data@[d])@.len() <= w,
    {
        if data[c].len() > w {
            w = data[c].len();
        }
    }
    w
}

/// The `m` parity symbols of a group.
///
/// There is no padding in the rule. A symbol is its bytes followed by infinitely
/// many zeros, and parity is defined per byte index, so a member's length is not
/// part of the group's definition. The result is stored with its trailing zeros
/// trimmed, which makes a parity block's length a function of its own bytes alone.
pub fn encode(data: &[Vec<u8>], m: usize) -> (r: Result<Vec<Vec<u8>>, RsError>)
    ensures
        match r {
            Err(e) => if data@.len() == 0 || data@.len() > MAX_K {
                e == RsError::GroupSize(data@.len() as usize)
            } else {
                e == RsError::ParityCount(m) && (m == 0 || m > MAX_M)
            },
            Ok(out) => {
                &&& 0 < data@.len() <= MAX_K
                &&& 0 < m <= MAX_M
                &&& out@.len() == m
                &&& forall|p: int|
                    0 <= p < m ==> is_parity(seqs::views(data@), p, (#[trigger] out@[p])@)
            },
        },
{
    let k = data.len();
    if k == 0 || k > MAX_K {
        return Err(RsError::GroupSize(k));
    }
    if m == 0 || m > MAX_M {
        return Err(RsError::ParityCount(m));
    }
    let t = Tables::new();
    let width = widest(data);
    let ghost gd = seqs::views(data@);
    let mut out: Vec<Vec<u8>> = Vec::new();
    let mut p: usize = 0;
    while p < m
        invariant
            p <= m,
            m <= MAX_M,
            k == data@.len(),
            0 < k <= MAX_K,
            gd == seqs::views(data@),
            out@.len() == p,
            forall|c: int| 0 <= c < data@.len() ==> (#[trigger] data@[c])@.len() <= width,
            forall|q: int| 0 <= q < p ==> is_parity(gd, q, (#[trigger] out@[q])@),
        decreases m - p,
    {
        let mut acc: Vec<u8> = vec![0u8; width];
        let ghost row = generator_row(k as nat, k + p);
        let mut c: usize = 0;
        while c < k
            invariant
                c <= k,
                p < m,
                m <= MAX_M,
                k == data@.len(),
                0 < k <= MAX_K,
                gd == seqs::views(data@),
                row == generator_row(k as nat, k + p),
                acc@.len() == width,
                forall|d: int| 0 <= d < data@.len() ==> (#[trigger] data@[d])@.len() <= width,
                forall|i: int|
                    0 <= i < width ==> #[trigger] acc@[i] == linear::dot(
                        row,
                        column(gd, i),
                        c as nat,
                    ),
            decreases k - c,
        {
            let f = coeff_with(&t, p, c);
            let times = t.multiples(f);
            let d = &data[c];
            let n = d.len();
            let mut i: usize = 0;
            while i < n
                invariant
                    i <= n,
                    n == d@.len(),
                    d@ == gd[c as int],
                    c < k,
                    k == gd.len(),
                    f == row[c as int],
                    forall|x: int| 0 <= x < 256 ==> #[trigger] times@[x] == gf::gmul(f, x as u8),
                    n <= width,
                    acc@.len() == width,
                    forall|j: int|
                        0 <= j < i ==> #[trigger] acc@[j] == linear::dot(
                            row,
                            column(gd, j),
                            (c + 1) as nat,
                        ),
                    forall|j: int|
                        i <= j < width ==> #[trigger] acc@[j] == linear::dot(
                            row,
                            column(gd, j),
                            c as nat,
                        ),
                decreases n - i,
            {
                let old_byte = acc[i];
                let s = d[i];
                assert(column(gd, i as int)[c as int] == s);
                acc[i] = old_byte ^ times[s as usize];
                i += 1;
            }
            proof {
                assert forall|j: int| 0 <= j < width implies #[trigger] acc@[j] == linear::dot(
                    row,
                    column(gd, j),
                    (c + 1) as nat,
                ) by {
                    if j >= n {
                        assert(column(gd, j)[c as int] == 0);
                        linear::lemma_dot_skip(row, column(gd, j), c as nat, (c + 1) as nat);
                    }
                }
            }
            c += 1;
        }
        let ghost full = acc@;
        trim(&mut acc);
        proof {
            assert forall|i: int| 0 <= i implies #[trigger] seqs::byte_of(acc@, i) == coded_byte(
                gd,
                gd.len() + p,
                i,
            ) by {
                assert(seqs::byte_of(acc@, i) == seqs::byte_of(full, i));
                if i >= width {
                    assert forall|c: int| 0 <= c < k implies column(gd, i)[c] == 0 by {
                        assert(data@[c]@.len() <= width);
                    }
                    linear::lemma_dot_zero(row, column(gd, i), k as nat);
                }
            }
            assert(is_parity(gd, p as int, acc@));
        }
        out.push(acc);
        p += 1;
    }
    Ok(out)
}

// ---------------------------------------------------------------------------
// repair
// ---------------------------------------------------------------------------

/// The indices below `n` at which a block is present.
pub open spec fn present(have: Seq<Option<Vec<u8>>>, n: nat) -> Seq<int>
    decreases n,
{
    if n == 0 {
        Seq::empty()
    } else {
        let before = present(have, (n - 1) as nat);
        if have[n - 1] is Some {
            before.push(n - 1)
        } else {
            before
        }
    }
}

/// The blocks a repair solves from: the first `k` present.
pub open spec fn chosen(have: Seq<Option<Vec<u8>>>, k: nat) -> Seq<int> {
    present(have, have.len()).take(k as int)
}

/// The column `d` agrees with byte `i` of every chosen block.
pub open spec fn solves(have: Seq<Option<Vec<u8>>>, k: nat, i: int, d: Seq<u8>) -> bool {
    let js = chosen(have, k);
    &&& d.len() == k
    &&& forall|r: int|
        0 <= r < k ==> linear::dot(generator_row(k, #[trigger] js[r]), d, k) == seqs::byte_of(
            have[js[r]]->0@,
            i,
        )
}

/// The data bytes at index `i`: the one column that agrees with the chosen blocks.
pub open spec fn solution(have: Seq<Option<Vec<u8>>>, k: nat, i: int) -> Seq<u8> {
    choose|d: Seq<u8>| solves(have, k, i, d)
}

/// The length that the rebuilt prefix of symbol `r` states.
pub open spec fn stated_len(have: Seq<Option<Vec<u8>>>, k: nat, r: int) -> int {
    seqs::le32(
        seq![
            solution(have, k, 0)[r],
            solution(have, k, 1)[r],
            solution(have, k, 2)[r],
            solution(have, k, 3)[r],
        ],
        0,
    )
}

/// Symbol `r` as it is rebuilt: its prefix, and as many bytes as that says.
pub open spec fn rebuilt(have: Seq<Option<Vec<u8>>>, k: nat, r: int) -> Seq<u8> {
    Seq::new((4 + stated_len(have, k, r)) as nat, |i: int| solution(have, k, i)[r])
}

/// The first symbol, from `r` on, that states a length above the ceiling.
pub open spec fn first_too_long(
    have: Seq<Option<Vec<u8>>>,
    k: nat,
    max_len: int,
    r: int,
) -> Option<int>
    decreases k - r,
{
    if r >= k {
        None
    } else if stated_len(have, k, r) > max_len {
        Some(stated_len(have, k, r))
    } else {
        first_too_long(have, k, max_len, r + 1)
    }
}

/// The longest symbol from `r` on, prefix included.
pub open spec fn longest(have: Seq<Option<Vec<u8>>>, k: nat, r: int) -> int
    decreases k - r,
{
    if r >= k {
        4
    } else {
        let rest = longest(have, k, r + 1);
        if 4 + stated_len(have, k, r) > rest {
            4 + stated_len(have, k, r)
        } else {
            rest
        }
    }
}

/// The ceiling a rebuilt length is held to: the caller's, or what leaves room for
/// the prefix in a vector.
pub open spec fn ceiling(max_len: usize) -> int {
    if max_len > usize::MAX - 4 {
        usize::MAX - 4
    } else {
        max_len as int
    }
}

/// What [`repair`] returns.
pub open spec fn repair_spec(
    k: usize,
    m: usize,
    have: Seq<Option<Vec<u8>>>,
    max_len: usize,
) -> Result<Seq<Seq<u8>>, RsError> {
    if k == 0 || k > MAX_K {
        Err(RsError::GroupSize(k))
    } else if m == 0 || m > MAX_M {
        Err(RsError::ParityCount(m))
    } else if have.len() != k + m {
        Err(RsError::Ragged)
    } else if present(have, have.len()).len() < k {
        Err(RsError::NotEnough(present(have, have.len()).len() as usize))
    } else {
        match first_too_long(have, k as nat, ceiling(max_len), 0) {
            Some(n) => Err(RsError::MemberTooLong(n as usize)),
            None => Ok(Seq::new(k as nat, |r: int| rebuilt(have, k as nat, r))),
        }
    }
}

/// How many byte columns [`repair`] solves.
pub open spec fn repair_columns(
    k: usize,
    m: usize,
    have: Seq<Option<Vec<u8>>>,
    max_len: usize,
) -> int {
    match repair_spec(k, m, have, max_len) {
        Ok(_) => longest(have, k as nat, 0),
        Err(RsError::MemberTooLong(_)) => 4,
        Err(_) => 0,
    }
}

pub proof fn lemma_present(have: Seq<Option<Vec<u8>>>, n: nat)
    requires
        n <= have.len(),
    ensures
        present(have, n).len() <= n,
        forall|r: int|
            0 <= r < present(have, n).len() ==> {
                let j = #[trigger] present(have, n)[r];
                0 <= j < n && have[j] is Some
            },
        forall|r: int, s: int|
            0 <= r < s < present(have, n).len() ==> present(have, n)[r] < present(have, n)[s],
        forall|j: int|
            0 <= j < n && have[j] is Some ==> #[trigger] present(have, n).contains(j),
    decreases n,
{
    if n > 0 {
        let m = (n - 1) as nat;
        lemma_present(have, m);
        let before = present(have, m);
        let now = present(have, n);
        if have[n - 1] is Some {
            assert(now[before.len() as int] == n - 1);
            assert forall|j: int| 0 <= j < n && have[j] is Some implies #[trigger] now.contains(
                j,
            ) by {
                if j < n - 1 {
                    assert(before.contains(j));
                    let r = choose|r: int| 0 <= r < before.len() && before[r] == j;
                    assert(now[r] == j);
                } else {
                    assert(now[before.len() as int] == j);
                }
            }
        }
    }
}

/// The present indices below `n` come first.
pub proof fn lemma_present_extend(have: Seq<Option<Vec<u8>>>, n: nat, n2: nat)
    requires
        n <= n2 <= have.len(),
    ensures
        present(have, n).len() <= present(have, n2).len(),
        present(have, n2).take(present(have, n).len() as int) == present(have, n),
    decreases n2 - n,
{
    if n < n2 {
        lemma_present_extend(have, n, (n2 - 1) as nat);
        assert(present(have, n2).take(present(have, n).len() as int) =~= present(have, n));
    } else {
        assert(present(have, n2).take(present(have, n).len() as int) =~= present(have, n));
    }
}

/// The data columns below `n` that are not among the rows `js`.
spec fn missing(js: Seq<int>, n: nat) -> Seq<int>
    decreases n,
{
    if n == 0 {
        Seq::empty()
    } else {
        let before = missing(js, (n - 1) as nat);
        if js.contains(n - 1) {
            before
        } else {
            before.push(n - 1)
        }
    }
}

/// How many of the increasing rows `js` lie below `n`.
spec fn below(js: Seq<int>, n: int) -> nat
    decreases js.len(),
{
    if js.len() == 0 {
        0
    } else {
        below(js.drop_last(), n) + (if js.last() < n {
            1nat
        } else {
            0nat
        })
    }
}

spec fn increasing(js: Seq<int>) -> bool {
    forall|r: int, s: int| 0 <= r < s < js.len() ==> js[r] < js[s]
}

proof fn lemma_below_step(js: Seq<int>, n: int)
    requires
        increasing(js),
    ensures
        below(js, n + 1) == below(js, n) + (if js.contains(n) {
            1nat
        } else {
            0nat
        }),
    decreases js.len(),
{
    if js.len() > 0 {
        let rest = js.drop_last();
        lemma_below_step(rest, n);
        if js.last() == n {
            assert(!rest.contains(n)) by {
                if rest.contains(n) {
                    let r = choose|r: int| 0 <= r < rest.len() && rest[r] == n;
                    assert(js[r] < js[js.len() - 1]);
                }
            }
            assert(js[js.len() - 1] == n);
            assert(js.contains(n));
        } else {
            assert(js.contains(n) <==> rest.contains(n)) by {
                if js.contains(n) {
                    let r = choose|r: int| 0 <= r < js.len() && js[r] == n;
                    assert(rest[r] == n);
                }
                if rest.contains(n) {
                    let r = choose|r: int| 0 <= r < rest.len() && rest[r] == n;
                    assert(js[r] == n);
                }
            }
        }
    }
}

proof fn lemma_below_none(js: Seq<int>)
    requires
        forall|r: int| 0 <= r < js.len() ==> 0 <= #[trigger] js[r],
    ensures
        below(js, 0) == 0,
    decreases js.len(),
{
    if js.len() > 0 {
        assert(js[js.len() - 1] >= 0);
        assert forall|r: int| 0 <= r < js.drop_last().len() implies 0
            <= #[trigger] js.drop_last()[r] by {
            assert(js.drop_last()[r] == js[r]);
        }
        lemma_below_none(js.drop_last());
    }
}

/// Below `n`, rows that are chosen and columns that are missing add up to `n`.
proof fn lemma_missing(js: Seq<int>, n: nat)
    requires
        increasing(js),
        forall|r: int| 0 <= r < js.len() ==> 0 <= #[trigger] js[r],
    ensures
        missing(js, n).len() + below(js, n as int) == n,
        forall|i: int|
            0 <= i < missing(js, n).len() ==> {
                let c = #[trigger] missing(js, n)[i];
                0 <= c < n && !js.contains(c)
            },
        forall|i: int, j: int|
            0 <= i < j < missing(js, n).len() ==> missing(js, n)[i] < missing(js, n)[j],
    decreases n,
{
    if n == 0 {
        lemma_below_none(js);
    } else {
        lemma_missing(js, (n - 1) as nat);
        lemma_below_step(js, n - 1);
    }
}

/// Rows below `n` come first among increasing rows.
proof fn lemma_below_prefix(js: Seq<int>, n: int)
    requires
        increasing(js),
    ensures
        below(js, n) <= js.len(),
        forall|r: int| 0 <= r < js.len() ==> (#[trigger] js[r] < n <==> r < below(js, n)),
    decreases js.len(),
{
    if js.len() > 0 {
        let rest = js.drop_last();
        lemma_below_prefix(rest, n);
        assert forall|r: int| 0 <= r < js.len() implies (#[trigger] js[r] < n <==> r < below(
            js,
            n,
        )) by {
            if r < rest.len() {
                assert(rest[r] == js[r]);
                if js.last() < n {
                    assert(js[r] < js[js.len() - 1]);
                }
            } else if js.last() < n && rest.len() > 0 {
                assert(js[rest.len() - 1] < js[js.len() - 1]);
                assert(rest[rest.len() - 1] < n);
            }
        }
    }
}

/// The values of `v` at the listed columns, and those columns' `y`.
spec fn pick(v: Seq<u8>, cs: Seq<int>) -> Seq<u8> {
    Seq::new(cs.len(), |i: int| v[cs[i]])
}

spec fn pick_y(cs: Seq<int>) -> Seq<u8> {
    Seq::new(cs.len(), |i: int| spec_y(cs[i]))
}

/// A parity row meets a column only at the missing entries, where the column is
/// not known to be zero.
proof fn lemma_row_is_csum(k: nat, r: int, js: Seq<int>, v: Seq<u8>, n: nat)
    requires
        n <= k,
        v.len() == k,
        0 <= r,
        increasing(js),
        forall|i: int| 0 <= i < js.len() ==> 0 <= #[trigger] js[i],
        forall|c: int| 0 <= c < k && #[trigger] js.contains(c) ==> v[c] == 0,
    ensures
        linear::dot(generator_row(k, k + r), v, n) == linear::csum(
            pick(v, missing(js, n)),
            pick_y(missing(js, n)),
            spec_x(r),
            missing(js, n).len(),
        ),
    decreases n,
{
    if n > 0 {
        let m = (n - 1) as nat;
        lemma_row_is_csum(k, r, js, v, m);
        let row = generator_row(k, k + r);
        let cs = missing(js, n);
        let cs0 = missing(js, m);
        if js.contains(n - 1) {
            gf::lemma_mul_unit(row[n - 1]);
            gf::lemma_xor(linear::dot(row, v, m), 0, 0);
        } else {
            assert(cs == cs0.push(n - 1));
            linear::lemma_csum_extend(pick(v, cs0), pick(v, cs), pick_y(cs0), pick_y(cs), spec_x(
                r,
            ), cs0.len());
            gf::lemma_mul_comm(row[n - 1], v[n - 1]);
        }
    }
}

/// Any `k` different rows of `[I ; C]` are independent.
pub proof fn law_any_k_rows_are_independent(k: nat, m: nat, js: Seq<int>)
    requires
        0 < k <= MAX_K,
        0 < m <= MAX_M,
        js.len() == k,
        forall|r: int, s: int| 0 <= r < s < js.len() ==> js[r] < js[s],
        forall|r: int| 0 <= r < js.len() ==> 0 <= #[trigger] js[r] < k + m,
    ensures
        !linear::singular(Seq::new(k, |r: int| generator_row(k, js[r])), k),
{
    let a = Seq::new(k, |r: int| generator_row(k, js[r]));
    if linear::singular(a, k) {
        let v = choose|v: Seq<u8>|
            v.len() == k && v != linear::zeros(k) && #[trigger] linear::prod(a, v, k)
                == linear::zeros(k);
        assert forall|r: int| 0 <= r < k implies linear::dot(
            generator_row(k, #[trigger] js[r]),
            v,
            k,
        ) == 0 by {
            assert(linear::prod(a, v, k)[r] == 0);
        }
        assert forall|c: int| 0 <= c < k && #[trigger] js.contains(c) implies v[c] == 0 by {
            let r = choose|r: int| 0 <= r < js.len() && js[r] == c;
            linear::lemma_dot_unit(v, k, js[r]);
        }
        let t = below(js, k as int);
        lemma_below_prefix(js, k as int);
        lemma_missing(js, k);
        let cs = missing(js, k);
        let s = cs.len();
        let vs = pick(v, cs);
        let ys = pick_y(cs);
        let xs = Seq::new(s, |i: int| spec_x(js[t + i] - k));
        assert(s == k - t);
        assert forall|i: int| 0 <= i < s implies linear::csum(vs, ys, #[trigger] xs[i], s)
            == 0 by {
            let j = js[t + i];
            assert(j >= k);
            lemma_row_is_csum(k, j - k, js, v, k);
        }
        assert forall|i: int, j: int| 0 <= i < j < s implies xs[i] != xs[j] by {
            assert(js[t + i] < js[t + j]);
        }
        assert forall|i: int, j: int| 0 <= i < s && 0 <= j < s implies xs[i] != ys[j] by {
            let a = js[t + i];
            let c = cs[j];
            lemma_denominators(a - k, c);
        }
        linear::lemma_cauchy_kernel(vs, ys, xs);
        assert forall|c: int| 0 <= c < k implies v[c] == 0 by {
            if !js.contains(c) {
                lemma_missing_has(js, k, c);
                let i = choose|i: int| 0 <= i < cs.len() && cs[i] == c;
                assert(vs[i] == 0);
            }
        }
        assert(v =~= linear::zeros(k));
    }
}

proof fn lemma_missing_has(js: Seq<int>, n: nat, c: int)
    requires
        0 <= c < n,
        !js.contains(c),
    ensures
        missing(js, n).contains(c),
    decreases n,
{
    let now = missing(js, n);
    if c == n - 1 {
        assert(now[now.len() - 1] == c);
    } else {
        lemma_missing_has(js, (n - 1) as nat, c);
        let before = missing(js, (n - 1) as nat);
        let i = choose|i: int| 0 <= i < before.len() && before[i] == c;
        assert(now[i] == c);
    }
}

/// The row `f * a`.
fn scale_row(t: &Tables, a: &Vec<u8>, f: u8) -> (out: Vec<u8>)
    ensures
        out@ == linear::scaled(a@, f),
{
    let mut out: Vec<u8> = Vec::with_capacity(a.len());
    for c in 0..a.len()
        invariant
            out@.len() == c,
            forall|d: int| 0 <= d < c ==> #[trigger] out@[d] == gf::gmul(f, a@[d]),
    {
        out.push(t.mul(f, a[c]));
    }
    assert(out@ =~= linear::scaled(a@, f));
    out
}

/// The row `a + f * b`.
fn add_row(t: &Tables, a: &Vec<u8>, b: &Vec<u8>, f: u8) -> (out: Vec<u8>)
    requires
        a@.len() == b@.len(),
    ensures
        out@ == linear::added(a@, b@, f),
{
    let mut out: Vec<u8> = Vec::with_capacity(a.len());
    for c in 0..a.len()
        invariant
            a@.len() == b@.len(),
            out@.len() == c,
            forall|d: int| 0 <= d < c ==> #[trigger] out@[d] == a@[d] ^ gf::gmul(f, b@[d]),
    {
        out.push(a[c] ^ t.mul(f, b[c]));
    }
    assert(out@ =~= linear::added(a@, b@, f));
    out
}

/// Row `r` of the identity.
fn unit_row(k: usize, r: usize) -> (out: Vec<u8>)
    requires
        r < k,
    ensures
        out@ == linear::unit(k as nat, r as int),
{
    let mut out: Vec<u8> = vec![0u8; k];
    out[r] = 1;
    assert(out@ =~= linear::unit(k as nat, r as int));
    out
}

/// Invert a k x k matrix: Gauss-Jordan elimination, the same row operations
/// applied to the matrix and to the identity.
fn invert(matrix: Vec<Vec<u8>>, k: usize) -> (r: Result<Vec<Vec<u8>>, RsError>)
    requires
        linear::square(seqs::views(matrix@), k as nat),
    ensures
        match r {
            Ok(inv) => linear::square(seqs::views(inv@), k as nat) && linear::inverts(
                seqs::views(matrix@),
                seqs::views(inv@),
                k as nat,
            ),
            Err(e) => e == RsError::Singular && linear::singular(seqs::views(matrix@), k as nat),
        },
{
    let t = Tables::new();
    let ghost a = seqs::views(matrix@);
    let mut rows = matrix;
    let mut inv: Vec<Vec<u8>> = Vec::new();
    for r in 0..k
        invariant
            inv@.len() == r,
            forall|i: int| 0 <= i < r ==> (#[trigger] inv@[i])@ == linear::unit(k as nat, i),
    {
        inv.push(unit_row(k, r));
    }
    proof {
        let n = seqs::views(inv@);
        assert(n =~= Seq::new(k as nat, |r: int| linear::unit(k as nat, r)));
        linear::lemma_start(a, n, k as nat);
    }
    let mut col: usize = 0;
    while col < k
        invariant
            col <= k,
            a == seqs::views(matrix@),
            linear::square(seqs::views(rows@), k as nat),
            linear::square(seqs::views(inv@), k as nat),
            linear::same_system(a, seqs::views(rows@), seqs::views(inv@), k as nat),
            forall|i: int, c: int|
                0 <= i < k && 0 <= c < col ==> (#[trigger] seqs::views(rows@)[i][c]) == (if i == c {
                    1u8
                } else {
                    0u8
                }),
        ensures
            col == k,
        decreases k - col,
    {
        let mut p: usize = col;
        assert forall|i: int| 0 <= i < k implies (#[trigger] rows@[i])@.len() == k by {
            assert(seqs::views(rows@)[i].len() == k);
        }
        while p < k && rows[p][col] == 0
            invariant
                col <= p <= k,
                col < k,
                linear::square(seqs::views(rows@), k as nat),
                rows@.len() == k,
                forall|i: int| 0 <= i < k ==> (#[trigger] rows@[i])@.len() == k,
                forall|i: int| col <= i < p ==> (#[trigger] seqs::views(rows@)[i])[col as int] == 0,
            decreases k - p,
        {
            assert(seqs::views(rows@)[p as int] == rows@[p as int]@);
            p += 1;
        }
        if p == k {
            proof {
                linear::lemma_no_pivot(
                    a,
                    seqs::views(rows@),
                    seqs::views(inv@),
                    k as nat,
                    col as int,
                );
            }
            return Err(RsError::Singular);
        }
        let ghost r0 = seqs::views(rows@);
        let ghost n0 = seqs::views(inv@);
        assert(r0[p as int] == rows@[p as int]@ && n0[p as int] == inv@[p as int]@);
        assert(r0[col as int] == rows@[col as int]@ && n0[col as int] == inv@[col as int]@);
        // Bring the pivot row up, divided by its pivot.
        let top = rows[col].clone();
        let top_inv = inv[col].clone();
        assert(top@ =~= r0[col as int] && top_inv@ =~= n0[col as int]);
        let f = t.div(1, rows[p][col]);
        let pivot = scale_row(&t, &rows[p], f);
        let pivot_inv = scale_row(&t, &inv[p], f);
        rows[p] = top;
        inv[p] = top_inv;
        let ghost kk = k as nat;
        proof {
            let c = col as int;
            let q = p as int;
            linear::lemma_step_swap(a, r0, n0, kk, c, q);
            let r1 = linear::swapped(r0, c, q);
            let n1 = linear::swapped(n0, c, q);
            assert(linear::square(r1, kk));
            assert(linear::square(n1, kk));
            gf::lemma_mul_unit(r0[q][c]);
            assert(f != 0);
            linear::lemma_step_scale(a, r1, n1, kk, c, f);
        }
        rows[col] = pivot;
        inv[col] = pivot_inv;
        proof {
            let c = col as int;
            let q = p as int;
            let r1 = linear::swapped(r0, c, q);
            let n1 = linear::swapped(n0, c, q);
            assert(seqs::views(rows@) =~= r1.update(c, linear::scaled(r1[c], f)));
            assert(seqs::views(inv@) =~= n1.update(c, linear::scaled(n1[c], f)));
            let r2 = seqs::views(rows@);
            assert(r2[c][c] == 1) by {
                gf::lemma_mul_comm(f, r0[q][c]);
            }
            assert forall|i: int, d: int| 0 <= i < k && 0 <= d < col implies (#[trigger] r2[i][d])
                == (if i == d {
                1u8
            } else {
                0u8
            }) by {
                assert(r0[i][d] == (if i == d {
                    1u8
                } else {
                    0u8
                }));
                assert(r0[q][d] == 0u8);
                assert(r0[c][d] == 0u8);
                gf::lemma_mul_unit(f);
            }
        }
        let mut r: usize = 0;
        while r < k
            invariant
                r <= k,
                col < k,
                kk == k,
                linear::square(seqs::views(rows@), kk),
                linear::square(seqs::views(inv@), kk),
                linear::same_system(a, seqs::views(rows@), seqs::views(inv@), kk),
                seqs::views(rows@)[col as int][col as int] == 1,
                forall|i: int|
                    0 <= i < r && i != col ==> (#[trigger] seqs::views(rows@)[i])[col as int] == 0,
                forall|i: int, c: int|
                    0 <= i < k && 0 <= c < col ==> (#[trigger] seqs::views(rows@)[i][c]) == (if i
                        == c {
                        1u8
                    } else {
                        0u8
                    }),
            decreases k - r,
        {
            let ghost r2 = seqs::views(rows@);
            let ghost n2 = seqs::views(inv@);
            assert(r2[r as int] == rows@[r as int]@ && n2[r as int] == inv@[r as int]@);
            assert(r2[col as int] == rows@[col as int]@ && n2[col as int] == inv@[col as int]@);
            if r != col && rows[r][col] != 0 {
                let f = rows[r][col];
                let new_row = add_row(&t, &rows[r], &rows[col], f);
                let new_inv = add_row(&t, &inv[r], &inv[col], f);
                rows[r] = new_row;
                inv[r] = new_inv;
                proof {
                    let x = r as int;
                    let c = col as int;
                    linear::lemma_step_add(a, r2, n2, kk, x, c, f);
                    assert(seqs::views(rows@) =~= r2.update(x, linear::added(r2[x], r2[c], f)));
                    assert(seqs::views(inv@) =~= n2.update(x, linear::added(n2[x], n2[c], f)));
                    let r3 = seqs::views(rows@);
                    gf::lemma_mul_unit(f);
                    gf::lemma_xor(f, f, 0);
                    assert(r3[x][c] == 0);
                    assert forall|i: int, d: int| 0 <= i < k && 0 <= d < col implies (
                    #[trigger] r3[i][d]) == (if i == d {
                        1u8
                    } else {
                        0u8
                    }) by {
                        assert(r2[i][d] == (if i == d {
                            1u8
                        } else {
                            0u8
                        }));
                        assert(r2[c][d] == 0u8);
                        gf::lemma_xor(r2[x][d], 0, 0);
                    }
                    assert forall|i: int| 0 <= i < r + 1 && i != col implies (#[trigger] r3[i])[c]
                        == 0 by {
                        if i != x {
                            assert(r2[i][c] == 0);
                        }
                    }
                }
            }
            r += 1;
        }
        proof {
            let r4 = seqs::views(rows@);
            assert forall|i: int, d: int| 0 <= i < k && 0 <= d < col + 1 implies (
            #[trigger] r4[i][d]) == (if i == d {
                1u8
            } else {
                0u8
            }) by {
                if d == col && i != col {
                    assert(r4[i][col as int] == 0);
                }
            }
        }
        col += 1;
    }
    proof {
        linear::lemma_finish(a, seqs::views(rows@), seqs::views(inv@), k as nat);
    }
    Ok(inv)
}

/// The rows of `[I ; C]` that the chosen blocks stand for.
pub open spec fn chosen_rows(have: Seq<Option<Vec<u8>>>, k: nat) -> Seq<Seq<u8>> {
    Seq::new(k, |r: int| generator_row(k, chosen(have, k)[r]))
}

/// Byte `i` of each chosen block.
pub open spec fn chosen_bytes(have: Seq<Option<Vec<u8>>>, k: nat, i: int) -> Seq<u8> {
    Seq::new(k, |r: int| seqs::byte_of(have[chosen(have, k)[r]]->0@, i))
}

/// The solution of a column is the inverse applied to the chosen bytes, and any
/// column that agrees with the chosen blocks is that one.
pub proof fn lemma_solution(have: Seq<Option<Vec<u8>>>, k: nat, inv: Seq<Seq<u8>>, i: int)
    requires
        linear::inverts(chosen_rows(have, k), inv, k),
    ensures
        solves(have, k, i, solution(have, k, i)),
        solution(have, k, i) == linear::prod(inv, chosen_bytes(have, k, i), k),
        forall|d: Seq<u8>| #[trigger] solves(have, k, i, d) ==> d == solution(have, k, i),
{
    let a = chosen_rows(have, k);
    let y = chosen_bytes(have, k, i);
    let d = linear::prod(inv, y, k);
    let js = chosen(have, k);
    assert(linear::prod(a, d, k) == y);
    assert(solves(have, k, i, d)) by {
        assert forall|r: int| 0 <= r < k implies linear::dot(
            generator_row(k, #[trigger] js[r]),
            d,
            k,
        ) == seqs::byte_of(have[js[r]]->0@, i) by {
            assert(linear::prod(a, d, k)[r] == y[r]);
        }
    }
    assert forall|e: Seq<u8>| #[trigger] solves(have, k, i, e) implies e == d by {
        assert(linear::prod(a, e, k) =~= y) by {
            assert forall|r: int| 0 <= r < k implies linear::prod(a, e, k)[r] == y[r] by {
                assert(js[r] == chosen(have, k)[r]);
            }
        }
    }
}

/// `cols` lists, in order, at least every column at which the row is not zero.
spec fn covers(cols: Seq<usize>, row: Seq<u8>) -> bool {
    &&& forall|p: int| 0 <= p < cols.len() ==> 0 <= #[trigger] cols[p] < row.len()
    &&& forall|p: int, q: int| 0 <= p < q < cols.len() ==> cols[p] < cols[q]
    &&& forall|c: int|
        0 <= c < row.len() && row[c] != 0 ==> exists|p: int|
            0 <= p < cols.len() && #[trigger] cols[p] == c
}

/// Where a row is not zero.
fn support(row: &Vec<u8>) -> (cols: Vec<usize>)
    ensures
        covers(cols@, row@),
{
    let mut cols: Vec<usize> = Vec::new();
    for c in 0..row.len()
        invariant
            forall|p: int| 0 <= p < cols@.len() ==> 0 <= #[trigger] cols@[p] < c,
            forall|p: int, q: int| 0 <= p < q < cols@.len() ==> cols@[p] < cols@[q],
            forall|d: int|
                0 <= d < c && row@[d] != 0 ==> exists|p: int|
                    0 <= p < cols@.len() && #[trigger] cols@[p] == d,
    {
        if row[c] != 0 {
            let ghost before = cols@;
            cols.push(c);
            assert forall|d: int| 0 <= d < c + 1 && row@[d] != 0 implies exists|p: int|
                0 <= p < cols@.len() && #[trigger] cols@[p] == d by {
                if d == c {
                    assert(cols@[before.len() as int] == d);
                } else {
                    let p = choose|p: int| 0 <= p < before.len() && #[trigger] before[p] == d;
                    assert(cols@[p] == d);
                }
            }
        }
    }
    cols
}

/// One byte of the solve: a row of the inverse against byte `i` of the blocks.
fn solve_byte(t: &Tables, row: &Vec<u8>, cols: &Vec<usize>, vals: &Vec<&Vec<u8>>, i: usize) -> (b:
    u8)
    requires
        row@.len() == vals@.len(),
        covers(cols@, row@),
    ensures
        b == linear::dot(
            row@,
            Seq::new(vals@.len(), |c: int| seqs::byte_of(vals@[c]@, i as int)),
            row@.len(),
        ),
{
    let ghost y = Seq::new(vals@.len(), |c: int| seqs::byte_of(vals@[c]@, i as int));
    let mut acc: u8 = 0;
    let ghost mut done: int = 0;
    let mut p: usize = 0;
    while p < cols.len()
        invariant
            p <= cols@.len(),
            row@.len() == vals@.len(),
            y == Seq::new(vals@.len(), |c: int| seqs::byte_of(vals@[c]@, i as int)),
            covers(cols@, row@),
            0 <= done <= row@.len(),
            done == (if p == 0 {
                0
            } else {
                cols@[p - 1] + 1
            }),
            acc == linear::dot(row@, y, done as nat),
        decreases cols@.len() - p,
    {
        let c = cols[p];
        proof {
            assert forall|d: int| done <= d < c implies row@[d] == 0 by {
                if row@[d] != 0 {
                    let q = choose|q: int| 0 <= q < cols@.len() && #[trigger] cols@[q] == d;
                    if q < p {
                        if q < p - 1 {
                            assert(cols@[q] < cols@[p - 1]);
                        }
                    } else if q > p {
                        assert(cols@[p as int] < cols@[q]);
                    }
                }
            }
            linear::lemma_dot_skip(row@, y, done as nat, c as nat);
            done = c + 1;
        }
        acc = acc ^ t.mul(row[c], byte_at(vals[c], i));
        p += 1;
    }
    proof {
        assert forall|d: int| done <= d < row@.len() implies row@[d] == 0 by {
            if row@[d] != 0 {
                let q = choose|q: int| 0 <= q < cols@.len() && #[trigger] cols@[q] == d;
                if q < p - 1 {
                    assert(cols@[q] < cols@[p - 1]);
                }
            }
        }
        linear::lemma_dot_skip(row@, y, done as nat, row@.len());
    }
    acc
}

/// Rebuild every data symbol from any `k` of the `k + m` blocks.
///
/// `have[j]` is `Some` for a present block: `0..k` the data symbols in group
/// order, `k..k+m` the parity. Blocks are ragged: a data symbol ends after its own
/// bytes, a parity block after its last non-zero one, and every index past an end
/// reads as zero.
///
/// Indices 0..4 give each data symbol's length prefix. A rebuilt length is a
/// stranger's number, so it is held to `max_len` before any index past the
/// prefixes is solved.
pub fn repair(k: usize, m: usize, have: &[Option<Vec<u8>>], max_len: usize) -> (r: Result<
    Vec<Vec<u8>>,
    RsError,
>)
    ensures
        match r {
            Ok(out) => repair_spec(k, m, have@, max_len) == Ok::<Seq<Seq<u8>>, RsError>(
                seqs::views(out@),
            ),
            Err(e) => repair_spec(k, m, have@, max_len) == Err::<Seq<Seq<u8>>, RsError>(e),
        },
{
    repair_counted(k, m, have, max_len).0
}

/// [`repair`], and how many byte columns it solved: what a hostile group costs a
/// repairer is a property in its own right.
pub fn repair_counted(k: usize, m: usize, have: &[Option<Vec<u8>>], max_len: usize) -> (r: (
    Result<Vec<Vec<u8>>, RsError>,
    usize,
))
    ensures
        match r.0 {
            Ok(out) => repair_spec(k, m, have@, max_len) == Ok::<Seq<Seq<u8>>, RsError>(
                seqs::views(out@),
            ),
            Err(e) => repair_spec(k, m, have@, max_len) == Err::<Seq<Seq<u8>>, RsError>(e),
        },
        r.1 == repair_columns(k, m, have@, max_len),
{
    if k == 0 || k > MAX_K {
        return (Err(RsError::GroupSize(k)), 0);
    }
    if m == 0 || m > MAX_M {
        return (Err(RsError::ParityCount(m)), 0);
    }
    if have.len() != k + m {
        return (Err(RsError::Ragged), 0);
    }
    let t = Tables::new();
    let ghost h = have@;
    let ghost kk = k as nat;
    // The first k present blocks, and the rows of [I;C] they stand for.
    let mut rows: Vec<Vec<u8>> = Vec::with_capacity(k);
    let mut vals: Vec<&Vec<u8>> = Vec::with_capacity(k);
    let mut j: usize = 0;
    while j < have.len() && rows.len() < k
        invariant
            h == have@,
            kk == k,
            0 < k <= MAX_K,
            0 < m <= MAX_M,
            h.len() == k + m,
            j <= h.len(),
            rows@.len() <= k,
            rows@.len() == vals@.len(),
            rows@.len() == present(h, j as nat).len(),
            forall|r: int|
                0 <= r < rows@.len() ==> (#[trigger] rows@[r])@ == generator_row(
                    kk,
                    present(h, j as nat)[r],
                ),
            forall|r: int|
                0 <= r < vals@.len() ==> (#[trigger] vals@[r])@ == h[present(
                    h,
                    j as nat,
                )[r]]->0@,
        decreases h.len() - j,
    {
        match &have[j] {
            None => {},
            Some(b) => {
                let mut row: Vec<u8> = Vec::new();
                if j < k {
                    row = unit_row(k, j);
                } else {
                    for c in 0..k
                        invariant
                            k <= j < k + m,
                            m <= MAX_M,
                            k <= MAX_K,
                            kk == k,
                            row@.len() == c,
                            forall|d: int|
                                0 <= d < c ==> #[trigger] row@[d] == spec_coeff(j - k, d),
                    {
                        row.push(coeff_with(&t, j - k, c));
                    }
                    assert(row@ =~= generator_row(kk, j as int));
                }
                rows.push(row);
                vals.push(b);
            },
        }
        j += 1;
    }
    proof {
        lemma_present(h, h.len());
        lemma_present_extend(h, j as nat, h.len());
    }
    if rows.len() < k {
        return (Err(RsError::NotEnough(rows.len())), 0);
    }
    let ghost js = chosen(h, kk);
    proof {
        assert(js =~= present(h, j as nat));
        assert(seqs::views(rows@) =~= chosen_rows(h, kk));
        assert forall|r: int, s: int| 0 <= r < s < js.len() implies js[r] < js[s] by {
            let all = present(h, h.len());
            assert(js[r] == all[r] && js[s] == all[s]);
        }
        assert forall|r: int| 0 <= r < js.len() implies 0 <= #[trigger] js[r] < kk + m by {
            let all = present(h, h.len());
            assert(js[r] == all[r]);
        }
        law_any_k_rows_are_independent(kk, m as nat, js);
        assert(Seq::new(kk, |r: int| generator_row(kk, js[r])) =~= chosen_rows(h, kk));
    }
    let inv = match invert(rows, k) {
        Ok(inv) => inv,
        Err(e) => {
            return (Err(e), 0);
        },
    };
    let ghost gi = seqs::views(inv@);
    proof {
        assert forall|i: int| solution(h, kk, i) == linear::prod(gi, chosen_bytes(h, kk, i), kk) by {
            lemma_solution(h, kk, gi, i);
        }
        assert forall|i: int| #![trigger chosen_bytes(h, kk, i)] chosen_bytes(h, kk, i) == Seq::new(
            vals@.len(),
            |c: int| seqs::byte_of(vals@[c]@, i),
        ) by {
            assert(chosen_bytes(h, kk, i) =~= Seq::new(
                vals@.len(),
                |c: int| seqs::byte_of(vals@[c]@, i),
            ));
        }
    }
    // The length prefixes first: four indices, and they bound everything else.
    let mut supports: Vec<Vec<usize>> = Vec::new();
    let mut lens: Vec<usize> = Vec::new();
    let mut out: Vec<Vec<u8>> = Vec::new();
    let mut r: usize = 0;
    while r < k
        invariant
            r <= k,
            kk == k,
            h == have@,
            gi == seqs::views(inv@),
            linear::square(gi, kk),
            vals@.len() == k,
            forall|i: int| solution(h, kk, i) == linear::prod(gi, chosen_bytes(h, kk, i), kk),
            forall|i: int| #![trigger chosen_bytes(h, kk, i)]
                chosen_bytes(h, kk, i) == Seq::new(
                    vals@.len(),
                    |c: int| seqs::byte_of(vals@[c]@, i),
                ),
            supports@.len() == r,
            lens@.len() == r,
            out@.len() == r,
            forall|q: int| 0 <= q < r ==> covers((#[trigger] supports@[q])@, gi[q]),
            forall|q: int| 0 <= q < r ==> #[trigger] lens@[q] == stated_len(h, kk, q),
            forall|q: int|
                0 <= q < r ==> (#[trigger] out@[q])@ == Seq::new(
                    4,
                    |i: int| solution(h, kk, i)[q],
                ),
        decreases k - r,
    {
        let row = &inv[r];
        assert(row@ == gi[r as int]);
        let cols = support(row);
        let mut head: Vec<u8> = Vec::new();
        for i in 0..4usize
            invariant
                r < k,
                kk == k,
                row@ == gi[r as int],
                row@.len() == k,
                vals@.len() == k,
                covers(cols@, row@),
                forall|i: int| solution(h, kk, i) == linear::prod(gi, chosen_bytes(h, kk, i), kk),
                forall|i: int| #![trigger chosen_bytes(h, kk, i)]
                    chosen_bytes(h, kk, i) == Seq::new(
                        vals@.len(),
                        |c: int| seqs::byte_of(vals@[c]@, i),
                    ),
                head@.len() == i,
                forall|d: int| 0 <= d < i ==> #[trigger] head@[d] == solution(h, kk, d)[r as int],
        {
            let b = solve_byte(&t, row, &cols, &vals, i);
            assert(b == linear::prod(gi, chosen_bytes(h, kk, i as int), kk)[r as int]);
            assert(b == solution(h, kk, i as int)[r as int]);
            head.push(b);
        }
        let n = seqs::u32_at(&head, 0) as usize;
        assert(head@ =~= Seq::new(4, |i: int| solution(h, kk, i)[r as int]));
        supports.push(cols);
        lens.push(n);
        out.push(head);
        r += 1;
    }
    // No index past the prefixes is solved before every length has been bounded.
    let mut q: usize = 0;
    let top: usize = if max_len > usize::MAX - 4 {
        usize::MAX - 4
    } else {
        max_len
    };
    proof {
        lemma_stated_len(h, kk);
    }
    while q < k
        invariant
            q <= k,
            kk == k,
            lens@.len() == k,
            forall|s: int| 0 <= s < k ==> #[trigger] lens@[s] == stated_len(h, kk, s),
            top == ceiling(max_len),
            first_too_long(h, kk, top as int, 0) == first_too_long(h, kk, top as int, q as int),
            forall|s: int| 0 <= s < q ==> #[trigger] lens@[s] <= top,
            0 < k <= MAX_K,
            0 < m <= MAX_M,
            h == have@,
            h.len() == k + m,
            present(h, h.len()).len() >= k,
        decreases k - q,
    {
        if lens[q] > top {
            return (Err(RsError::MemberTooLong(lens[q])), 4);
        }
        q += 1;
    }
    // Then the rest of each symbol, up to where its own prefix says it ends.
    let mut full: Vec<Vec<u8>> = Vec::new();
    let mut columns: usize = 4;
    let mut s: usize = k;
    let ghost heads = out@;
    while s > 0
        invariant
            s <= k,
            kk == k,
            heads == out@,
            out@.len() == k,
            lens@.len() == k,
            forall|x: int| 0 <= x < k ==> #[trigger] lens@[x] == stated_len(h, kk, x),
            top <= usize::MAX - 4,
            forall|x: int| 0 <= x < k ==> #[trigger] lens@[x] <= top,
            columns == longest(h, kk, s as int),
            4 <= columns,
        decreases s,
    {
        s -= 1;
        assert(lens@[s as int] == stated_len(h, kk, s as int));
        if 4 + lens[s] > columns {
            columns = 4 + lens[s];
        }
    }
    let mut r: usize = 0;
    while r < k
        invariant
            r <= k,
            kk == k,
            h == have@,
            gi == seqs::views(inv@),
            linear::square(gi, kk),
            vals@.len() == k,
            heads == out@,
            forall|i: int| solution(h, kk, i) == linear::prod(gi, chosen_bytes(h, kk, i), kk),
            forall|i: int| #![trigger chosen_bytes(h, kk, i)]
                chosen_bytes(h, kk, i) == Seq::new(
                    vals@.len(),
                    |c: int| seqs::byte_of(vals@[c]@, i),
                ),
            supports@.len() == k,
            lens@.len() == k,
            out@.len() == k,
            full@.len() == r,
            forall|q: int| 0 <= q < k ==> covers((#[trigger] supports@[q])@, gi[q]),
            top <= usize::MAX - 4,
            forall|x: int| 0 <= x < k ==> #[trigger] lens@[x] <= top,
            forall|x: int| 0 <= x < k ==> #[trigger] lens@[x] == stated_len(h, kk, x),
            forall|q: int|
                0 <= q < k ==> (#[trigger] out@[q])@ == Seq::new(
                    4,
                    |i: int| solution(h, kk, i)[q],
                ),
            forall|q: int| 0 <= q < r ==> (#[trigger] full@[q])@ == rebuilt(h, kk, q),
        decreases k - r,
    {
        let row = &inv[r];
        assert(row@ == gi[r as int]);
        let cols = &supports[r];
        assert(*cols == supports@[r as int]);
        let mut whole: Vec<u8> = out[r].clone();
        assert(whole@ =~= out@[r as int]@);
        assert(lens@[r as int] == stated_len(h, kk, r as int));
        let end: usize = 4 + lens[r];
        let mut i: usize = 4;
        while i < end
            invariant
                4 <= i <= end,
                r < k,
                kk == k,
                row@ == gi[r as int],
                row@.len() == k,
                vals@.len() == k,
                covers(cols@, row@),
                forall|i: int| solution(h, kk, i) == linear::prod(gi, chosen_bytes(h, kk, i), kk),
                forall|i: int| #![trigger chosen_bytes(h, kk, i)]
                    chosen_bytes(h, kk, i) == Seq::new(
                        vals@.len(),
                        |c: int| seqs::byte_of(vals@[c]@, i),
                    ),
                whole@.len() == i,
                forall|d: int| 0 <= d < i ==> #[trigger] whole@[d] == solution(h, kk, d)[r as int],
            decreases end - i,
        {
            let b = solve_byte(&t, row, cols, &vals, i);
            assert(b == linear::prod(gi, chosen_bytes(h, kk, i as int), kk)[r as int]);
            assert(b == solution(h, kk, i as int)[r as int]);
            whole.push(b);
            i += 1;
        }
        assert(whole@ =~= rebuilt(h, kk, r as int));
        full.push(whole);
        r += 1;
    }
    assert(seqs::views(full@) =~= Seq::new(kk, |r: int| rebuilt(h, kk, r)));
    (Ok(full), columns)
}

/// A stated length is a number of four bytes.
proof fn lemma_stated_len(have: Seq<Option<Vec<u8>>>, k: nat)
    ensures
        forall|x: int| 0 <= #[trigger] stated_len(have, k, x) < 4294967296,
{
}

/// A symbol as the format defines it: a length prefix, then that many bytes.
pub open spec fn is_symbol(s: Seq<u8>) -> bool {
    s.len() >= 4 && s.len() == 4 + seqs::le32(s, 0)
}

/// The blocks of a coded group: block `j` is what the slot holds, if it holds one.
pub open spec fn slots_of(data: Seq<Seq<u8>>, m: nat, have: Seq<Option<Vec<u8>>>) -> bool {
    &&& have.len() == data.len() + m
    &&& forall|j: int|
        0 <= j < data.len() && have[j] is Some ==> (#[trigger] have[j])->0@ == data[j]
    &&& forall|j: int|
        data.len() <= j < have.len() && have[j] is Some ==> is_parity(
            data,
            j - data.len(),
            (#[trigger] have[j])->0@,
        )
}

/// Any `m` losses are repairable: from any `k` of the `k + m` blocks of a group,
/// [`repair`] gives back every data symbol, byte for byte.
pub proof fn law_any_m_losses_are_repairable(
    data: Seq<Seq<u8>>,
    k: usize,
    m: usize,
    have: Seq<Option<Vec<u8>>>,
    max_len: usize,
)
    requires
        k == data.len(),
        0 < k <= MAX_K,
        0 < m <= MAX_M,
        slots_of(data, m as nat, have),
        present(have, have.len()).len() >= k,
        forall|c: int| 0 <= c < k ==> is_symbol(#[trigger] data[c]) && data[c].len() <= 4 + ceiling(max_len),
    ensures
        repair_spec(k, m, have, max_len) == Ok::<Seq<Seq<u8>>, RsError>(data),
{
    let kk = k as nat;
    let js = chosen(have, kk);
    lemma_present(have, have.len());
    let all = present(have, have.len());
    assert forall|r: int, s: int| 0 <= r < s < js.len() implies js[r] < js[s] by {
        assert(js[r] == all[r] && js[s] == all[s]);
    }
    assert forall|r: int| 0 <= r < js.len() implies 0 <= #[trigger] js[r] < kk + m by {
        assert(js[r] == all[r]);
    }
    law_any_k_rows_are_independent(kk, m as nat, js);
    let a = chosen_rows(have, kk);
    assert(Seq::new(kk, |r: int| generator_row(kk, js[r])) =~= a);
    // The data columns agree with every chosen block, and independence makes any
    // column that does the only one.
    assert forall|i: int| 0 <= i implies #[trigger] solution(have, kk, i) == column(data, i) by {
        let d = column(data, i);
        assert(solves(have, kk, i, d)) by {
            assert forall|r: int| 0 <= r < kk implies linear::dot(
                generator_row(kk, #[trigger] js[r]),
                d,
                kk,
            ) == seqs::byte_of(have[js[r]]->0@, i) by {
                let j = js[r];
                assert(js[r] == all[r]);
                assert(have[j] is Some);
                if j < kk {
                    linear::lemma_dot_unit(d, kk, j);
                } else {
                    assert(is_parity(data, j - data.len(), have[j]->0@));
                    assert(seqs::byte_of(have[j]->0@, i) == coded_byte(
                        data,
                        data.len() + (j - data.len()),
                        i,
                    ));
                }
            }
        }
        let e = solution(have, kk, i);
        assert(solves(have, kk, i, e));
        lemma_kernel_unique(a, d, e, kk, chosen_bytes(have, kk, i), have, i);
    }
    assert forall|r: int| 0 <= r < kk implies #[trigger] stated_len(have, kk, r) == data[r].len()
        - 4 by {
        assert(is_symbol(data[r]));
        let p = seq![
            solution(have, kk, 0)[r],
            solution(have, kk, 1)[r],
            solution(have, kk, 2)[r],
            solution(have, kk, 3)[r],
        ];
        assert(p[0] == data[r][0] && p[1] == data[r][1] && p[2] == data[r][2] && p[3]
            == data[r][3]);
    }
    assert forall|r: int| 0 <= r < kk implies rebuilt(have, kk, r) == #[trigger] data[r] by {
        assert(stated_len(have, kk, r) == data[r].len() - 4);
        assert forall|i: int| 0 <= i < data[r].len() implies rebuilt(have, kk, r)[i]
            == data[r][i] by {
            assert(solution(have, kk, i) == column(data, i));
        }
        assert(rebuilt(have, kk, r) =~= data[r]);
    }
    lemma_none_too_long(have, kk, ceiling(max_len), 0);
    assert(Seq::new(kk, |r: int| rebuilt(have, kk, r)) =~= data);
}

proof fn lemma_none_too_long(have: Seq<Option<Vec<u8>>>, k: nat, max_len: int, r: int)
    requires
        0 <= r <= k,
        forall|x: int| 0 <= x < k ==> #[trigger] stated_len(have, k, x) <= max_len,
    ensures
        first_too_long(have, k, max_len, r) is None,
    decreases k - r,
{
    if r < k {
        lemma_none_too_long(have, k, max_len, r + 1);
    }
}

/// Two columns that a non-singular system maps alike are the same.
proof fn lemma_kernel_unique(
    a: Seq<Seq<u8>>,
    d: Seq<u8>,
    e: Seq<u8>,
    k: nat,
    y: Seq<u8>,
    have: Seq<Option<Vec<u8>>>,
    i: int,
)
    requires
        a == chosen_rows(have, k),
        !linear::singular(a, k),
        solves(have, k, i, d),
        solves(have, k, i, e),
    ensures
        d == e,
{
    let v = linear::added(d, e, 1);
    let js = chosen(have, k);
    assert(linear::prod(a, v, k) =~= linear::zeros(k)) by {
        assert forall|r: int| 0 <= r < k implies linear::prod(a, v, k)[r] == 0 by {
            let row = generator_row(k, js[r]);
            linear::lemma_dot_comm(row, v, k);
            linear::lemma_dot_added(d, e, 1, row, k);
            linear::lemma_dot_comm(row, d, k);
            linear::lemma_dot_comm(row, e, k);
            gf::lemma_mul_unit(linear::dot(e, row, k));
            gf::lemma_xor(linear::dot(d, row, k), linear::dot(e, row, k), 0);
        }
    }
    assert(v == linear::zeros(k));
    assert(d =~= e) by {
        assert forall|c: int| 0 <= c < k implies d[c] == e[c] by {
            assert(v[c] == 0);
            gf::lemma_mul_unit(e[c]);
            gf::lemma_xor(d[c], e[c], 0);
        }
    }
}

/// A rebuilt symbol holds at least its length.
pub proof fn lemma_rebuilt_len(
    have: Seq<Option<Vec<u8>>>,
    k: usize,
    m: usize,
    max_len: usize,
    r: int,
)
    requires
        repair_spec(k, m, have, max_len) is Ok,
        0 <= r < k,
    ensures
        repair_spec(k, m, have, max_len)->Ok_0[r].len() >= 4,
{
}

} // verus!
