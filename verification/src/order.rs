//! The order of keys: byte strings, compared byte by byte.

use vstd::prelude::*;

verus! {

/// How one byte string stands to another.
#[derive(Clone, Copy, Debug, PartialEq, Eq, Structural)]
pub enum Side {
    Less,
    Equal,
    Greater,
}

/// `a` comes before `b`, given that they agree before index `i`.
pub open spec fn lt_from(a: Seq<u8>, b: Seq<u8>, i: int) -> bool
    decreases b.len() - i,
{
    if i >= b.len() {
        false
    } else if i >= a.len() {
        true
    } else if a[i] != b[i] {
        a[i] < b[i]
    } else {
        lt_from(a, b, i + 1)
    }
}

/// `a` comes before `b`: at the first byte where they differ it is smaller, or it
/// ends there.
#[verifier::opaque]
pub open spec fn lt(a: Seq<u8>, b: Seq<u8>) -> bool {
    lt_from(a, b, 0)
}

/// `a` comes before `b` or is `b`.
pub open spec fn le(a: Seq<u8>, b: Seq<u8>) -> bool {
    a == b || lt(a, b)
}

/// Each key comes before the next.
pub open spec fn increasing(keys: Seq<Seq<u8>>) -> bool {
    forall|i: int, j: int| 0 <= i < j < keys.len() ==> lt(keys[i], keys[j])
}

proof fn lemma_lt_from_irreflexive(a: Seq<u8>, i: int)
    ensures
        !lt_from(a, a, i),
    decreases a.len() - i,
{
    if i < a.len() {
        lemma_lt_from_irreflexive(a, i + 1);
    }
}

/// No byte string comes before itself.
pub proof fn lemma_lt_irreflexive(a: Seq<u8>)
    ensures
        !lt(a, a),
{
    reveal(lt);
    lemma_lt_from_irreflexive(a, 0);
}

proof fn lemma_lt_from_trans(a: Seq<u8>, b: Seq<u8>, c: Seq<u8>, i: int)
    requires
        lt_from(a, b, i),
        lt_from(b, c, i),
    ensures
        lt_from(a, c, i),
    decreases c.len() - i,
{
    if i < a.len() && i < b.len() && i < c.len() && a[i] == b[i] && b[i] == c[i] {
        lemma_lt_from_trans(a, b, c, i + 1);
    }
}

/// The order is transitive.
pub proof fn lemma_lt_trans(a: Seq<u8>, b: Seq<u8>, c: Seq<u8>)
    requires
        lt(a, b),
        lt(b, c),
    ensures
        lt(a, c),
{
    reveal(lt);
    lemma_lt_from_trans(a, b, c, 0);
}

proof fn lemma_lt_from_total(a: Seq<u8>, b: Seq<u8>, i: int)
    requires
        0 <= i,
        i <= a.len(),
        i <= b.len(),
        forall|j: int| 0 <= j < i ==> a[j] == b[j],
    ensures
        lt_from(a, b, i) || lt_from(b, a, i) || a == b,
        !(lt_from(a, b, i) && lt_from(b, a, i)),
    decreases b.len() - i,
{
    if i < a.len() && i < b.len() && a[i] == b[i] {
        lemma_lt_from_total(a, b, i + 1);
    } else if i >= a.len() && i >= b.len() {
        assert(a =~= b);
    }
}

/// Exactly one of before, equal and after holds.
pub proof fn lemma_lt_total(a: Seq<u8>, b: Seq<u8>)
    ensures
        lt(a, b) || lt(b, a) || a == b,
        !(lt(a, b) && lt(b, a)),
        lt(a, b) ==> a != b,
{
    reveal(lt);
    lemma_lt_from_total(a, b, 0);
    lemma_lt_irreflexive(a);
}

/// Before-or-equal chains with before, and with itself.
pub proof fn lemma_le_trans(a: Seq<u8>, b: Seq<u8>, c: Seq<u8>)
    ensures
        le(a, b) && le(b, c) ==> le(a, c),
        le(a, b) && lt(b, c) ==> lt(a, c),
        lt(a, b) && le(b, c) ==> lt(a, c),
        le(a, b) <==> !lt(b, a),
{
    if lt(a, b) && lt(b, c) {
        lemma_lt_trans(a, b, c);
    }
    lemma_lt_total(a, b);
}

/// The empty string comes first.
pub proof fn lemma_empty_first(a: Seq<u8>)
    ensures
        le(Seq::<u8>::empty(), a),
        !lt(a, Seq::<u8>::empty()),
{
    reveal(lt);
    if a.len() == 0 {
        assert(a =~= Seq::<u8>::empty());
    }
}

proof fn lemma_lt_from_shift(p: Seq<u8>, a: Seq<u8>, b: Seq<u8>, i: int)
    requires
        0 <= i,
    ensures
        lt_from(p + a, p + b, p.len() + i) == lt_from(a, b, i),
    decreases b.len() - i,
{
    let pa = p + a;
    let pb = p + b;
    if i < b.len() && i < a.len() {
        assert(pa[p.len() + i] == a[i]);
        assert(pb[p.len() + i] == b[i]);
        lemma_lt_from_shift(p, a, b, i + 1);
    }
}

proof fn lemma_lt_from_skip(a: Seq<u8>, b: Seq<u8>, i: int, n: int)
    requires
        0 <= i <= n,
        n <= a.len(),
        n <= b.len(),
        forall|j: int| i <= j < n ==> a[j] == b[j],
    ensures
        lt_from(a, b, i) == lt_from(a, b, n),
    decreases n - i,
{
    if i < n {
        lemma_lt_from_skip(a, b, i + 1, n);
    }
}

/// A shared prefix does not change the order.
pub proof fn lemma_lt_prefix(p: Seq<u8>, a: Seq<u8>, b: Seq<u8>)
    ensures
        lt(p + a, p + b) == lt(a, b),
        (p + a == p + b) == (a == b),
{
    reveal(lt);
    lemma_lt_from_skip(p + a, p + b, 0, p.len() as int);
    lemma_lt_from_shift(p, a, b, 0);
    if p + a == p + b {
        assert(a =~= (p + a).subrange(p.len() as int, (p + a).len() as int));
        assert(b =~= (p + b).subrange(p.len() as int, (p + b).len() as int));
    }
}

/// The first difference decides.
pub proof fn lemma_lt_at(a: Seq<u8>, b: Seq<u8>, n: int)
    requires
        0 <= n,
        n <= a.len(),
        n <= b.len(),
        forall|j: int| 0 <= j < n ==> a[j] == b[j],
    ensures
        n < a.len() && n < b.len() && a[n] < b[n] ==> lt(a, b),
        n == a.len() && n < b.len() ==> lt(a, b),
        n == b.len() ==> !lt(a, b),
        n < a.len() && n < b.len() && a[n] > b[n] ==> lt(b, a),
{
    reveal(lt);
    lemma_lt_from_skip(a, b, 0, n);
    lemma_lt_from_skip(b, a, 0, n);
}

/// Are the two byte strings the same?
pub fn same(a: &[u8], b: &[u8]) -> (r: bool)
    ensures
        r == (a@ == b@),
{
    let n = a.len();
    if n != b.len() {
        return false;
    }
    let mut i: usize = 0;
    while i < n
        invariant
            i <= n,
            n == a@.len(),
            n == b@.len(),
            forall|j: int| 0 <= j < i ==> a@[j] == b@[j],
        decreases n - i,
    {
        if a[i] != b[i] {
            return false;
        }
        i += 1;
    }
    assert(a@ =~= b@);
    true
}

/// How `a` stands to `b`.
pub fn side(a: &[u8], b: &[u8]) -> (s: Side)
    ensures
        match s {
            Side::Less => lt(a@, b@),
            Side::Equal => a@ == b@,
            Side::Greater => lt(b@, a@),
        },
{
    let n = if a.len() < b.len() {
        a.len()
    } else {
        b.len()
    };
    let mut i: usize = 0;
    while i < n
        invariant
            i <= n,
            n <= a@.len(),
            n <= b@.len(),
            forall|j: int| 0 <= j < i ==> a@[j] == b@[j],
        decreases n - i,
    {
        let x = a[i];
        let y = b[i];
        if x != y {
            proof {
                lemma_lt_at(a@, b@, i as int);
            }
            if x < y {
                return Side::Less;
            }
            return Side::Greater;
        }
        i += 1;
    }
    proof {
        lemma_lt_at(a@, b@, n as int);
        lemma_lt_at(b@, a@, n as int);
    }
    if a.len() < b.len() {
        Side::Less
    } else if b.len() < a.len() {
        Side::Greater
    } else {
        assert(a@ =~= b@);
        Side::Equal
    }
}

/// Does `a` come before `b`?
pub fn before(a: &[u8], b: &[u8]) -> (r: bool)
    ensures
        r == lt(a@, b@),
{
    proof {
        lemma_lt_total(a@, b@);
        lemma_lt_irreflexive(a@);
    }
    match side(a, b) {
        Side::Less => true,
        _ => false,
    }
}

/// How many leading bytes two strings share.
pub open spec fn shared_len(a: Seq<u8>, b: Seq<u8>, i: int) -> int
    decreases a.len() - i,
{
    if i < a.len() && i < b.len() && a[i] == b[i] {
        shared_len(a, b, i + 1)
    } else {
        i
    }
}

pub proof fn lemma_shared_len(a: Seq<u8>, b: Seq<u8>, i: int)
    requires
        0 <= i,
        i <= a.len(),
        i <= b.len(),
        forall|j: int| 0 <= j < i ==> a[j] == b[j],
    ensures
        ({
            let n = shared_len(a, b, i);
            &&& i <= n <= a.len()
            &&& n <= b.len()
            &&& a.take(n) == b.take(n)
            &&& forall|j: int| 0 <= j < n ==> a[j] == b[j]
            &&& n < a.len() && n < b.len() ==> a[n] != b[n]
        }),
    decreases a.len() - i,
{
    if i < a.len() && i < b.len() && a[i] == b[i] {
        lemma_shared_len(a, b, i + 1);
    } else {
        assert(a.take(i) =~= b.take(i));
    }
}

/// The shared length is the one at which the strings agree and then do not.
pub proof fn lemma_shared_len_is(a: Seq<u8>, b: Seq<u8>, n: int)
    requires
        0 <= n <= a.len(),
        n <= b.len(),
        forall|j: int| 0 <= j < n ==> a[j] == b[j],
        n < a.len() && n < b.len() ==> a[n] != b[n],
    ensures
        shared_len(a, b, 0) == n,
{
    lemma_shared_len(a, b, 0);
    let m = shared_len(a, b, 0);
    if m < n {
        assert(a[m] == b[m]);
    }
    if n < m {
        assert(a[n] == b[n]);
    }
}

/// How many leading bytes two strings share.
pub fn shared(a: &[u8], b: &[u8]) -> (n: usize)
    ensures
        n == shared_len(a@, b@, 0),
        n <= a@.len(),
        n <= b@.len(),
{
    let mut i: usize = 0;
    while i < a.len() && i < b.len() && a[i] == b[i]
        invariant
            i <= a@.len(),
            i <= b@.len(),
            shared_len(a@, b@, 0) == shared_len(a@, b@, i as int),
        decreases a@.len() - i,
    {
        i += 1;
    }
    i
}

} // verus!
