//! Token sequences: shared prefixes and the lexicographic order.
use vstd::prelude::*;

verus! {

/// Length of the longest prefix `a` and `b` share.
pub open spec fn lcp(a: Seq<i32>, b: Seq<i32>) -> nat
    decreases a.len(),
{
    if a.len() > 0 && b.len() > 0 && a[0] == b[0] {
        1 + lcp(a.skip(1), b.skip(1))
    } else {
        0
    }
}

/// `a` sorts before `b` or equals it, a prefix before its extensions.
pub open spec fn lex_le(a: Seq<i32>, b: Seq<i32>) -> bool {
    let n = lcp(a, b) as int;
    n == a.len() || (n < b.len() && a[n] < b[n])
}

/// The prefix length is the one position up to which both agree and at which
/// one of them ends or they differ.
pub proof fn lemma_lcp(a: Seq<i32>, b: Seq<i32>)
    ensures
        lcp(a, b) <= a.len(),
        lcp(a, b) <= b.len(),
        a.take(lcp(a, b) as int) == b.take(lcp(a, b) as int),
        forall|i: int| 0 <= i < lcp(a, b) ==> a[i] == b[i],
        lcp(a, b) < a.len() && lcp(a, b) < b.len() ==> a[lcp(a, b) as int] != b[lcp(a, b) as int],
    decreases a.len(),
{
    if a.len() > 0 && b.len() > 0 && a[0] == b[0] {
        let (x, y) = (a.skip(1), b.skip(1));
        lemma_lcp(x, y);
        let n = lcp(x, y) as int;
        assert forall|i: int| 0 <= i < n + 1 implies a[i] == b[i] by {
            if i > 0 {
                assert(x[i - 1] == y[i - 1]);
            }
        }
        if n < x.len() && n < y.len() {
            assert(x[n] == a[n + 1] && y[n] == b[n + 1]);
        }
    }
    assert(a.take(lcp(a, b) as int) =~= b.take(lcp(a, b) as int));
}

/// A shared prefix is never longer than `lcp`, and one that stops at an end or
/// a difference is `lcp`.
pub proof fn lemma_lcp_bound(a: Seq<i32>, b: Seq<i32>, n: int)
    requires
        0 <= n <= a.len(),
        n <= b.len(),
        forall|i: int| 0 <= i < n ==> a[i] == b[i],
    ensures
        n <= lcp(a, b),
        (n == a.len() || n == b.len() || a[n] != b[n]) ==> n == lcp(a, b),
{
    lemma_lcp(a, b);
}

pub proof fn lemma_lcp_symmetric(a: Seq<i32>, b: Seq<i32>)
    ensures
        lcp(a, b) == lcp(b, a),
{
    lemma_lcp(a, b);
    lemma_lcp_bound(b, a, lcp(a, b) as int);
}

/// `m` tokens are shared where the first `m` are equal, and no longer prefix is
/// equal than the one that is shared.
pub proof fn lemma_shared(a: Seq<i32>, b: Seq<i32>, m: int)
    requires
        0 <= m <= a.len(),
        m <= b.len(),
    ensures
        a.take(m) == b.take(m) <==> m <= lcp(a, b),
{
    lemma_lcp(a, b);
    if a.take(m) == b.take(m) {
        assert forall|i: int| 0 <= i < m implies a[i] == b[i] by {
            assert(a.take(m)[i] == b.take(m)[i]);
        }
        lemma_lcp_bound(a, b, m);
    }
    if m <= lcp(a, b) {
        assert(a.take(m) =~= b.take(m));
    }
}

/// A prompt sorted between two others shares with both whatever they share.
pub proof fn lemma_between(a: Seq<i32>, b: Seq<i32>, c: Seq<i32>)
    requires
        lex_le(a, b),
        lex_le(b, c),
    ensures
        lcp(a, c) <= lcp(a, b),
        lcp(a, c) <= lcp(b, c),
        lex_le(a, c),
{
    lemma_lcp(a, b);
    lemma_lcp(b, c);
    lemma_lcp(a, c);
    let (x, y) = (lcp(a, b) as int, lcp(b, c) as int);
    let n = if x < y { x } else { y };
    assert forall|i: int| 0 <= i < n implies a[i] == c[i] by {}
    lemma_lcp_bound(a, c, n);
    let z = lcp(a, c) as int;
    if z > x {
        assert(a[x] == c[x]);
    }
    if z > y {
        assert(a[y] == c[y]);
    }
}

pub proof fn lemma_lex_antisymmetric(a: Seq<i32>, b: Seq<i32>)
    requires
        lex_le(a, b),
        lex_le(b, a),
    ensures
        a == b,
{
    lemma_lcp(a, b);
    lemma_lcp_symmetric(a, b);
    assert(a.take(a.len() as int) =~= a);
    assert(b.take(b.len() as int) =~= b);
}

pub proof fn lemma_lex_total(a: Seq<i32>, b: Seq<i32>)
    ensures
        lex_le(a, b) || lex_le(b, a),
        lex_le(a, a),
{
    lemma_lcp(a, b);
    lemma_lcp_symmetric(a, b);
    lemma_lcp_bound(a, a, a.len() as int);
}

/// Length of the common prefix of two token sequences.
pub fn common(a: &[i32], b: &[i32]) -> (n: usize)
    ensures
        n == lcp(a@, b@),
{
    let mut i: usize = 0;
    while i < a.len() && i < b.len() && a[i] == b[i]
        invariant
            i <= a@.len(),
            i <= b@.len(),
            forall|k: int| 0 <= k < i ==> a@[k] == b@[k],
        decreases a@.len() - i,
    {
        i += 1;
    }
    proof {
        lemma_lcp_bound(a@, b@, i as int);
    }
    i
}

/// Whether `a` begins with `p`.
pub fn starts_with(a: &[i32], p: &[i32]) -> (r: bool)
    ensures
        r <==> p@.is_prefix_of(a@),
{
    let n: usize = common(a, p);
    proof {
        lemma_lcp(a@, p@);
        if p@.is_prefix_of(a@) {
            assert forall|i: int| 0 <= i < p@.len() implies a@[i] == p@[i] by {
                assert(a@.subrange(0, p@.len() as int)[i] == a@[i]);
            }
            lemma_lcp_bound(a@, p@, p@.len() as int);
        }
        if n == p@.len() {
            assert(p@ =~= a@.subrange(0, p@.len() as int));
        }
    }
    n == p.len()
}

/// Whether two token sequences are equal.
pub fn same(a: &[i32], b: &[i32]) -> (r: bool)
    ensures
        r <==> a@ == b@,
{
    let n: usize = common(a, b);
    proof {
        lemma_lcp(a@, b@);
        if a@ == b@ {
            lemma_lcp_bound(a@, b@, a@.len() as int);
        } else if n == a@.len() && n == b@.len() {
            assert(a@ =~= b@);
        }
    }
    a.len() == b.len() && n == a.len()
}

/// Whether `a` sorts before `b` or equals it.
pub fn sorts_before(a: &[i32], b: &[i32]) -> (r: bool)
    ensures
        r <==> lex_le(a@, b@),
{
    let n: usize = common(a, b);
    proof {
        lemma_lcp(a@, b@);
    }
    n == a.len() || (n < b.len() && a[n] < b[n])
}

} // verus!
