//! Double-precision numbers held by their bits: sign, exponent, fraction. They
//! are computed elsewhere; here they are compared.
use vstd::prelude::*;

verus! {

/// The sign bit.
pub const SIGN: u64 = 0x8000_0000_0000_0000;

/// Infinity, the largest magnitude that is a number.
pub const INF: u64 = 0x7ff0_0000_0000_0000;

/// Ten.
pub const TEN: u64 = 0x4024_0000_0000_0000;

/// A half.
pub const HALF: u64 = 0x3fe0_0000_0000_0000;

/// The bits but for the sign.
pub open spec fn magnitude(b: u64) -> int {
    if b >= SIGN {
        b - SIGN
    } else {
        b as int
    }
}

/// Not a number.
pub open spec fn nan(b: u64) -> bool {
    magnitude(b) > INF
}

/// An integer that orders numbers as their values do: bits of one sign order
/// by magnitude, and both zeros are one.
pub open spec fn rank(b: u64) -> int {
    if b >= SIGN {
        -magnitude(b)
    } else {
        magnitude(b)
    }
}

/// `a < b`: false where either is not a number.
pub open spec fn lt(a: u64, b: u64) -> bool {
    !nan(a) && !nan(b) && rank(a) < rank(b)
}

/// `a <= b`: false where either is not a number.
pub open spec fn le(a: u64, b: u64) -> bool {
    !nan(a) && !nan(b) && rank(a) <= rank(b)
}

fn is_nan(b: u64) -> (r: bool)
    ensures
        r == nan(b),
{
    if b >= SIGN {
        b - SIGN > INF
    } else {
        b > INF
    }
}

fn rank_of(b: u64) -> (r: i128)
    ensures
        r == rank(b),
{
    if b >= SIGN {
        -((b - SIGN) as i128)
    } else {
        b as i128
    }
}

pub fn less(a: u64, b: u64) -> (r: bool)
    ensures
        r == lt(a, b),
{
    !is_nan(a) && !is_nan(b) && rank_of(a) < rank_of(b)
}

pub fn at_most(a: u64, b: u64) -> (r: bool)
    ensures
        r == le(a, b),
{
    !is_nan(a) && !is_nan(b) && rank_of(a) <= rank_of(b)
}

/// A number and the text it prints as.
pub struct Num {
    pub bits: u64,
    pub text: String,
}

/// Place of the greatest number, the last of equals.
pub open spec fn is_best(v: Seq<u64>, i: int) -> bool {
    &&& 0 <= i < v.len()
    &&& forall|j: int| 0 <= j < v.len() ==> rank(#[trigger] v[j]) <= rank(v[i])
    &&& forall|j: int| i < j < v.len() ==> rank(#[trigger] v[j]) < rank(v[i])
}

/// Place of the greatest number, the last of equals; 0 where there is none.
pub open spec fn best_at(v: Seq<u64>) -> int
    decreases v.len(),
{
    if v.len() <= 1 {
        0
    } else {
        let b = best_at(v.drop_last());
        if rank(v.last()) >= rank(v[b]) {
            v.len() - 1
        } else {
            b
        }
    }
}

/// Nothing beats the best, and nothing after it equals it.
pub proof fn law_best(v: Seq<u64>)
    requires
        v.len() > 0,
    ensures
        is_best(v, best_at(v)),
        forall|i: int| #[trigger] is_best(v, i) ==> i == best_at(v),
    decreases v.len(),
{
    if v.len() > 1 {
        let d = v.drop_last();
        law_best(d);
        let (b, r) = (best_at(d), best_at(v));
        assert(d[b] == v[b]);
        assert forall|j: int| 0 <= j < v.len() implies rank(#[trigger] v[j]) <= rank(v[r]) by {
            if j < d.len() {
                assert(rank(d[j]) <= rank(d[b]));
            }
        }
        assert forall|j: int| r < j < v.len() implies rank(#[trigger] v[j]) < rank(v[r]) by {
            if j < d.len() {
                assert(rank(d[j]) < rank(d[b]));
            }
        }
    }
    let r = best_at(v);
    assert forall|i: int| #[trigger] is_best(v, i) implies i == r by {
        if i < r {
            assert(rank(v[r]) < rank(v[i]));
            assert(rank(v[i]) <= rank(v[r]));
        } else if r < i {
            assert(rank(v[i]) < rank(v[r]));
            assert(rank(v[r]) <= rank(v[i]));
        }
    }
}

/// Place of the greatest number, the last of equals; 0 where there is none.
pub fn best(v: &Vec<u64>) -> (r: usize)
    ensures
        r == best_at(v@),
        v@.len() > 0 ==> r < v@.len(),
{
    let mut r: usize = 0;
    let mut i: usize = 1;
    proof {
        if v@.len() > 0 {
            assert(v@.take(1).len() == 1);
        }
    }
    while i < v.len()
        invariant
            1 <= i,
            v@.len() > 0 ==> i <= v@.len() && r == best_at(v@.take(i as int)) && r < i,
            v@.len() == 0 ==> r == 0,
        decreases v@.len() - i,
    {
        proof {
            assert(v@.take(i + 1).drop_last() =~= v@.take(i as int));
            assert(v@.take(i + 1).last() == v@[i as int]);
            assert(v@.take(i + 1)[r as int] == v@[r as int]);
        }
        if rank_of(v[i]) >= rank_of(v[r]) {
            r = i;
        }
        i += 1;
    }
    proof {
        if v@.len() > 0 {
            assert(v@.take(i as int) =~= v@);
        }
    }
    r
}

/// Numbers order as their ranks: exactly one of less, equal in rank, and
/// greater holds of two numbers.
pub proof fn law_trichotomy(a: u64, b: u64)
    requires
        !nan(a),
        !nan(b),
    ensures
        lt(a, b) || lt(b, a) || rank(a) == rank(b),
        !(lt(a, b) && lt(b, a)),
        lt(a, b) ==> le(a, b),
        le(a, b) <==> !lt(b, a),
{
}

/// Numbers order by their bits: of one sign by magnitude, the negative ones the
/// other way round, and below all that are not. Both zeros are equal, and what
/// is no number compares with nothing.
pub proof fn law_order(a: u64, b: u64)
    ensures
        a < SIGN && b < SIGN ==> (rank(a) < rank(b) <==> a < b),
        a >= SIGN && b >= SIGN ==> (rank(a) < rank(b) <==> a > b),
        a > SIGN && b < SIGN ==> rank(a) < rank(b),
        rank(SIGN) == rank(0),
        !nan(a) && !nan(b) ==> (lt(a, b) <==> rank(a) < rank(b)) && (le(a, b) <==> rank(a) <= rank(b)),
        nan(a) || nan(b) ==> !lt(a, b) && !le(a, b),
        a <= 0x7ff0_0000_0000_0000 ==> !nan(a),
        0x7ff0_0000_0000_0000 < a < SIGN ==> nan(a),
{
}

} // verus!
