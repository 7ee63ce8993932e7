//! Post-hoc temperature scaling: one temperature per question type, fitted on
//! labeled cases. Numbers are computed elsewhere; here is which rows supervise
//! which temperature, how rows are held out and resampled, and what a
//! calibration file says.
//!
//! A calibration file binds to a model and a prompt format: the temperatures are
//! only meaningful for the exact model and prompt format they were fit on.
use vstd::prelude::*;
use vstd::slice::slice_to_vec;

use crate::group;
use crate::group::{Group, Named};
use crate::num;
use crate::prompts::{ABSTAIN, PROMPT_VERSION};
use crate::schema;
use crate::text;
use crate::value;
use crate::value::{Json, Value};

verus! {

/// Rows that a temperature is fitted on at least.
pub const MIN_SAMPLES: usize = 4;

/// Folds that rows are held out in.
pub const FOLDS: usize = 5;

/// Resamples that an interval is drawn from.
pub const BOOT: usize = 1000;

/// Places of the interval's ends among the ordered resamples.
pub const LOW: usize = 25;

pub const HIGH: usize = 975;

/// The type whose temperature a question type shares.
pub open spec fn bucket_name(t: Seq<char>) -> Seq<char> {
    if t == "noul"@ {
        "boolean"@
    } else {
        t
    }
}

/// noul and boolean share mechanics; expanded choice probes are booleans.
pub fn bucket<'a>(qtype: &'a str) -> (r: &'a str)
    ensures
        r@ == bucket_name(qtype@),
{
    if text::same(qtype, "noul") {
        "boolean"
    } else {
        qtype
    }
}

/// The FNV-1a hash of bytes.
pub open spec fn fnv(b: Seq<u8>) -> u64
    decreases b.len(),
{
    if b.len() == 0 {
        0xcbf29ce484222325
    } else {
        (fnv(b.drop_last()) ^ (b.last() as u64)).wrapping_mul(0x100000001b3)
    }
}

/// The fold of a case, by its name alone.
pub open spec fn fold_named(id: Seq<char>) -> int {
    fnv(vstd::utf8::encode_utf8("snap-fold/"@ + id)) as int % FOLDS as int
}

/// FNV-1a: stable fold assignment independent of case order: rows of the
/// same case (its variants too) share the id and never leak across folds.
pub fn fold_of(id: &str) -> (r: usize)
    ensures
        r == fold_named(id@),
        r < FOLDS,
{
    let s: String = "snap-fold/".to_owned().concat(id);
    let b: &[u8] = s.as_str().as_bytes();
    let mut h: u64 = 0xcbf29ce484222325;
    let mut i: usize = 0;
    proof {
        assert(b@.take(0) =~= Seq::empty());
    }
    while i < b.len()
        invariant
            i <= b@.len(),
            h == fnv(b@.take(i as int)),
        decreases b@.len() - i,
    {
        proof {
            assert(b@.take(i + 1).drop_last() =~= b@.take(i as int));
            assert(b@.take(i + 1).last() == b@[i as int]);
        }
        h = (h ^ (b[i] as u64)).wrapping_mul(0x100000001b3);
        i += 1;
    }
    proof {
        assert(b@.take(i as int) =~= b@);
    }
    (h % 5) as usize
}

/// One more ASCII character is one more byte.
proof fn lemma_encode_push(s: Seq<char>, c: char)
    requires
        c <= '\u{7f}',
    ensures
        vstd::utf8::encode_utf8(s.push(c)) == vstd::utf8::encode_utf8(s).push(c as u8),
    decreases s.len(),
{
    if s.len() == 0 {
        let one = s.push(c);
        assert(vstd::utf8::is_ascii_chars(one));
        vstd::utf8::is_ascii_chars_encode_utf8(one);
        assert(one[0] == c);
        assert(vstd::utf8::encode_utf8(one) =~= vstd::utf8::encode_utf8(s).push(c as u8));
    } else {
        lemma_encode_push(s.drop_first(), c);
        assert(s.push(c).drop_first() =~= s.drop_first().push(c));
        assert(vstd::utf8::encode_utf8(s.push(c)) =~= vstd::utf8::encode_utf8(s).push(c as u8));
    }
}

/// The name `s`, numbered with a digit.
pub open spec fn numbered(s: Seq<char>, i: nat) -> Seq<char> {
    s + text::digits(i)
}

/// What FNV-1a makes of a state and a byte.
spec fn mixed(h: u64, b: u64) -> u64 {
    (h ^ b).wrapping_mul(0x100000001b3)
}

proof fn lemma_numbered(s: Seq<char>, i: nat)
    requires
        i < 4,
    ensures
        fold_named(numbered(s, i)) == mixed(fnv(vstd::utf8::encode_utf8("snap-fold/"@ + s)), 0x30u64 | (i as u64)) as int
            % FOLDS as int,
{
    let c = text::digit(i);
    let t = "snap-fold/"@ + s;
    assert("snap-fold/"@ + numbered(s, i) =~= t.push(c));
    lemma_encode_push(t, c);
    let b = vstd::utf8::encode_utf8(t);
    assert(b.push(c as u8).drop_last() =~= b);
    assert((c as u8) as u64 == 0x30 + i);
    let k = i as u64;
    assert(0x30u64 | k == 0x30 + k) by (bit_vector)
        requires
            k < 4,
    ;
}

/// Of three numbers in a row, FNV-1a's factor sends two next to each other to different
/// folds: only a step that wraps leaves the fold as it is, and no two in a row do.
proof fn lemma_fold_steps(x: u64)
    requires
        x <= u64::MAX - 2,
    ensures
        ({
            let f = |n: int| (((n as u64).wrapping_mul(0x100000001b3)) as int) % 5;
            f(x as int) != f(x + 1) || f(x + 1) != f(x + 2)
        }),
{
    let p = 0x100000001b3int;
    let r = 0x1_0000_0000_0000_0000int;
    let (a, b, c) = ((x * p) % r, ((x + 1) * p) % r, ((x + 2) * p) % r);
    assert((x + 1) * p == x * p + p);
    assert((x + 2) * p == x * p + 2 * p);
    assert(b == if a + p < r {
        a + p
    } else {
        a + p - r
    });
    assert(c == if b + p < r {
        b + p
    } else {
        b + p - r
    });
}

/// Names that differ in a last digit from 0 to 3 do not all share a fold, whatever
/// comes before it.
pub proof fn law_folds_spread(s: Seq<char>)
    ensures
        exists|i: nat, j: nat|
            i < 4 && j < 4 && #[trigger] fold_named(numbered(s, i)) != #[trigger] fold_named(numbered(s, j)),
{
    let h = fnv(vstd::utf8::encode_utf8("snap-fold/"@ + s));
    let g = h ^ 0x30u64;
    let low = g & 3u64;
    let x = g & !3u64;
    let (i, j, k) = (low, low ^ 1u64, low ^ 2u64);
    assert(i < 4 && j < 4 && k < 4 && x <= 0xffff_ffff_ffff_fffc && (h ^ (0x30u64 | i)) == x && (h ^ (0x30u64 | j)) == x + 1
        && (h ^ (0x30u64 | k)) == x + 2) by (bit_vector)
        requires
            g == h ^ 0x30u64,
            low == g & 3u64,
            x == g & !3u64,
            i == low,
            j == low ^ 1u64,
            k == low ^ 2u64,
    ;
    lemma_numbered(s, i as nat);
    lemma_numbered(s, j as nat);
    lemma_numbered(s, k as nat);
    lemma_fold_steps(x);
    assert(fold_named(numbered(s, i as nat)) != fold_named(numbered(s, j as nat)) || fold_named(numbered(s, j as nat))
        != fold_named(numbered(s, k as nat)));
}

/// The cases numbered from 0 to 39 fall into at least two folds.
pub proof fn law_forty_cases_spread()
    ensures
        exists|i: nat, j: nat|
            i < 40 && j < 40 && #[trigger] fold_named(numbered("case-"@, i)) != #[trigger] fold_named(
                numbered("case-"@, j),
            ),
{
    law_folds_spread("case-"@);
}

/// The state after a step of xorshift64*.
pub open spec fn stepped(x: u64) -> u64 {
    let a = x ^ (x >> 12);
    let b = a ^ (a << 25);
    b ^ (b >> 27)
}

/// What a state gives.
pub open spec fn drawn(x: u64) -> u64 {
    x.wrapping_mul(0x2545f4914f6cdd1d)
}

/// xorshift64*: tiny deterministic generator for the bootstrap.
pub struct Rng {
    pub state: u64,
}

impl Rng {
    /// A generator from a seed, never stuck at zero.
    pub fn new(seed: u64) -> (r: Rng)
        ensures
            r.state == seed | 1,
    {
        Rng { state: seed | 1 }
    }

    pub fn next(&mut self) -> (r: u64)
        ensures
            final(self).state == stepped(old(self).state),
            r == drawn(stepped(old(self).state)),
    {
        let mut x: u64 = self.state;
        x = x ^ (x >> 12);
        x = x ^ (x << 25);
        x = x ^ (x >> 27);
        self.state = x;
        x.wrapping_mul(0x2545f4914f6cdd1d)
    }

    /// A number below `n`; 0 where there is none.
    pub fn below(&mut self, n: usize) -> (r: usize)
        ensures
            final(self).state == stepped(old(self).state),
            r == drawn(stepped(old(self).state)) as int % at_least_one(n),
            n > 0 ==> r < n,
    {
        let m: u64 = if n == 0 {
            1
        } else {
            n as u64
        };
        (self.next() % m) as usize
    }
}

/// `n`, or 1 for 0.
pub open spec fn at_least_one(n: usize) -> int {
    if n == 0 {
        1
    } else {
        n as int
    }
}

/// A step of a state that is not zero does not give zero.
pub proof fn law_generator_lives(x: u64)
    requires
        x != 0,
    ensures
        stepped(x) != 0,
{
    assert(x != 0 ==> {
        let a = x ^ (x >> 12);
        let b = a ^ (a << 25);
        b ^ (b >> 27) != 0
    }) by (bit_vector);
}

/// What a case's expectation aims at among an answer's probabilities: a key,
/// the level that a score (as it prints) rounds to, the key nearest to a number,
/// or nothing.
pub enum Aim {
    Nothing,
    Key(String),
    Level { score: String, levels: usize },
    Nearest(String),
}

/// The aim that an `Aim` stands for.
pub enum Aimed {
    Nothing,
    Key(Seq<char>),
    Level { score: Seq<char>, levels: int },
    Nearest(Seq<char>),
}

impl View for Aim {
    type V = Aimed;

    open spec fn view(&self) -> Aimed {
        match *self {
            Aim::Nothing => Aimed::Nothing,
            Aim::Key(s) => Aimed::Key(s@),
            Aim::Level { score, levels } => Aimed::Level { score: score@, levels: levels as int },
            Aim::Nearest(s) => Aimed::Nearest(s@),
        }
    }
}

/// The level at a place, as its text.
pub open spec fn level_at(levels: Seq<Json>, i: int) -> Aimed {
    if 0 <= i < levels.len() {
        Aimed::Key(value::shown(levels[i]))
    } else {
        Aimed::Nothing
    }
}

/// An integer as JSON writes it, within 64 bits.
pub open spec fn integer_in(j: Json) -> Option<int> {
    match j {
        Json::Number(t) => match text::integer(t) {
            Some(n) => if i64::MIN <= n <= i64::MAX {
                Some(n)
            } else {
                None
            },
            None => None,
        },
        _ => None,
    }
}

/// Score probabilities are keyed by level text, not place.
pub open spec fn aimed_score(question: Json, expect: Json) -> Aimed {
    match value::index(question, "criteria"@) {
        Json::Array(levels) => match integer_in(value::index(expect, "level"@)) {
            Some(l) => level_at(levels, l),
            None => match value::number_in(value::index(expect, "score"@)) {
                Some(s) => if levels.len() > 0 {
                    Aimed::Level { score: s, levels: levels.len() as int }
                } else {
                    Aimed::Nothing
                },
                None => Aimed::Nothing,
            },
        },
        _ => Aimed::Nothing,
    }
}

/// What an expectation aims at. An expected status aims at abstention or at
/// nothing: the right anchor of an answer out of bounds is ambiguous.
pub open spec fn aimed(question: Json, expect: Json, probs: Seq<(Seq<char>, Json)>) -> Aimed {
    match value::text_in(value::index(expect, "status"@)) {
        Some(s) => if s == "abstained"@ && value::place(probs, ABSTAIN@) is Some {
            Aimed::Key(ABSTAIN@)
        } else {
            Aimed::Nothing
        },
        None => match value::text_in(value::index(question, "type"@)) {
            Some(t) => if t == "choice"@ {
                match value::text_in(value::index(expect, "choice"@)) {
                    Some(k) => Aimed::Key(k),
                    None => Aimed::Nothing,
                }
            } else if t == "boolean"@ || t == "noul"@ {
                match value::index(expect, "boolean"@) {
                    Json::Bool(b) => Aimed::Key(
                        if b {
                            "yes"@
                        } else {
                            "no"@
                        },
                    ),
                    _ => Aimed::Nothing,
                }
            } else if t == "score"@ {
                aimed_score(question, expect)
            } else if t == "numeric"@ {
                match value::number_in(value::index(expect, "value"@)) {
                    Some(v) => Aimed::Nearest(v),
                    None => Aimed::Nothing,
                }
            } else {
                Aimed::Nothing
            },
            None => Aimed::Nothing,
        },
    }
}

fn integer_at(v: &Value, k: &str) -> (r: Option<i64>)
    ensures
        match r {
            Some(n) => integer_in(value::index(v@, k@)) == Some(n as int),
            None => integer_in(value::index(v@, k@)) is None,
        },
{
    match value::number_at(v, k) {
        Some(t) => text::parse_i64(text::chars_of(t.as_str()).as_slice()),
        None => None,
    }
}

fn target_level(question: &Value, expect: &Value) -> (r: Aim)
    ensures
        r@ == aimed_score(question@, expect@),
{
    match value::look(question, "criteria") {
        Some(c) => match c {
            Value::Array(levels) => {
                proof {
                    value::lemma_jsons(levels@);
                }
                match integer_at(expect, "level") {
                    Some(l) => {
                        if l < 0 || l as u64 >= levels.len() as u64 {
                            return Aim::Nothing;
                        }
                        Aim::Key(value::value_text(&levels[l as usize]))
                    },
                    None => match value::number_at(expect, "score") {
                        Some(score) => if levels.len() > 0 {
                            Aim::Level { score, levels: levels.len() }
                        } else {
                            Aim::Nothing
                        },
                        None => Aim::Nothing,
                    },
                }
            },
            _ => Aim::Nothing,
        },
        None => Aim::Nothing,
    }
}

/// Map a case's expectation onto a key in the answer's probability map.
pub fn target_key(question: &Value, expect: &Value, probs: &Vec<(String, Value)>) -> (r: Aim)
    ensures
        r@ == aimed(question@, expect@, value::fields(probs@)),
{
    if let Some(s) = value::str_at(expect, "status") {
        return if text::same(s, "abstained") && value::place_of(probs, ABSTAIN).is_some() {
            Aim::Key(ABSTAIN.to_owned())
        } else {
            Aim::Nothing
        };
    }
    let t: &str = match value::str_at(question, "type") {
        Some(t) => t,
        None => return Aim::Nothing,
    };
    if text::same(t, "choice") {
        match value::str_at(expect, "choice") {
            Some(k) => Aim::Key(k.to_owned()),
            None => Aim::Nothing,
        }
    } else if text::same(t, "boolean") || text::same(t, "noul") {
        match value::copy_at(expect, "boolean") {
            Value::Bool(b) => Aim::Key(
                if b {
                    "yes".to_owned()
                } else {
                    "no".to_owned()
                },
            ),
            _ => Aim::Nothing,
        }
    } else if text::same(t, "score") {
        target_level(question, expect)
    } else if text::same(t, "numeric") {
        match value::number_at(expect, "value") {
            Some(v) => Aim::Nearest(v),
            None => Aim::Nothing,
        }
    } else {
        Aim::Nothing
    }
}

/// The key of the level at a place.
pub fn level_key(question: &Value, i: usize) -> (r: Aim)
    ensures
        r@ == match value::index(question@, "criteria"@) {
            Json::Array(levels) => level_at(levels, i as int),
            _ => Aimed::Nothing,
        },
{
    match value::look(question, "criteria") {
        Some(c) => match c {
            Value::Array(levels) => {
                proof {
                    value::lemma_jsons(levels@);
                }
                if i < levels.len() {
                    Aim::Key(value::value_text(&levels[i]))
                } else {
                    Aim::Nothing
                }
            },
            _ => Aim::Nothing,
        },
        None => Aim::Nothing,
    }
}

/// The first place of the least distance; none where no place has one.
pub open spec fn is_nearest(d: Seq<Option<u64>>, i: int) -> bool {
    &&& 0 <= i < d.len()
    &&& d[i] is Some
    &&& forall|j: int| 0 <= j < d.len() && (#[trigger] d[j]) is Some ==> num::rank(d[i]->0) <= num::rank(d[j]->0)
    &&& forall|j: int| 0 <= j < i && (#[trigger] d[j]) is Some ==> num::rank(d[i]->0) < num::rank(d[j]->0)
}

/// The key nearest to a target: distances of the keys that are numbers, the
/// first of equals.
pub fn nearest(d: &Vec<Option<u64>>) -> (r: Option<usize>)
    requires
        forall|i: int| 0 <= i < d@.len() && (#[trigger] d@[i]) is Some ==> !num::nan(d@[i]->0),
    ensures
        match r {
            Some(i) => is_nearest(d@, i as int),
            None => forall|i: int| 0 <= i < d@.len() ==> (#[trigger] d@[i]) is None,
        },
{
    let mut r: Option<usize> = None;
    let mut i: usize = 0;
    while i < d.len()
        invariant
            i <= d@.len(),
            forall|i: int| 0 <= i < d@.len() && (#[trigger] d@[i]) is Some ==> !num::nan(d@[i]->0),
            match r {
                Some(k) => k < i && is_nearest(d@.take(i as int), k as int),
                None => forall|j: int| 0 <= j < i ==> (#[trigger] d@[j]) is None,
            },
        decreases d@.len() - i,
    {
        let ghost (a, b) = (d@.take(i as int), d@.take(i + 1));
        proof {
            assert forall|j: int| 0 <= j < i implies a[j] == d@[j] && b[j] == d@[j] by {}
            assert(b[i as int] == d@[i as int]);
        }
        if let Some(x) = d[i] {
            let closer: bool = match r {
                Some(k) => match d[k] {
                    Some(y) => {
                        proof {
                            num::law_trichotomy(x, y);
                        }
                        num::less(x, y)
                    },
                    None => true,
                },
                None => true,
            };
            if closer {
                r = Some(i);
            }
        }
        i += 1;
        proof {
            match r {
                Some(k) => {
                    assert forall|j: int| 0 <= j < b.len() && (#[trigger] b[j]) is Some implies num::rank(b[k as int]->0)
                        <= num::rank(b[j]->0) by {
                        if j < i - 1 {
                            assert(a[j] == b[j]);
                        }
                    }
                    assert forall|j: int| 0 <= j < k && (#[trigger] b[j]) is Some implies num::rank(b[k as int]->0)
                        < num::rank(b[j]->0) by {
                        assert(a[j] == b[j]);
                    }
                },
                None => {},
            }
        }
    }
    proof {
        assert(d@.take(i as int) =~= d@);
    }
    r
}

/// The rows of one bucket.
pub open spec fn case_bucket(case: Json) -> Seq<char> {
    match value::text_in(value::index(value::index(case, "question"@), "type"@)) {
        Some(t) => bucket_name(t),
        None => "?"@,
    }
}

/// The fold of a case: by its id, or by its place where it has none.
pub open spec fn case_fold(case: Json, place: int) -> int {
    match value::text_in(value::index(case, "id"@)) {
        Some(id) => if id.len() > 0 {
            fold_named(id)
        } else {
            place % FOLDS as int
        },
        None => place % FOLDS as int,
    }
}

/// The bucket and the fold of a case.
pub fn place_case(case: &Value, place: usize) -> (r: (String, usize))
    ensures
        r.0@ == case_bucket(case@),
        r.1 == case_fold(case@, place as int),
        r.1 < FOLDS,
{
    let none: Value = Value::Null;
    let q: &Value = match value::look(case, "question") {
        Some(q) => q,
        None => &none,
    };
    let b: &str = match value::str_at(q, "type") {
        Some(t) => bucket(t),
        None => "?",
    };
    let id: &str = match value::str_at(case, "id") {
        Some(id) => id,
        None => "",
    };
    proof {
        reveal_strlit("");
    }
    let n: usize = text::chars_of(id).len();
    let fold: usize = if n == 0 {
        place % FOLDS
    } else {
        fold_of(id)
    };
    (b.to_owned(), fold)
}

/// Cases of one id share their fold, wherever they stand.
pub proof fn law_case_fold(a: Json, b: Json, i: int, j: int)
    requires
        value::text_in(value::index(a, "id"@)) is Some,
        value::text_in(value::index(a, "id"@)) == value::text_in(value::index(b, "id"@)),
        value::text_in(value::index(a, "id"@))->0.len() > 0,
    ensures
        case_fold(a, i) == case_fold(b, j),
{
}

/// Rows of one fold, and the rows that a temperature for them is fitted on.
pub struct Split {
    pub train: Vec<usize>,
    pub test: Vec<usize>,
}

/// The rows in fold `f`, or those outside it.
pub open spec fn picked(rows: Seq<usize>, folds: Seq<usize>, f: int, inside: bool) -> Seq<usize>
    decreases rows.len(),
{
    if rows.len() == 0 {
        Seq::empty()
    } else if (folds[rows.last() as int] == f) == inside {
        picked(rows.drop_last(), folds, f, inside).push(rows.last())
    } else {
        picked(rows.drop_last(), folds, f, inside)
    }
}

/// The splits of rows by folds `0..n`, folds with too little to fit on left out.
pub open spec fn splits_of(rows: Seq<usize>, folds: Seq<usize>, n: int) -> Seq<(Seq<usize>, Seq<usize>)>
    decreases n,
{
    if n <= 0 {
        Seq::empty()
    } else if picked(rows, folds, n - 1, false).len() < 2 {
        splits_of(rows, folds, n - 1)
    } else {
        splits_of(rows, folds, n - 1).push((picked(rows, folds, n - 1, false), picked(rows, folds, n - 1, true)))
    }
}

/// The rows of splits.
pub open spec fn split_views(ss: Seq<Split>) -> Seq<(Seq<usize>, Seq<usize>)> {
    ss.map_values(|s: Split| (s.train@, s.test@))
}

/// A row is held out exactly where it is not fitted on.
pub proof fn law_held_out(rows: Seq<usize>, folds: Seq<usize>, f: int, r: usize)
    ensures
        picked(rows, folds, f, true).contains(r) <==> rows.contains(r) && folds[r as int] == f,
        picked(rows, folds, f, false).contains(r) <==> rows.contains(r) && folds[r as int] != f,
        picked(rows, folds, f, true).len() + picked(rows, folds, f, false).len() == rows.len(),
    decreases rows.len(),
{
    if rows.len() > 0 {
        let d = rows.drop_last();
        law_held_out(d, folds, f, r);
        lemma_push(d, rows.last(), r);
        assert(d.push(rows.last()) =~= rows);
        lemma_push(picked(d, folds, f, true), rows.last(), r);
        lemma_push(picked(d, folds, f, false), rows.last(), r);
    }
}

proof fn lemma_push(s: Seq<usize>, x: usize, r: usize)
    ensures
        s.push(x).contains(r) <==> s.contains(r) || x == r,
{
    let t = s.push(x);
    if s.contains(r) {
        let i = choose|i: int| 0 <= i < s.len() && s[i] == r;
        assert(t[i] == r);
    }
    if x == r {
        assert(t[s.len() as int] == r);
    }
    if t.contains(r) {
        let i = choose|i: int| 0 <= i < t.len() && t[i] == r;
        if i < s.len() {
            assert(s[i] == r);
        }
    }
}

fn pick(rows: &Vec<usize>, folds: &Vec<usize>, f: usize, inside: bool) -> (r: Vec<usize>)
    requires
        forall|i: int| 0 <= i < rows@.len() ==> (#[trigger] rows@[i]) < folds@.len(),
    ensures
        r@ == picked(rows@, folds@, f as int, inside),
{
    let mut r: Vec<usize> = Vec::new();
    let mut i: usize = 0;
    proof {
        assert(rows@.take(0) =~= Seq::empty());
    }
    while i < rows.len()
        invariant
            i <= rows@.len(),
            forall|i: int| 0 <= i < rows@.len() ==> (#[trigger] rows@[i]) < folds@.len(),
            r@ == picked(rows@.take(i as int), folds@, f as int, inside),
        decreases rows@.len() - i,
    {
        proof {
            assert(rows@.take(i + 1).drop_last() =~= rows@.take(i as int));
            assert(rows@.take(i + 1).last() == rows@[i as int]);
        }
        if (folds[rows[i]] == f) == inside {
            r.push(rows[i]);
        }
        i += 1;
    }
    proof {
        assert(rows@.take(i as int) =~= rows@);
    }
    r
}

/// Out-of-fold splits: each fold's rows are scored with a temperature fit on
/// the rest.
pub fn splits(rows: &Vec<usize>, folds: &Vec<usize>) -> (r: Vec<Split>)
    requires
        forall|i: int| 0 <= i < rows@.len() ==> (#[trigger] rows@[i]) < folds@.len(),
    ensures
        split_views(r@) == splits_of(rows@, folds@, FOLDS as int),
{
    let mut r: Vec<Split> = Vec::new();
    let mut f: usize = 0;
    proof {
        assert(split_views(r@) =~= Seq::empty());
    }
    while f < FOLDS
        invariant
            f <= FOLDS,
            forall|i: int| 0 <= i < rows@.len() ==> (#[trigger] rows@[i]) < folds@.len(),
            split_views(r@) == splits_of(rows@, folds@, f as int),
        decreases FOLDS - f,
    {
        let train: Vec<usize> = pick(rows, folds, f, false);
        if train.len() >= 2 {
            let test: Vec<usize> = pick(rows, folds, f, true);
            let ghost r0 = r@;
            let ghost v = (train@, test@);
            r.push(Split { train, test });
            proof {
                assert(split_views(r@) =~= split_views(r0).push(v));
            }
        }
        f += 1;
    }
    r
}

/// Whether a bucket has rows enough for a temperature of its own.
pub fn fits(rows: usize) -> (r: bool)
    ensures
        r == (rows >= MIN_SAMPLES),
{
    rows >= MIN_SAMPLES
}

/// What a fit does with the rows of one question type.
pub struct Bucket {
    pub name: String,
    pub members: Vec<usize>,
    /// there are enough of them for a temperature of their own
    pub fitted: bool,
    pub splits: Vec<Split>,
}

/// The groups that buckets are of.
pub open spec fn bucket_groups(bs: Seq<Bucket>) -> Seq<(Seq<char>, Seq<usize>)> {
    bs.map_values(|b: Bucket| (b.name@, b.members@))
}

/// The groups of rows by name.
pub open spec fn named_rows(gs: Seq<Named>) -> Seq<(Seq<char>, Seq<usize>)> {
    gs.map_values(|g: Named| (g.name@, g.members@))
}

/// `bs` are the buckets of rows that have these names and folds: by name, in
/// order, each with its out-of-fold splits.
pub open spec fn is_fit_plan(bs: Seq<Bucket>, names: Seq<Seq<char>>, folds: Seq<usize>) -> bool {
    &&& exists|gs: Seq<Named>| #[trigger] group::named_of(gs, names) && bucket_groups(bs) == named_rows(gs)
    &&& forall|i: int|
        0 <= i < bs.len() ==> (#[trigger] bs[i]).fitted == (bs[i].members@.len() >= MIN_SAMPLES) && split_views(bs[i].splits@)
            == splits_of(bs[i].members@, folds, FOLDS as int)
}

/// What a fit does with rows of these question types and folds.
pub fn fit_plan(names: &Vec<String>, folds: &Vec<usize>) -> (r: Vec<Bucket>)
    requires
        names@.len() == folds@.len(),
    ensures
        is_fit_plan(r@, text::views(names@), folds@),
{
    let gs: Vec<Named> = group::named_groups(names);
    let ghost all = gs@;
    let mut r: Vec<Bucket> = Vec::new();
    let n: usize = gs.len();
    let mut i: usize = 0;
    proof {
        assert(bucket_groups(r@) =~= named_rows(all).take(0));
    }
    while i < n
        invariant
            i <= n,
            n == all.len(),
            names@.len() == folds@.len(),
            group::named_of(all, text::views(names@)),
            gs@ == all,
            bucket_groups(r@) == named_rows(all).take(i as int),
            forall|k: int|
                0 <= k < r@.len() ==> (#[trigger] r@[k]).fitted == (r@[k].members@.len() >= MIN_SAMPLES) && split_views(
                    r@[k].splits@,
                ) == splits_of(r@[k].members@, folds@, FOLDS as int),
        decreases n - i,
    {
        let g: &Named = &gs[i];
        proof {
            assert forall|k: int| 0 <= k < g.members@.len() implies (#[trigger] g.members@[k]) < folds@.len() by {
                group::lemma_member_place(all, text::views(names@), i as int, k);
            }
        }
        let members: Vec<usize> = slice_to_vec(g.members.as_slice());
        let b: Bucket = Bucket {
            name: g.name.clone(),
            fitted: fits(members.len()),
            splits: splits(&members, folds),
            members,
        };
        let ghost (r0, v) = (r@, (b.name@, b.members@));
        r.push(b);
        proof {
            assert(named_rows(all)[i as int] == v);
            assert(bucket_groups(r@) =~= bucket_groups(r0).push(v));
            assert(named_rows(all).take(i + 1) =~= named_rows(all).take(i as int).push(v));
        }
        i += 1;
    }
    proof {
        assert(named_rows(all).take(i as int) =~= named_rows(all));
    }
    r
}

/// The generator after `k` steps.
pub open spec fn after(x: u64, k: nat) -> u64
    decreases k,
{
    if k == 0 {
        x
    } else {
        stepped(after(x, (k - 1) as nat))
    }
}

/// The members of `k` groups drawn with replacement.
pub open spec fn resampled(gs: Seq<Group>, x: u64, k: nat) -> Seq<usize>
    decreases k,
{
    if k == 0 {
        Seq::empty()
    } else {
        resampled(gs, x, (k - 1) as nat) + gs[drawn(after(x, k)) as int % gs.len() as int].members@
    }
}

/// Whole case groups drawn with replacement: groups, not rows, so correlated
/// variants cannot fake tight intervals.
pub fn resample(gs: &Vec<Group>, rng: &mut Rng) -> (r: Vec<usize>)
    requires
        gs@.len() > 0,
    ensures
        r@ == resampled(gs@, old(rng).state, gs@.len()),
        final(rng).state == after(old(rng).state, gs@.len()),
{
    let ghost x = rng.state;
    let mut r: Vec<usize> = Vec::new();
    let mut k: usize = 0;
    while k < gs.len()
        invariant
            k <= gs@.len(),
            gs@.len() > 0,
            rng.state == after(x, k as nat),
            r@ == resampled(gs@, x, k as nat),
        decreases gs@.len() - k,
    {
        let g: usize = rng.below(gs.len());
        let m: &Vec<usize> = &gs[g].members;
        let ghost r0 = r@;
        let mut i: usize = 0;
        proof {
            assert(r0 + m@.take(0) =~= r0);
        }
        while i < m.len()
            invariant
                i <= m@.len(),
                r@ == r0 + m@.take(i as int),
            decreases m@.len() - i,
        {
            r.push(m[i]);
            i += 1;
            proof {
                assert(r@ =~= r0 + m@.take(i as int));
            }
        }
        proof {
            assert(m@.take(i as int) =~= m@);
        }
        k += 1;
    }
    r
}

/// A calibration: its numbers as they print.
pub struct Calibration {
    pub model: String,
    pub prompt_version: u32,
    /// question type -> fitted temperature (missing = uncalibrated, 1)
    pub temperatures: Vec<(String, String)>,
    pub fitted: u64,
    pub skipped: u64,
    /// Of the raw probabilities.
    pub ece_before: String,
    /// With shipped temperatures, scored on the same data they were fit on:
    /// optimistic by construction, kept for reference.
    pub ece_after: String,
    /// Honest generalization estimate: every row scored with a temperature
    /// fit on the other folds.
    pub ece_oof: String,
    /// 95% bootstrap intervals over case groups.
    pub ci_before: (String, String),
    pub ci_oof: (String, String),
    /// True when the out-of-fold interval sits entirely below the raw one: the
    /// gain is statistically supported, not fitting noise.
    pub ci_separated: bool,
}

/// Why a calibration does not apply.
pub enum CalibrationError {
    /// Fitted on another model.
    Model { fit: String, engine: String },
    /// Fitted on another prompt format.
    Prompt { version: u32 },
}

/// What is said of a calibration of another model, both quoted so.
pub fn other_model(fit: &str, engine: &str) -> (r: String)
    ensures
        r@ == "calibration was fit on "@ + fit@ + ", this engine is "@ + engine@,
{
    "calibration was fit on ".to_owned().concat(fit).concat(", this engine is ").concat(engine)
}

impl CalibrationError {
    pub open spec fn text(self) -> Seq<char> {
        match self {
            CalibrationError::Model { fit, engine } => "calibration was fit on "@ + schema::debug_text(fit@)
                + ", this engine is "@ + schema::debug_text(engine@),
            CalibrationError::Prompt { version } => "calibration used prompt format v"@ + text::digits(version as nat)
                + ", this build uses v"@ + text::digits(PROMPT_VERSION as nat),
        }
    }

    pub fn message(&self) -> (r: String)
        ensures
            r@ == self.text(),
    {
        match self {
            CalibrationError::Model { fit, engine } => other_model(
                schema::debug_of(fit.as_str()).as_str(),
                schema::debug_of(engine.as_str()).as_str(),
            ),
            CalibrationError::Prompt { version } => "calibration used prompt format v".to_owned().concat(
                text::decimal(*version as u64).as_str(),
            ).concat(", this build uses v").concat(text::decimal(PROMPT_VERSION as u64).as_str()),
        }
    }
}

/// The first temperature of a bucket, 1 for none.
pub open spec fn temperature(ts: Seq<(String, String)>, b: Seq<char>) -> Seq<char>
    decreases ts.len(),
{
    if ts.len() == 0 {
        "1.0"@
    } else if ts[0].0@ == b {
        ts[0].1@
    } else {
        temperature(ts.skip(1), b)
    }
}

impl Calibration {
    /// The calibration applies to a model: it was fitted on that very one, with
    /// prompts of the format that is used.
    pub open spec fn applies(&self, model: Seq<char>) -> bool {
        self.model@ == model && self.prompt_version == PROMPT_VERSION
    }

    /// Multiplier on the request temperature for this question type.
    pub fn temp(&self, bucket: &str) -> (r: String)
        ensures
            r@ == temperature(self.temperatures@, bucket@),
    {
        let ghost ts = self.temperatures@;
        let mut i: usize = 0;
        proof {
            assert(ts.skip(0) =~= ts);
        }
        while i < self.temperatures.len()
            invariant
                i <= self.temperatures@.len(),
                ts == self.temperatures@,
                temperature(ts, bucket@) == temperature(ts.skip(i as int), bucket@),
            decreases self.temperatures@.len() - i,
        {
            proof {
                assert(ts.skip(i as int).skip(1) =~= ts.skip(i + 1));
            }
            if text::same(self.temperatures[i].0.as_str(), bucket) {
                return self.temperatures[i].1.clone();
            }
            i += 1;
        }
        "1.0".to_owned()
    }

    /// Refuse mismatched calibrations: a temperature fit on another model or
    /// prompt format is not transferable.
    pub fn check(&self, model_id: &str) -> (r: Result<(), CalibrationError>)
        ensures
            r is Ok <==> self.applies(model_id@),
            match r {
                Ok(_) => self.model@ == model_id@ && self.prompt_version == PROMPT_VERSION,
                Err(CalibrationError::Model { fit, engine }) => self.model@ != model_id@ && fit@ == self.model@ && engine@
                    == model_id@,
                Err(CalibrationError::Prompt { version }) => self.model@ == model_id@ && self.prompt_version
                    != PROMPT_VERSION && version == self.prompt_version,
            },
    {
        if !text::same(self.model.as_str(), model_id) {
            return Err(CalibrationError::Model { fit: self.model.clone(), engine: model_id.to_owned() });
        }
        if self.prompt_version != PROMPT_VERSION {
            return Err(CalibrationError::Prompt { version: self.prompt_version });
        }
        Ok(())
    }
}

/// Whether the upper end of one interval lies below the lower end of another.
pub fn separated(oof_high: u64, raw_low: u64) -> (r: bool)
    ensures
        r == num::lt(oof_high, raw_low),
{
    num::less(oof_high, raw_low)
}

/// The member `k` of the member `o` as a number.
pub open spec fn number_within(j: Json, o: Seq<char>, k: Seq<char>) -> Option<Seq<char>> {
    value::number_in(value::index(value::index(j, o), k))
}

/// The first of two numbers that is there, zero for none.
pub open spec fn first_of(a: Option<Seq<char>>, b: Option<Seq<char>>) -> Seq<char> {
    match a {
        Some(t) => t,
        None => match b {
            Some(t) => t,
            None => "0.0"@,
        },
    }
}

/// The temperatures of a calibration file.
pub open spec fn temperatures_in(m: Seq<(Seq<char>, Json)>) -> Seq<(Seq<char>, Seq<char>)> {
    m.map_values(
        |f: (Seq<char>, Json)|
            (
                f.0,
                match value::number_in(f.1) {
                    Some(t) => t,
                    None => "1.0"@,
                },
            ),
    )
}

/// The texts of temperatures.
pub open spec fn pairs(ts: Seq<(String, String)>) -> Seq<(Seq<char>, Seq<char>)> {
    ts.map_values(|t: (String, String)| (t.0@, t.1@))
}

/// The calibration that a file holds; older files name the errors otherwise.
pub open spec fn holds(c: Calibration, doc: Json) -> bool {
    &&& c.model@ == match value::text_in(value::index(doc, "model"@)) {
        Some(t) => t,
        None => Seq::empty(),
    }
    &&& c.prompt_version == match value::unsigned_in(value::index(doc, "prompt_version"@)) {
        Some(n) => n % 0x1_0000_0000,
        None => 0,
    }
    &&& pairs(c.temperatures@) == match value::index(doc, "temperatures"@) {
        Json::Object(m) => temperatures_in(m),
        _ => Seq::empty(),
    }
    &&& c.fitted == match value::unsigned_in(value::index(doc, "fitted_cases"@)) {
        Some(n) => n,
        None => 0,
    }
    &&& c.skipped == 0
    &&& c.ece_before@ == first_of(number_within(doc, "ece"@, "raw"@), number_within(doc, "ece"@, "before"@))
    &&& c.ece_after@ == first_of(number_within(doc, "ece"@, "in_sample"@), number_within(doc, "ece"@, "after"@))
    &&& c.ece_oof@ == first_of(number_within(doc, "ece"@, "out_of_fold"@), None)
    &&& c.ci_before.0@ == "0.0"@ && c.ci_before.1@ == "0.0"@
    &&& c.ci_oof.0@ == "0.0"@ && c.ci_oof.1@ == "0.0"@
    &&& !c.ci_separated
}

fn ece_at(doc: &Value, k: &str, old_key: &str) -> (r: String)
    ensures
        r@ == first_of(number_within(doc@, "ece"@, k@), number_within(doc@, "ece"@, old_key@)),
{
    if let Some(e) = value::look(doc, "ece") {
        if let Some(t) = value::number_at(e, k) {
            return t;
        }
        if let Some(t) = value::number_at(e, old_key) {
            return t;
        }
    }
    "0.0".to_owned()
}

fn temperatures_at(doc: &Value) -> (r: Vec<(String, String)>)
    ensures
        pairs(r@) == match value::index(doc@, "temperatures"@) {
            Json::Object(m) => temperatures_in(m),
            _ => Seq::empty(),
        },
{
    let mut r: Vec<(String, String)> = Vec::new();
    proof {
        assert(pairs(r@) =~= Seq::empty());
    }
    if let Some(t) = value::look(doc, "temperatures") {
        if let Value::Object(m) = t {
            let ghost f = value::fields(m@);
            let ghost all = temperatures_in(f);
            proof {
                value::lemma_fields(m@);
            }
            let mut i: usize = 0;
            while i < m.len()
                invariant
                    i <= m@.len(),
                    f == value::fields(m@),
                    f.len() == m@.len(),
                    all == temperatures_in(f),
                    forall|j: int| 0 <= j < m@.len() ==> #[trigger] f[j] == (m@[j].0@, value::json(m@[j].1)),
                    pairs(r@) =~= all.take(i as int),
                decreases m@.len() - i,
            {
                let n: String = match &m[i].1 {
                    Value::Number(t) => t.clone(),
                    _ => "1.0".to_owned(),
                };
                let ghost (r0, nv) = (r@, n@);
                r.push((m[i].0.clone(), n));
                proof {
                    assert(f[i as int] == (m@[i as int].0@, value::json(m@[i as int].1)));
                    assert(all[i as int] == (f[i as int].0, nv));
                    assert(pairs(r@) =~= pairs(r0).push(all[i as int]));
                }
                i += 1;
            }
            proof {
                assert(all.take(i as int) =~= all);
            }
        }
    }
    r
}

/// A number as 32 bits hold it.
fn low_half(n: u64) -> (r: u32)
    ensures
        r == n % 0x1_0000_0000,
{
    (n % 0x1_0000_0000) as u32
}

impl Calibration {
    /// The calibration that a file's document holds, or what is wrong with it.
    pub fn load(path: &str, doc: &Value) -> (r: Result<Calibration, String>)
        ensures
            match r {
                Ok(c) => value::index(doc@, "kind"@) == Json::Str("snap-calibration"@) && holds(c, doc@),
                Err(e) => value::index(doc@, "kind"@) != Json::Str("snap-calibration"@) && e@ == path@
                    + ": not a snap calibration file"@,
            },
    {
        let kind: bool = match value::str_at(doc, "kind") {
            Some(k) => text::same(k, "snap-calibration"),
            None => false,
        };
        if !kind {
            return Err(path.to_owned().concat(": not a snap calibration file"));
        }
        proof {
            reveal_strlit("");
        }
        let model: String = match value::str_at(doc, "model") {
            Some(m) => m.to_owned(),
            None => "".to_owned(),
        };
        let version: u64 = match value::unsigned_at(doc, "prompt_version") {
            Some(n) => n,
            None => 0,
        };
        let fitted: u64 = match value::unsigned_at(doc, "fitted_cases") {
            Some(n) => n,
            None => 0,
        };
        proof {
            assert(model@ =~= match value::text_in(value::index(doc@, "model"@)) {
                Some(t) => t,
                None => Seq::empty(),
            });
        }
        let ece_oof: String = match value::look(doc, "ece") {
            Some(e) => match value::number_at(e, "out_of_fold") {
                Some(t) => t,
                None => "0.0".to_owned(),
            },
            None => "0.0".to_owned(),
        };
        Ok(
            Calibration {
                model,
                prompt_version: low_half(version),
                temperatures: temperatures_at(doc),
                fitted,
                skipped: 0,
                ece_before: ece_at(doc, "raw", "before"),
                ece_after: ece_at(doc, "in_sample", "after"),
                ece_oof,
                ci_before: ("0.0".to_owned(), "0.0".to_owned()),
                ci_oof: ("0.0".to_owned(), "0.0".to_owned()),
                ci_separated: false,
            },
        )
    }
}

/// An interval as JSON.
pub open spec fn interval(c: (String, String)) -> Json {
    Json::Array(seq![Json::Number(c.0@), Json::Number(c.1@)])
}

/// The errors of a calibration as JSON.
pub open spec fn ece_of(c: Calibration) -> Json {
    Json::Object(
        seq![
            ("raw"@, Json::Number(c.ece_before@)),
            ("in_sample"@, Json::Number(c.ece_after@)),
            ("out_of_fold"@, Json::Number(c.ece_oof@)),
            ("ci95_raw"@, interval(c.ci_before)),
            ("ci95_oof"@, interval(c.ci_oof)),
            ("improvement_ci_separated"@, Json::Bool(c.ci_separated)),
        ],
    )
}

/// The document that a calibration file holds.
pub open spec fn document_of(c: Calibration) -> Json {
    Json::Object(
        seq![
            ("kind"@, Json::Str("snap-calibration"@)),
            ("model"@, Json::Str(c.model@)),
            ("prompt_version"@, Json::Number(text::digits(c.prompt_version as nat))),
            ("fitted_cases"@, Json::Number(text::digits(c.fitted as nat))),
            ("skipped_cases"@, Json::Number(text::digits(c.skipped as nat))),
            ("ece"@, ece_of(c)),
            (
                "cv"@,
                Json::Object(
                    seq![
                        ("folds"@, Json::Number(text::digits(FOLDS as nat))),
                        ("bootstrap_samples"@, Json::Number(text::digits(BOOT as nat))),
                    ],
                ),
            ),
            (
                "temperatures"@,
                Json::Object(c.temperatures@.map_values(|t: (String, String)| (t.0@, Json::Number(t.1@)))),
            ),
        ],
    )
}

fn interval_value(c: &(String, String)) -> (r: Value)
    ensures
        r@ == interval(*c),
{
    let mut a: Vec<Value> = Vec::new();
    a.push(Value::Number(c.0.clone()));
    a.push(Value::Number(c.1.clone()));
    proof {
        value::lemma_jsons(a@);
        assert(value::jsons(a@) =~= interval(*c)->Array_0);
    }
    Value::Array(a)
}

fn ece_value(c: &Calibration) -> (r: Value)
    ensures
        r@ == ece_of(*c),
{
    let mut m: Vec<(String, Value)> = Vec::new();
    value::push_field(&mut m, "raw", Value::Number(c.ece_before.clone()));
    value::push_field(&mut m, "in_sample", Value::Number(c.ece_after.clone()));
    value::push_field(&mut m, "out_of_fold", Value::Number(c.ece_oof.clone()));
    value::push_field(&mut m, "ci95_raw", interval_value(&c.ci_before));
    value::push_field(&mut m, "ci95_oof", interval_value(&c.ci_oof));
    value::push_field(&mut m, "improvement_ci_separated", Value::Bool(c.ci_separated));
    proof {
        assert(value::fields(m@) =~= ece_of(*c)->Object_0);
    }
    Value::Object(m)
}

/// The document of a calibration file: temperatures as rounded and ordered by
/// the caller.
pub fn document(c: &Calibration) -> (r: Value)
    ensures
        r@ == document_of(*c),
{
    let ghost all = c.temperatures@.map_values(|t: (String, String)| (t.0@, Json::Number(t.1@)));
    let mut ts: Vec<(String, Value)> = Vec::new();
    let mut i: usize = 0;
    proof {
        assert(all.take(0) =~= Seq::empty());
    }
    while i < c.temperatures.len()
        invariant
            i <= c.temperatures@.len(),
            all == c.temperatures@.map_values(|t: (String, String)| (t.0@, Json::Number(t.1@))),
            value::fields(ts@) == all.take(i as int),
        decreases c.temperatures@.len() - i,
    {
        value::push_field(&mut ts, c.temperatures[i].0.as_str(), Value::Number(c.temperatures[i].1.clone()));
        proof {
            assert(all.take(i + 1) =~= all.take(i as int).push(all[i as int]));
        }
        i += 1;
    }
    proof {
        assert(all.take(i as int) =~= all);
    }
    let mut cv: Vec<(String, Value)> = Vec::new();
    value::push_field(&mut cv, "folds", Value::Number(text::decimal(FOLDS as u64)));
    value::push_field(&mut cv, "bootstrap_samples", Value::Number(text::decimal(BOOT as u64)));
    let mut m: Vec<(String, Value)> = Vec::new();
    value::push_field(&mut m, "kind", Value::Str("snap-calibration".to_owned()));
    value::push_field(&mut m, "model", Value::Str(c.model.clone()));
    value::push_field(&mut m, "prompt_version", Value::Number(text::decimal(c.prompt_version as u64)));
    value::push_field(&mut m, "fitted_cases", Value::Number(text::decimal(c.fitted)));
    value::push_field(&mut m, "skipped_cases", Value::Number(text::decimal(c.skipped)));
    value::push_field(&mut m, "ece", ece_value(c));
    value::push_field(&mut m, "cv", Value::Object(cv));
    value::push_field(&mut m, "temperatures", Value::Object(ts));
    proof {
        let d = document_of(*c)->Object_0;
        assert(value::fields(cv@) =~= d[6].1->Object_0);
        assert(value::fields(m@) =~= d);
    }
    Value::Object(m)
}

/// The member at a place whose name stands nowhere before it.
proof fn lemma_member_at(m: Seq<(Seq<char>, Json)>, i: int, k: Seq<char>)
    requires
        0 <= i < m.len(),
        m[i].0 == k,
        forall|j: int| 0 <= j < i ==> (#[trigger] m[j]).0 != k,
    ensures
        value::index(Json::Object(m), k) == m[i].1,
{
    value::lemma_is_place(m, k, i);
}

/// A calibration reads back from the document it writes.
pub proof fn law_read_back(c: Calibration, d: Calibration)
    requires
        holds(d, document_of(c)),
    ensures
        value::index(document_of(c), "kind"@) == Json::Str("snap-calibration"@),
        d.model@ == c.model@,
        d.prompt_version == c.prompt_version,
        pairs(d.temperatures@) == pairs(c.temperatures@),
        d.fitted == c.fitted,
        d.ece_before@ == c.ece_before@,
        d.ece_after@ == c.ece_after@,
        d.ece_oof@ == c.ece_oof@,
{
    let doc = document_of(c);
    let m = doc->Object_0;
    reveal_strlit("kind");
    reveal_strlit("model");
    reveal_strlit("prompt_version");
    reveal_strlit("fitted_cases");
    reveal_strlit("skipped_cases");
    reveal_strlit("ece");
    reveal_strlit("cv");
    reveal_strlit("temperatures");
    assert(m.len() == 8);
    let names = seq![
        "kind"@,
        "model"@,
        "prompt_version"@,
        "fitted_cases"@,
        "skipped_cases"@,
        "ece"@,
        "cv"@,
        "temperatures"@,
    ];
    assert forall|i: int| 0 <= i < 8 implies (#[trigger] m[i]).0 == names[i] by {}
    assert("kind"@[0] == 'k' && "model"@[0] == 'm' && "prompt_version"@[0] == 'p' && "fitted_cases"@[0] == 'f'
        && "skipped_cases"@[0] == 's' && "ece"@[0] == 'e' && "cv"@[0] == 'c' && "temperatures"@[0] == 't');
    assert forall|i: int, j: int| 0 <= i < j < 8 implies (#[trigger] names[i])[0] != (#[trigger] names[j])[0] by {}
    lemma_member_at(m, 0, "kind"@);
    lemma_member_at(m, 1, "model"@);
    lemma_member_at(m, 2, "prompt_version"@);
    lemma_member_at(m, 3, "fitted_cases"@);
    lemma_member_at(m, 5, "ece"@);
    lemma_member_at(m, 7, "temperatures"@);
    text::law_digits(c.prompt_version as nat);
    text::law_digits(c.fitted as nat);
    let e = ece_of(c)->Object_0;
    reveal_strlit("raw");
    reveal_strlit("in_sample");
    reveal_strlit("out_of_fold");
    assert("raw"@[0] == 'r' && "in_sample"@[0] == 'i' && "out_of_fold"@[0] == 'o');
    lemma_member_at(e, 0, "raw"@);
    lemma_member_at(e, 1, "in_sample"@);
    lemma_member_at(e, 2, "out_of_fold"@);
    let ts = m[7].1->Object_0;
    assert(temperatures_in(ts) =~= pairs(c.temperatures@));
}

} // verus!
