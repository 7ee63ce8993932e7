//! Answers per item folded into answers per question.
use vstd::prelude::*;

use crate::engine;
use crate::engine::{Ask, Asks, Folded};
use crate::expand;
use crate::schema;
use crate::schema::{Expand, TAG};
use crate::text;
use crate::value;
use crate::value::{Json, Value};

verus! {

pub type Members = Seq<(Seq<char>, Json)>;

/// The answers of the first `n` items, by name.
pub open spec fn by_name(asks: Seq<Ask>, answers: Seq<Json>, n: int) -> Members
    decreases n,
{
    if n <= 0 {
        Seq::empty()
    } else {
        value::with(by_name(asks, answers, n - 1), asks[n - 1].name@, answers[n - 1])
    }
}

/// `m` without the first `k` items that question `name` expanded into.
pub open spec fn without_items(m: Members, name: Seq<char>, k: int) -> Members
    decreases k,
{
    if k <= 0 {
        m
    } else {
        value::without(without_items(m, name, k - 1), engine::tagged(name, k - 1))
    }
}

/// `m` with the first `n` expanded questions answered in place of the items
/// they expanded into.
pub open spec fn refolded(m: Members, folded: Seq<Folded>, merged: Seq<Json>, n: int) -> Members
    decreases n,
{
    if n <= 0 {
        m
    } else {
        let f = folded[n - 1];
        value::with(
            without_items(refolded(m, folded, merged, n - 1), f.name@, f.n as int),
            f.name@,
            merged[n - 1],
        )
    }
}

/// Fold the answers of items back into one answer per question: `merged` are
/// those of the questions that were expanded.
pub fn assemble(asks: &Asks, answers: &Vec<Value>, merged: &Vec<Value>) -> (r: Vec<(String, Value)>)
    requires
        answers@.len() == asks.asks@.len(),
        merged@.len() == asks.folded@.len(),
    ensures
        value::fields(r@) == refolded(
            by_name(asks.asks@, value::jsons(answers@), asks.asks@.len() as int),
            asks.folded@,
            value::jsons(merged@),
            asks.folded@.len() as int,
        ),
{
    let mut m: Vec<(String, Value)> = Vec::new();
    let ghost (av, mv) = (value::jsons(answers@), value::jsons(merged@));
    proof {
        value::lemma_jsons(answers@);
        value::lemma_jsons(merged@);
    }
    let mut i: usize = 0;
    while i < answers.len()
        invariant
            i <= answers@.len(),
            answers@.len() == asks.asks@.len(),
            av.len() == answers@.len(),
            forall|k: int| 0 <= k < answers@.len() ==> #[trigger] av[k] == value::json(answers@[k]),
            value::fields(m@) == by_name(asks.asks@, av, i as int),
        decreases answers@.len() - i,
    {
        proof {
            assert(av[i as int] == value::json(answers@[i as int]));
        }
        value::put(&mut m, asks.asks[i].name.as_str(), value::copy(&answers[i]));
        i += 1;
    }
    let ghost base = value::fields(m@);
    let mut f: usize = 0;
    while f < merged.len()
        invariant
            f <= merged@.len(),
            merged@.len() == asks.folded@.len(),
            mv.len() == merged@.len(),
            forall|k: int| 0 <= k < merged@.len() ==> #[trigger] mv[k] == value::json(merged@[k]),
            value::fields(m@) == refolded(base, asks.folded@, mv, f as int),
        decreases merged@.len() - f,
    {
        let x: &Folded = &asks.folded[f];
        let ghost before = value::fields(m@);
        let mut k: usize = 0;
        while k < x.n
            invariant
                k <= x.n,
                value::fields(m@) == without_items(before, x.name@, k as int),
            decreases x.n - k,
        {
            let t: String = engine::tag(x.name.as_str(), k);
            value::take(&mut m, t.as_str());
            k += 1;
        }
        proof {
            assert(mv[f as int] == value::json(merged@[f as int]));
        }
        value::put(&mut m, x.name.as_str(), value::copy(&merged[f]));
        f += 1;
    }
    m
}

/// A tagged name tells its question and its item.
proof fn lemma_tagged(a: Seq<char>, i: int, b: Seq<char>, j: int)
    requires
        !a.contains(TAG),
        !b.contains(TAG),
        0 <= i,
        0 <= j,
    ensures
        engine::tagged(a, i) == engine::tagged(b, j) ==> a == b && i == j,
        engine::tagged(a, i) != b,
{
    engine::law_display(a, i);
    engine::law_display(b, j);
    text::law_digits(i as nat);
    text::law_digits(j as nat);
    if engine::tagged(a, i) == engine::tagged(b, j) {
        assert(engine::tagged(a, i).skip(a.len() as int + 1) =~= text::digits(i as nat));
        assert(engine::tagged(b, j).skip(b.len() as int + 1) =~= text::digits(j as nat));
    }
    assert(engine::tagged(a, i)[a.len() as int] == TAG);
    if engine::tagged(a, i) == b {
        assert(b[a.len() as int] == TAG);
    }
}

proof fn lemma_by_name(asks: Seq<Ask>, answers: Seq<Json>, n: int)
    requires
        0 <= n <= asks.len(),
        forall|i: int, j: int| 0 <= i < j < n ==> (#[trigger] asks[i]).name@ != (#[trigger] asks[j]).name@,
    ensures
        value::distinct(by_name(asks, answers, n)),
        forall|k: int|
            0 <= k < n ==> value::member(by_name(asks, answers, n), (#[trigger] asks[k]).name@) == Some(answers[k]),
        forall|x: Seq<char>|
            (forall|k: int| 0 <= k < n ==> (#[trigger] asks[k]).name@ != x) ==> (#[trigger] value::member(
                by_name(asks, answers, n),
                x,
            )) is None,
    decreases n,
{
    if n > 0 {
        lemma_by_name(asks, answers, n - 1);
        let m = by_name(asks, answers, n - 1);
        value::law_with(m, asks[n - 1].name@, answers[n - 1]);
        assert forall|k: int| 0 <= k < n implies value::member(by_name(asks, answers, n), (#[trigger] asks[k]).name@)
            == Some(answers[k]) by {
            if k < n - 1 {
                assert(asks[k].name@ != asks[n - 1].name@);
            }
        }
        assert forall|x: Seq<char>|
            (forall|k: int| 0 <= k < n ==> (#[trigger] asks[k]).name@ != x) implies (#[trigger] value::member(
            by_name(asks, answers, n),
            x,
        )) is None by {
            assert(asks[n - 1].name@ != x);
            assert(value::member(m, x) is None);
        }
    }
}

proof fn lemma_without_items(m: Members, name: Seq<char>, n: int)
    requires
        value::distinct(m),
        !name.contains(TAG),
        0 <= n,
    ensures
        value::distinct(without_items(m, name, n)),
        forall|k: int| 0 <= k < n ==> value::member(without_items(m, name, n), #[trigger] engine::tagged(name, k)) is None,
        forall|x: Seq<char>|
            (forall|k: int| 0 <= k < n ==> #[trigger] engine::tagged(name, k) != x) ==> #[trigger] value::member(
                without_items(m, name, n),
                x,
            ) == value::member(m, x),
    decreases n,
{
    if n > 0 {
        lemma_without_items(m, name, n - 1);
        let w = without_items(m, name, n - 1);
        let t = engine::tagged(name, n - 1);
        value::law_without(w, t);
        let v = without_items(m, name, n);
        assert forall|k: int| 0 <= k < n implies value::member(v, #[trigger] engine::tagged(name, k)) is None by {
            if k < n - 1 {
                lemma_tagged(name, k, name, n - 1);
                assert(value::member(w, engine::tagged(name, k)) is None);
            }
        }
        assert forall|x: Seq<char>|
            (forall|k: int| 0 <= k < n ==> #[trigger] engine::tagged(name, k) != x) implies #[trigger] value::member(v, x)
            == value::member(m, x) by {
            assert(t != x);
            assert(value::member(w, x) == value::member(m, x));
        }
    }
}

/// `x` is an item of one of the first `n` expanded questions.
pub open spec fn is_item(folded: Seq<Folded>, n: int, x: Seq<char>) -> bool {
    exists|f: int, k: int|
        0 <= f < n && 0 <= k < (#[trigger] folded[f]).n && x == #[trigger] engine::tagged(folded[f].name@, k)
}

/// `x` is one of the first `n` expanded questions.
pub open spec fn is_expanded(folded: Seq<Folded>, n: int, x: Seq<char>) -> bool {
    exists|f: int| 0 <= f < n && (#[trigger] folded[f]).name@ == x
}

proof fn lemma_refolded(m: Members, folded: Seq<Folded>, merged: Seq<Json>, n: int)
    requires
        value::distinct(m),
        0 <= n <= folded.len(),
        forall|i: int| 0 <= i < n ==> !(#[trigger] folded[i]).name@.contains(TAG),
        forall|i: int, j: int| 0 <= i < j < n ==> (#[trigger] folded[i]).name@ != (#[trigger] folded[j]).name@,
    ensures
        value::distinct(refolded(m, folded, merged, n)),
        forall|f: int|
            0 <= f < n ==> value::member(refolded(m, folded, merged, n), (#[trigger] folded[f]).name@) == Some(merged[f]),
        forall|x: Seq<char>|
            is_item(folded, n, x) ==> (#[trigger] value::member(refolded(m, folded, merged, n), x)) is None,
        forall|x: Seq<char>|
            !is_item(folded, n, x) && !is_expanded(folded, n, x) ==> #[trigger] value::member(
                refolded(m, folded, merged, n),
                x,
            ) == value::member(m, x),
    decreases n,
{
    if n > 0 {
        lemma_refolded(m, folded, merged, n - 1);
        let p = refolded(m, folded, merged, n - 1);
        let g = folded[n - 1];
        lemma_without_items(p, g.name@, g.n as int);
        let w = without_items(p, g.name@, g.n as int);
        value::law_with(w, g.name@, merged[n - 1]);
        let r = refolded(m, folded, merged, n);
        assert forall|f: int| 0 <= f < n implies value::member(r, (#[trigger] folded[f]).name@) == Some(merged[f]) by {
            if f < n - 1 {
                let x = folded[f].name@;
                assert(x != g.name@);
                assert forall|k: int| 0 <= k < g.n implies #[trigger] engine::tagged(g.name@, k) != x by {
                    lemma_tagged(g.name@, k, x, 0);
                }
                assert(value::member(w, x) == value::member(p, x));
                assert(value::member(r, x) == value::member(w, x));
            }
        }
        assert forall|x: Seq<char>| is_item(folded, n, x) implies (#[trigger] value::member(r, x)) is None by {
            let (f, k) = choose|f: int, k: int|
                0 <= f < n && 0 <= k < (#[trigger] folded[f]).n && x == #[trigger] engine::tagged(folded[f].name@, k);
            lemma_tagged(folded[f].name@, k, g.name@, 0);
            assert(value::member(r, x) == value::member(w, x));
            if f == n - 1 {
                assert(value::member(w, engine::tagged(g.name@, k)) is None);
            } else {
                assert(folded[f].name@ != g.name@);
                assert forall|j: int| 0 <= j < g.n implies #[trigger] engine::tagged(g.name@, j) != x by {
                    lemma_tagged(g.name@, j, folded[f].name@, k);
                }
                assert(is_item(folded, n - 1, x));
                assert(value::member(p, x) is None);
                assert(value::member(w, x) == value::member(p, x));
            }
        }
        assert forall|x: Seq<char>| !is_item(folded, n, x) && !is_expanded(folded, n, x) implies #[trigger] value::member(r, x)
            == value::member(m, x) by {
            assert(g.name@ != x) by {
                if g.name@ == x {
                    assert(folded[n - 1].name@ == x);
                }
            }
            assert forall|k: int| 0 <= k < g.n implies #[trigger] engine::tagged(g.name@, k) != x by {
                if engine::tagged(g.name@, k) == x {
                    assert(x == engine::tagged(folded[n - 1].name@, k));
                }
            }
            assert(!is_item(folded, n - 1, x)) by {
                if is_item(folded, n - 1, x) {
                    let (f, k) = choose|f: int, k: int|
                        0 <= f < n - 1 && 0 <= k < (#[trigger] folded[f]).n && x == #[trigger] engine::tagged(
                            folded[f].name@,
                            k,
                        );
                    assert(x == engine::tagged(folded[f].name@, k));
                }
            }
            assert(!is_expanded(folded, n - 1, x)) by {
                if is_expanded(folded, n - 1, x) {
                    let f = choose|f: int| 0 <= f < n - 1 && (#[trigger] folded[f]).name@ == x;
                    assert(folded[f].name@ == x);
                }
            }
            assert(value::member(r, x) == value::member(w, x));
            assert(value::member(w, x) == value::member(p, x));
        }
    }
}

/// The name of item `k`, which comes from question `i`.
pub open spec fn item_name(qs: Seq<schema::Asked>, e: Expand, i: int, k: int) -> Seq<char> {
    if expand::expands(qs[i].1->Ok_0) {
        engine::tagged(qs[i].0@, k - engine::offset(qs, e, i))
    } else {
        qs[i].0@
    }
}

/// Question names differ, and none is reserved.
pub open spec fn well_named(qs: Seq<schema::Asked>) -> bool {
    &&& forall|i: int| 0 <= i < qs.len() ==> !(#[trigger] qs[i]).0@.contains(TAG)
    &&& forall|i: int, j: int| 0 <= i < j < qs.len() ==> (#[trigger] qs[i]).0@ != (#[trigger] qs[j]).0@
}

proof fn lemma_item_name(qs: Seq<schema::Asked>, e: Expand, r: Asks, k: int) -> (i: int)
    requires
        engine::laid_out(qs, e, qs.len() as int, r),
        0 <= k < r.asks@.len(),
    ensures
        0 <= i < qs.len(),
        engine::offset(qs, e, i) <= k < engine::offset(qs, e, i + 1),
        r.asks@[k].name@ == item_name(qs, e, i, k),
{
    let i = engine::lemma_whose(qs, e, qs.len() as int, k);
    let (a, b) = (engine::offset(qs, e, i) as int, engine::offset(qs, e, i + 1) as int);
    engine::lemma_offset(qs, e, i + 1, qs.len() as int);
    assert(engine::items_at(qs, e, r.asks@, i));
    let part = r.asks@.subrange(a, b);
    reveal(engine::items_of);
    assert(part[k - a] == r.asks@[k]);
    i
}

proof fn lemma_item_names_differ(qs: Seq<schema::Asked>, e: Expand, r: Asks)
    requires
        well_named(qs),
        engine::laid_out(qs, e, qs.len() as int, r),
    ensures
        forall|k: int, l: int| 0 <= k < l < r.asks@.len() ==> (#[trigger] r.asks@[k]).name@ != (#[trigger] r.asks@[l]).name@,
{
    assert forall|k: int, l: int| 0 <= k < l < r.asks@.len() implies (#[trigger] r.asks@[k]).name@ != (#[trigger] r.asks@[l]).name@ by {
        let i = lemma_item_name(qs, e, r, k);
        let j = lemma_item_name(qs, e, r, l);
        assert(!qs[i].0@.contains(TAG) && !qs[j].0@.contains(TAG));
        if i < j {
            assert(qs[i].0@ != qs[j].0@);
        } else if j < i {
            assert(qs[j].0@ != qs[i].0@);
        }
        let (a, b) = (k - engine::offset(qs, e, i), l - engine::offset(qs, e, j));
        lemma_tagged(qs[i].0@, a, qs[j].0@, b);
        lemma_tagged(qs[j].0@, b, qs[i].0@, a);
    }
}

/// The expanded questions in order are the questions that expand.
pub proof fn lemma_expanding(qs: Seq<schema::Asked>, n: int)
    requires
        0 <= n <= qs.len(),
    ensures
        forall|f: int|
            0 <= f < engine::expanding(qs, n).len() ==> 0 <= #[trigger] engine::expanding(qs, n)[f] < n && expand::expands(
                qs[engine::expanding(qs, n)[f]].1->Ok_0,
            ),
        forall|f: int, g: int|
            0 <= f < g < engine::expanding(qs, n).len() ==> #[trigger] engine::expanding(qs, n)[f]
                < #[trigger] engine::expanding(qs, n)[g],
        forall|i: int|
            0 <= i < n && expand::expands((#[trigger] qs[i]).1->Ok_0) ==> engine::expanding(qs, n).contains(i),
    decreases n,
{
    if n > 0 {
        lemma_expanding(qs, n - 1);
        let (a, b) = (engine::expanding(qs, n - 1), engine::expanding(qs, n));
        assert forall|i: int| 0 <= i < n && expand::expands((#[trigger] qs[i]).1->Ok_0) implies b.contains(i) by {
            if i < n - 1 {
                assert(a.contains(i));
                let f = choose|f: int| 0 <= f < a.len() && a[f] == i;
                assert(b[f] == i);
            } else {
                assert(b[b.len() - 1] == i);
            }
        }
    }
}

/// A request's answers hold one answer for each of its questions and nothing
/// else: that of its item where it was asked as written, the merged one where
/// it was expanded.
pub proof fn law_one_answer_each(qs: Seq<schema::Asked>, e: Expand, r: Asks, answers: Seq<Json>, merged: Seq<Json>)
    requires
        well_named(qs),
        engine::laid_out(qs, e, qs.len() as int, r),
        answers.len() == r.asks@.len(),
        merged.len() == r.folded@.len(),
    ensures
        ({
            let m = refolded(by_name(r.asks@, answers, r.asks@.len() as int), r.folded@, merged, r.folded@.len() as int);
            &&& value::distinct(m)
            &&& forall|i: int|
                0 <= i < qs.len() ==> (#[trigger] value::member(m, qs[i].0@)) is Some && (!expand::expands(
                    qs[i].1->Ok_0,
                ) ==> value::member(m, qs[i].0@) == Some(answers[engine::offset(qs, e, i) as int]))
            &&& forall|f: int|
                0 <= f < r.folded@.len() ==> value::member(m, (#[trigger] r.folded@[f]).name@) == Some(merged[f])
            &&& forall|x: Seq<char>|
                (#[trigger] value::member(m, x)) is Some ==> exists|i: int| 0 <= i < qs.len() && (#[trigger] qs[i]).0@ == x
        }),
{
    let nq = qs.len() as int;
    let (na, nf) = (r.asks@.len() as int, r.folded@.len() as int);
    let base = by_name(r.asks@, answers, na);
    let m = refolded(base, r.folded@, merged, nf);
    let ex = engine::expanding(qs, nq);
    lemma_item_names_differ(qs, e, r);
    lemma_by_name(r.asks@, answers, na);
    lemma_expanding(qs, nq);
    assert forall|f: int| 0 <= f < nf implies !(#[trigger] r.folded@[f]).name@.contains(TAG) && r.folded@[f].name@
        == qs[ex[f]].0@ && engine::folded_from(qs, e, ex[f], r.folded@[f]) by {
        assert(engine::folded_from(qs, e, ex[f], r.folded@[f]));
        assert(!qs[ex[f]].0@.contains(TAG));
    }
    assert forall|f: int, g: int| 0 <= f < g < nf implies (#[trigger] r.folded@[f]).name@ != (#[trigger] r.folded@[g]).name@ by {
        assert(ex[f] < ex[g]);
        assert(qs[ex[f]].0@ != qs[ex[g]].0@);
    }
    lemma_refolded(base, r.folded@, merged, nf);
    assert forall|i: int| 0 <= i < nq implies (#[trigger] value::member(m, qs[i].0@)) is Some && (!expand::expands(
        qs[i].1->Ok_0,
    ) ==> value::member(m, qs[i].0@) == Some(answers[engine::offset(qs, e, i) as int])) by {
        let x = qs[i].0@;
        if expand::expands(qs[i].1->Ok_0) {
            assert(ex.contains(i));
            let f = choose|f: int| 0 <= f < ex.len() && ex[f] == i;
            assert(r.folded@[f].name@ == x);
        } else {
            let k = engine::offset(qs, e, i) as int;
            engine::lemma_offset(qs, e, i + 1, nq);
            let j = lemma_item_name(qs, e, r, k);
            lemma_between(qs, e, i, j, k);
            assert(r.asks@[k].name@ == x);
            lemma_plain_name(qs, r.folded@, ex, nf, i);
        }
    }
    assert forall|x: Seq<char>| (#[trigger] value::member(m, x)) is Some implies exists|i: int|
        0 <= i < nq && (#[trigger] qs[i]).0@ == x by {
        if is_expanded(r.folded@, nf, x) {
            let f = choose|f: int| 0 <= f < nf && (#[trigger] r.folded@[f]).name@ == x;
            assert(qs[ex[f]].0@ == x);
        } else if !is_item(r.folded@, nf, x) {
            assert(value::member(base, x) is Some);
            let k = choose|k: int| 0 <= k < na && (#[trigger] r.asks@[k]).name@ == x;
            let i = lemma_item_name(qs, e, r, k);
            if expand::expands(qs[i].1->Ok_0) {
                assert(ex.contains(i));
                let f = choose|f: int| 0 <= f < ex.len() && ex[f] == i;
                let g = r.folded@[f];
                assert(engine::folded_from(qs, e, ex[f], g));
                let a = k - engine::offset(qs, e, i);
                assert(0 <= a < g.n);
                assert(x == engine::tagged(g.name@, a));
                assert(is_item(r.folded@, nf, x));
            } else {
                assert(qs[i].0@ == x);
            }
        }
    }
}

/// Only one question's items lie around item `k`.
proof fn lemma_between(qs: Seq<schema::Asked>, e: Expand, i: int, j: int, k: int)
    requires
        0 <= i < qs.len(),
        0 <= j < qs.len(),
        engine::offset(qs, e, i) <= k < engine::offset(qs, e, i + 1),
        engine::offset(qs, e, j) <= k < engine::offset(qs, e, j + 1),
    ensures
        i == j,
{
    if i < j {
        engine::lemma_offset(qs, e, i + 1, j);
    } else if j < i {
        engine::lemma_offset(qs, e, j + 1, i);
    }
}

/// A question that was asked as written is neither an expanded one nor an item.
proof fn lemma_plain_name(qs: Seq<schema::Asked>, folded: Seq<Folded>, ex: Seq<int>, nf: int, i: int)
    requires
        well_named(qs),
        0 <= i < qs.len(),
        nf == folded.len(),
        nf == ex.len(),
        !expand::expands(qs[i].1->Ok_0),
        forall|f: int| 0 <= f < nf ==> 0 <= #[trigger] ex[f] < qs.len() && expand::expands(qs[ex[f]].1->Ok_0),
        forall|f: int| 0 <= f < nf ==> (#[trigger] folded[f]).name@ == qs[ex[f]].0@,
    ensures
        !is_item(folded, nf, qs[i].0@),
        !is_expanded(folded, nf, qs[i].0@),
{
    let x = qs[i].0@;
    if is_item(folded, nf, x) {
        let (f, k) = choose|f: int, k: int|
            0 <= f < nf && 0 <= k < (#[trigger] folded[f]).n && x == #[trigger] engine::tagged(folded[f].name@, k);
        assert(folded[f].name@ == qs[ex[f]].0@);
        assert(!qs[ex[f]].0@.contains(TAG));
        lemma_tagged(qs[ex[f]].0@, k, x, 0);
    }
    if is_expanded(folded, nf, x) {
        let f = choose|f: int| 0 <= f < nf && (#[trigger] folded[f]).name@ == x;
        let j = ex[f];
        if i < j {
            assert(qs[i].0@ != qs[j].0@);
        } else if j < i {
            assert(qs[j].0@ != qs[i].0@);
        }
    }
}

} // verus!
