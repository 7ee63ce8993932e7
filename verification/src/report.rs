//! Reports of evaluation runs: what was scored, how answers held up, and how a
//! report prints.
use vstd::prelude::*;

use crate::group;
use crate::group::{Group, Named};
use crate::lines;
use crate::lines::{Piece, Scale, Shown};
use crate::text;
use crate::value;
use crate::value::{Json, Value};

verus! {

/// One key of two answers' probabilities, and what each gives it.
pub struct Term {
    pub key: String,
    pub a: String,
    pub b: String,
}

/// The keys of terms.
pub open spec fn keys_of(ts: Seq<Term>) -> Seq<Seq<char>> {
    ts.map_values(|t: Term| t.key@)
}

/// The number under `k`, zero for none.
pub open spec fn share(m: Seq<(Seq<char>, Json)>, k: Seq<char>) -> Seq<char> {
    match value::member(m, k) {
        Some(j) => match value::number_in(j) {
            Some(t) => t,
            None => "0.0"@,
        },
        None => "0.0"@,
    }
}

/// Every key of either answer once, in order, with both shares.
pub open spec fn is_drift(ts: Seq<Term>, pa: Seq<(Seq<char>, Json)>, pb: Seq<(Seq<char>, Json)>) -> bool {
    &&& text::ordered(keys_of(ts))
    &&& forall|k: Seq<char>|
        #[trigger] keys_of(ts).contains(k) <==> value::place(pa, k) is Some || value::place(pb, k) is Some
    &&& forall|i: int|
        0 <= i < ts.len() ==> (#[trigger] ts[i]).a@ == share(pa, ts[i].key@) && ts[i].b@ == share(pb, ts[i].key@)
}

fn share_of(m: &Vec<(String, Value)>, k: &str) -> (r: String)
    ensures
        r@ == share(value::fields(m@), k@),
{
    match value::get(m, k) {
        Some(v) => match v {
            Value::Number(t) => t.clone(),
            _ => "0.0".to_owned(),
        },
        None => "0.0".to_owned(),
    }
}

/// Add the keys of an object to an ordered list.
fn gather(keys: &mut Vec<String>, m: &Vec<(String, Value)>)
    requires
        text::ordered(text::views(old(keys)@)),
    ensures
        text::ordered(text::views(final(keys)@)),
        forall|k: Seq<char>|
            #[trigger] text::views(final(keys)@).contains(k) <==> text::views(old(keys)@).contains(k) || value::place(
                value::fields(m@),
                k,
            ) is Some,
{
    let ghost o = text::views(keys@);
    let ghost f = value::fields(m@);
    proof {
        value::lemma_fields(m@);
    }
    let mut i: usize = 0;
    while i < m.len()
        invariant
            i <= m@.len(),
            f == value::fields(m@),
            f.len() == m@.len(),
            forall|j: int| 0 <= j < m@.len() ==> #[trigger] f[j] == (m@[j].0@, value::json(m@[j].1)),
            text::ordered(text::views(keys@)),
            forall|k: Seq<char>|
                #[trigger] text::views(keys@).contains(k) <==> o.contains(k) || exists|j: int|
                    0 <= j < i && (#[trigger] f[j]).0 == k,
        decreases m@.len() - i,
    {
        let ghost before = text::views(keys@);
        text::insert(keys, m[i].0.as_str());
        proof {
            assert(f[i as int].0 == m@[i as int].0@);
            assert forall|k: Seq<char>| #[trigger] text::views(keys@).contains(k) <==> o.contains(k) || exists|j: int|
                0 <= j < i + 1 && (#[trigger] f[j]).0 == k by {
                assert(text::views(keys@).contains(k) <==> before.contains(k) || k == f[i as int].0);
                if before.contains(k) && !o.contains(k) {
                    let j = choose|j: int| 0 <= j < i && (#[trigger] f[j]).0 == k;
                    assert(f[j].0 == k);
                }
                if exists|j: int| 0 <= j < i + 1 && (#[trigger] f[j]).0 == k {
                    let j = choose|j: int| 0 <= j < i + 1 && (#[trigger] f[j]).0 == k;
                    if j < i {
                        assert(f[j].0 == k);
                        assert(before.contains(k));
                    }
                }
            }
        }
        i += 1;
    }
    proof {
        assert forall|k: Seq<char>| #[trigger] text::views(keys@).contains(k) <==> o.contains(k) || value::place(f, k)
            is Some by {
            value::lemma_place(f, k);
            if value::place(f, k) is Some {
                assert(f[value::place(f, k)->0].0 == k);
            }
        }
    }
}

/// The probabilities of an answer.
pub open spec fn probs_of(ans: Json) -> Option<Seq<(Seq<char>, Json)>> {
    match value::index(ans, "probabilities"@) {
        Json::Object(m) => Some(m),
        _ => None,
    }
}

fn probs_at<'a>(ans: &'a Value) -> (r: Option<&'a Vec<(String, Value)>>)
    ensures
        match r {
            Some(m) => probs_of(ans@) == Some(value::fields(m@)),
            None => probs_of(ans@) is None,
        },
{
    match value::look(ans, "probabilities") {
        Some(v) => match v {
            Value::Object(m) => Some(m),
            _ => None,
        },
        None => None,
    }
}

/// The terms of the drift between two answers: the mean of |a - b| over them.
/// None where either answer has no probabilities.
pub fn drift(a: &Value, b: &Value) -> (r: Option<Vec<Term>>)
    ensures
        match r {
            Some(ts) => probs_of(a@) is Some && probs_of(b@) is Some && is_drift(
                ts@,
                probs_of(a@)->0,
                probs_of(b@)->0,
            ),
            None => probs_of(a@) is None || probs_of(b@) is None,
        },
{
    let (pa, pb): (&Vec<(String, Value)>, &Vec<(String, Value)>) = match (probs_at(a), probs_at(b)) {
        (Some(x), Some(y)) => (x, y),
        _ => return None,
    };
    let ghost (ma, mb) = (value::fields(pa@), value::fields(pb@));
    let mut keys: Vec<String> = Vec::new();
    proof {
        assert(text::views(keys@) =~= Seq::empty());
    }
    gather(&mut keys, pa);
    gather(&mut keys, pb);
    let ghost ks = text::views(keys@);
    let mut ts: Vec<Term> = Vec::new();
    let mut i: usize = 0;
    while i < keys.len()
        invariant
            i <= keys@.len(),
            ks == text::views(keys@),
            ma == value::fields(pa@),
            mb == value::fields(pb@),
            keys_of(ts@) =~= ks.take(i as int),
            forall|j: int|
                0 <= j < ts@.len() ==> (#[trigger] ts@[j]).a@ == share(ma, ts@[j].key@) && ts@[j].b@ == share(
                    mb,
                    ts@[j].key@,
                ),
        decreases keys@.len() - i,
    {
        let k: String = keys[i].clone();
        let (x, y): (String, String) = (share_of(pa, k.as_str()), share_of(pb, k.as_str()));
        let ghost t0 = ts@;
        ts.push(Term { key: k, a: x, b: y });
        proof {
            assert(keys_of(ts@) =~= keys_of(t0).push(ks[i as int]));
        }
        i += 1;
    }
    proof {
        assert(ks.take(i as int) =~= ks);
    }
    Some(ts)
}

/// How often one question type was scored and passed.
pub struct TypeTally {
    pub name: String,
    pub n: usize,
    pub ok: usize,
}

/// A row that has a verdict.
pub open spec fn is_scored(r: Json) -> bool {
    value::index(r, "ok"@) != Json::Null
}

/// A row that passed.
pub open spec fn is_passed(r: Json) -> bool {
    value::index(r, "ok"@) == Json::Bool(true)
}

/// The rows that have a verdict.
pub open spec fn scored_in(rows: Seq<Json>) -> Seq<Json>
    decreases rows.len(),
{
    if rows.len() == 0 {
        Seq::empty()
    } else if is_scored(rows.last()) {
        scored_in(rows.drop_last()).push(rows.last())
    } else {
        scored_in(rows.drop_last())
    }
}

/// How many rows passed.
pub open spec fn passes(rows: Seq<Json>) -> nat
    decreases rows.len(),
{
    if rows.len() == 0 {
        0
    } else {
        passes(rows.drop_last()) + if is_passed(rows.last()) {
            1nat
        } else {
            0
        }
    }
}

/// The rows of a type.
pub open spec fn of_type(rows: Seq<Json>, t: Seq<char>) -> Seq<Json>
    decreases rows.len(),
{
    if rows.len() == 0 {
        Seq::empty()
    } else if lines::name_or(rows.last(), "type"@) == t {
        of_type(rows.drop_last(), t).push(rows.last())
    } else {
        of_type(rows.drop_last(), t)
    }
}

/// The types of rows, in the order in which they first stand.
pub open spec fn types_in(rows: Seq<Json>) -> Seq<Seq<char>>
    decreases rows.len(),
{
    if rows.len() == 0 {
        Seq::empty()
    } else {
        let ts = types_in(rows.drop_last());
        let t = lines::name_or(rows.last(), "type"@);
        if ts.contains(t) {
            ts
        } else {
            ts.push(t)
        }
    }
}

/// What went wrong in a row.
pub open spec fn failure_of(r: Json) -> Json {
    Json::Object(
        seq![
            ("id"@, value::index(r, "id"@)),
            ("type"@, value::index(r, "type"@)),
            ("answer"@, value::index(r, "answer"@)),
            ("confidence"@, value::index(r, "confidence"@)),
        ],
    )
}

/// What went wrong in rows.
pub open spec fn failures_in(rows: Seq<Json>) -> Seq<Json>
    decreases rows.len(),
{
    if rows.len() == 0 {
        Seq::empty()
    } else if is_passed(rows.last()) {
        failures_in(rows.drop_last())
    } else {
        failures_in(rows.drop_last()).push(failure_of(rows.last()))
    }
}

/// The numbers under `k`, `d` where there is none.
pub open spec fn column(rows: Seq<Json>, k: Seq<char>, d: Seq<char>) -> Seq<Seq<char>>
    decreases rows.len(),
{
    if rows.len() == 0 {
        Seq::empty()
    } else {
        column(rows.drop_last(), k, d).push(
            match value::number_in(value::index(rows.last(), k)) {
                Some(t) => t,
                None => d,
            },
        )
    }
}

/// What a run counts up to.
pub struct Tally {
    pub scored: usize,
    pub passed: usize,
    pub by_type: Vec<TypeTally>,
    pub failures: Vec<Value>,
    /// Confidence of each scored row.
    pub confidences: Vec<String>,
}

/// The names of types.
pub open spec fn names_of(ts: Seq<TypeTally>) -> Seq<Seq<char>> {
    ts.map_values(|t: TypeTally| t.name@)
}

/// Counts of each type are those of its rows.
pub open spec fn counts(ts: Seq<TypeTally>, rows: Seq<Json>) -> bool {
    &&& names_of(ts) == types_in(rows)
    &&& forall|i: int|
        0 <= i < ts.len() ==> (#[trigger] ts[i]).n == of_type(rows, ts[i].name@).len() && ts[i].ok == passes(
            of_type(rows, ts[i].name@),
        )
}

/// The tally of a run over its rows.
pub open spec fn tallies(t: Tally, rows: Seq<Json>) -> bool {
    let s = scored_in(rows);
    &&& t.scored == s.len()
    &&& t.passed == passes(s)
    &&& counts(t.by_type@, s)
    &&& value::jsons(t.failures@) == failures_in(s)
    &&& text::views(t.confidences@) == column(s, "confidence"@, "0.0"@)
}

/// Types stand once each, and no count exceeds the rows.
pub proof fn lemma_types(rows: Seq<Json>)
    ensures
        types_in(rows).no_duplicates(),
        forall|t: Seq<char>| #[trigger] types_in(rows).contains(t) <==> of_type(rows, t).len() > 0,
        forall|t: Seq<char>| (#[trigger] of_type(rows, t)).len() <= rows.len() && passes(of_type(rows, t)) <= of_type(
            rows,
            t,
        ).len(),
    decreases rows.len(),
{
    if rows.len() > 0 {
        let d = rows.drop_last();
        lemma_types(d);
        let (ts, t) = (types_in(d), lines::name_or(rows.last(), "type"@));
        assert forall|k: Seq<char>| #[trigger] types_in(rows).contains(k) <==> of_type(rows, k).len() > 0 by {
            assert(ts.contains(k) <==> of_type(d, k).len() > 0);
            if !ts.contains(t) {
                let n = ts.push(t);
                assert(n.last() == t);
                if n.contains(k) {
                    let j = choose|j: int| 0 <= j < n.len() && n[j] == k;
                    if j < ts.len() {
                        assert(ts[j] == k);
                    }
                }
                if ts.contains(k) {
                    let j = choose|j: int| 0 <= j < ts.len() && ts[j] == k;
                    assert(n[j] == k);
                }
                assert(n[ts.len() as int] == t);
            }
        }
        assert forall|k: Seq<char>| (#[trigger] of_type(rows, k)).len() <= rows.len() && passes(of_type(rows, k))
            <= of_type(rows, k).len() by {
            assert(of_type(d, k).len() <= d.len());
            if k == t {
                assert(of_type(rows, k).drop_last() =~= of_type(d, k));
            }
        }
    }
}

/// Rows of the types listed.
pub open spec fn counted(ts: Seq<Seq<char>>, rows: Seq<Json>) -> nat
    decreases ts.len(),
{
    if ts.len() == 0 {
        0
    } else {
        counted(ts.drop_last(), rows) + of_type(rows, ts.last()).len()
    }
}

proof fn lemma_counted(ts: Seq<Seq<char>>, rows: Seq<Json>)
    requires
        rows.len() > 0,
        ts.no_duplicates(),
    ensures
        counted(ts, rows) == counted(ts, rows.drop_last()) + if ts.contains(lines::name_or(rows.last(), "type"@)) {
            1nat
        } else {
            0
        },
    decreases ts.len(),
{
    if ts.len() > 0 {
        let (d, t) = (ts.drop_last(), lines::name_or(rows.last(), "type"@));
        assert forall|i: int, j: int| 0 <= i < d.len() && 0 <= j < d.len() && i != j implies d[i] != d[j] by {
            assert(ts[i] != ts[j]);
        }
        lemma_counted(d, rows);
        if d.contains(t) {
            let i = choose|i: int| 0 <= i < d.len() && d[i] == t;
            assert(ts[i] == t);
            assert(ts[i] != ts[ts.len() - 1]);
        }
        if ts.contains(t) && !d.contains(t) {
            let i = choose|i: int| 0 <= i < ts.len() && ts[i] == t;
            if i < d.len() {
                assert(d[i] == t);
            }
        }
        if ts.last() == t {
            assert(ts[ts.len() - 1] == t);
        }
    }
}

proof fn lemma_uncounted(ts: Seq<Seq<char>>, t: Seq<char>, rows: Seq<Json>)
    ensures
        counted(ts.push(t), rows) == counted(ts, rows) + of_type(rows, t).len(),
{
    assert(ts.push(t).drop_last() =~= ts);
}

/// Every row counts toward exactly one type.
pub proof fn law_every_row_counted(rows: Seq<Json>)
    ensures
        types_in(rows).no_duplicates(),
        counted(types_in(rows), rows) == rows.len(),
    decreases rows.len(),
{
    lemma_types(rows);
    if rows.len() > 0 {
        let d = rows.drop_last();
        law_every_row_counted(d);
        lemma_types(d);
        let (ts, t) = (types_in(d), lines::name_or(rows.last(), "type"@));
        if ts.contains(t) {
            lemma_counted(ts, rows);
        } else {
            lemma_uncounted(ts, t, rows);
            lemma_counted(ts, rows);
            assert(of_type(d, t).len() == 0);
        }
    }
}

fn failure(r: &Value) -> (f: Value)
    ensures
        f@ == failure_of(r@),
{
    let mut m: Vec<(String, Value)> = Vec::new();
    value::push_field(&mut m, "id", value::copy_at(r, "id"));
    value::push_field(&mut m, "type", value::copy_at(r, "type"));
    value::push_field(&mut m, "answer", value::copy_at(r, "answer"));
    value::push_field(&mut m, "confidence", value::copy_at(r, "confidence"));
    proof {
        assert(value::fields(m@) =~= failure_of(r@)->Object_0);
    }
    Value::Object(m)
}

fn type_place(ts: &Vec<TypeTally>, t: &str) -> (r: Option<usize>)
    ensures
        match r {
            Some(i) => i < ts@.len() && ts@[i as int].name@ == t@,
            None => !names_of(ts@).contains(t@),
        },
{
    let mut i: usize = 0;
    while i < ts.len()
        invariant
            i <= ts@.len(),
            forall|j: int| 0 <= j < i ==> (#[trigger] ts@[j]).name@ != t@,
        decreases ts@.len() - i,
    {
        if text::same(ts[i].name.as_str(), t) {
            return Some(i);
        }
        i += 1;
    }
    proof {
        if names_of(ts@).contains(t@) {
            let j = choose|j: int| 0 <= j < names_of(ts@).len() && names_of(ts@)[j] == t@;
            assert(ts@[j].name@ == t@);
        }
    }
    None
}

/// Count a row of a type.
fn count_type(ts: &mut Vec<TypeTally>, r: &Value, Ghost(rows): Ghost<Seq<Json>>)
    requires
        counts(old(ts)@, rows),
        rows.len() < usize::MAX,
    ensures
        counts(final(ts)@, rows.push(r@)),
{
    let t: String = lines::name_of(r, "type");
    let passed: bool = value::true_at(r, "ok");
    let ghost all = rows.push(r@);
    let ghost o = ts@;
    proof {
        lemma_types(rows);
        assert(all.drop_last() =~= rows);
        assert(of_type(all, t@) == of_type(rows, t@).push(r@));
        assert(of_type(all, t@).drop_last() =~= of_type(rows, t@));
        assert(of_type(rows, t@).len() <= rows.len());
        assert forall|k: Seq<char>| k != t@ implies #[trigger] of_type(all, k) == of_type(rows, k) by {}
    }
    if let Some(i) = type_place(ts, t.as_str()) {
        proof {
            assert(names_of(o)[i as int] == t@);
            assert(types_in(rows).contains(t@));
        }
        let (n, ok): (usize, usize) = (ts[i].n, ts[i].ok);
        let name: String = ts[i].name.clone();
        ts.set(i, TypeTally { name, n: n + 1, ok: if passed { ok + 1 } else { ok } });
        proof {
            assert(names_of(ts@) =~= names_of(o));
            assert forall|j: int| 0 <= j < ts@.len() implies (#[trigger] ts@[j]).n == of_type(all, ts@[j].name@).len()
                && ts@[j].ok == passes(of_type(all, ts@[j].name@)) by {
                assert(o[j].n == of_type(rows, o[j].name@).len());
                assert(names_of(o)[j] == o[j].name@);
                if j != i {
                    assert(names_of(o)[j] != names_of(o)[i as int]);
                }
            }
        }
        return;
    }
    proof {
        if types_in(rows).contains(t@) {
            let j = choose|j: int| 0 <= j < types_in(rows).len() && types_in(rows)[j] == t@;
            assert(names_of(o)[j] == t@);
        }
        assert(of_type(rows, t@).len() == 0);
        assert(of_type(all, t@).drop_last() =~= Seq::empty());
        assert(passes(of_type(all, t@)) == if passed { 1nat } else { 0 });
    }
    let name: String = t.clone();
    ts.push(TypeTally { name, n: 1, ok: if passed { 1 } else { 0 } });
    proof {
        assert(names_of(ts@) =~= names_of(o).push(t@));
        assert forall|j: int| 0 <= j < ts@.len() implies (#[trigger] ts@[j]).n == of_type(all, ts@[j].name@).len()
            && ts@[j].ok == passes(of_type(all, ts@[j].name@)) by {
            if j < o.len() {
                assert(o[j].n == of_type(rows, o[j].name@).len());
                assert(names_of(o)[j] == o[j].name@);
            }
        }
    }
}

proof fn lemma_passes(rows: Seq<Json>)
    ensures
        passes(rows) <= rows.len(),
        scored_in(rows).len() <= rows.len(),
    decreases rows.len(),
{
    if rows.len() > 0 {
        lemma_passes(rows.drop_last());
    }
}

/// Count up a run.
pub fn tally(rows: &Vec<Value>) -> (r: Tally)
    ensures
        tallies(r, value::jsons(rows@)),
{
    let ghost js = value::jsons(rows@);
    proof {
        value::lemma_jsons(rows@);
        assert(js.take(0) =~= Seq::empty());
    }
    let mut t: Tally = Tally {
        scored: 0,
        passed: 0,
        by_type: Vec::new(),
        failures: Vec::new(),
        confidences: Vec::new(),
    };
    proof {
        assert(names_of(t.by_type@) =~= Seq::empty());
        assert(text::views(t.confidences@) =~= Seq::empty());
    }
    let mut i: usize = 0;
    let n: usize = rows.len();
    while i < n
        invariant
            i <= n,
            n == rows@.len(),
            js == value::jsons(rows@),
            js.len() == rows@.len(),
            forall|j: int| 0 <= j < rows@.len() ==> #[trigger] js[j] == value::json(rows@[j]),
            tallies(t, js.take(i as int)),
        decreases n - i,
    {
        let row: &Value = &rows[i];
        let ghost before = js.take(i as int);
        let ghost s = scored_in(before);
        proof {
            assert(js.take(i + 1).drop_last() =~= before);
            assert(js.take(i + 1).last() == row@);
            lemma_passes(before);
            lemma_passes(s);
        }
        let scored: bool = match value::look(row, "ok") {
            Some(v) => match v {
                Value::Null => false,
                _ => true,
            },
            None => false,
        };
        if scored {
            let passed: bool = value::true_at(row, "ok");
            proof {
                assert(s.push(row@).drop_last() =~= s);
            }
            t.scored += 1;
            count_type(&mut t.by_type, row, Ghost(s));
            let ghost (f0, c0) = (t.failures@, t.confidences@);
            if passed {
                t.passed += 1;
            } else {
                t.failures.push(failure(row));
                proof {
                    assert(t.failures@.drop_last() =~= f0);
                }
            }
            let c: String = match value::number_at(row, "confidence") {
                Some(x) => x,
                None => "0.0".to_owned(),
            };
            t.confidences.push(c);
            proof {
                assert(text::views(t.confidences@) =~= text::views(c0).push(c@));
                assert(scored_in(js.take(i + 1)) == s.push(row@));
            }
        }
        i += 1;
    }
    proof {
        assert(js.take(i as int) =~= js);
    }
    t
}

/// How often a class was asked and found.
pub struct ClassTally {
    pub class: usize,
    pub ok: usize,
    pub n: usize,
}

/// A tally of class `c`.
pub open spec fn has_class(cs: Seq<ClassTally>, c: usize) -> bool {
    exists|j: int| 0 <= j < cs.len() && (#[trigger] cs[j]).class == c
}

/// Each class that is a target, in order, with how often it was asked and found.
pub open spec fn recalls(cs: Seq<ClassTally>, targets: Seq<usize>, hits: Seq<bool>) -> bool {
    &&& forall|i: int, j: int| 0 <= i < j < cs.len() ==> (#[trigger] cs[i]).class < (#[trigger] cs[j]).class
    &&& forall|i: int|
        0 <= i < targets.len() ==> has_class(cs, #[trigger] targets[i])
    &&& forall|j: int|
        0 <= j < cs.len() ==> targets.contains((#[trigger] cs[j]).class) && cs[j].n == group::positions(
            targets,
            cs[j].class,
        ).len() && cs[j].ok == group::marked(group::positions(targets, cs[j].class), hits)
}

/// Hits by target class: balanced accuracy is the mean of ok / n over them.
pub fn per_class(targets: &Vec<usize>, hits: &Vec<bool>) -> (r: Vec<ClassTally>)
    requires
        targets@.len() == hits@.len(),
    ensures
        recalls(r@, targets@, hits@),
{
    let gs: Vec<Group> = group::groups(targets);
    let mut r: Vec<ClassTally> = Vec::new();
    let mut i: usize = 0;
    while i < gs.len()
        invariant
            i <= gs@.len(),
            i == r@.len(),
            targets@.len() == hits@.len(),
            group::groups_of(gs@, targets@),
            forall|j: int|
                0 <= j < i ==> (#[trigger] r@[j]).class == gs@[j].key && r@[j].n == group::positions(
                    targets@,
                    gs@[j].key,
                ).len() && r@[j].ok == group::marked(group::positions(targets@, gs@[j].key), hits@),
        decreases gs@.len() - i,
    {
        let g: &Group = &gs[i];
        proof {
            group::lemma_positions(targets@, g.key);
            assert forall|j: int| 0 <= j < g.members@.len() implies (#[trigger] g.members@[j]) < hits@.len() by {
                assert(group::ints(g.members@)[j] == g.members@[j] as int);
                assert(group::positions(targets@, g.key).contains(g.members@[j] as int));
            }
        }
        r.push(ClassTally { class: g.key, ok: group::count_marked(&g.members, hits), n: g.members.len() });
        i += 1;
    }
    proof {
        assert forall|j: int| 0 <= j < targets@.len() implies has_class(r@, #[trigger] targets@[j]) by {
            assert(group::has_key(gs@, targets@[j]));
            let k = choose|k: int| 0 <= k < gs@.len() && (#[trigger] gs@[k]).key == targets@[j];
            assert(r@[k].class == targets@[j]);
        }
        assert forall|a: int, b: int| 0 <= a < b < r@.len() implies (#[trigger] r@[a]).class < (#[trigger] r@[b]).class by {
            assert(gs@[a].key < gs@[b].key);
        }
        assert forall|j: int| 0 <= j < r@.len() implies targets@.contains((#[trigger] r@[j]).class) && r@[j].n
            == group::positions(targets@, r@[j].class).len() && r@[j].ok == group::marked(
            group::positions(targets@, r@[j].class),
            hits@,
        ) by {
            assert(targets@.contains(gs@[j].key));
        }
    }
    r
}

/// How steady answers were under one kind of variant.
pub struct KindTally {
    pub kind: String,
    pub agreed: usize,
    pub members: Vec<usize>,
}

/// The kinds of tallies.
pub open spec fn kinds_of(ts: Seq<KindTally>) -> Seq<Seq<char>> {
    ts.map_values(|t: KindTally| t.kind@)
}

/// Each kind of variant, in order, with its places and how many agreed.
pub open spec fn steady(ts: Seq<KindTally>, kinds: Seq<Seq<char>>, agree: Seq<bool>) -> bool {
    &&& text::ordered(kinds_of(ts))
    &&& forall|k: Seq<char>| #[trigger] kinds_of(ts).contains(k) <==> kinds.contains(k)
    &&& forall|j: int|
        0 <= j < ts.len() ==> group::ints((#[trigger] ts[j]).members@) == group::positions(kinds, ts[j].kind@)
            && ts[j].agreed == group::marked(group::positions(kinds, ts[j].kind@), agree)
}

/// Agreement by kind of variant.
pub fn per_kind(kinds: &Vec<String>, agree: &Vec<bool>) -> (r: Vec<KindTally>)
    requires
        kinds@.len() == agree@.len(),
    ensures
        steady(r@, text::views(kinds@), agree@),
{
    let gs: Vec<Named> = group::named_groups(kinds);
    let ghost ks = text::views(kinds@);
    let mut r: Vec<KindTally> = Vec::new();
    let mut i: usize = 0;
    while i < gs.len()
        invariant
            i <= gs@.len(),
            ks.len() == agree@.len(),
            group::named_of(gs@, ks),
            kinds_of(r@) =~= group::group_names(gs@).take(i as int),
            forall|j: int|
                0 <= j < r@.len() ==> group::ints((#[trigger] r@[j]).members@) == group::positions(ks, r@[j].kind@)
                    && r@[j].agreed == group::marked(group::positions(ks, r@[j].kind@), agree@),
        decreases gs@.len() - i,
    {
        let g: &Named = &gs[i];
        proof {
            group::lemma_positions(ks, g.name@);
            assert forall|j: int| 0 <= j < g.members@.len() implies (#[trigger] g.members@[j]) < agree@.len() by {
                assert(group::ints(g.members@)[j] == g.members@[j] as int);
                assert(group::positions(ks, g.name@).contains(g.members@[j] as int));
            }
        }
        let mut members: Vec<usize> = Vec::new();
        let mut k: usize = 0;
        while k < g.members.len()
            invariant
                k <= g.members@.len(),
                members@ =~= g.members@.take(k as int),
            decreases g.members@.len() - k,
        {
            members.push(g.members[k]);
            k += 1;
        }
        proof {
            assert(members@ =~= g.members@);
        }
        let ghost r0 = r@;
        r.push(KindTally { kind: g.name.clone(), agreed: group::count_marked(&g.members, agree), members });
        proof {
            assert(kinds_of(r@) =~= kinds_of(r0).push(g.name@));
            assert(group::group_names(gs@)[i as int] == g.name@);
        }
        i += 1;
    }
    proof {
        assert(group::group_names(gs@).take(i as int) =~= group::group_names(gs@));
    }
    r
}

/// How steady answers were: over how many, what share agreed, mean drift.
pub struct Steadiness {
    pub n: usize,
    pub agreement: String,
    pub mean_drift: String,
}

pub open spec fn steadiness_of(s: Steadiness) -> Seq<(Seq<char>, Json)> {
    seq![
        ("n"@, Json::Number(text::digits(s.n as nat))),
        ("agreement"@, Json::Number(s.agreement@)),
        ("mean_drift"@, Json::Number(s.mean_drift@)),
    ]
}

/// Steadiness by kind.
pub open spec fn by_kind_of(ks: Seq<(String, Steadiness)>) -> Seq<(Seq<char>, Json)> {
    ks.map_values(|k: (String, Steadiness)| (k.0@, Json::Object(steadiness_of(k.1))))
}

fn steadiness(s: &Steadiness) -> (r: Vec<(String, Value)>)
    ensures
        value::fields(r@) == steadiness_of(*s),
{
    let mut m: Vec<(String, Value)> = Vec::new();
    value::push_field(&mut m, "n", Value::Number(text::decimal(s.n as u64)));
    value::push_field(&mut m, "agreement", Value::Number(s.agreement.clone()));
    value::push_field(&mut m, "mean_drift", Value::Number(s.mean_drift.clone()));
    proof {
        assert(value::fields(m@) =~= steadiness_of(*s));
    }
    m
}

/// Steadiness over all variants and by kind.
pub fn consistency(all: &Steadiness, kinds: &Vec<(String, Steadiness)>) -> (r: Value)
    ensures
        r@ == Json::Object(steadiness_of(*all).push(("by_kind"@, Json::Object(by_kind_of(kinds@))))),
{
    let mut by: Vec<(String, Value)> = Vec::new();
    let mut i: usize = 0;
    proof {
        assert(by_kind_of(kinds@).take(0) =~= Seq::empty());
    }
    while i < kinds.len()
        invariant
            i <= kinds@.len(),
            value::fields(by@) == by_kind_of(kinds@).take(i as int),
        decreases kinds@.len() - i,
    {
        value::push_field(&mut by, kinds[i].0.as_str(), Value::Object(steadiness(&kinds[i].1)));
        proof {
            assert(by_kind_of(kinds@).take(i + 1) =~= by_kind_of(kinds@).take(i as int).push(
                by_kind_of(kinds@)[i as int],
            ));
        }
        i += 1;
    }
    proof {
        assert(by_kind_of(kinds@).take(i as int) =~= by_kind_of(kinds@));
    }
    let mut m: Vec<(String, Value)> = steadiness(all);
    value::push_field(&mut m, "by_kind", Value::Object(by));
    Value::Object(m)
}

/// The measures of a run, rounded, as they print.
pub struct Measures {
    pub accuracy: String,
    pub balanced_accuracy: Value,
    pub brier: Value,
    pub ece: Value,
    pub consistency: Value,
    pub mean_confidence: String,
    /// Share passed of each type of the tally.
    pub type_accuracy: Vec<String>,
    pub ms_mean: String,
    pub ms_total: String,
}

/// What a report says of each type.
pub open spec fn per_type_of(ts: Seq<TypeTally>, accs: Seq<String>) -> Seq<(Seq<char>, Json)> {
    Seq::new(
        ts.len(),
        |i: int|
            (
                ts[i].name@,
                Json::Object(
                    seq![("n"@, Json::Number(text::digits(ts[i].n as nat))), ("acc"@, Json::Number(accs[i]@))],
                ),
            ),
    )
}

/// A report.
pub open spec fn report_of(label: Seq<char>, rows: Seq<Json>, t: Tally, m: Measures) -> Json {
    Json::Object(
        seq![
            ("model"@, Json::Str(label)),
            ("cases"@, Json::Number(text::digits(rows.len()))),
            ("scored"@, Json::Number(text::digits(t.scored as nat))),
            ("accuracy"@, Json::Number(m.accuracy@)),
            ("balanced_accuracy"@, m.balanced_accuracy@),
            ("brier"@, m.brier@),
            ("ece"@, m.ece@),
            ("consistency"@, m.consistency@),
            ("mean_confidence"@, Json::Number(m.mean_confidence@)),
            ("per_type"@, Json::Object(per_type_of(t.by_type@, m.type_accuracy@))),
            ("ms_mean"@, Json::Number(m.ms_mean@)),
            ("ms_total"@, Json::Number(m.ms_total@)),
            ("failures"@, Json::Array(value::jsons(t.failures@))),
            ("rows"@, Json::Array(rows)),
        ],
    )
}

fn per_type(ts: &Vec<TypeTally>, accs: &Vec<String>) -> (r: Vec<(String, Value)>)
    requires
        ts@.len() == accs@.len(),
    ensures
        value::fields(r@) == per_type_of(ts@, accs@),
{
    let ghost p = per_type_of(ts@, accs@);
    let mut r: Vec<(String, Value)> = Vec::new();
    let mut i: usize = 0;
    proof {
        assert(p.take(0) =~= Seq::empty());
    }
    while i < ts.len()
        invariant
            i <= ts@.len(),
            ts@.len() == accs@.len(),
            p == per_type_of(ts@, accs@),
            value::fields(r@) == p.take(i as int),
        decreases ts@.len() - i,
    {
        let mut m: Vec<(String, Value)> = Vec::new();
        value::push_field(&mut m, "n", Value::Number(text::decimal(ts[i].n as u64)));
        value::push_field(&mut m, "acc", Value::Number(accs[i].clone()));
        proof {
            assert(value::fields(m@) =~= p[i as int].1->Object_0);
            assert(p.take(i + 1) =~= p.take(i as int).push(p[i as int]));
        }
        value::push_field(&mut r, ts[i].name.as_str(), Value::Object(m));
        i += 1;
    }
    proof {
        assert(p.take(i as int) =~= p);
    }
    r
}

/// The report of a run: its rows, what they count up to, what was measured.
pub fn report(label: &str, rows: Vec<Value>, t: &Tally, m: &Measures) -> (r: Value)
    requires
        tallies(*t, value::jsons(rows@)),
        m.type_accuracy@.len() == t.by_type@.len(),
    ensures
        r@ == report_of(label@, value::jsons(rows@), *t, *m),
{
    proof {
        value::lemma_jsons(rows@);
    }
    let failures: Value = copy_all(&t.failures);
    let mut o: Vec<(String, Value)> = Vec::new();
    value::push_field(&mut o, "model", Value::Str(label.to_owned()));
    value::push_field(&mut o, "cases", Value::Number(text::decimal(rows.len() as u64)));
    value::push_field(&mut o, "scored", Value::Number(text::decimal(t.scored as u64)));
    value::push_field(&mut o, "accuracy", Value::Number(m.accuracy.clone()));
    value::push_field(&mut o, "balanced_accuracy", value::copy(&m.balanced_accuracy));
    value::push_field(&mut o, "brier", value::copy(&m.brier));
    value::push_field(&mut o, "ece", value::copy(&m.ece));
    value::push_field(&mut o, "consistency", value::copy(&m.consistency));
    value::push_field(&mut o, "mean_confidence", Value::Number(m.mean_confidence.clone()));
    value::push_field(&mut o, "per_type", Value::Object(per_type(&t.by_type, &m.type_accuracy)));
    value::push_field(&mut o, "ms_mean", Value::Number(m.ms_mean.clone()));
    value::push_field(&mut o, "ms_total", Value::Number(m.ms_total.clone()));
    value::push_field(&mut o, "failures", failures);
    value::push_field(&mut o, "rows", Value::Array(rows));
    proof {
        assert(value::fields(o@) =~= report_of(label@, value::jsons(rows@), *t, *m)->Object_0);
    }
    Value::Object(o)
}

fn copy_all(a: &Vec<Value>) -> (r: Value)
    ensures
        r@ == Json::Array(value::jsons(a@)),
{
    let mut v: Vec<Value> = Vec::new();
    let mut i: usize = 0;
    proof {
        assert(a@.take(0) =~= Seq::empty());
    }
    while i < a.len()
        invariant
            i <= a@.len(),
            value::jsons(v@) == value::jsons(a@.take(i as int)),
        decreases a@.len() - i,
    {
        let ghost v0 = v@;
        v.push(value::copy(&a[i]));
        proof {
            assert(v@.drop_last() =~= v0);
            assert(a@.take(i + 1).drop_last() =~= a@.take(i as int));
        }
        i += 1;
    }
    proof {
        assert(a@.take(i as int) =~= a@);
    }
    Value::Array(v)
}

/// The times that rows took, as they print.
pub open spec fn times_in(rows: Seq<Json>) -> Seq<Seq<char>>
    decreases rows.len(),
{
    if rows.len() == 0 {
        Seq::empty()
    } else {
        match value::number_in(value::index(rows.last(), "ms"@)) {
            Some(t) => times_in(rows.drop_last()).push(t),
            None => times_in(rows.drop_last()),
        }
    }
}

/// The times that rows took, as they print.
pub fn times(rows: &Vec<Value>) -> (r: Vec<String>)
    ensures
        text::views(r@) == times_in(value::jsons(rows@)),
{
    let ghost js = value::jsons(rows@);
    proof {
        value::lemma_jsons(rows@);
        assert(js.take(0) =~= Seq::empty());
    }
    let mut r: Vec<String> = Vec::new();
    let mut i: usize = 0;
    proof {
        assert(text::views(r@) =~= Seq::empty());
    }
    while i < rows.len()
        invariant
            i <= rows@.len(),
            js == value::jsons(rows@),
            js.len() == rows@.len(),
            forall|j: int| 0 <= j < rows@.len() ==> #[trigger] js[j] == value::json(rows@[j]),
            text::views(r@) == times_in(js.take(i as int)),
        decreases rows@.len() - i,
    {
        proof {
            assert(js.take(i + 1).drop_last() =~= js.take(i as int));
            assert(js.take(i + 1).last() == js[i as int]);
        }
        if let Some(t) = value::number_at(&rows[i], "ms") {
            let ghost (r0, tv) = (r@, t@);
            r.push(t);
            proof {
                assert(text::views(r@) =~= text::views(r0).push(tv));
            }
        }
        i += 1;
    }
    proof {
        assert(js.take(i as int) =~= js);
    }
    r
}

/// The line of one kind of variant.
pub open spec fn kind_line(k: Seq<char>, s: Json) -> Seq<Shown> {
    seq![
        lines::say("  "@ + k + lines::fill(k, 18) + " "@),
        lines::amount(s, "agreement"@, Scale::Percent, 0, 0),
        lines::say("% agree, drift "@),
        lines::amount(s, "mean_drift"@, Scale::Once, 3, 0),
        lines::say("  (n="@),
        lines::member_text(s, "n"@),
        lines::say(")"@),
    ]
}

/// The line of one question type.
pub open spec fn type_line(t: Seq<char>, s: Json) -> Seq<Shown> {
    seq![
        lines::say("  "@ + t + lines::fill(t, 8) + " "@),
        lines::amount(s, "acc"@, Scale::Percent, 0, 0),
        lines::say("%  (n="@),
        lines::member_text(s, "n"@),
        lines::say(")"@),
    ]
}

/// The line of one failure.
pub open spec fn failure_line(x: Json) -> Seq<Shown> {
    let (id, t) = (lines::name_or(x, "id"@), lines::name_or(x, "type"@));
    seq![
        lines::say("  "@ + id + lines::fill(id, 14) + " "@ + t + lines::fill(t, 8) + " -> "@),
        lines::member_text(x, "answer"@),
        lines::say(" (conf "@),
        lines::member_text(x, "confidence"@),
        lines::say(")"@),
    ]
}

/// The first two lines of a report.
pub open spec fn head_lines(rep: Json) -> Seq<Seq<Shown>> {
    seq![
        seq![
            lines::say("model="@),
            lines::member_text(rep, "model"@),
            lines::say(" cases="@),
            lines::member_text(rep, "cases"@),
        ],
        seq![
            lines::say("accuracy "@),
            lines::amount(rep, "accuracy"@, Scale::Percent, 1, 0),
            lines::say("%  (balanced "@),
            lines::amount(rep, "balanced_accuracy"@, Scale::Percent, 1, 0),
            lines::say("%, mean confidence "@),
            lines::amount(rep, "mean_confidence"@, Scale::Percent, 1, 0),
            lines::say("%)"@),
        ],
    ]
}

/// The line on the quality of the probabilities.
pub open spec fn quality_lines(rep: Json) -> Seq<Seq<Shown>> {
    if value::number_in(value::index(rep, "brier"@)) is Some && value::number_in(value::index(rep, "ece"@)) is Some {
        seq![
            seq![
                lines::say("brier "@),
                lines::amount(rep, "brier"@, Scale::Once, 4, 0),
                lines::say("   ece "@),
                lines::amount(rep, "ece"@, Scale::Once, 4, 0),
            ],
        ]
    } else {
        Seq::empty()
    }
}

/// The line over all variants.
pub open spec fn steady_line(c: Json) -> Seq<Shown> {
    seq![
        lines::say("consistency  "@),
        lines::amount(c, "agreement"@, Scale::Percent, 1, 0),
        lines::say("% agreement, mean drift "@),
        lines::amount(c, "mean_drift"@, Scale::Once, 3, 0),
        lines::say("  (n="@),
        lines::member_text(c, "n"@),
        lines::say(")"@),
    ]
}

/// The members of an object; none for anything else.
pub open spec fn members_in(j: Json) -> Seq<(Seq<char>, Json)> {
    match j {
        Json::Object(m) => m,
        _ => Seq::empty(),
    }
}

/// The lines on steadiness.
pub open spec fn consistency_lines(rep: Json) -> Seq<Seq<Shown>> {
    let c = value::index(rep, "consistency"@);
    if c is Object {
        seq![steady_line(c)] + members_in(value::index(c, "by_kind"@)).map_values(
            |f: (Seq<char>, Json)| kind_line(f.0, f.1),
        )
    } else {
        Seq::empty()
    }
}

/// The lines on question types.
pub open spec fn type_lines(rep: Json) -> Seq<Seq<Shown>> {
    members_in(value::index(rep, "per_type"@)).map_values(|f: (Seq<char>, Json)| type_line(f.0, f.1))
}

/// The line on time.
pub open spec fn time_line(rep: Json) -> Seq<Shown> {
    seq![
        lines::say("latency  mean "@),
        lines::amount(rep, "ms_mean"@, Scale::Once, 0, 0),
        lines::say(" ms/case, total "@),
        lines::amount(rep, "ms_total"@, Scale::Thousandth, 1, 0),
        lines::say(" s"@),
    ]
}

/// The lines on failures.
pub open spec fn failure_lines(rep: Json) -> Seq<Seq<Shown>> {
    match value::index(rep, "failures"@) {
        Json::Array(a) => if a.len() > 0 {
            seq![seq![lines::say("failures:"@)]] + a.map_values(|x: Json| failure_line(x))
        } else {
            Seq::empty()
        },
        _ => Seq::empty(),
    }
}

/// What a report prints.
pub open spec fn printed(rep: Json) -> Seq<Seq<Shown>> {
    head_lines(rep) + quality_lines(rep) + consistency_lines(rep) + type_lines(rep) + seq![time_line(rep)]
        + failure_lines(rep)
}

fn put_head(ls: &mut Vec<Vec<Piece>>, rep: &Value)
    ensures
        lines::all_shown(final(ls)@) == lines::all_shown(old(ls)@) + head_lines(rep@) + quality_lines(rep@),
{
    let ghost o = lines::all_shown(ls@);
    let mut l: Vec<Piece> = Vec::new();
    lines::put_text(&mut l, "model=");
    lines::put_member(&mut l, rep, "model");
    lines::put_text(&mut l, " cases=");
    lines::put_member(&mut l, rep, "cases");
    proof {
        assert(lines::shown(l@) =~= head_lines(rep@)[0]);
    }
    lines::put_line(ls, l);
    let mut l: Vec<Piece> = Vec::new();
    lines::put_text(&mut l, "accuracy ");
    lines::put_amount(&mut l, rep, "accuracy", Scale::Percent, 1, 0);
    lines::put_text(&mut l, "%  (balanced ");
    lines::put_amount(&mut l, rep, "balanced_accuracy", Scale::Percent, 1, 0);
    lines::put_text(&mut l, "%, mean confidence ");
    lines::put_amount(&mut l, rep, "mean_confidence", Scale::Percent, 1, 0);
    lines::put_text(&mut l, "%)");
    proof {
        assert(lines::shown(l@) =~= head_lines(rep@)[1]);
    }
    lines::put_line(ls, l);
    proof {
        assert(lines::all_shown(ls@) =~= o + head_lines(rep@));
    }
    if value::number_at(rep, "brier").is_some() && value::number_at(rep, "ece").is_some() {
        let mut l: Vec<Piece> = Vec::new();
        lines::put_text(&mut l, "brier ");
        lines::put_amount(&mut l, rep, "brier", Scale::Once, 4, 0);
        lines::put_text(&mut l, "   ece ");
        lines::put_amount(&mut l, rep, "ece", Scale::Once, 4, 0);
        proof {
            assert(lines::shown(l@) =~= quality_lines(rep@)[0]);
        }
        lines::put_line(ls, l);
    }
    proof {
        assert(lines::all_shown(ls@) =~= o + head_lines(rep@) + quality_lines(rep@));
    }
}

fn show_kind(k: &str, s: &Value) -> (l: Vec<Piece>)
    ensures
        lines::shown(l@) == kind_line(k@, s@),
{
    let mut l: Vec<Piece> = Vec::new();
    let name: String = "  ".to_owned().concat(lines::pad_right(k, 18).as_str()).concat(" ");
    proof {
        assert(name@ =~= "  "@ + k@ + lines::fill(k@, 18) + " "@);
    }
    lines::put_text(&mut l, name.as_str());
    lines::put_amount(&mut l, s, "agreement", Scale::Percent, 0, 0);
    lines::put_text(&mut l, "% agree, drift ");
    lines::put_amount(&mut l, s, "mean_drift", Scale::Once, 3, 0);
    lines::put_text(&mut l, "  (n=");
    lines::put_member(&mut l, s, "n");
    lines::put_text(&mut l, ")");
    proof {
        assert(lines::shown(l@) =~= kind_line(k@, s@));
    }
    l
}

fn show_type(t: &str, s: &Value) -> (l: Vec<Piece>)
    ensures
        lines::shown(l@) == type_line(t@, s@),
{
    let mut l: Vec<Piece> = Vec::new();
    let name: String = "  ".to_owned().concat(lines::pad_right(t, 8).as_str()).concat(" ");
    proof {
        assert(name@ =~= "  "@ + t@ + lines::fill(t@, 8) + " "@);
    }
    lines::put_text(&mut l, name.as_str());
    lines::put_amount(&mut l, s, "acc", Scale::Percent, 0, 0);
    lines::put_text(&mut l, "%  (n=");
    lines::put_member(&mut l, s, "n");
    lines::put_text(&mut l, ")");
    proof {
        assert(lines::shown(l@) =~= type_line(t@, s@));
    }
    l
}

fn show_failure(x: &Value) -> (l: Vec<Piece>)
    ensures
        lines::shown(l@) == failure_line(x@),
{
    let (id, t): (String, String) = (lines::name_of(x, "id"), lines::name_of(x, "type"));
    let mut l: Vec<Piece> = Vec::new();
    let name: String = "  ".to_owned().concat(lines::pad_right(id.as_str(), 14).as_str()).concat(" ").concat(
        lines::pad_right(t.as_str(), 8).as_str(),
    ).concat(" -> ");
    proof {
        assert(name@ =~= "  "@ + id@ + lines::fill(id@, 14) + " "@ + t@ + lines::fill(t@, 8) + " -> "@);
    }
    lines::put_text(&mut l, name.as_str());
    lines::put_member(&mut l, x, "answer");
    lines::put_text(&mut l, " (conf ");
    lines::put_member(&mut l, x, "confidence");
    lines::put_text(&mut l, ")");
    proof {
        assert(lines::shown(l@) =~= failure_line(x@));
    }
    l
}

fn put_consistency(ls: &mut Vec<Vec<Piece>>, rep: &Value)
    ensures
        lines::all_shown(final(ls)@) == lines::all_shown(old(ls)@) + consistency_lines(rep@),
{
    let ghost o = lines::all_shown(ls@);
    let none: Value = Value::Null;
    let c: &Value = match value::look(rep, "consistency") {
        Some(x) => x,
        None => &none,
    };
    match c {
        Value::Object(_) => {},
        _ => {
            proof {
                assert(o + consistency_lines(rep@) =~= o);
            }
            return;
        },
    }
    let mut l: Vec<Piece> = Vec::new();
    lines::put_text(&mut l, "consistency  ");
    lines::put_amount(&mut l, c, "agreement", Scale::Percent, 1, 0);
    lines::put_text(&mut l, "% agreement, mean drift ");
    lines::put_amount(&mut l, c, "mean_drift", Scale::Once, 3, 0);
    lines::put_text(&mut l, "  (n=");
    lines::put_member(&mut l, c, "n");
    lines::put_text(&mut l, ")");
    proof {
        assert(lines::shown(l@) =~= steady_line(c@));
    }
    lines::put_line(ls, l);
    let ghost p = o.push(steady_line(c@));
    let ghost ks = members_in(value::index(c@, "by_kind"@));
    let ghost kl = ks.map_values(|f: (Seq<char>, Json)| kind_line(f.0, f.1));
    if let Some(k) = value::look(c, "by_kind") {
        if let Value::Object(m) = k {
            proof {
                value::lemma_fields(m@);
                assert(p + kl.take(0) =~= p);
            }
            let mut i: usize = 0;
            while i < m.len()
                invariant
                    i <= m@.len(),
                    ks == value::fields(m@),
                    ks.len() == m@.len(),
                    kl == ks.map_values(|f: (Seq<char>, Json)| kind_line(f.0, f.1)),
                    forall|j: int| 0 <= j < m@.len() ==> #[trigger] ks[j] == (m@[j].0@, value::json(m@[j].1)),
                    lines::all_shown(ls@) == p + kl.take(i as int),
                decreases m@.len() - i,
            {
                lines::put_line(ls, show_kind(m[i].0.as_str(), &m[i].1));
                proof {
                    assert(ks[i as int] == (m@[i as int].0@, value::json(m@[i as int].1)));
                    assert(p + kl.take(i + 1) =~= (p + kl.take(i as int)).push(kl[i as int]));
                }
                i += 1;
            }
            proof {
                assert(kl.take(i as int) =~= kl);
            }
        }
    }
    proof {
        assert(p + kl =~= o + consistency_lines(rep@));
        if ks.len() == 0 {
            assert(p + kl =~= p);
        }
    }
}

/// What a report prints, line by line.
pub fn print_report(rep: &Value) -> (r: Vec<Vec<Piece>>)
    requires
        value::index(rep@, "consistency"@) is Object ==> {
            let c = value::index(rep@, "consistency"@);
            value::lookup(c, "agreement"@) is Some && value::lookup(c, "mean_drift"@) is Some && value::lookup(
                c,
                "n"@,
            ) is Some
        },
    ensures
        lines::all_shown(r@) == printed(rep@),
{
    let mut ls: Vec<Vec<Piece>> = Vec::new();
    put_head(&mut ls, rep);
    put_consistency(&mut ls, rep);
    let ghost o = head_lines(rep@) + quality_lines(rep@) + consistency_lines(rep@);
    proof {
        assert(lines::all_shown(ls@) =~= o);
    }
    let ghost tl = type_lines(rep@);
    proof {
        assert(o + tl.take(0) =~= o);
    }
    if let Some(k) = value::look(rep, "per_type") {
        if let Value::Object(m) = k {
            let ghost ks = value::fields(m@);
            proof {
                value::lemma_fields(m@);
            }
            let mut i: usize = 0;
            while i < m.len()
                invariant
                    i <= m@.len(),
                    ks == value::fields(m@),
                    ks.len() == m@.len(),
                    tl == ks.map_values(|f: (Seq<char>, Json)| type_line(f.0, f.1)),
                    forall|j: int| 0 <= j < m@.len() ==> #[trigger] ks[j] == (m@[j].0@, value::json(m@[j].1)),
                    lines::all_shown(ls@) == o + tl.take(i as int),
                decreases m@.len() - i,
            {
                lines::put_line(&mut ls, show_type(m[i].0.as_str(), &m[i].1));
                proof {
                    assert(ks[i as int] == (m@[i as int].0@, value::json(m@[i as int].1)));
                    assert(o + tl.take(i + 1) =~= (o + tl.take(i as int)).push(tl[i as int]));
                }
                i += 1;
            }
            proof {
                assert(tl.take(i as int) =~= tl);
            }
        }
    }
    proof {
        if tl.len() == 0 {
            assert(tl =~= tl.take(0));
        }
        assert(lines::all_shown(ls@) =~= o + tl);
    }
    let mut l: Vec<Piece> = Vec::new();
    lines::put_text(&mut l, "latency  mean ");
    lines::put_amount(&mut l, rep, "ms_mean", Scale::Once, 0, 0);
    lines::put_text(&mut l, " ms/case, total ");
    lines::put_amount(&mut l, rep, "ms_total", Scale::Thousandth, 1, 0);
    lines::put_text(&mut l, " s");
    proof {
        assert(lines::shown(l@) =~= time_line(rep@));
    }
    lines::put_line(&mut ls, l);
    put_failures(&mut ls, rep);
    proof {
        assert(lines::all_shown(ls@) =~= printed(rep@));
    }
    ls
}

fn put_failures(ls: &mut Vec<Vec<Piece>>, rep: &Value)
    ensures
        lines::all_shown(final(ls)@) == lines::all_shown(old(ls)@) + failure_lines(rep@),
{
    let ghost o = lines::all_shown(ls@);
    if let Some(k) = value::look(rep, "failures") {
        if let Value::Array(a) = k {
            proof {
                value::lemma_jsons(a@);
            }
            if a.len() > 0 {
                let mut l: Vec<Piece> = Vec::new();
                lines::put_text(&mut l, "failures:");
                proof {
                    assert(lines::shown(l@) =~= seq![lines::say("failures:"@)]);
                }
                lines::put_line(ls, l);
                let ghost p = lines::all_shown(ls@);
                let ghost js = value::jsons(a@);
                let ghost fl = js.map_values(|x: Json| failure_line(x));
                proof {
                    assert(p + fl.take(0) =~= p);
                }
                let mut i: usize = 0;
                while i < a.len()
                    invariant
                        i <= a@.len(),
                        js == value::jsons(a@),
                        js.len() == a@.len(),
                        fl == js.map_values(|x: Json| failure_line(x)),
                        forall|j: int| 0 <= j < a@.len() ==> #[trigger] js[j] == value::json(a@[j]),
                        lines::all_shown(ls@) == p + fl.take(i as int),
                    decreases a@.len() - i,
                {
                    lines::put_line(ls, show_failure(&a[i]));
                    proof {
                        assert(js[i as int] == value::json(a@[i as int]));
                        assert(p + fl.take(i + 1) =~= (p + fl.take(i as int)).push(fl[i as int]));
                    }
                    i += 1;
                }
                proof {
                    assert(fl.take(i as int) =~= fl);
                    assert(p + fl =~= o + failure_lines(rep@));
                }
                return;
            }
        }
    }
    proof {
        assert(o + failure_lines(rep@) =~= o);
    }
}

} // verus!
