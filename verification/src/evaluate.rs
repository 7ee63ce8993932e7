//! Benchmark runner: JSONL cases with ground-truth expectations.
//!
//! Line format:
//!   {"id": "route-01", "state": {...}, "question": {<question fields>},
//!    "expect": {"choice"|"boolean"|"level"|"score"|"value"|"status": ..., "tol": number}}
//!
//! One question per case, keyed "q".
use vstd::prelude::*;

use crate::engine;
use crate::engine::layout_str;
use crate::schema::{Expand, Layout};
use crate::text;
use crate::value;
use crate::value::{Json, Value};

verus! {

/// A line that holds a case: not blank, not a comment.
pub open spec fn case_line(l: Seq<char>) -> bool {
    text::trimmed(l).len() > 0 && l[0] != '#'
}

/// The lines that hold cases.
pub open spec fn kept_lines(ls: Seq<Seq<char>>) -> Seq<Seq<char>>
    decreases ls.len(),
{
    if ls.len() == 0 {
        Seq::empty()
    } else if case_line(ls.last()) {
        kept_lines(ls.drop_last()).push(ls.last())
    } else {
        kept_lines(ls.drop_last())
    }
}

fn is_case_line(l: &str) -> (r: bool)
    ensures
        r == case_line(l@),
{
    let cs: Vec<char> = text::chars_of(l);
    let t: &[char] = text::trim_end(text::trim_start(cs.as_slice()));
    t.len() > 0 && cs.len() > 0 && cs[0] != '#'
}

/// The lines of a case file that hold cases, in order.
pub fn case_lines(file: &str) -> (r: Vec<String>)
    ensures
        text::views(r@) == kept_lines(text::lines_in(file@)),
{
    let ls: Vec<String> = text::lines(file);
    let ghost all = text::views(ls@);
    let mut r: Vec<String> = Vec::new();
    let mut i: usize = 0;
    proof {
        assert(all.take(0) =~= Seq::empty());
        assert(text::views(r@) =~= Seq::empty());
    }
    while i < ls.len()
        invariant
            i <= ls@.len(),
            all == text::views(ls@),
            text::views(r@) == kept_lines(all.take(i as int)),
        decreases ls@.len() - i,
    {
        proof {
            assert(all.take(i + 1).drop_last() =~= all.take(i as int));
            assert(all.take(i + 1).last() == ls@[i as int]@);
        }
        if is_case_line(ls[i].as_str()) {
            let ghost r0 = r@;
            r.push(ls[i].clone());
            proof {
                assert(text::views(r@) =~= text::views(r0).push(ls@[i as int]@));
            }
        }
        i += 1;
    }
    proof {
        assert(all.take(i as int) =~= all);
    }
    r
}

/// How many cases run.
pub fn case_count(limit: Option<usize>, cases: usize) -> (r: usize)
    ensures
        r <= cases,
        limit is None ==> r == cases,
        limit matches Some(n) ==> r == if n < cases { n } else { cases },
{
    match limit {
        Some(n) => if n < cases {
            n
        } else {
            cases
        },
        None => cases,
    }
}

/// What a case says of an answer: settled, or settled by whether two numbers
/// (as they print) lie within a tolerance, or nothing to check.
pub enum Verdict {
    Unchecked,
    Sure(bool),
    Near { got: String, want: String, tol: String },
}

/// The verdict that a `Verdict` stands for.
pub enum Judged {
    Unchecked,
    Sure(bool),
    Near { got: Seq<char>, want: Seq<char>, tol: Seq<char> },
}

impl View for Verdict {
    type V = Judged;

    open spec fn view(&self) -> Judged {
        match *self {
            Verdict::Unchecked => Judged::Unchecked,
            Verdict::Sure(b) => Judged::Sure(b),
            Verdict::Near { got, want, tol } => Judged::Near { got: got@, want: want@, tol: tol@ },
        }
    }
}

/// The member named `k` as a number, else `d`.
pub open spec fn number_or(j: Json, k: Seq<char>, d: Seq<char>) -> Seq<char> {
    match value::number_in(value::index(j, k)) {
        Some(t) => t,
        None => d,
    }
}

/// Whether the answer has exactly what is expected under `k`.
pub open spec fn meets(ans: Json, expect: Json, k: Seq<char>) -> bool {
    match value::lookup(ans, k) {
        Some(x) => value::alike(x, value::index(expect, k)),
        None => false,
    }
}

/// The first of status, choice, boolean, level, score and value that the
/// expectation names decides.
pub open spec fn judged(ans: Json, expect: Json) -> Judged {
    if value::lookup(expect, "status"@) is Some {
        Judged::Sure(meets(ans, expect, "status"@))
    } else if value::lookup(expect, "choice"@) is Some {
        Judged::Sure(meets(ans, expect, "choice"@))
    } else if value::lookup(expect, "boolean"@) is Some {
        Judged::Sure(meets(ans, expect, "boolean"@))
    } else if value::lookup(expect, "level"@) is Some {
        Judged::Sure(meets(ans, expect, "level"@))
    } else if value::lookup(expect, "score"@) is Some {
        match value::number_in(value::index(expect, "score"@)) {
            Some(want) => Judged::Near {
                got: number_or(ans, "score"@, "-9.0"@),
                want,
                tol: number_or(expect, "tol"@, "0.34"@),
            },
            None => Judged::Unchecked,
        }
    } else if value::lookup(expect, "value"@) is Some {
        match value::number_in(value::index(ans, "value"@)) {
            Some(got) => Judged::Near {
                got,
                want: number_or(expect, "value"@, "1.7976931348623157e308"@),
                tol: number_or(expect, "tol"@, "0.0"@),
            },
            None => Judged::Sure(false),
        }
    } else {
        Judged::Unchecked
    }
}

/// None of `ks` is expected.
pub open spec fn expects_none(expect: Json, ks: Seq<Seq<char>>) -> bool {
    forall|i: int| 0 <= i < ks.len() ==> value::lookup(expect, #[trigger] ks[i]) is None
}

/// What is expected under `k` decides, and an answer is right just where it has
/// the same there.
pub open spec fn decides(ans: Json, expect: Json, k: Seq<char>) -> bool {
    let j = judged(ans, expect);
    let (got, want) = (value::lookup(ans, k), value::index(expect, k));
    &&& j is Sure
    &&& got is None ==> j == Judged::Sure(false)
    &&& want is Bool || want is Str || want is Null ==> (j == Judged::Sure(true) <==> got == Some(want))
    &&& want is Number && got == Some(want) ==> j == Judged::Sure(true)
    &&& want matches Json::Number(x) ==> (j == Judged::Sure(true) ==> (got matches Some(Json::Number(y)) && (x == y || ((
    x == "0.0"@ || x == "-0.0"@) && (y == "0.0"@ || y == "-0.0"@)))))
    &&& j == Judged::Sure(true) <==> got is Some && value::alike(got->0, want)
}

/// A verdict goes by the first of status, choice, boolean and level that is
/// expected: the answer is right where it has just that, and wrong where it has
/// anything else or nothing. Failing those, a score or a value is near enough or
/// not, and an answer without a value is wrong. Where nothing is expected,
/// nothing is checked.
pub proof fn law_judged(ans: Json, expect: Json)
    ensures
        value::lookup(expect, "status"@) is Some ==> decides(ans, expect, "status"@),
        expects_none(expect, seq!["status"@]) && value::lookup(expect, "choice"@) is Some ==> decides(
            ans,
            expect,
            "choice"@,
        ),
        expects_none(expect, seq!["status"@, "choice"@]) && value::lookup(expect, "boolean"@) is Some ==> decides(
            ans,
            expect,
            "boolean"@,
        ),
        expects_none(expect, seq!["status"@, "choice"@, "boolean"@]) && value::lookup(expect, "level"@) is Some
            ==> decides(ans, expect, "level"@),
        expects_none(expect, seq!["status"@, "choice"@, "boolean"@, "level"@]) ==> {
            let (score, value, tol) = (
                value::lookup(expect, "score"@),
                value::lookup(expect, "value"@),
                value::lookup(expect, "tol"@),
            );
            let j = judged(ans, expect);
            &&& score matches Some(Json::Number(x)) ==> {
                &&& j matches Judged::Near { got, want, tol: t } && want == x
                &&& value::lookup(ans, "score"@) matches Some(Json::Number(y)) ==> j->got == y
                &&& !(value::lookup(ans, "score"@) matches Some(Json::Number(_))) ==> j->got == "-9.0"@
                &&& tol matches Some(Json::Number(y)) ==> j->tol == y
                &&& !(tol matches Some(Json::Number(_))) ==> j->tol == "0.34"@
            }
            &&& score is None && value is Some ==> match value::lookup(ans, "value"@) {
                Some(Json::Number(y)) => {
                    &&& j matches Judged::Near { got, want, tol: t } && got == y
                    &&& value matches Some(Json::Number(x)) ==> j->want == x
                    &&& tol matches Some(Json::Number(t)) ==> j->tol == t
                    &&& !(tol matches Some(Json::Number(_))) ==> j->tol == "0.0"@
                },
                _ => j == Judged::Sure(false),
            }
            &&& score is None && value is None ==> j is Unchecked
        },
{
    let keys = seq!["status"@, "choice"@, "boolean"@, "level"@];
    lemma_alike_at(ans, expect, "status"@);
    lemma_alike_at(ans, expect, "choice"@);
    lemma_alike_at(ans, expect, "boolean"@);
    lemma_alike_at(ans, expect, "level"@);
    let (a, b, c, d) = (seq!["status"@], seq!["status"@, "choice"@], seq!["status"@, "choice"@, "boolean"@], keys);
    assert(a[0] == "status"@ && b[0] == "status"@ && b[1] == "choice"@);
    assert(c[0] == "status"@ && c[1] == "choice"@ && c[2] == "boolean"@);
    assert(d[0] == "status"@ && d[1] == "choice"@ && d[2] == "boolean"@ && d[3] == "level"@);
}

proof fn lemma_alike_at(ans: Json, expect: Json, k: Seq<char>)
    ensures
        value::lookup(ans, k) matches Some(x) ==> {
            let y = value::index(expect, k);
            &&& y is Null || y is Bool || y is Str ==> (value::alike(x, y) <==> x == y)
            &&& x == y && x is Number ==> value::alike(x, y)
            &&& value::alike(x, y) && y is Number ==> x is Number && (x->Number_0 == y->Number_0 || ((x->Number_0 == "0.0"@
                || x->Number_0 == "-0.0"@) && (y->Number_0 == "0.0"@ || y->Number_0 == "-0.0"@)))
        },
{
    if let Some(x) = value::lookup(ans, k) {
        value::law_alike(x, value::index(expect, k));
    }
}

fn number_else(v: &Value, k: &str, d: &str) -> (r: String)
    ensures
        r@ == number_or(v@, k@, d@),
{
    match value::number_at(v, k) {
        Some(t) => t,
        None => d.to_owned(),
    }
}

fn matched(ans: &Value, want: &Value, k: &str) -> (r: bool)
    ensures
        r == match value::lookup(ans@, k@) {
            Some(x) => value::alike(x, want@),
            None => false,
        },
{
    match value::look(ans, k) {
        Some(x) => value::same_value(x, want),
        None => false,
    }
}

/// Judge an answer by what its case expects.
pub fn judge(ans: &Value, expect: &Value) -> (r: Verdict)
    ensures
        r@ == judged(ans@, expect@),
{
    if let Some(v) = value::look(expect, "status") {
        return Verdict::Sure(matched(ans, v, "status"));
    }
    if let Some(v) = value::look(expect, "choice") {
        return Verdict::Sure(matched(ans, v, "choice"));
    }
    if let Some(v) = value::look(expect, "boolean") {
        return Verdict::Sure(matched(ans, v, "boolean"));
    }
    if let Some(v) = value::look(expect, "level") {
        return Verdict::Sure(matched(ans, v, "level"));
    }
    if value::look(expect, "score").is_some() {
        return match value::number_at(expect, "score") {
            Some(want) => Verdict::Near {
                got: number_else(ans, "score", "-9.0"),
                want,
                tol: number_else(expect, "tol", "0.34"),
            },
            None => Verdict::Unchecked,
        };
    }
    if value::look(expect, "value").is_some() {
        return match value::number_at(ans, "value") {
            Some(got) => Verdict::Near {
                got,
                want: number_else(expect, "value", "1.7976931348623157e308"),
                tol: number_else(expect, "tol", "0.0"),
            },
            None => Verdict::Sure(false),
        };
    }
    Verdict::Unchecked
}

/// What a case asks of the engine: one question named "q", its fields as the
/// case writes them.
pub struct CaseRequest {
    pub state: Value,
    pub question: Value,
    pub layout: Layout,
    pub expand: Expand,
    pub compact_state: bool,
}

/// The name of an enum's variant: a string, or an object whose one member
/// of that name is null.
pub open spec fn variant_name(j: Json) -> Option<Seq<char>> {
    match j {
        Json::Str(s) => Some(s),
        Json::Object(m) => if m.len() == 1 && m[0].1 == Json::Null {
            Some(m[0].0)
        } else {
            None
        },
        _ => None,
    }
}

fn name_at<'a>(v: &'a Value, k: &str) -> (r: Option<&'a str>)
    ensures
        match r {
            Some(t) => variant_name(value::index(v@, k@)) == Some(t@),
            None => variant_name(value::index(v@, k@)) is None,
        },
{
    match value::look(v, k) {
        Some(x) => match x {
            Value::Str(s) => Some(s.as_str()),
            Value::Object(m) => {
                proof {
                    value::lemma_fields(m@);
                }
                if m.len() != 1 {
                    return None;
                }
                match m[0].1 {
                    Value::Null => Some(m[0].0.as_str()),
                    _ => None,
                }
            },
            _ => None,
        },
        None => None,
    }
}

/// The layout that a name gives.
pub open spec fn layout_named(n: Option<Seq<char>>) -> Option<Layout> {
    if n == Some("auto"@) {
        Some(Layout::Auto)
    } else if n == Some("state_first"@) {
        Some(Layout::StateFirst)
    } else if n == Some("question_first"@) {
        Some(Layout::QuestionFirst)
    } else if n == Some("header"@) {
        Some(Layout::Header)
    } else if n == Some("catalog"@) {
        Some(Layout::Catalog)
    } else {
        None
    }
}

/// The layout of a name.
pub fn layout_of(n: &str) -> (r: Option<Layout>)
    ensures
        r == layout_named(Some(n@)),
{
    if text::same(n, "auto") {
        Some(Layout::Auto)
    } else if text::same(n, "state_first") {
        Some(Layout::StateFirst)
    } else if text::same(n, "question_first") {
        Some(Layout::QuestionFirst)
    } else if text::same(n, "header") {
        Some(Layout::Header)
    } else if text::same(n, "catalog") {
        Some(Layout::Catalog)
    } else {
        None
    }
}

/// A given layout wins; else the case may pin one; else auto.
pub open spec fn layout_for(case: Json, layout: Option<Layout>) -> Layout {
    match layout {
        Some(l) => l,
        None => match layout_named(variant_name(value::index(case, "layout"@))) {
            Some(l) => l,
            None => Layout::Auto,
        },
    }
}

/// The question of a case; abstention switched off where asked.
pub open spec fn question_of(case: Json, no_abstain: bool) -> Json {
    match value::index(case, "question"@) {
        Json::Object(m) => if no_abstain {
            Json::Object(value::with(m, "allow_abstain"@, Json::Bool(false)))
        } else {
            Json::Object(m)
        },
        q => q,
    }
}

/// The request that a case makes.
pub open spec fn asks(r: CaseRequest, case: Json, no_abstain: bool, layout: Option<Layout>) -> bool {
    &&& r.state@ == value::index(case, "state"@)
    &&& r.question@ == question_of(case, no_abstain)
    &&& r.layout == layout_for(case, layout)
    &&& r.expand == (if variant_name(value::index(case, "expand"@)) == Some("pages"@) {
        Expand::Pages
    } else {
        Expand::Probes
    })
    &&& r.compact_state == (value::index(case, "compact_state"@) == Json::Bool(true))
}

/// The request that a case makes.
pub fn build_req(case: &Value, no_abstain: bool, layout: Option<Layout>) -> (r: CaseRequest)
    ensures
        asks(r, case@, no_abstain, layout),
{
    let mut question: Value = value::copy_at(case, "question");
    if no_abstain {
        match question {
            Value::Object(mut m) => {
                value::put(&mut m, "allow_abstain", Value::Bool(false));
                question = Value::Object(m);
            },
            _ => {},
        }
    }
    let named: Option<Layout> = match name_at(case, "layout") {
        Some(n) => layout_of(n),
        None => None,
    };
    let layout: Layout = match layout {
        Some(l) => l,
        None => match named {
            Some(l) => l,
            None => Layout::Auto,
        },
    };
    let pages: bool = match name_at(case, "expand") {
        Some(n) => text::same(n, "pages"),
        None => false,
    };
    CaseRequest {
        state: value::copy_at(case, "state"),
        question,
        layout,
        expand: if pages {
            Expand::Pages
        } else {
            Expand::Probes
        },
        compact_state: value::true_at(case, "compact_state"),
    }
}

/// The parts of an answer that a report shows.
pub open spec fn brief_of(ans: Json, ks: Seq<Seq<char>>) -> Seq<(Seq<char>, Json)>
    decreases ks.len(),
{
    if ks.len() == 0 {
        Seq::empty()
    } else {
        let m = brief_of(ans, ks.drop_last());
        match value::lookup(ans, ks.last()) {
            Some(v) => value::with(m, ks.last(), v),
            None => m,
        }
    }
}

/// The names under which answers stand.
pub open spec fn answer_keys() -> Seq<Seq<char>> {
    seq!["choice"@, "boolean"@, "level"@, "score"@, "value"@, "status"@]
}

fn keep(m: &mut Vec<(String, Value)>, ans: &Value, k: &str)
    ensures
        value::fields(final(m)@) == match value::lookup(ans@, k@) {
            Some(v) => value::with(value::fields(old(m)@), k@, v),
            None => value::fields(old(m)@),
        },
{
    if let Some(v) = value::look(ans, k) {
        value::put(m, k, value::copy(v));
    }
}

/// The parts of an answer that a report shows.
pub fn answer_brief(ans: &Value) -> (r: Value)
    ensures
        r@ == Json::Object(brief_of(ans@, answer_keys())),
{
    let mut m: Vec<(String, Value)> = Vec::new();
    keep(&mut m, ans, "choice");
    keep(&mut m, ans, "boolean");
    keep(&mut m, ans, "level");
    keep(&mut m, ans, "score");
    keep(&mut m, ans, "value");
    keep(&mut m, ans, "status");
    proof {
        let ks = answer_keys();
        assert(ks.drop_last().drop_last().drop_last().drop_last().drop_last().drop_last() =~= Seq::empty());
        reveal_with_fuel(brief_of, 7);
    }
    Value::Object(m)
}

/// The pick of an answer: a value, or a number to be rounded, or nothing.
pub enum Pick {
    Of(Value),
    Rounded(String),
    Nothing,
}

/// The first of `ks` that the answer has, not null.
pub open spec fn first_set(ans: Json, ks: Seq<Seq<char>>) -> Option<Json>
    decreases ks.len(),
{
    if ks.len() == 0 {
        None
    } else {
        match value::index(ans, ks[0]) {
            Json::Null => first_set(ans, ks.skip(1)),
            j => Some(j),
        }
    }
}

/// The first of `ks` that the answer has as a number.
pub open spec fn first_number(ans: Json, ks: Seq<Seq<char>>) -> Option<Seq<char>>
    decreases ks.len(),
{
    if ks.len() == 0 {
        None
    } else {
        match value::number_in(value::index(ans, ks[0])) {
            Some(t) => Some(t),
            None => first_number(ans, ks.skip(1)),
        }
    }
}

fn set_at(ans: &Value, k: &str) -> (r: Option<Value>)
    ensures
        match r {
            Some(v) => value::index(ans@, k@) == v@ && v@ != Json::Null,
            None => value::index(ans@, k@) == Json::Null,
        },
{
    match value::copy_at(ans, k) {
        Value::Null => None,
        v => Some(v),
    }
}

/// The answer's pick as one comparable value; continuous answers are rounded
/// to hundredths by the caller.
pub fn pick(ans: &Value) -> (r: Pick)
    ensures
        match first_set(ans@, seq!["choice"@, "boolean"@, "level"@]) {
            Some(j) => r matches Pick::Of(v) && v@ == j,
            None => match first_number(ans@, seq!["score"@, "value"@]) {
                Some(t) => r matches Pick::Rounded(n) && n@ == t,
                None => r is Nothing,
            },
        },
{
    proof {
        let ks = seq!["choice"@, "boolean"@, "level"@];
        assert(ks.skip(1) =~= seq!["boolean"@, "level"@]);
        assert(seq!["boolean"@, "level"@].skip(1) =~= seq!["level"@]);
        assert(seq!["level"@].skip(1) =~= Seq::empty());
        assert(seq!["score"@, "value"@].skip(1) =~= seq!["value"@]);
        assert(seq!["value"@].skip(1) =~= Seq::empty());
        reveal_with_fuel(first_set, 4);
        reveal_with_fuel(first_number, 3);
    }
    if let Some(v) = set_at(ans, "choice") {
        return Pick::Of(v);
    }
    if let Some(v) = set_at(ans, "boolean") {
        return Pick::Of(v);
    }
    if let Some(v) = set_at(ans, "level") {
        return Pick::Of(v);
    }
    if let Some(t) = value::number_at(ans, "score") {
        return Pick::Rounded(t);
    }
    if let Some(t) = value::number_at(ans, "value") {
        return Pick::Rounded(t);
    }
    Pick::Nothing
}

/// A value with member `k` set; null becomes an object.
pub open spec fn set_in(j: Json, k: Seq<char>, x: Json) -> Json {
    match j {
        Json::Object(m) => Json::Object(value::with(m, k, x)),
        Json::Null => Json::Object(seq![(k, x)]),
        _ => j,
    }
}

fn set_member(v: Value, k: &str, x: Value) -> (r: Value)
    ensures
        r@ == set_in(v@, k@, x@),
{
    match v {
        Value::Object(m) => {
            let mut m: Vec<(String, Value)> = m;
            value::put(&mut m, k, x);
            Value::Object(m)
        },
        Value::Null => {
            let mut m: Vec<(String, Value)> = Vec::new();
            value::put(&mut m, k, x);
            proof {
                assert(value::with(Seq::empty(), k@, x@) =~= seq![(k@, x@)]);
            }
            Value::Object(m)
        },
        other => other,
    }
}

/// `dst` with every member of `src` set.
pub open spec fn overlaid(dst: Seq<(Seq<char>, Json)>, src: Seq<(Seq<char>, Json)>) -> Seq<(Seq<char>, Json)>
    decreases src.len(),
{
    if src.len() == 0 {
        dst
    } else {
        value::with(overlaid(dst, src.drop_last()), src.last().0, src.last().1)
    }
}

/// A question with the fields of a variant's question over its own.
pub open spec fn reworded(q: Json, vq: Json) -> Json {
    match (q, vq) {
        (Json::Object(dst), Json::Object(src)) => Json::Object(overlaid(dst, src)),
        _ => q,
    }
}

/// A case with a variant's state and question over its own.
pub open spec fn merged(case: Json, var: Json) -> Json {
    let a = match value::lookup(var, "state"@) {
        Some(s) => set_in(case, "state"@, s),
        None => case,
    };
    match value::lookup(var, "question"@) {
        Some(vq) => set_in(a, "question"@, reworded(value::index(case, "question"@), vq)),
        None => a,
    }
}

fn overlay(dst: &mut Vec<(String, Value)>, src: &Vec<(String, Value)>)
    ensures
        value::fields(final(dst)@) == overlaid(value::fields(old(dst)@), value::fields(src@)),
{
    let ghost d0 = value::fields(dst@);
    let ghost f = value::fields(src@);
    proof {
        value::lemma_fields(src@);
        assert(f.take(0) =~= Seq::empty());
    }
    let mut i: usize = 0;
    while i < src.len()
        invariant
            i <= src@.len(),
            f == value::fields(src@),
            f.len() == src@.len(),
            forall|j: int| 0 <= j < src@.len() ==> #[trigger] f[j] == (src@[j].0@, value::json(src@[j].1)),
            value::fields(dst@) == overlaid(d0, f.take(i as int)),
        decreases src@.len() - i,
    {
        proof {
            assert(f.take(i + 1).drop_last() =~= f.take(i as int));
            assert(f.take(i + 1).last() == f[i as int]);
        }
        value::put(dst, src[i].0.as_str(), value::copy(&src[i].1));
        i += 1;
    }
    proof {
        assert(f.take(i as int) =~= f);
    }
}

/// A variant applies its `state` and `question` fields over the base case.
pub fn merged_case(case: &Value, var: &Value) -> (r: Value)
    requires
        value::lookup(var@, "state"@) is Some || value::lookup(var@, "question"@) is Some ==> case@ is Object || case@
            == Json::Null,
    ensures
        r@ == merged(case@, var@),
{
    let mut vc: Value = value::copy(case);
    if let Some(s) = value::look(var, "state") {
        vc = set_member(vc, "state", value::copy(s));
    }
    if let Some(vq) = value::look(var, "question") {
        let mut q: Value = value::copy_at(case, "question");
        match (q, vq) {
            (Value::Object(mut dst), Value::Object(src)) => {
                overlay(&mut dst, src);
                q = Value::Object(dst);
            },
            (same, _) => {
                q = same;
            },
        }
        vc = set_member(vc, "question", q);
    }
    vc
}

/// Text that has nothing to do with any case.
pub const IRRELEVANT_NOTE: &'static str = "Unrelated note: a paperclip factory in another city changed its logo last Tuesday. It has no bearing on the matter at hand.";

/// What rewords an instruction without changing it.
pub const WRAPPER: &'static str = "Using only the supplied evidence, decide: ";

/// An object with one member.
pub open spec fn only(k: Seq<char>, j: Json) -> Json {
    Json::Object(seq![(k, j)])
}

/// A choice with its options in the reverse order.
pub open spec fn reversal(q: Json) -> Seq<(Seq<char>, Json)> {
    if value::index(q, "type"@) == Json::Str("choice"@) {
        match value::index(q, "criteria"@) {
            Json::Object(m) => seq![
                ("option_reversal"@, only("question"@, only("criteria"@, Json::Object(m.reverse())))),
            ],
            Json::Array(a) => seq![
                ("option_reversal"@, only("question"@, only("criteria"@, Json::Array(a.reverse())))),
            ],
            _ => Seq::empty(),
        }
    } else {
        Seq::empty()
    }
}

/// An instruction reworded.
pub open spec fn rewording(q: Json) -> Seq<(Seq<char>, Json)> {
    match value::index(q, "instructions"@) {
        Json::Str(s) => if s.len() > 0 {
            seq![
                ("criterion_wrapper"@, only("question"@, only("instructions"@, Json::Str(WRAPPER@ + s)))),
            ]
        } else {
            Seq::empty()
        },
        _ => Seq::empty(),
    }
}

/// A state with an unrelated note in it.
pub open spec fn noise(state: Json) -> Seq<(Seq<char>, Json)> {
    match state {
        Json::Str(s) => seq![
            ("irrelevant_context"@, only("state"@, Json::Str(s + "\n\n"@ + IRRELEVANT_NOTE@))),
        ],
        Json::Object(m) => seq![
            (
                "irrelevant_context"@,
                only("state"@, Json::Object(value::with(m, "unrelated_note"@, Json::Str(IRRELEVANT_NOTE@)))),
            ),
        ],
        _ => Seq::empty(),
    }
}

/// The stability probes of a case.
pub open spec fn probes_of(case: Json) -> Seq<(Seq<char>, Json)> {
    reversal(value::index(case, "question"@)) + rewording(value::index(case, "question"@)) + noise(
        value::index(case, "state"@),
    )
}

/// An object with one member.
fn object(k: &str, v: Value) -> (r: Value)
    ensures
        r@ == only(k@, v@),
{
    let mut m: Vec<(String, Value)> = Vec::new();
    value::put(&mut m, k, v);
    proof {
        assert(value::with(Seq::empty(), k@, v@) =~= seq![(k@, v@)]);
    }
    Value::Object(m)
}

fn reversed_fields(m: &Vec<(String, Value)>) -> (r: Vec<(String, Value)>)
    ensures
        value::fields(r@) == value::fields(m@).reverse(),
{
    let ghost f = value::fields(m@);
    proof {
        value::lemma_fields(m@);
    }
    let mut r: Vec<(String, Value)> = Vec::new();
    let mut i: usize = m.len();
    proof {
        assert(f.skip(i as int).reverse() =~= Seq::empty());
    }
    while i > 0
        invariant
            i <= m@.len(),
            f == value::fields(m@),
            f.len() == m@.len(),
            forall|j: int| 0 <= j < m@.len() ==> #[trigger] f[j] == (m@[j].0@, value::json(m@[j].1)),
            value::fields(r@) == f.skip(i as int).reverse(),
        decreases i,
    {
        i -= 1;
        let ghost r0 = r@;
        r.push((m[i].0.clone(), value::copy(&m[i].1)));
        proof {
            assert(r@.drop_last() =~= r0);
            assert(value::fields(r@) =~= f.skip(i + 1).reverse().push(f[i as int]));
            assert(f.skip(i as int).reverse() =~= f.skip(i + 1).reverse().push(f[i as int]));
        }
    }
    proof {
        assert(f.skip(0) =~= f);
    }
    r
}

fn reversed_values(a: &Vec<Value>) -> (r: Vec<Value>)
    ensures
        value::jsons(r@) == value::jsons(a@).reverse(),
{
    let ghost f = value::jsons(a@);
    proof {
        value::lemma_jsons(a@);
    }
    let mut r: Vec<Value> = Vec::new();
    let mut i: usize = a.len();
    proof {
        assert(f.skip(i as int).reverse() =~= Seq::empty());
    }
    while i > 0
        invariant
            i <= a@.len(),
            f == value::jsons(a@),
            f.len() == a@.len(),
            forall|j: int| 0 <= j < a@.len() ==> #[trigger] f[j] == value::json(a@[j]),
            value::jsons(r@) == f.skip(i as int).reverse(),
        decreases i,
    {
        i -= 1;
        let ghost r0 = r@;
        r.push(value::copy(&a[i]));
        proof {
            assert(r@.drop_last() =~= r0);
            assert(value::jsons(r@) =~= f.skip(i + 1).reverse().push(f[i as int]));
            assert(f.skip(i as int).reverse() =~= f.skip(i + 1).reverse().push(f[i as int]));
        }
    }
    proof {
        assert(f.skip(0) =~= f);
    }
    r
}

/// Stability probes generated from the case itself: positional bias,
/// meaning-preserving rewording, noise tolerance.
pub fn auto_variants(case: &Value) -> (r: Vec<(String, Value)>)
    ensures
        value::fields(r@) == probes_of(case@),
{
    let mut out: Vec<(String, Value)> = Vec::new();
    let ghost q = value::index(case@, "question"@);
    let ghost st = value::index(case@, "state"@);
    let none: Value = Value::Null;
    let question: &Value = match value::look(case, "question") {
        Some(x) => x,
        None => &none,
    };
    let state: &Value = match value::look(case, "state") {
        Some(x) => x,
        None => &none,
    };
    let is_choice: bool = match value::str_at(question, "type") {
        Some(t) => text::same(t, "choice"),
        None => false,
    };
    if is_choice {
        match value::look(question, "criteria") {
            Some(c) => match c {
                Value::Object(m) => {
                    let c: Value = Value::Object(reversed_fields(m));
                    value::push_field(&mut out, "option_reversal", object("question", object("criteria", c)));
                },
                Value::Array(a) => {
                    let c: Value = Value::Array(reversed_values(a));
                    value::push_field(&mut out, "option_reversal", object("question", object("criteria", c)));
                },
                _ => {},
            },
            None => {},
        }
    }
    proof {
        assert(value::fields(out@) =~= reversal(q));
    }
    if let Some(s) = value::str_at(question, "instructions") {
        let n: usize = text::chars_of(s).len();
        if n > 0 {
            let t: String = WRAPPER.to_owned().concat(s);
            value::push_field(&mut out, "criterion_wrapper", object("question", object("instructions", Value::Str(t))));
        }
    }
    proof {
        assert(value::fields(out@) =~= reversal(q) + rewording(q));
    }
    match state {
        Value::Str(s) => {
            let t: String = s.clone().concat("\n\n").concat(IRRELEVANT_NOTE);
            value::push_field(&mut out, "irrelevant_context", object("state", Value::Str(t)));
        },
        Value::Object(m) => {
            let m2: Value = value::copy(state);
            match m2 {
                Value::Object(mut m2) => {
                    value::put(&mut m2, "unrelated_note", Value::Str(IRRELEVANT_NOTE.to_owned()));
                    value::push_field(&mut out, "irrelevant_context", object("state", Value::Object(m2)));
                },
                _ => {},
            }
        },
        _ => {},
    }
    proof {
        assert(value::fields(out@) =~= probes_of(case@));
    }
    out
}

/// A case is left out of a run without abstention where its answer is one.
pub open spec fn skipped(case: Json, no_abstain: bool) -> bool {
    no_abstain && value::index(case, "requires_abstain"@) == Json::Bool(true)
}

/// The row of a report: what the case is, how it went.
pub open spec fn row_of(case: Json, ok: Json, confidence: Json, ms: Json, answer: Json) -> Json {
    Json::Object(
        seq![
            ("id"@, value::index(case, "id"@)),
            ("type"@, value::index(value::index(case, "question"@), "type"@)),
            ("ok"@, ok),
            ("confidence"@, confidence),
            ("ms"@, ms),
            ("answer"@, answer),
        ],
    )
}

fn row(case: &Value, ok: Value, confidence: Value, ms: Value, answer: Value) -> (r: Value)
    ensures
        r@ == row_of(case@, ok@, confidence@, ms@, answer@),
{
    let t: Value = match value::look(case, "question") {
        Some(q) => value::copy_at(q, "type"),
        None => Value::Null,
    };
    let mut m: Vec<(String, Value)> = Vec::new();
    value::push_field(&mut m, "id", value::copy_at(case, "id"));
    value::push_field(&mut m, "type", t);
    value::push_field(&mut m, "ok", ok);
    value::push_field(&mut m, "confidence", confidence);
    value::push_field(&mut m, "ms", ms);
    value::push_field(&mut m, "answer", answer);
    proof {
        assert(value::fields(m@) =~= row_of(case@, ok@, confidence@, ms@, answer@)->Object_0);
    }
    Value::Object(m)
}

/// The row of a case that is left out.
pub open spec fn skip_row(case: Json) -> Json {
    row_of(case, Json::Null, Json::Null, Json::Number("0.0"@), only("skipped"@, Json::Str("requires_abstain"@)))
}

/// A settled verdict as a row shows it.
pub open spec fn ok_json(ok: Option<bool>) -> Json {
    match ok {
        Some(b) => Json::Bool(b),
        None => Json::Null,
    }
}

/// The row of a case that ran: its settled verdict, its answer and how long it took.
pub fn case_row(case: &Value, ok: Option<bool>, ans: &Value, ms: Value) -> (r: Value)
    ensures
        r@ == row_of(
            case@,
            ok_json(ok),
            value::index(ans@, "confidence"@),
            ms@,
            Json::Object(brief_of(ans@, answer_keys())),
        ),
{
    let verdict: Value = match ok {
        Some(b) => Value::Bool(b),
        None => Value::Null,
    };
    row(case, verdict, value::copy_at(ans, "confidence"), ms, answer_brief(ans))
}

/// Judge an answer by what its case expects; nothing where it expects nothing.
pub fn judge_case(case: &Value, ans: &Value) -> (r: Verdict)
    ensures
        r@ == judged(ans@, value::index(case@, "expect"@)),
{
    let none: Value = Value::Null;
    match value::look(case, "expect") {
        Some(e) => judge(ans, e),
        None => judge(ans, &none),
    }
}

/// A variant of a case to ask as well.
pub struct Probe {
    pub kind: String,
    pub req: CaseRequest,
}

/// What a case makes the runner do: leave it out with a row, or ask it and
/// its variants.
pub enum CasePlan {
    Skip(Value),
    Run { base: CaseRequest, probes: Vec<Probe> },
}

/// The variants that the case declares.
pub open spec fn declared(case: Json) -> Seq<(Seq<char>, Json)> {
    match value::index(case, "variants"@) {
        Json::Array(a) => a.map_values(|v: Json| ("declared"@, v)),
        _ => Seq::empty(),
    }
}

/// The variants to ask: those declared, then those generated where wanted.
pub open spec fn variants_of(case: Json, perturb: bool) -> Seq<(Seq<char>, Json)> {
    declared(case) + if perturb {
        probes_of(case)
    } else {
        Seq::empty()
    }
}

/// `probes` ask the variants in order.
pub open spec fn probes_ask(
    probes: Seq<Probe>,
    vars: Seq<(Seq<char>, Json)>,
    case: Json,
    no_abstain: bool,
    layout: Option<Layout>,
) -> bool {
    &&& probes.len() == vars.len()
    &&& forall|i: int|
        #![trigger probes[i]]
        0 <= i < probes.len() ==> probes[i].kind@ == vars[i].0 && asks(
            probes[i].req,
            merged(case, vars[i].1),
            no_abstain,
            layout,
        )
}

/// What to do with a case.
pub fn plan_case(case: &Value, no_abstain: bool, perturb: bool, layout: Option<Layout>) -> (r: CasePlan)
    ensures
        match r {
            CasePlan::Skip(row) => skipped(case@, no_abstain) && row@ == skip_row(case@),
            CasePlan::Run { base, probes } => {
                &&& !skipped(case@, no_abstain)
                &&& asks(base, case@, no_abstain, layout)
                &&& probes_ask(probes@, variants_of(case@, perturb), case@, no_abstain, layout)
            },
        },
{
    if no_abstain && value::true_at(case, "requires_abstain") {
        let why: Value = object("skipped", Value::Str("requires_abstain".to_owned()));
        return CasePlan::Skip(row(case, Value::Null, Value::Null, Value::Number("0.0".to_owned()), why));
    }
    let ghost vars = variants_of(case@, perturb);
    let mut probes: Vec<Probe> = Vec::new();
    match value::look(case, "variants") {
        Some(v) => match v {
            Value::Array(a) => {
                proof {
                    value::lemma_jsons(a@);
                }
                let mut i: usize = 0;
                while i < a.len()
                    invariant
                        i <= a@.len(),
                        case@ is Object,
                        value::index(case@, "variants"@) == Json::Array(value::jsons(a@)),
                        value::jsons(a@).len() == a@.len(),
                        forall|j: int| 0 <= j < a@.len() ==> #[trigger] value::jsons(a@)[j] == value::json(a@[j]),
                        probes_ask(probes@, declared(case@).take(i as int), case@, no_abstain, layout),
                    decreases a@.len() - i,
                {
                    let vc: Value = merged_case(case, &a[i]);
                    probes.push(Probe { kind: "declared".to_owned(), req: build_req(&vc, no_abstain, layout) });
                    proof {
                        assert(declared(case@)[i as int] == ("declared"@, value::jsons(a@)[i as int]));
                        assert(declared(case@).take(i + 1) =~= declared(case@).take(i as int).push(declared(case@)[i as int]));
                    }
                    i += 1;
                }
                proof {
                    assert(declared(case@).take(i as int) =~= declared(case@));
                }
            },
            _ => {},
        },
        None => {},
    }
    if perturb {
        let auto: Vec<(String, Value)> = auto_variants(case);
        let ghost d = declared(case@);
        let ghost p = probes_of(case@);
        proof {
            value::lemma_fields(auto@);
            assert(d + p.take(0) =~= d);
        }
        let mut i: usize = 0;
        while i < auto.len()
            invariant
                i <= auto@.len(),
                d == declared(case@),
                p == probes_of(case@),
                p == value::fields(auto@),
                p.len() == auto@.len(),
                forall|j: int| 0 <= j < auto@.len() ==> #[trigger] p[j] == (auto@[j].0@, value::json(auto@[j].1)),
                probes_ask(probes@, d + p.take(i as int), case@, no_abstain, layout),
            decreases auto@.len() - i,
        {
            proof {
                assert(p[i as int] == (auto@[i as int].0@, value::json(auto@[i as int].1)));
                assert(d + p.take(i + 1) =~= (d + p.take(i as int)).push(p[i as int]));
            }
            let vc: Value = merged_case(case, &auto[i].1);
            probes.push(Probe { kind: auto[i].0.clone(), req: build_req(&vc, no_abstain, layout) });
            i += 1;
        }
        proof {
            assert(p.take(i as int) =~= p);
        }
    } else {
        proof {
            assert(vars =~= declared(case@));
        }
    }
    CasePlan::Run { base: build_req(case, no_abstain, layout), probes }
}

/// The request as JSON for a server.
pub open spec fn payload_of(r: CaseRequest) -> Json {
    Json::Object(
        seq![
            ("state"@, r.state@),
            ("questions"@, only("q"@, r.question@)),
            ("temperature"@, Json::Number("1.0"@)),
            ("mode"@, Json::Str("shared"@)),
            ("layout"@, Json::Str(engine::layout_name(r.layout))),
            ("expand"@, Json::Str(if r.expand == Expand::Pages { "pages"@ } else { "probes"@ })),
            ("compact_state"@, Json::Bool(r.compact_state)),
        ],
    )
}

/// The request as JSON for a server.
pub fn payload(r: &CaseRequest) -> (p: Value)
    ensures
        p@ == payload_of(*r),
{
    let expand: &str = match r.expand {
        Expand::Pages => "pages",
        Expand::Probes => "probes",
    };
    let mut m: Vec<(String, Value)> = Vec::new();
    value::push_field(&mut m, "state", value::copy(&r.state));
    value::push_field(&mut m, "questions", object("q", value::copy(&r.question)));
    value::push_field(&mut m, "temperature", Value::Number("1.0".to_owned()));
    value::push_field(&mut m, "mode", Value::Str("shared".to_owned()));
    value::push_field(&mut m, "layout", Value::Str(layout_str(r.layout).to_owned()));
    value::push_field(&mut m, "expand", Value::Str(expand.to_owned()));
    value::push_field(&mut m, "compact_state", Value::Bool(r.compact_state));
    proof {
        assert(value::fields(m@) =~= payload_of(*r)->Object_0);
    }
    Value::Object(m)
}

} // verus!
