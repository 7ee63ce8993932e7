//! Latency / throughput benchmark: what it sends, what it checks and how its
//! rows print. Each request carries a fresh state: a stream of new documents,
//! the realistic case, where nothing is reusable across requests but the
//! template and the question heads.
//!
//! Scenarios:
//!   single-1q      small state, 1 question         -> per-decision latency
//!   shared-{4,8}q  small state, 4|8 questions      -> batched decode
//!   direct-{4,8}q  same, mode direct               -> nothing shared (reference)
//!   doc-8q         ~1.8 KB document, 8 questions   -> document decoded once
//!   state-4k       ~4 KB state, 1 question         -> prefill scaling
use vstd::prelude::*;

use crate::lines;
use crate::lines::{Piece, Scale, Shown};
use crate::text;
use crate::value;
use crate::value::{Json, Value};

verus! {

/// A number as JSON.
pub open spec fn num(n: int) -> Json {
    Json::Number(text::digits(n as nat))
}

fn number(n: u64) -> (r: Value)
    ensures
        r@ == num(n as int),
{
    Value::Number(text::decimal(n))
}

pub open spec fn small(i: int) -> Json {
    Json::Object(seq![("item"@, Json::Str("latte"@)), ("quantity"@, num(1 + i % 3)), ("order"@, num(i))])
}

/// A small state.
pub fn small_state(i: u64) -> (r: Value)
    ensures
        r@ == small(i as int),
{
    let mut m: Vec<(String, Value)> = Vec::new();
    value::push_field(&mut m, "item", Value::Str("latte".to_owned()));
    value::push_field(&mut m, "quantity", number(1 + i % 3));
    value::push_field(&mut m, "order", number(i));
    proof {
        assert(value::fields(m@) =~= small(i as int)->Object_0);
    }
    Value::Object(m)
}

/// A number in at least four digits.
pub open spec fn four(n: int) -> Seq<char> {
    if n < 10 {
        "000"@ + text::digits(n as nat)
    } else if n < 100 {
        "00"@ + text::digits(n as nat)
    } else if n < 1000 {
        "0"@ + text::digits(n as nat)
    } else {
        text::digits(n as nat)
    }
}

fn four_digits(n: u64) -> (r: String)
    ensures
        r@ == four(n as int),
{
    if n < 10 {
        "000".to_owned().concat(text::decimal(n).as_str())
    } else if n < 100 {
        "00".to_owned().concat(text::decimal(n).as_str())
    } else if n < 1000 {
        "0".to_owned().concat(text::decimal(n).as_str())
    } else {
        text::decimal(n)
    }
}

/// A line of a document.
pub open spec fn doc_line(k: int, i: int) -> Seq<char> {
    "Riga "@ + text::digits(k as nat) + ": "@ + text::digits((1 + k % 4) as nat) + " x prodotto P"@ + four(k * 7 + i)
        + ", consegna zona "@ + text::digits((k % 9) as nat) + "."@
}

/// The first lines of a document.
pub open spec fn doc_lines(n: int, i: int) -> Seq<Seq<char>> {
    Seq::new(n as nat, |k: int| doc_line(k, i))
}

/// A state of about 1.8 KB of text.
pub fn doc_state(i: u64) -> (r: Value)
    requires
        i <= u64::MAX - 273,
    ensures
        r@ == Json::Str("Ordine "@ + text::digits(i as nat) + ". "@ + text::joined(doc_lines(40, i as int), " "@)),
{
    let mut ls: Vec<String> = Vec::new();
    let mut k: u64 = 0;
    proof {
        assert(text::views(ls@) =~= doc_lines(0, i as int));
    }
    while k < 40
        invariant
            k <= 40,
            i <= u64::MAX - 273,
            text::views(ls@) == doc_lines(k as int, i as int),
        decreases 40 - k,
    {
        let l: String = "Riga ".to_owned().concat(text::decimal(k).as_str()).concat(": ").concat(
            text::decimal(1 + k % 4).as_str(),
        ).concat(" x prodotto P").concat(four_digits(k * 7 + i).as_str()).concat(", consegna zona ").concat(
            text::decimal(k % 9).as_str(),
        ).concat(".");
        let ghost (l0, lv) = (text::views(ls@), l@);
        ls.push(l);
        proof {
            assert(text::views(ls@) =~= l0.push(lv));
            assert(doc_lines(k + 1, i as int) =~= doc_lines(k as int, i as int).push(doc_line(k as int, i as int)));
        }
        k += 1;
    }
    Value::Str(
        "Ordine ".to_owned().concat(text::decimal(i).as_str()).concat(". ").concat(text::join(&ls, " ").as_str()),
    )
}

/// The goods of an order.
pub open spec fn goods() -> Json {
    Json::Array(
        seq![
            Json::Str("latte"@),
            Json::Str("pane"@),
            Json::Str("pasta"@),
            Json::Str("olio"@),
            Json::Str("vino"@),
        ],
    )
}

/// A past order.
pub open spec fn past_order(k: int) -> Json {
    Json::Object(seq![("order"@, num(k)), ("items"@, goods()), ("total"@, num(20 + k))])
}

/// A text so many times.
pub open spec fn repeated(s: Seq<char>, n: nat) -> Seq<char>
    decreases n,
{
    if n == 0 {
        Seq::empty()
    } else {
        repeated(s, (n - 1) as nat) + s
    }
}

/// What is known of the customer.
pub const NOTE: &'static str = "Cliente premium, preferisce bio, consegna giovedì. ";

pub open spec fn big(i: int) -> Json {
    Json::Object(
        seq![
            ("request"@, num(i)),
            ("customer"@, Json::Str("Mario Rossi"@)),
            ("history"@, Json::Array(Seq::new(40, |k: int| past_order(k)))),
            ("notes"@, Json::Str(repeated(NOTE@, 20))),
        ],
    )
}

fn goods_value() -> (r: Value)
    ensures
        r@ == goods(),
{
    let mut a: Vec<Value> = Vec::new();
    a.push(Value::Str("latte".to_owned()));
    a.push(Value::Str("pane".to_owned()));
    a.push(Value::Str("pasta".to_owned()));
    a.push(Value::Str("olio".to_owned()));
    a.push(Value::Str("vino".to_owned()));
    proof {
        value::lemma_jsons(a@);
        assert(value::jsons(a@) =~= goods()->Array_0);
    }
    Value::Array(a)
}

fn order(k: u64) -> (r: Value)
    requires
        k < 100,
    ensures
        r@ == past_order(k as int),
{
    let mut m: Vec<(String, Value)> = Vec::new();
    value::push_field(&mut m, "order", number(k));
    value::push_field(&mut m, "items", goods_value());
    value::push_field(&mut m, "total", number(20 + k));
    proof {
        assert(value::fields(m@) =~= past_order(k as int)->Object_0);
    }
    Value::Object(m)
}

/// A state of about 4 KB.
pub fn big_state(i: u64) -> (r: Value)
    ensures
        r@ == big(i as int),
{
    let mut history: Vec<Value> = Vec::new();
    let mut k: u64 = 0;
    proof {
        assert(value::jsons(history@) =~= Seq::new(0, |k: int| past_order(k)));
    }
    while k < 40
        invariant
            k <= 40,
            value::jsons(history@) == Seq::new(k as nat, |k: int| past_order(k)),
        decreases 40 - k,
    {
        let ghost h0 = history@;
        history.push(order(k));
        proof {
            assert(history@.drop_last() =~= h0);
            assert(Seq::new((k + 1) as nat, |k: int| past_order(k)) =~= Seq::new(k as nat, |k: int| past_order(k)).push(
                past_order(k as int),
            ));
        }
        k += 1;
    }
    let mut notes: String = String::new();
    let mut n: u64 = 0;
    while n < 20
        invariant
            n <= 20,
            notes@ == repeated(NOTE@, n as nat),
        decreases 20 - n,
    {
        notes.append(NOTE);
        n += 1;
    }
    let mut m: Vec<(String, Value)> = Vec::new();
    value::push_field(&mut m, "request", number(i));
    value::push_field(&mut m, "customer", Value::Str("Mario Rossi".to_owned()));
    value::push_field(&mut m, "history", Value::Array(history));
    value::push_field(&mut m, "notes", Value::Str(notes));
    proof {
        assert(value::fields(m@) =~= big(i as int)->Object_0);
    }
    Value::Object(m)
}

/// The options of every question.
pub open spec fn shelf() -> Json {
    Json::Object(
        seq![
            ("c0"@, Json::Str("Latte intero 1L — 1.19€"@)),
            ("c1"@, Json::Str("Latte parzialmente scremato 1L — 1.09€"@)),
            ("c2"@, Json::Str("Latte UHT 6x1L — 6.90€"@)),
            ("c3"@, Json::Str("Croccantini gatto 400g — ESAURITO"@)),
            ("c4"@, Json::Str("Latte scremato 500ml — 0.69€"@)),
        ],
    )
}

/// The `i`-th question.
pub open spec fn asked(i: int) -> Json {
    Json::Object(
        seq![
            ("type"@, Json::Str("choice"@)),
            (
                "instructions"@,
                Json::Str(
                    "Scegli il prodotto giusto per la voce della lista spesa. Mai ESAURITO. (variante "@ + text::digits(
                        i as nat,
                    ) + ": ragiona sul caso "@ + text::digits(i as nat) + ")"@,
                ),
            ),
            ("criteria"@, shelf()),
        ],
    )
}

fn shelf_value() -> (r: Value)
    ensures
        r@ == shelf(),
{
    let mut c: Vec<(String, Value)> = Vec::new();
    value::push_field(&mut c, "c0", Value::Str("Latte intero 1L — 1.19€".to_owned()));
    value::push_field(&mut c, "c1", Value::Str("Latte parzialmente scremato 1L — 1.09€".to_owned()));
    value::push_field(&mut c, "c2", Value::Str("Latte UHT 6x1L — 6.90€".to_owned()));
    value::push_field(&mut c, "c3", Value::Str("Croccantini gatto 400g — ESAURITO".to_owned()));
    value::push_field(&mut c, "c4", Value::Str("Latte scremato 500ml — 0.69€".to_owned()));
    proof {
        assert(value::fields(c@) =~= shelf()->Object_0);
    }
    Value::Object(c)
}

/// The `i`-th question.
pub fn question_choice(i: u64) -> (r: Value)
    ensures
        r@ == asked(i as int),
{
    let n: String = text::decimal(i);
    let words: String = "Scegli il prodotto giusto per la voce della lista spesa. Mai ESAURITO. (variante ".to_owned().concat(
        n.as_str(),
    ).concat(": ragiona sul caso ").concat(n.as_str()).concat(")");
    let mut m: Vec<(String, Value)> = Vec::new();
    value::push_field(&mut m, "type", Value::Str("choice".to_owned()));
    value::push_field(&mut m, "instructions", Value::Str(words));
    value::push_field(&mut m, "criteria", shelf_value());
    proof {
        assert(value::fields(m@) =~= asked(i as int)->Object_0);
    }
    Value::Object(m)
}

/// The name of the `i`-th question.
pub open spec fn question_name(i: int) -> Seq<char> {
    "q"@ + text::digits(i as nat)
}

/// The first questions.
pub open spec fn questions(n: int) -> Seq<(Seq<char>, Json)> {
    Seq::new(n as nat, |i: int| (question_name(i), asked(i)))
}

/// A request.
pub open spec fn body(state: Json, n: int, mode: Seq<char>) -> Json {
    Json::Object(seq![("state"@, state), ("questions"@, Json::Object(questions(n))), ("mode"@, Json::Str(mode))])
}

/// A request of `n` questions on a state.
pub fn payload(state: Value, n: u64, mode: &str) -> (r: Value)
    ensures
        r@ == body(state@, n as int, mode@),
{
    let mut qs: Vec<(String, Value)> = Vec::new();
    let mut i: u64 = 0;
    proof {
        assert(value::fields(qs@) =~= questions(0));
    }
    while i < n
        invariant
            i <= n,
            value::fields(qs@) == questions(i as int),
        decreases n - i,
    {
        let name: String = "q".to_owned().concat(text::decimal(i).as_str());
        value::push_field(&mut qs, name.as_str(), question_choice(i));
        proof {
            assert(questions(i + 1) =~= questions(i as int).push((question_name(i as int), asked(i as int))));
        }
        i += 1;
    }
    let ghost sv = state@;
    let mut m: Vec<(String, Value)> = Vec::new();
    value::push_field(&mut m, "state", state);
    value::push_field(&mut m, "questions", Value::Object(qs));
    value::push_field(&mut m, "mode", Value::Str(mode.to_owned()));
    proof {
        assert(value::fields(m@) =~= body(sv, n as int, mode@)->Object_0);
    }
    Value::Object(m)
}

/// What a scenario's states look like.
#[derive(Debug, Clone, Copy, PartialEq, Eq, Structural)]
pub enum Kind {
    Small,
    Document,
    Big,
}

/// A scenario: questions per request, what is asked about, how.
pub struct Scenario {
    pub name: &'static str,
    pub questions: u64,
    pub kind: Kind,
    pub mode: &'static str,
}

/// What a scenario is.
pub open spec fn is(s: Scenario, name: Seq<char>, questions: int, kind: Kind, mode: Seq<char>) -> bool {
    s.name@ == name && s.questions == questions && s.kind == kind && s.mode@ == mode
}

/// The scenarios, in the order in which they run.
pub fn scenarios() -> (r: Vec<Scenario>)
    ensures
        r@.len() == 7,
        is(r@[0], "single-1q"@, 1, Kind::Small, "shared"@),
        is(r@[1], "shared-4q"@, 4, Kind::Small, "shared"@),
        is(r@[2], "direct-4q"@, 4, Kind::Small, "direct"@),
        is(r@[3], "shared-8q"@, 8, Kind::Small, "shared"@),
        is(r@[4], "direct-8q"@, 8, Kind::Small, "direct"@),
        is(r@[5], "doc-8q"@, 8, Kind::Document, "shared"@),
        is(r@[6], "state-4k"@, 1, Kind::Big, "shared"@),
{
    let mut r: Vec<Scenario> = Vec::new();
    r.push(Scenario { name: "single-1q", questions: 1, kind: Kind::Small, mode: "shared" });
    r.push(Scenario { name: "shared-4q", questions: 4, kind: Kind::Small, mode: "shared" });
    r.push(Scenario { name: "direct-4q", questions: 4, kind: Kind::Small, mode: "direct" });
    r.push(Scenario { name: "shared-8q", questions: 8, kind: Kind::Small, mode: "shared" });
    r.push(Scenario { name: "direct-8q", questions: 8, kind: Kind::Small, mode: "direct" });
    r.push(Scenario { name: "doc-8q", questions: 8, kind: Kind::Document, mode: "shared" });
    r.push(Scenario { name: "state-4k", questions: 1, kind: Kind::Big, mode: "shared" });
    r
}

/// The state of a scenario's `i`-th request.
pub open spec fn state_for(kind: Kind, i: int) -> Json {
    match kind {
        Kind::Small => small(i),
        Kind::Document => Json::Str(
            "Ordine "@ + text::digits(i as nat) + ". "@ + text::joined(doc_lines(40, i), " "@),
        ),
        Kind::Big => big(i),
    }
}

/// The `i`-th request of a scenario.
pub fn request(s: &Scenario, i: u64) -> (r: Value)
    requires
        i <= u64::MAX - 273,
    ensures
        r@ == body(state_for(s.kind, i as int), s.questions as int, s.mode@),
{
    let state: Value = match s.kind {
        Kind::Small => small_state(i),
        Kind::Document => doc_state(i),
        Kind::Big => big_state(i),
    };
    payload(state, s.questions, s.mode)
}

/// The choice that a response gives to a question.
pub open spec fn choice_in(r: Json, i: int) -> Json {
    value::index(value::index(value::index(r, "answers"@), question_name(i)), "choice"@)
}

fn choice_at(r: &Value, i: u64) -> (c: Value)
    ensures
        c@ == choice_in(r@, i as int),
{
    let name: String = "q".to_owned().concat(text::decimal(i).as_str());
    if let Some(a) = value::look(r, "answers") {
        if let Some(q) = value::look(a, name.as_str()) {
            return value::copy_at(q, "choice");
        }
    }
    Value::Null
}

/// Four questions give the same choices.
pub open spec fn agree(a: Json, b: Json) -> bool {
    forall|i: int| 0 <= i < 4 ==> value::alike(#[trigger] choice_in(a, i), choice_in(b, i))
}

/// The row of the check of shared against direct.
pub open spec fn check_row(shared: Json, direct: Json) -> Json {
    Json::Object(
        seq![
            ("scenario"@, Json::Str("mode-check"@)),
            (
                "n"@,
                num(
                    match value::index(shared, "answers"@) {
                        Json::Object(m) => m.len() as int,
                        _ => 0,
                    },
                ),
            ),
            ("match"@, Json::Bool(agree(shared, direct))),
        ],
    )
}

/// Direct mode decodes every question alone: the same answers or a bug.
pub fn mode_check(shared: &Value, direct: &Value) -> (r: Value)
    ensures
        r@ == check_row(shared@, direct@),
{
    let n: usize = match value::look(shared, "answers") {
        Some(a) => match a {
            Value::Object(m) => {
                proof {
                    value::lemma_fields(m@);
                }
                m.len()
            },
            _ => 0,
        },
        None => 0,
    };
    let mut same: bool = true;
    let mut i: u64 = 0;
    while i < 4
        invariant
            i <= 4,
            same <==> forall|k: int|
                0 <= k < i ==> value::alike(#[trigger] choice_in(shared@, k), choice_in(direct@, k)),
        decreases 4 - i,
    {
        let (a, b): (Value, Value) = (choice_at(shared, i), choice_at(direct, i));
        if !value::same_value(&a, &b) {
            same = false;
        }
        i += 1;
    }
    let mut m: Vec<(String, Value)> = Vec::new();
    value::push_field(&mut m, "scenario", Value::Str("mode-check".to_owned()));
    value::push_field(&mut m, "n", number(n as u64));
    value::push_field(&mut m, "match", Value::Bool(same));
    proof {
        assert(value::fields(m@) =~= check_row(shared@, direct@)->Object_0);
    }
    Value::Object(m)
}

/// The latencies of a scenario, summed up, as they print.
pub struct Latency {
    pub n: usize,
    pub p50: String,
    pub p95: String,
    pub mean: String,
    pub req_s: String,
    /// For scenarios of more than one question.
    pub ms_per_question: Option<String>,
}

/// The row of a scenario.
pub open spec fn row_of(l: Latency, scenario: Seq<char>) -> Json {
    let m = seq![
        ("n"@, num(l.n as int)),
        ("p50"@, Json::Number(l.p50@)),
        ("p95"@, Json::Number(l.p95@)),
        ("mean"@, Json::Number(l.mean@)),
        ("req_s"@, Json::Number(l.req_s@)),
    ];
    let q = match l.ms_per_question {
        Some(t) => m.push(("ms_per_question"@, Json::Number(t@))),
        None => m,
    };
    Json::Object(q.push(("scenario"@, Json::Str(scenario))))
}

/// The row of a scenario.
pub fn row(l: &Latency, scenario: &str) -> (r: Value)
    ensures
        r@ == row_of(*l, scenario@),
{
    let mut m: Vec<(String, Value)> = Vec::new();
    value::push_field(&mut m, "n", number(l.n as u64));
    value::push_field(&mut m, "p50", Value::Number(l.p50.clone()));
    value::push_field(&mut m, "p95", Value::Number(l.p95.clone()));
    value::push_field(&mut m, "mean", Value::Number(l.mean.clone()));
    value::push_field(&mut m, "req_s", Value::Number(l.req_s.clone()));
    if let Some(t) = &l.ms_per_question {
        value::push_field(&mut m, "ms_per_question", Value::Number(t.clone()));
    }
    value::push_field(&mut m, "scenario", Value::Str(scenario.to_owned()));
    proof {
        assert(value::fields(m@) =~= row_of(*l, scenario@)->Object_0);
    }
    Value::Object(m)
}

/// The head of the table.
pub open spec fn head() -> Seq<Seq<Shown>> {
    seq![
        seq![lines::say("scenario          n   p50 ms   p95 ms  mean ms   req/s    ms/q"@)],
        seq![lines::say(RULE@)],
    ]
}

pub const RULE: &'static str = "──────────────────────────────────────────────────────────────";

/// The line of a scenario.
pub open spec fn row_line(r: Json) -> Seq<Shown> {
    let name = lines::name_or(r, "scenario"@);
    seq![
        lines::say(name + lines::fill(name, 14) + " "@),
        lines::member_text(r, "n"@),
        lines::say(" "@),
        lines::amount(r, "p50"@, Scale::Once, 1, 8),
        lines::say(" "@),
        lines::amount(r, "p95"@, Scale::Once, 1, 8),
        lines::say(" "@),
        lines::amount(r, "mean"@, Scale::Once, 1, 8),
        lines::say(" "@),
        lines::amount(r, "req_s"@, Scale::Once, 2, 7),
        lines::say(" "@),
        (if value::number_in(value::index(r, "ms_per_question"@)) is Some {
            lines::amount(r, "ms_per_question"@, Scale::Once, 1, 7)
        } else {
            lines::say("      -"@)
        }),
    ]
}

/// The line of a check.
pub open spec fn check_line(r: Json) -> Seq<Shown> {
    let name = lines::name_or(r, "scenario"@);
    seq![
        lines::say(
            name + lines::fill(name, 14) + " shared/direct answers "@ + (if value::index(r, "match"@) == Json::Bool(
                true,
            ) {
                "match"@
            } else {
                "MISMATCH"@
            }) + " (n="@,
        ),
        lines::member_text(r, "n"@),
        lines::say(")"@),
    ]
}

/// A row that has latencies.
pub open spec fn is_timed(r: Json) -> bool {
    value::lookup(r, "p50"@) is Some
}

/// The lines of the rows that have latencies.
pub open spec fn timed_lines(rows: Seq<Json>) -> Seq<Seq<Shown>>
    decreases rows.len(),
{
    if rows.len() == 0 {
        Seq::empty()
    } else if is_timed(rows.last()) {
        timed_lines(rows.drop_last()).push(row_line(rows.last()))
    } else {
        timed_lines(rows.drop_last())
    }
}

/// The lines of the checks.
pub open spec fn check_lines(rows: Seq<Json>) -> Seq<Seq<Shown>>
    decreases rows.len(),
{
    if rows.len() == 0 {
        Seq::empty()
    } else if is_timed(rows.last()) {
        check_lines(rows.drop_last())
    } else {
        check_lines(rows.drop_last()).push(check_line(rows.last()))
    }
}

/// What a benchmark prints: the table, then its checks after an empty line.
pub open spec fn printed(rows: Seq<Json>) -> Seq<Seq<Shown>> {
    let cs = check_lines(rows);
    head() + timed_lines(rows) + if cs.len() > 0 {
        seq![Seq::<Shown>::empty()] + cs
    } else {
        Seq::empty()
    }
}

fn show_row(r: &Value) -> (l: Vec<Piece>)
    ensures
        lines::shown(l@) == row_line(r@),
{
    let mut l: Vec<Piece> = Vec::new();
    let name: String = lines::pad_right(lines::name_of(r, "scenario").as_str(), 14).concat(" ");
    lines::put_text(&mut l, name.as_str());
    lines::put_member(&mut l, r, "n");
    lines::put_text(&mut l, " ");
    lines::put_amount(&mut l, r, "p50", Scale::Once, 1, 8);
    lines::put_text(&mut l, " ");
    lines::put_amount(&mut l, r, "p95", Scale::Once, 1, 8);
    lines::put_text(&mut l, " ");
    lines::put_amount(&mut l, r, "mean", Scale::Once, 1, 8);
    lines::put_text(&mut l, " ");
    lines::put_amount(&mut l, r, "req_s", Scale::Once, 2, 7);
    lines::put_text(&mut l, " ");
    if value::number_at(r, "ms_per_question").is_some() {
        lines::put_amount(&mut l, r, "ms_per_question", Scale::Once, 1, 7);
    } else {
        lines::put_text(&mut l, "      -");
    }
    proof {
        assert(lines::shown(l@) =~= row_line(r@));
    }
    l
}

fn show_check(r: &Value) -> (l: Vec<Piece>)
    ensures
        lines::shown(l@) == check_line(r@),
{
    let mut l: Vec<Piece> = Vec::new();
    let word: &str = if value::true_at(r, "match") {
        "match"
    } else {
        "MISMATCH"
    };
    let name: String = lines::pad_right(lines::name_of(r, "scenario").as_str(), 14).concat(
        " shared/direct answers ",
    ).concat(word).concat(" (n=");
    lines::put_text(&mut l, name.as_str());
    lines::put_member(&mut l, r, "n");
    lines::put_text(&mut l, ")");
    proof {
        assert(lines::shown(l@) =~= check_line(r@));
    }
    l
}

/// What a benchmark prints, line by line.
pub fn print_bench(rows: &Vec<Value>) -> (r: Vec<Vec<Piece>>)
    ensures
        lines::all_shown(r@) == printed(value::jsons(rows@)),
{
    let ghost js = value::jsons(rows@);
    proof {
        value::lemma_jsons(rows@);
        assert(js.take(0) =~= Seq::empty());
    }
    let mut out: Vec<Vec<Piece>> = Vec::new();
    let mut l: Vec<Piece> = Vec::new();
    lines::put_text(&mut l, "scenario          n   p50 ms   p95 ms  mean ms   req/s    ms/q");
    proof {
        assert(lines::shown(l@) =~= head()[0]);
    }
    lines::put_line(&mut out, l);
    let mut l: Vec<Piece> = Vec::new();
    lines::put_text(&mut l, RULE);
    proof {
        assert(lines::shown(l@) =~= head()[1]);
    }
    lines::put_line(&mut out, l);
    let mut checks: Vec<Vec<Piece>> = Vec::new();
    proof {
        assert(lines::all_shown(out@) =~= head() + timed_lines(js.take(0)));
        assert(lines::all_shown(checks@) =~= Seq::empty());
    }
    let mut i: usize = 0;
    while i < rows.len()
        invariant
            i <= rows@.len(),
            js == value::jsons(rows@),
            js.len() == rows@.len(),
            forall|j: int| 0 <= j < rows@.len() ==> #[trigger] js[j] == value::json(rows@[j]),
            lines::all_shown(out@) == head() + timed_lines(js.take(i as int)),
            lines::all_shown(checks@) == check_lines(js.take(i as int)),
        decreases rows@.len() - i,
    {
        proof {
            assert(js.take(i + 1).drop_last() =~= js.take(i as int));
            assert(js.take(i + 1).last() == js[i as int]);
        }
        if value::look(&rows[i], "p50").is_some() {
            lines::put_line(&mut out, show_row(&rows[i]));
            proof {
                assert(lines::all_shown(out@) =~= head() + timed_lines(js.take(i + 1)));
            }
        } else {
            lines::put_line(&mut checks, show_check(&rows[i]));
        }
        i += 1;
    }
    proof {
        assert(js.take(i as int) =~= js);
    }
    let ghost top = lines::all_shown(out@);
    let ghost cs = lines::all_shown(checks@);
    if checks.len() > 0 {
        let l: Vec<Piece> = Vec::new();
        proof {
            assert(lines::shown(l@) =~= Seq::<Shown>::empty());
        }
        lines::put_line(&mut out, l);
        let ghost o = out@;
        let ghost c0 = checks@;
        out.append(&mut checks);
        proof {
            assert(lines::all_shown(o + c0) =~= lines::all_shown(o) + lines::all_shown(c0));
            assert(lines::all_shown(out@) =~= printed(js));
        }
    } else {
        proof {
            assert(lines::all_shown(out@) =~= printed(js));
        }
    }
    out
}

} // verus!
