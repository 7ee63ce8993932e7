//! What a benchmark promises: every request is a new one, the check compares
//! what was chosen, and every figure stands in its own column.
use vstd::prelude::*;

use crate::bench;
use crate::bench::{Kind, Latency};
use crate::lines;
use crate::lines::Shown;
use crate::text;
use crate::value;
use crate::value::Json;

verus! {

/// Different numbers have different digits.
proof fn lemma_digits_differ(i: nat, j: nat)
    requires
        text::digits(i) == text::digits(j),
    ensures
        i == j,
{
    text::law_digits(i);
    text::law_digits(j);
}

/// Digits end where what follows is none.
proof fn lemma_digits_end(i: nat, j: nat, x: Seq<char>, y: Seq<char>)
    requires
        x.len() > 0,
        y.len() > 0,
        !text::is_digit(x[0]),
        !text::is_digit(y[0]),
        text::digits(i) + x == text::digits(j) + y,
    ensures
        i == j,
{
    text::law_digits(i);
    text::law_digits(j);
    let (a, b) = (text::digits(i), text::digits(j));
    let t = a + x;
    if a.len() < b.len() {
        assert(t[a.len() as int] == x[0]);
        assert((b + y)[a.len() as int] == b[a.len() as int]);
        assert(text::is_digit(b[a.len() as int]));
    } else if b.len() < a.len() {
        assert((b + y)[b.len() as int] == y[0]);
        assert(t[b.len() as int] == a[b.len() as int]);
        assert(text::is_digit(a[b.len() as int]));
    }
    assert(a =~= t.take(a.len() as int));
    assert(b =~= (b + y).take(b.len() as int));
    lemma_digits_differ(i, j);
}

/// No two requests of a scenario are about the same state, so that nothing of a
/// state can be reused.
pub proof fn law_fresh_states(kind: Kind, i: nat, j: nat)
    requires
        i != j,
    ensures
        bench::state_for(kind, i as int) != bench::state_for(kind, j as int),
{
    let (a, b) = (bench::state_for(kind, i as int), bench::state_for(kind, j as int));
    if a == b {
        match kind {
            Kind::Small => {
                assert((a->Object_0)[2] == (b->Object_0)[2]);
                lemma_digits_differ(i, j);
            },
            Kind::Document => {
                let (x, y) = (
                    ". "@ + text::joined(bench::doc_lines(40, i as int), " "@),
                    ". "@ + text::joined(bench::doc_lines(40, j as int), " "@),
                );
                reveal_strlit(". ");
                let (s, t) = (a->Str_0, b->Str_0);
                let n = "Ordine "@.len() as int;
                assert(s =~= "Ordine "@ + (text::digits(i) + x));
                assert(t =~= "Ordine "@ + (text::digits(j) + y));
                assert(text::digits(i) + x =~= s.skip(n));
                assert(text::digits(j) + y =~= t.skip(n));
                assert(x[0] == '.' && y[0] == '.');
                lemma_digits_end(i, j, x, y);
            },
            Kind::Big => {
                assert((a->Object_0)[0] == (b->Object_0)[0]);
                lemma_digits_differ(i, j);
            },
        }
    }
}

/// A request asks as many questions as its scenario says, each under a name of
/// its own and no two alike, over its state and in its mode.
pub proof fn law_body(state: Json, n: nat, mode: Seq<char>)
    ensures
        ({
            let b = bench::body(state, n as int, mode);
            &&& value::index(b, "state"@) == state
            &&& value::index(b, "mode"@) == Json::Str(mode)
            &&& (value::index(b, "questions"@) matches Json::Object(q) && q.len() == n && value::distinct(q) && forall|i: int, j: int|
                0 <= i < j < q.len() ==> (#[trigger] q[i]).1 != (#[trigger] q[j]).1)
        }),
{
    let m = bench::body(state, n as int, mode)->Object_0;
    reveal_strlit("state");
    reveal_strlit("questions");
    reveal_strlit("mode");
    assert("state"@.len() == 5 && "questions"@.len() == 9 && "mode"@.len() == 4);
    assert(value::distinct(m));
    value::lemma_nth(m, 0);
    value::lemma_nth(m, 1);
    value::lemma_nth(m, 2);
    let q = bench::questions(n as int);
    assert forall|i: int, j: int| 0 <= i < j < q.len() implies (#[trigger] q[i]).0 != (#[trigger] q[j]).0 && q[i].1
        != q[j].1 by {
        let (a, b) = (text::digits(i as nat), text::digits(j as nat));
        if q[i].0 == q[j].0 {
            assert(a =~= q[i].0.skip("q"@.len() as int));
            assert(b =~= q[j].0.skip("q"@.len() as int));
            lemma_digits_differ(i as nat, j as nat);
        }
        if q[i].1 == q[j].1 {
            let h = "Scegli il prodotto giusto per la voce della lista spesa. Mai ESAURITO. (variante "@;
            let (x, y) = (": ragiona sul caso "@ + a + ")"@, ": ragiona sul caso "@ + b + ")"@);
            reveal_strlit(": ragiona sul caso ");
            let (s, t) = (((q[i].1->Object_0)[1].1)->Str_0, ((q[j].1->Object_0)[1].1)->Str_0);
            assert((q[i].1->Object_0)[1] == (q[j].1->Object_0)[1]);
            assert(s =~= h + (a + x));
            assert(t =~= h + (b + y));
            assert(a + x =~= s.skip(h.len() as int));
            assert(b + y =~= t.skip(h.len() as int));
            assert(x[0] == ':' && y[0] == ':');
            lemma_digits_end(i as nat, j as nat, x, y);
        }
    }
}

/// The check of both modes says that they match just where every one of the four
/// questions was given the same choice.
pub proof fn law_check(shared: Json, direct: Json)
    requires
        forall|i: int| 0 <= i < 4 ==> (#[trigger] bench::choice_in(shared, i)) is Str || bench::choice_in(shared, i) is Null,
    ensures
        value::index(bench::check_row(shared, direct), "match"@) == Json::Bool(
            forall|i: int| 0 <= i < 4 ==> #[trigger] bench::choice_in(shared, i) == bench::choice_in(direct, i),
        ),
        value::index(bench::check_row(shared, direct), "scenario"@) == Json::Str("mode-check"@),
{
    let m = bench::check_row(shared, direct)->Object_0;
    reveal_strlit("scenario");
    reveal_strlit("n");
    reveal_strlit("match");
    assert("scenario"@.len() == 8 && "n"@.len() == 1 && "match"@.len() == 5);
    assert(value::distinct(m));
    value::lemma_nth(m, 0);
    value::lemma_nth(m, 2);
    assert forall|i: int| 0 <= i < 4 implies (value::alike(
        #[trigger] bench::choice_in(shared, i),
        bench::choice_in(direct, i),
    ) <==> bench::choice_in(shared, i) == bench::choice_in(direct, i)) by {
        value::law_alike(bench::choice_in(shared, i), bench::choice_in(direct, i));
    }
    assert(bench::agree(shared, direct) <==> forall|i: int|
        0 <= i < 4 ==> #[trigger] bench::choice_in(shared, i) == bench::choice_in(direct, i));
}

/// A choice is that of the answer to the question asked for, and of no other.
pub proof fn law_choice(r: Json, i: nat)
    ensures
        bench::choice_in(r, i as int) == value::index(
            value::index(value::index(r, "answers"@), "q"@ + text::digits(i)),
            "choice"@,
        ),
{
}

/// A row of a benchmark holds every figure under its own name.
pub proof fn law_row(l: Latency, scenario: Seq<char>)
    ensures
        ({
            let r = bench::row_of(l, scenario);
            &&& value::index(r, "n"@) == Json::Number(text::digits(l.n as nat))
            &&& value::index(r, "p50"@) == Json::Number(l.p50@)
            &&& value::index(r, "p95"@) == Json::Number(l.p95@)
            &&& value::index(r, "mean"@) == Json::Number(l.mean@)
            &&& value::index(r, "req_s"@) == Json::Number(l.req_s@)
            &&& value::index(r, "scenario"@) == Json::Str(scenario)
            &&& l.ms_per_question matches Some(t) ==> value::index(r, "ms_per_question"@) == Json::Number(t@)
            &&& l.ms_per_question is None ==> value::lookup(r, "ms_per_question"@) is None
            &&& bench::is_timed(r)
        }),
{
    let m = bench::row_of(l, scenario)->Object_0;
    reveal_strlit("n");
    reveal_strlit("p50");
    reveal_strlit("p95");
    reveal_strlit("mean");
    reveal_strlit("req_s");
    reveal_strlit("ms_per_question");
    reveal_strlit("scenario");
    assert("n"@.len() == 1 && "p50"@.len() == 3 && "p95"@.len() == 3 && "mean"@.len() == 4 && "req_s"@.len() == 5);
    assert("p50"@[1] == '5' && "p95"@[1] == '9' && "ms_per_question"@.len() == 15 && "scenario"@.len() == 8);
    assert(value::distinct(m));
    value::lemma_nth(m, 0);
    value::lemma_nth(m, 1);
    value::lemma_nth(m, 2);
    value::lemma_nth(m, 3);
    value::lemma_nth(m, 4);
    value::lemma_nth(m, m.len() - 1);
    if l.ms_per_question is Some {
        value::lemma_nth(m, 5);
    } else {
        value::lemma_place(m, "ms_per_question"@);
    }
}

/// The number that a row has under `k`, where a line shows it.
pub open spec fn shows(s: Shown, r: Json, k: Seq<char>) -> bool {
    s matches Shown::Number { text, .. } && (value::index(r, k) matches Json::Number(t) ==> text == t)
}

/// A line of the table shows the row's own figures under the heads of their
/// columns, and a check says in words whether both modes matched.
pub proof fn law_lines(r: Json)
    ensures
        ({
            let l = bench::row_line(r);
            &&& l.len() == 12
            &&& shows(l[3], r, "p50"@)
            &&& shows(l[5], r, "p95"@)
            &&& shows(l[7], r, "mean"@)
            &&& shows(l[9], r, "req_s"@)
            &&& value::index(r, "ms_per_question"@) is Number ==> shows(l[11], r, "ms_per_question"@)
            &&& value::index(r, "scenario"@) matches Json::Str(s) ==> (l[0] matches Shown::Text(t) && s.is_prefix_of(t))
        }),
        ({
            let t = bench::check_line(r)[0];
            &&& value::index(r, "match"@) == Json::Bool(true) ==> (t matches Shown::Text(x) && text::holds(x, " match ("@))
            &&& value::index(r, "match"@) != Json::Bool(true) ==> (t matches Shown::Text(x) && text::holds(
                x,
                " MISMATCH ("@,
            ))
        }),
{
    let name = lines::name_or(r, "scenario"@);
    let h = name + lines::fill(name, 14);
    assert(name =~= (h + " "@).subrange(0, name.len() as int));
    let mid = " shared/direct answers "@;
    reveal_strlit(" shared/direct answers ");
    reveal_strlit(" (n=");
    reveal_strlit(" match (");
    reveal_strlit(" MISMATCH (");
    reveal_strlit("match");
    reveal_strlit("MISMATCH");
    let lead = h + mid.drop_last();
    let x = h + mid + "match"@ + " (n="@;
    assert(x =~= lead + " match ("@ + " (n="@.skip(2));
    text::lemma_holds(lead, " match ("@, " (n="@.skip(2));
    let y = h + mid + "MISMATCH"@ + " (n="@;
    assert(y =~= lead + " MISMATCH ("@ + " (n="@.skip(2));
    text::lemma_holds(lead, " MISMATCH ("@, " (n="@.skip(2));
}

/// Every row is printed: the timed ones in the table, all others below it.
pub proof fn law_printed(rows: Seq<Json>)
    ensures
        bench::timed_lines(rows).len() + bench::check_lines(rows).len() == rows.len(),
        forall|i: int|
            0 <= i < rows.len() && value::lookup(#[trigger] rows[i], "p50"@) is Some ==> bench::timed_lines(rows).contains(
                bench::row_line(rows[i]),
            ),
        forall|i: int|
            0 <= i < rows.len() && value::lookup(#[trigger] rows[i], "p50"@) is None ==> bench::check_lines(rows).contains(
                bench::check_line(rows[i]),
            ),
    decreases rows.len(),
{
    if rows.len() > 0 {
        let d = rows.drop_last();
        law_printed(d);
        let (t, u) = (bench::timed_lines(d), bench::timed_lines(rows));
        let (c, e) = (bench::check_lines(d), bench::check_lines(rows));
        assert forall|i: int| 0 <= i < rows.len() && value::lookup(#[trigger] rows[i], "p50"@) is Some implies u.contains(
            bench::row_line(rows[i]),
        ) by {
            if i < d.len() {
                assert(d[i] == rows[i]);
                let k = choose|k: int| 0 <= k < t.len() && t[k] == bench::row_line(d[i]);
                assert(u[k] == t[k]);
            } else {
                assert(u.last() == bench::row_line(rows[i]));
            }
        }
        assert forall|i: int| 0 <= i < rows.len() && value::lookup(#[trigger] rows[i], "p50"@) is None implies e.contains(
            bench::check_line(rows[i]),
        ) by {
            if i < d.len() {
                assert(d[i] == rows[i]);
                let k = choose|k: int| 0 <= k < c.len() && c[k] == bench::check_line(d[i]);
                assert(e[k] == c[k]);
            } else {
                assert(e.last() == bench::check_line(rows[i]));
            }
        }
    }
}

} // verus!
