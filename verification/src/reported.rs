//! What reports promise: every verdict counts once, nothing that failed goes
//! unsaid, and every figure stands under its own name.
use vstd::prelude::*;

use crate::group;
use crate::lines;
use crate::lines::{Scale, Shown};
use crate::report;
use crate::report::{ClassTally, KindTally, Measures, Steadiness, Tally, Term, TypeTally};
use crate::text;
use crate::value;
use crate::value::Json;

verus! {

/// A run's counts: the rows that have a verdict are scored, those whose verdict
/// is true passed, and all others of them are told as failures.
pub proof fn law_scored(rows: Seq<Json>)
    ensures
        report::scored_in(rows) == rows.filter(|r: Json| value::index(r, "ok"@) != Json::Null),
        report::passes(rows) == rows.filter(|r: Json| value::index(r, "ok"@) == Json::Bool(true)).len(),
        report::passes(rows) + report::failures_in(rows).len() == rows.len(),
        report::passes(report::scored_in(rows)) == report::passes(rows),
    decreases rows.len(),
{
    reveal(Seq::filter);
    if rows.len() > 0 {
        let d = rows.drop_last();
        law_scored(d);
        let s = report::scored_in(d);
        assert(s.push(rows.last()).drop_last() =~= s);
    }
}

/// The rows of a type are those whose question is of it, in order.
pub proof fn law_of_type(rows: Seq<Json>, t: Seq<char>)
    requires
        t != "?"@,
    ensures
        report::of_type(rows, t) == rows.filter(|r: Json| value::index(r, "type"@) == Json::Str(t)),
    decreases rows.len(),
{
    reveal(Seq::filter);
    if rows.len() > 0 {
        law_of_type(rows.drop_last(), t);
    }
}

/// Whatever did not pass is told, by what it was and what was answered.
pub proof fn law_failures(rows: Seq<Json>, i: int) -> (f: int)
    requires
        0 <= i < rows.len(),
        value::index(rows[i], "ok"@) != Json::Bool(true),
    ensures
        0 <= f < report::failures_in(rows).len(),
        ({
            let x = report::failures_in(rows)[f];
            &&& value::index(x, "id"@) == value::index(rows[i], "id"@)
            &&& value::index(x, "type"@) == value::index(rows[i], "type"@)
            &&& value::index(x, "answer"@) == value::index(rows[i], "answer"@)
            &&& value::index(x, "confidence"@) == value::index(rows[i], "confidence"@)
        }),
    decreases rows.len(),
{
    let d = rows.drop_last();
    if i == rows.len() - 1 {
        let f = report::failures_in(d).len() as int;
        let m = report::failure_of(rows[i])->Object_0;
        reveal_strlit("id");
        reveal_strlit("type");
        reveal_strlit("answer");
        reveal_strlit("confidence");
        assert("id"@.len() == 2 && "type"@.len() == 4 && "answer"@.len() == 6 && "confidence"@.len() == 10);
        assert(value::distinct(m));
        value::lemma_nth(m, 0);
        value::lemma_nth(m, 1);
        value::lemma_nth(m, 2);
        value::lemma_nth(m, 3);
        f
    } else {
        assert(d[i] == rows[i]);
        law_failures(d, i)
    }
}

/// The figures under one name are one for each row, in order: its own, or what
/// stands for none.
pub proof fn law_column(rows: Seq<Json>, k: Seq<char>, d: Seq<char>)
    ensures
        report::column(rows, k, d).len() == rows.len(),
        forall|i: int|
            0 <= i < rows.len() ==> #[trigger] report::column(rows, k, d)[i] == (match value::index(rows[i], k) {
                Json::Number(t) => t,
                _ => d,
            }),
    decreases rows.len(),
{
    if rows.len() > 0 {
        law_column(rows.drop_last(), k, d);
    }
}

/// The tally of a run: no more passed than were scored, each type's counts are
/// those of its own rows, and all types together make up the run.
pub proof fn law_tally(t: Tally, rows: Seq<Json>)
    requires
        report::tallies(t, rows),
    ensures
        t.scored == rows.filter(|r: Json| value::index(r, "ok"@) != Json::Null).len(),
        t.passed == rows.filter(|r: Json| value::index(r, "ok"@) == Json::Bool(true)).len(),
        t.passed + t.failures@.len() == t.scored,
        t.confidences@.len() == t.scored,
        forall|i: int| 0 <= i < t.by_type@.len() ==> (#[trigger] t.by_type@[i]).ok <= t.by_type@[i].n <= t.scored,
        forall|i: int|
            0 <= i < t.by_type@.len() && (#[trigger] t.by_type@[i]).name@ != "?"@ ==> t.by_type@[i].n == rows.filter(
                |r: Json| value::index(r, "ok"@) != Json::Null,
            ).filter(|r: Json| value::index(r, "type"@) == Json::Str(t.by_type@[i].name@)).len(),
{
    let s = report::scored_in(rows);
    law_scored(rows);
    law_scored(s);
    law_column(s, "confidence"@, "0.0"@);
    report::lemma_types(s);
    value::lemma_jsons(t.failures@);
    assert(text::views(t.confidences@).len() == t.confidences@.len());
    assert forall|i: int| 0 <= i < t.by_type@.len() implies (#[trigger] t.by_type@[i]).ok <= t.by_type@[i].n <= t.scored by {
        assert(report::of_type(s, t.by_type@[i].name@).len() <= s.len());
    }
    assert forall|i: int| 0 <= i < t.by_type@.len() && (#[trigger] t.by_type@[i]).name@ != "?"@ implies t.by_type@[i].n
        == s.filter(|r: Json| value::index(r, "type"@) == Json::Str(t.by_type@[i].name@)).len() by {
        law_of_type(s, t.by_type@[i].name@);
    }
}

proof fn lemma_marked(m: Seq<int>, marks: Seq<bool>)
    ensures
        group::marked(m, marks) == m.filter(|i: int| marks[i]).len(),
    decreases m.len(),
{
    reveal(Seq::filter);
    if m.len() > 0 {
        lemma_marked(m.drop_last(), marks);
    }
}

/// What a class is found by: of all that should have been it, those that were.
pub proof fn law_recalls(cs: Seq<ClassTally>, targets: Seq<usize>, hits: Seq<bool>, j: int)
    requires
        report::recalls(cs, targets, hits),
        targets.len() == hits.len(),
        0 <= j < cs.len(),
    ensures
        ({
            let p = group::positions(targets, cs[j].class);
            &&& cs[j].n == p.len()
            &&& cs[j].ok == p.filter(|i: int| hits[i]).len()
            &&& cs[j].ok <= cs[j].n
            &&& forall|i: int| #[trigger] p.contains(i) <==> 0 <= i < targets.len() && targets[i] == cs[j].class
        }),
{
    let p = group::positions(targets, cs[j].class);
    group::lemma_positions(targets, cs[j].class);
    lemma_marked(p, hits);
    lemma_filter_shorter(p, hits);
}

proof fn lemma_filter_shorter(p: Seq<int>, hits: Seq<bool>)
    ensures
        p.filter(|i: int| hits[i]).len() <= p.len(),
    decreases p.len(),
{
    reveal(Seq::filter);
    if p.len() > 0 {
        lemma_filter_shorter(p.drop_last(), hits);
    }
}

/// What a kind of variant is steady by: of all of that kind, those that agreed.
pub proof fn law_steady(ts: Seq<KindTally>, kinds: Seq<Seq<char>>, agree: Seq<bool>, j: int)
    requires
        report::steady(ts, kinds, agree),
        kinds.len() == agree.len(),
        0 <= j < ts.len(),
    ensures
        ({
            let p = group::ints(ts[j].members@);
            &&& ts[j].agreed == p.filter(|i: int| agree[i]).len()
            &&& ts[j].agreed <= ts[j].members@.len()
            &&& forall|i: int| #[trigger] p.contains(i) <==> 0 <= i < kinds.len() && kinds[i] == ts[j].kind@
        }),
{
    let p = group::positions(kinds, ts[j].kind@);
    group::lemma_positions(kinds, ts[j].kind@);
    lemma_marked(p, agree);
    lemma_filter_shorter(p, agree);
}

/// How steady answers were is told by its own figures.
pub proof fn law_steadiness(s: Steadiness)
    ensures
        ({
            let j = Json::Object(report::steadiness_of(s));
            &&& value::index(j, "n"@) == Json::Number(text::digits(s.n as nat))
            &&& value::index(j, "agreement"@) == Json::Number(s.agreement@)
            &&& value::index(j, "mean_drift"@) == Json::Number(s.mean_drift@)
        }),
{
    let m = report::steadiness_of(s);
    reveal_strlit("n");
    reveal_strlit("agreement");
    reveal_strlit("mean_drift");
    assert("n"@.len() == 1 && "agreement"@.len() == 9 && "mean_drift"@.len() == 10);
    assert(value::distinct(m));
    value::lemma_nth(m, 0);
    value::lemma_nth(m, 1);
    value::lemma_nth(m, 2);
}

/// A report holds every figure of its run under that figure's name: how many
/// cases there were and how many were scored, what was measured, what failed,
/// and the rows themselves.
pub proof fn law_report(label: Seq<char>, rows: Seq<Json>, t: Tally, m: Measures)
    ensures
        ({
            let r = report::report_of(label, rows, t, m);
            &&& value::index(r, "model"@) == Json::Str(label)
            &&& value::index(r, "cases"@) == Json::Number(text::digits(rows.len()))
            &&& value::index(r, "scored"@) == Json::Number(text::digits(t.scored as nat))
            &&& value::index(r, "accuracy"@) == Json::Number(m.accuracy@)
            &&& value::index(r, "balanced_accuracy"@) == m.balanced_accuracy@
            &&& value::index(r, "brier"@) == m.brier@
            &&& value::index(r, "ece"@) == m.ece@
            &&& value::index(r, "consistency"@) == m.consistency@
            &&& value::index(r, "mean_confidence"@) == Json::Number(m.mean_confidence@)
            &&& value::index(r, "ms_mean"@) == Json::Number(m.ms_mean@)
            &&& value::index(r, "ms_total"@) == Json::Number(m.ms_total@)
            &&& value::index(r, "failures"@) == Json::Array(value::jsons(t.failures@))
            &&& value::index(r, "rows"@) == Json::Array(rows)
            &&& value::index(r, "per_type"@) == Json::Object(report::per_type_of(t.by_type@, m.type_accuracy@))
        }),
{
    let o = report::report_of(label, rows, t, m)->Object_0;
    lemma_report_names();
    assert(value::distinct(o)) by {
        assert forall|i: int, j: int| 0 <= i < j < o.len() implies (#[trigger] o[i]).0 != (#[trigger] o[j]).0 by {}
    }
    value::lemma_nth(o, 0);
    value::lemma_nth(o, 1);
    value::lemma_nth(o, 2);
    value::lemma_nth(o, 3);
    value::lemma_nth(o, 4);
    value::lemma_nth(o, 5);
    value::lemma_nth(o, 6);
    value::lemma_nth(o, 7);
    value::lemma_nth(o, 8);
    value::lemma_nth(o, 9);
    value::lemma_nth(o, 10);
    value::lemma_nth(o, 11);
    value::lemma_nth(o, 12);
    value::lemma_nth(o, 13);
}

proof fn lemma_report_names()
    ensures
        "model"@.len() == 5 && "model"@[0] == 'm',
        "cases"@.len() == 5 && "cases"@[0] == 'c',
        "scored"@.len() == 6,
        "accuracy"@.len() == 8 && "accuracy"@[0] == 'a',
        "balanced_accuracy"@.len() == 17,
        "brier"@.len() == 5 && "brier"@[0] == 'b',
        "ece"@.len() == 3,
        "consistency"@.len() == 11,
        "mean_confidence"@.len() == 15,
        "per_type"@.len() == 8 && "per_type"@[0] == 'p',
        "ms_mean"@.len() == 7,
        "ms_total"@.len() == 8 && "ms_total"@[0] == 'm',
        "failures"@.len() == 8 && "failures"@[0] == 'f',
        "rows"@.len() == 4,
{
    reveal_strlit("model");
    reveal_strlit("cases");
    reveal_strlit("scored");
    reveal_strlit("accuracy");
    reveal_strlit("balanced_accuracy");
    reveal_strlit("brier");
    reveal_strlit("ece");
    reveal_strlit("consistency");
    reveal_strlit("mean_confidence");
    reveal_strlit("per_type");
    reveal_strlit("ms_mean");
    reveal_strlit("ms_total");
    reveal_strlit("failures");
    reveal_strlit("rows");
}

/// Every type of a run is told once, with how many rows it has and what share of
/// them passed.
pub proof fn law_per_type(ts: Seq<TypeTally>, accs: Seq<String>, i: int)
    requires
        0 <= i < ts.len(),
        ts.len() == accs.len(),
    ensures
        ({
            let p = report::per_type_of(ts, accs);
            &&& p.len() == ts.len()
            &&& p[i].0 == ts[i].name@
            &&& value::index(p[i].1, "n"@) == Json::Number(text::digits(ts[i].n as nat))
            &&& value::index(p[i].1, "acc"@) == Json::Number(accs[i]@)
        }),
{
    let m = report::per_type_of(ts, accs)[i].1->Object_0;
    reveal_strlit("n");
    reveal_strlit("acc");
    assert("n"@.len() == 1 && "acc"@.len() == 3);
    assert(value::distinct(m));
    value::lemma_nth(m, 0);
    value::lemma_nth(m, 1);
}

/// The times of a run are those that its rows tell, in order.
pub proof fn law_times(rows: Seq<Json>)
    requires
        forall|i: int| 0 <= i < rows.len() ==> value::index(#[trigger] rows[i], "ms"@) is Number,
    ensures
        report::times_in(rows).len() == rows.len(),
        forall|i: int|
            0 <= i < rows.len() ==> value::index(#[trigger] rows[i], "ms"@) == Json::Number(report::times_in(rows)[i]),
    decreases rows.len(),
{
    if rows.len() > 0 {
        let d = rows.drop_last();
        assert forall|i: int| 0 <= i < d.len() implies value::index(#[trigger] d[i], "ms"@) is Number by {
            assert(value::index(rows[i], "ms"@) is Number);
        }
        law_times(d);
        assert(value::index(rows[rows.len() - 1], "ms"@) is Number);
        assert forall|i: int| 0 <= i < rows.len() implies value::index(#[trigger] rows[i], "ms"@) == Json::Number(
            report::times_in(rows)[i],
        ) by {
            if i < d.len() {
                assert(d[i] == rows[i]);
            }
        }
    }
}

/// The number that `j` has under `k`, to be shown so.
pub open spec fn figure(j: Json, k: Seq<char>, scale: Scale, digits: u8) -> Shown {
    Shown::Number {
        text: match value::lookup(j, k) {
            Some(Json::Number(t)) => t,
            _ => "0.0"@,
        },
        scale,
        digits,
        width: 0,
    }
}

/// Report `rep` prints figure `k` right behind `what` on line `l`.
pub open spec fn says(rep: Json, l: Seq<Shown>, at: int, what: Seq<char>, k: Seq<char>, scale: Scale, digits: u8) -> bool {
    0 <= at && at + 1 < l.len() && l[at] == Shown::Text(what) && l[at + 1] == figure(rep, k, scale, digits)
}

/// A printed report says which model ran, and behind each label the figure that
/// the label names, shares in per cent.
pub proof fn law_printed(rep: Json)
    ensures
        ({
            let p = report::printed(rep);
            &&& p.len() >= 3
            &&& p[0][1] == Shown::Text(value::json_text_of(value::index(rep, "model"@)))
            &&& p[0][3] == Shown::Text(value::json_text_of(value::index(rep, "cases"@)))
            &&& says(rep, p[1], 0, "accuracy "@, "accuracy"@, Scale::Percent, 1)
            &&& says(rep, p[1], 2, "%  (balanced "@, "balanced_accuracy"@, Scale::Percent, 1)
            &&& says(rep, p[1], 4, "%, mean confidence "@, "mean_confidence"@, Scale::Percent, 1)
            &&& value::index(rep, "brier"@) is Number && value::index(rep, "ece"@) is Number ==> says(
                rep,
                p[2],
                0,
                "brier "@,
                "brier"@,
                Scale::Once,
                4,
            ) && says(rep, p[2], 2, "   ece "@, "ece"@, Scale::Once, 4)
            &&& exists|l: int|
                0 <= l < p.len() && #[trigger] says(rep, p[l], 0, "latency  mean "@, "ms_mean"@, Scale::Once, 0) && says(
                    rep,
                    p[l],
                    2,
                    " ms/case, total "@,
                    "ms_total"@,
                    Scale::Thousandth,
                    1,
                )
        }),
{
    let p = report::printed(rep);
    let (h, q) = (report::head_lines(rep), report::quality_lines(rep));
    assert(p[0] == h[0] && p[1] == h[1]);
    if q.len() > 0 {
        assert(p[2] == q[0]);
    }
    let l = (h.len() + q.len() + report::consistency_lines(rep).len() + report::type_lines(rep).len()) as int;
    assert(p[l] == report::time_line(rep));
    assert(says(rep, p[l], 0, "latency  mean "@, "ms_mean"@, Scale::Once, 0));
}

/// Every failure of a report is printed by its name, its type, what was answered
/// and how sure the answer was.
pub proof fn law_failures_printed(rep: Json, i: int)
    requires
        value::index(rep, "failures"@) matches Json::Array(a) && 0 <= i < a.len(),
    ensures
        ({
            let p = report::printed(rep);
            let a = value::index(rep, "failures"@)->Array_0;
            let l = p[p.len() - a.len() + i];
            &&& p.len() > a.len()
            &&& l.len() == 5
            &&& l[1] == Shown::Text(value::json_text_of(value::index(a[i], "answer"@)))
            &&& l[3] == Shown::Text(value::json_text_of(value::index(a[i], "confidence"@)))
            &&& (l[0] matches Shown::Text(t) && (value::index(a[i], "id"@) matches Json::Str(s) ==> text::holds(t, s)) && (
            value::index(a[i], "type"@) matches Json::Str(s) ==> text::holds(t, s)))
        }),
{
    let p = report::printed(rep);
    let a = value::index(rep, "failures"@)->Array_0;
    let f = report::failure_lines(rep);
    assert(f.len() == a.len() + 1);
    assert(f[i + 1] == report::failure_line(a[i]));
    assert(p[p.len() - a.len() + i] == f[i + 1]);
    let (id, t) = (lines::name_or(a[i], "id"@), lines::name_or(a[i], "type"@));
    let (x, y) = (lines::fill(id, 14), lines::fill(t, 8));
    let s = "  "@ + id + x + " "@ + t + y + " -> "@;
    assert(s =~= "  "@ + id + (x + " "@ + t + y + " -> "@));
    text::lemma_holds("  "@, id, x + " "@ + t + y + " -> "@);
    assert(s =~= ("  "@ + id + x + " "@) + t + (y + " -> "@));
    text::lemma_holds("  "@ + id + x + " "@, t, y + " -> "@);
}

/// Steadiness by kind tells each kind's own figures, in order.
pub proof fn law_by_kind(ks: Seq<(String, Steadiness)>, i: int)
    requires
        0 <= i < ks.len(),
    ensures
        ({
            let b = report::by_kind_of(ks);
            &&& b.len() == ks.len()
            &&& b[i].0 == ks[i].0@
            &&& value::index(b[i].1, "n"@) == Json::Number(text::digits(ks[i].1.n as nat))
            &&& value::index(b[i].1, "agreement"@) == Json::Number(ks[i].1.agreement@)
            &&& value::index(b[i].1, "mean_drift"@) == Json::Number(ks[i].1.mean_drift@)
        }),
{
    law_steadiness(ks[i].1);
}

/// The drift between two answers compares what each gives to one and the same
/// key, nothing where it does not list it, over every key that either lists.
pub proof fn law_drift(ts: Seq<Term>, pa: Seq<(Seq<char>, Json)>, pb: Seq<(Seq<char>, Json)>, i: int)
    requires
        report::is_drift(ts, pa, pb),
        0 <= i < ts.len(),
    ensures
        value::member(pa, ts[i].key@) matches Some(Json::Number(t)) ==> ts[i].a@ == t,
        value::member(pb, ts[i].key@) matches Some(Json::Number(t)) ==> ts[i].b@ == t,
        value::member(pa, ts[i].key@) is None ==> ts[i].a@ == "0.0"@,
        value::member(pb, ts[i].key@) is None ==> ts[i].b@ == "0.0"@,
        value::member(pa, ts[i].key@) is Some || value::member(pb, ts[i].key@) is Some,
        forall|k: Seq<char>|
            #[trigger] value::member(pa, k) is Some || value::member(pb, k) is Some ==> exists|j: int|
                0 <= j < ts.len() && (#[trigger] ts[j]).key@ == k,
{
    let ks = report::keys_of(ts);
    assert(ks[i] == ts[i].key@);
    assert(ks.contains(ts[i].key@));
    assert forall|k: Seq<char>|
        #[trigger] value::member(pa, k) is Some || value::member(pb, k) is Some implies exists|j: int|
        0 <= j < ts.len() && (#[trigger] ts[j]).key@ == k by {
        assert(ks.contains(k));
        let j = choose|j: int| 0 <= j < ks.len() && ks[j] == k;
        assert(ts[j].key@ == k);
    }
}

} // verus!
