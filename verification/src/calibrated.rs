//! What calibration promises: a row supervises the key that a right answer has,
//! no row is scored by a fit that saw it, and a file says what was measured.
use vstd::prelude::*;

use crate::calibrate;
use crate::calibrate::{Aimed, Calibration};
use crate::group::Group;
use crate::prompts;
use crate::prompts::{ABSTAIN, PROMPT_VERSION};
use crate::schema::{QType, Question};
use crate::text;
use crate::value;
use crate::value::Json;

verus! {

/// Question types share a temperature with themselves alone, but for the two
/// that ask for yes or no.
pub proof fn law_buckets(s: Seq<char>, t: Seq<char>)
    ensures
        calibrate::bucket_name("noul"@) == "boolean"@,
        s != "noul"@ ==> calibrate::bucket_name(s) == s,
        calibrate::bucket_name(s) == calibrate::bucket_name(t) && s != t ==> (s == "noul"@ || s == "boolean"@) && (t
            == "noul"@ || t == "boolean"@),
{
}

/// A case aims at the key under which a right answer's probability stands: the
/// option expected of a choice, yes or no as expected, the text of the level
/// expected, the number nearest to the value expected, and abstention where that
/// is expected and can be had. Any other expectation aims at nothing.
pub proof fn law_aimed(question: Json, expect: Json, probs: Seq<(Seq<char>, Json)>)
    ensures
        ({
            let a = calibrate::aimed(question, expect, probs);
            let plain = !(value::index(expect, "status"@) is Str);
            let t = value::index(question, "type"@);
            &&& value::index(expect, "status"@) == Json::Str("abstained"@) && value::member(probs, ABSTAIN@) is Some ==> a
                == Aimed::Key(ABSTAIN@)
            &&& value::index(expect, "status"@) == Json::Str("abstained"@) && value::member(probs, ABSTAIN@) is None
                ==> a is Nothing
            &&& (value::index(expect, "status"@) matches Json::Str(s) && s != "abstained"@) ==> a is Nothing
            &&& plain && t == Json::Str("choice"@) ==> (value::index(expect, "choice"@) matches Json::Str(k) ==> a
                == Aimed::Key(k))
            &&& plain && (t == Json::Str("boolean"@) || t == Json::Str("noul"@)) ==> {
                &&& value::index(expect, "boolean"@) == Json::Bool(true) ==> a == Aimed::Key("yes"@)
                &&& value::index(expect, "boolean"@) == Json::Bool(false) ==> a == Aimed::Key("no"@)
                &&& !(value::index(expect, "boolean"@) is Bool) ==> a is Nothing
            }
            &&& plain && t == Json::Str("numeric"@) ==> (value::index(expect, "value"@) matches Json::Number(v) ==> a
                == Aimed::Nearest(v))
            &&& !(t is Str) && plain ==> a is Nothing
        }),
{
    lemma_type_names();
}

proof fn lemma_type_names()
    ensures
        "choice"@.len() == 6,
        "boolean"@.len() == 7 && "boolean"@[0] == 'b',
        "noul"@.len() == 4,
        "score"@.len() == 5,
        "numeric"@.len() == 7 && "numeric"@[0] == 'n',
{
    reveal_strlit("choice");
    reveal_strlit("boolean");
    reveal_strlit("noul");
    reveal_strlit("score");
    reveal_strlit("numeric");
}

/// A case of a score that expects a level aims at the text of that very level,
/// as the question's own slots show it; one that expects a score, at the level
/// that the score rounds to, of as many as there are.
pub proof fn law_aimed_level(q: Question, question: Json, expect: Json, probs: Seq<(Seq<char>, Json)>, l: nat)
    requires
        q.qtype == QType::Score,
        q.criteria is Some,
        q.criteria->0@ is Array,
        value::index(question, "type"@) == Json::Str("score"@),
        value::index(question, "criteria"@) == q.criteria->0@,
        !(value::index(expect, "status"@) is Str),
    ensures
        ({
            let a = calibrate::aimed(question, expect, probs);
            let n = (q.criteria->0@->Array_0).len();
            &&& l < n <= 26 && value::index(expect, "level"@) == Json::Number(text::digits(l)) ==> a == Aimed::Key(
                prompts::slots_of(q)[l as int].text,
            )
            &&& n <= l <= 26 && value::index(expect, "level"@) == Json::Number(text::digits(l)) ==> a is Nothing
            &&& n > 0 && value::index(expect, "level"@) == Json::Null ==> (value::index(expect, "score"@) matches Json::Number(
                s,
            ) ==> a == Aimed::Level { score: s, levels: n as int })
        }),
{
    lemma_type_names();
    text::law_digits(l);
    assert(text::is_digit(text::digits(l)[0]));
    assert(text::integer(text::digits(l)) == Some(l as int));
}

/// The rows of a fold and the rest, as they are told apart by nothing but their
/// folds: no row is on both sides, and none is lost.
pub proof fn law_splits(rows: Seq<usize>, folds: Seq<usize>, n: int, k: int) -> (f: int)
    requires
        0 <= k < calibrate::splits_of(rows, folds, n).len(),
    ensures
        0 <= f < n,
        ({
            let (train, test) = calibrate::splits_of(rows, folds, n)[k];
            &&& train == rows.filter(|r: usize| folds[r as int] != f)
            &&& test == rows.filter(|r: usize| folds[r as int] == f)
            &&& train.len() >= 2
        }),
    decreases n,
{
    if n <= 0 {
        0
    } else {
        let before = calibrate::splits_of(rows, folds, n - 1);
        lemma_picked(rows, folds, n - 1);
        if k < before.len() {
            law_splits(rows, folds, n - 1, k)
        } else {
            n - 1
        }
    }
}

proof fn lemma_picked(rows: Seq<usize>, folds: Seq<usize>, f: int)
    ensures
        calibrate::picked(rows, folds, f, false) == rows.filter(|r: usize| folds[r as int] != f),
        calibrate::picked(rows, folds, f, true) == rows.filter(|r: usize| folds[r as int] == f),
    decreases rows.len(),
{
    reveal(Seq::filter);
    if rows.len() > 0 {
        lemma_picked(rows.drop_last(), folds, f);
    }
}

/// Every fold is held out that leaves at least two rows to fit on.
pub proof fn law_every_fold(rows: Seq<usize>, folds: Seq<usize>, n: int, f: int)
    requires
        0 <= f < n,
        rows.filter(|r: usize| folds[r as int] != f).len() >= 2,
    ensures
        exists|k: int|
            0 <= k < calibrate::splits_of(rows, folds, n).len() && (#[trigger] calibrate::splits_of(rows, folds, n)[k]).1
                == rows.filter(|r: usize| folds[r as int] == f),
    decreases n,
{
    lemma_picked(rows, folds, n - 1);
    let (before, all) = (calibrate::splits_of(rows, folds, n - 1), calibrate::splits_of(rows, folds, n));
    if f == n - 1 {
        assert(all[before.len() as int].1 == rows.filter(|r: usize| folds[r as int] == f));
    } else {
        law_every_fold(rows, folds, n - 1, f);
        let k = choose|k: int|
            0 <= k < before.len() && (#[trigger] before[k]).1 == rows.filter(|r: usize| folds[r as int] == f);
        assert(all[k] == before[k]);
    }
}

/// A resample is made of whole groups: a row comes with all that share its group.
pub proof fn law_whole_groups(gs: Seq<Group>, x: u64, k: nat, r: usize) -> (g: int)
    requires
        gs.len() > 0,
        calibrate::resampled(gs, x, k).contains(r),
    ensures
        0 <= g < gs.len(),
        gs[g].members@.contains(r),
        forall|m: usize|
            #[trigger] gs[g].members@.contains(m) ==> calibrate::resampled(gs, x, k).contains(m),
    decreases k,
{
    let all = calibrate::resampled(gs, x, k);
    let before = calibrate::resampled(gs, x, (k - 1) as nat);
    let d = calibrate::drawn(calibrate::after(x, k)) as int % gs.len() as int;
    let last = gs[d].members@;
    assert(all == before + last);
    let i = choose|i: int| 0 <= i < all.len() && all[i] == r;
    if i < before.len() {
        assert(before[i] == r);
        let g = law_whole_groups(gs, x, (k - 1) as nat, r);
        assert forall|m: usize| #[trigger] gs[g].members@.contains(m) implies all.contains(m) by {
            assert(before.contains(m));
            let j = choose|j: int| 0 <= j < before.len() && before[j] == m;
            assert(all[j] == m);
        }
        g
    } else {
        assert(last[i - before.len()] == r);
        assert forall|m: usize| #[trigger] last.contains(m) implies all.contains(m) by {
            let j = choose|j: int| 0 <= j < last.len() && last[j] == m;
            assert(all[before.len() + j] == m);
        }
        d
    }
}

/// The temperature of a question type is the one that was fitted for it, and 1
/// where none was.
pub proof fn law_temperature(ts: Seq<(String, String)>, b: Seq<char>, i: int)
    requires
        forall|j: int, k: int| 0 <= j < k < ts.len() ==> (#[trigger] ts[j]).0@ != (#[trigger] ts[k]).0@,
    ensures
        0 <= i < ts.len() && ts[i].0@ == b ==> calibrate::temperature(ts, b) == ts[i].1@,
        (forall|j: int| 0 <= j < ts.len() ==> (#[trigger] ts[j]).0@ != b) ==> calibrate::temperature(ts, b) == "1.0"@,
    decreases ts.len(),
{
    if ts.len() > 0 {
        let r = ts.skip(1);
        assert forall|j: int, k: int| 0 <= j < k < r.len() implies (#[trigger] r[j]).0@ != (#[trigger] r[k]).0@ by {
            assert(ts[j + 1].0@ != ts[k + 1].0@);
        }
        law_temperature(r, b, i - 1);
        if 0 < i < ts.len() {
            assert(r[i - 1] == ts[i]);
            assert(ts[0].0@ != ts[i].0@);
        }
        if forall|j: int| 0 <= j < ts.len() ==> (#[trigger] ts[j]).0@ != b {
            assert(ts[0].0@ != b);
            assert forall|j: int| 0 <= j < r.len() implies (#[trigger] r[j]).0@ != b by {
                assert(ts[j + 1].0@ != b);
            }
        }
    }
}

/// A calibration file tells each error and each interval apart, and whether the
/// gain is supported.
pub proof fn law_document(c: Calibration)
    ensures
        ({
            let e = value::index(calibrate::document_of(c), "ece"@);
            &&& value::index(e, "raw"@) == Json::Number(c.ece_before@)
            &&& value::index(e, "in_sample"@) == Json::Number(c.ece_after@)
            &&& value::index(e, "out_of_fold"@) == Json::Number(c.ece_oof@)
            &&& value::index(e, "ci95_raw"@) == Json::Array(
                seq![Json::Number(c.ci_before.0@), Json::Number(c.ci_before.1@)],
            )
            &&& value::index(e, "ci95_oof"@) == Json::Array(seq![Json::Number(c.ci_oof.0@), Json::Number(c.ci_oof.1@)])
            &&& value::index(e, "improvement_ci_separated"@) == Json::Bool(c.ci_separated)
            &&& value::index(calibrate::document_of(c), "skipped_cases"@) == Json::Number(
                text::digits(c.skipped as nat),
            )
        }),
{
    let m = calibrate::document_of(c)->Object_0;
    let e = calibrate::ece_of(c)->Object_0;
    reveal_strlit("kind");
    reveal_strlit("model");
    reveal_strlit("prompt_version");
    reveal_strlit("fitted_cases");
    reveal_strlit("skipped_cases");
    reveal_strlit("ece");
    reveal_strlit("cv");
    reveal_strlit("temperatures");
    assert("kind"@[0] == 'k' && "model"@[0] == 'm' && "prompt_version"@[0] == 'p' && "fitted_cases"@[0] == 'f'
        && "skipped_cases"@[0] == 's' && "ece"@[0] == 'e' && "cv"@[0] == 'c' && "temperatures"@[0] == 't');
    assert(value::distinct(m));
    value::lemma_nth(m, 4);
    value::lemma_nth(m, 5);
    reveal_strlit("raw");
    reveal_strlit("in_sample");
    reveal_strlit("out_of_fold");
    reveal_strlit("ci95_raw");
    reveal_strlit("ci95_oof");
    reveal_strlit("improvement_ci_separated");
    assert("raw"@.len() == 3 && "in_sample"@.len() == 9 && "out_of_fold"@.len() == 11);
    assert("ci95_raw"@.len() == 8 && "ci95_oof"@.len() == 8 && "improvement_ci_separated"@.len() == 24);
    assert("ci95_raw"@[5] == 'r' && "ci95_oof"@[5] == 'o');
    assert(value::distinct(e));
    value::lemma_nth(e, 0);
    value::lemma_nth(e, 1);
    value::lemma_nth(e, 2);
    value::lemma_nth(e, 3);
    value::lemma_nth(e, 4);
    value::lemma_nth(e, 5);
}

/// A case is held out by its own question's type and its own name.
pub proof fn law_case_bucket(case: Json)
    ensures
        value::index(value::index(case, "question"@), "type"@) matches Json::Str(t) ==> calibrate::case_bucket(case)
            == if t == "noul"@ {
            "boolean"@
        } else {
            t
        },
        value::index(case, "id"@) matches Json::Str(id) ==> (id.len() > 0 ==> forall|i: int|
            #[trigger] calibrate::case_fold(case, i) == calibrate::fold_named(id)),
        forall|i: int| i >= 0 ==> 0 <= #[trigger] calibrate::case_fold(case, i) < 5,
{
}

/// An interval leaves out as many resamples below it as above it, one in forty.
pub proof fn law_interval()
    ensures
        calibrate::LOW * 40 == calibrate::BOOT,
        calibrate::HIGH + calibrate::LOW == calibrate::BOOT,
        calibrate::HIGH < calibrate::BOOT,
{
}

/// A calibration that is written and read again applies to the model that it was
/// fitted on, and to no other.
pub proof fn law_applies(c: Calibration, d: Calibration, model: Seq<char>)
    requires
        calibrate::holds(d, calibrate::document_of(c)),
        c.prompt_version == PROMPT_VERSION,
    ensures
        d.applies(model) <==> model == c.model@,
{
    calibrate::law_read_back(c, d);
}

/// A calibration of another prompt format applies to no model.
pub proof fn law_other_format(c: Calibration, model: Seq<char>)
    requires
        c.prompt_version != PROMPT_VERSION,
    ensures
        !c.applies(model),
{
}

/// Files that name the errors in the older way are read, and the newer names win
/// where both are there.
pub proof fn law_older_names(c: Calibration, doc: Json)
    requires
        calibrate::holds(c, doc),
    ensures
        ({
            let e = value::index(doc, "ece"@);
            &&& value::index(e, "raw"@) matches Json::Number(t) ==> c.ece_before@ == t
            &&& !(value::index(e, "raw"@) is Number) ==> (value::index(e, "before"@) matches Json::Number(t)
                ==> c.ece_before@ == t)
            &&& value::index(e, "in_sample"@) matches Json::Number(t) ==> c.ece_after@ == t
            &&& !(value::index(e, "in_sample"@) is Number) ==> (value::index(e, "after"@) matches Json::Number(t)
                ==> c.ece_after@ == t)
        }),
{
}

} // verus!
