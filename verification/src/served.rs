//! What goes over the wire: an answer keeps what it says, a question asks what
//! it asked, and the server names what it serves.
use vstd::prelude::*;

use crate::api;
use crate::commands;
use crate::decisions;
use crate::decisions::Reading;
use crate::leaves;
use crate::lines;
use crate::models;
use crate::num;
use crate::prompts;
use crate::schema::{QType, Question};
use crate::server;
use crate::text;
use crate::value;
use crate::value::Json;

verus! {

proof fn lemma_wire_names()
    ensures
        "confidence"@.len() == 10,
        "status"@.len() == 6 && "status"@[0] == 's',
        "coverage"@.len() == 8,
        "type"@.len() == 4 && "type"@[0] == 't',
        "noul"@.len() == 4 && "noul"@[0] == 'n',
        "boolean"@.len() == 7,
        "choice"@.len() == 6 && "choice"@[0] == 'c',
        "probabilities"@.len() == 13,
        "score"@.len() == 5 && "score"@[0] == 's',
        "level"@.len() == 5 && "level"@[0] == 'l',
        "value"@.len() == 5 && "value"@[0] == 'v',
{
    reveal_strlit("confidence");
    reveal_strlit("status");
    reveal_strlit("coverage");
    reveal_strlit("type");
    reveal_strlit("noul");
    reveal_strlit("boolean");
    reveal_strlit("choice");
    reveal_strlit("probabilities");
    reveal_strlit("score");
    reveal_strlit("level");
    reveal_strlit("value");
}

proof fn lemma_shaped_distinct(ans: Json)
    ensures
        api::shaped(ans) is Object,
        value::distinct(api::shaped(ans)->Object_0),
        value::lookup(api::shaped(ans), "coverage"@) == value::lookup(ans, "coverage"@),
{
    lemma_wire_names();
    let m = api::shaped(ans)->Object_0;
    assert(value::distinct(m));
    if value::lookup(ans, "coverage"@) is Some {
        value::lemma_nth(m, 2);
    } else {
        value::lemma_place(m, "coverage"@);
    }
}

/// An answer on the wire says how sure it is, what it is worth and how well the
/// letters were covered just as the answer itself does, and its probabilities
/// are the answer's.
pub proof fn law_shaped(ans: Json)
    ensures
        value::index(api::shaped(ans), "confidence"@) == value::index(ans, "confidence"@),
        value::index(api::shaped(ans), "status"@) == value::index(ans, "status"@),
        value::lookup(api::shaped(ans), "coverage"@) == value::lookup(ans, "coverage"@),
        value::index(api::shaped(ans), "probabilities"@) == value::index(ans, "probabilities"@),
{
    lemma_wire_names();
    lemma_shaped_distinct(ans);
    let m = api::shaped(ans)->Object_0;
    value::lemma_nth(m, 0);
    value::lemma_nth(m, 1);
    value::lemma_nth(m, m.len() - 1);
}

/// An answer on the wire is of the type of what it holds, and holds it: yes or
/// no with the probability of yes, a choice, a score with its level, or a value.
pub proof fn law_shaped_type(ans: Json)
    ensures
        ({
            let s = api::shaped(ans);
            let (b, c, r) = (
                value::lookup(ans, "boolean"@),
                value::lookup(ans, "choice"@),
                value::lookup(ans, "score"@),
            );
            &&& b is Some ==> {
                &&& value::index(s, "type"@) == Json::Str("noul"@)
                &&& value::lookup(s, "boolean"@) == b
                &&& value::index(s, "choice"@) == value::index(ans, "choice"@)
                &&& value::lookup(value::index(ans, "probabilities"@), "yes"@) matches Some(p) ==> value::index(s, "noul"@)
                    == p
                &&& value::lookup(value::index(ans, "probabilities"@), "yes"@) is None && b == Some(Json::Bool(true))
                    ==> value::index(s, "noul"@) == Json::Number("1.0"@)
                &&& value::lookup(value::index(ans, "probabilities"@), "yes"@) is None && b == Some(Json::Bool(false))
                    ==> value::index(s, "noul"@) == Json::Number("0.0"@)
            }
            &&& b is None && c is Some ==> value::index(s, "type"@) == Json::Str("choice"@) && value::lookup(
                s,
                "choice"@,
            ) == c
            &&& b is None && c is None && r is Some ==> value::index(s, "type"@) == Json::Str("score"@) && value::lookup(
                s,
                "score"@,
            ) == r && value::index(s, "level"@) == value::index(ans, "level"@)
            &&& b is None && c is None && r is None ==> value::index(s, "type"@) == Json::Str("numeric"@) && value::index(
                s,
                "value"@,
            ) == value::index(ans, "value"@)
        }),
{
    lemma_wire_names();
    lemma_shaped_distinct(ans);
    let m = api::shaped(ans)->Object_0;
    let h = api::common_fields(ans).len() as int;
    value::lemma_nth(m, h);
    value::lemma_nth(m, h + 1);
    if value::lookup(ans, "boolean"@) is Some {
        value::lemma_nth(m, h + 2);
        value::lemma_nth(m, h + 3);
    } else {
        value::lemma_nth(m, h + 2);
    }
}

/// To a question for yes or no, the wire answers with what was read for yes.
pub proof fn law_noul(q: Question, r: Reading, coverage: Seq<char>)
    requires
        q.qtype == QType::Boolean || q.qtype == QType::Noul,
        r.covers(prompts::slots_of(q)),
        !num::nan(r.probs@[0]),
        !num::nan(r.probs@[1]),
    ensures
        ({
            let a = decisions::covered(decisions::answer_of(q, prompts::slots_of(q), r), coverage);
            &&& value::index(api::shaped(a), "noul"@) == Json::Number(r.shown@[0]@)
            &&& value::index(api::shaped(a), "boolean"@) == Json::Bool(num::rank(r.probs@[0]) >= num::rank(r.probs@[1]))
        }),
{
    let s = prompts::slots_of(q);
    let b = decisions::answer_of(q, s, r);
    let a = decisions::covered(b, coverage);
    decisions::law_yes_or_no(q, r);
    decisions::law_coverage(q, s, r, coverage);
    lemma_wire_names();
    assert(value::index(a, "boolean"@) == value::index(b, "boolean"@));
    assert(value::index(a, "probabilities"@) == value::index(b, "probabilities"@));
    law_shaped_type(a);
}

/// A response on the wire keeps who answered, what it cost and how it went, and
/// every answer under its own name.
pub proof fn law_response(native: Json)
    ensures
        value::index(api::shaped_response(native), "model"@) == value::index(native, "model"@),
        value::index(api::shaped_response(native), "usage"@) == value::index(native, "usage"@),
        value::index(api::shaped_response(native), "x_snap"@) == value::index(native, "x_snap"@),
        value::index(native, "answers"@) matches Json::Object(m) ==> (value::distinct(m) ==> forall|i: int|
            0 <= i < m.len() ==> value::lookup(
                value::index(api::shaped_response(native), "answers"@),
                (#[trigger] m[i]).0,
            ) == Some(api::shaped(m[i].1))),
{
    let o = api::shaped_response(native)->Object_0;
    reveal_strlit("answers");
    reveal_strlit("model");
    reveal_strlit("usage");
    reveal_strlit("x_snap");
    assert("answers"@.len() == 7 && "model"@.len() == 5 && "usage"@.len() == 5 && "x_snap"@.len() == 6);
    assert("model"@[0] == 'm' && "usage"@[0] == 'u');
    assert(value::distinct(o));
    value::lemma_nth(o, 0);
    value::lemma_nth(o, 1);
    value::lemma_nth(o, 2);
    value::lemma_nth(o, 3);
    if let Json::Object(m) = value::index(native, "answers"@) {
        if value::distinct(m) {
            api::law_names_kept(m);
            let s = api::shaped_answers(m);
            assert forall|i: int| 0 <= i < m.len() implies value::lookup(Json::Object(s), (#[trigger] m[i]).0) == Some(
                api::shaped(m[i].1),
            ) by {
                assert(s[i] == (m[i].0, api::shaped(m[i].1)));
                assert forall|j: int| 0 <= j < i implies (#[trigger] s[j]).0 != m[i].0 by {
                    assert(s[j] == (m[j].0, api::shaped(m[j].1)));
                }
                value::lemma_is_place(s, m[i].0, i);
            }
        }
    }
}

/// Questions come through under their own names and in order, each with all
/// that it says; only whether it may abstain is settled where it was left open.
pub proof fn law_questions_kept(qs: Seq<(Seq<char>, Json)>, i: int, k: Seq<char>)
    requires
        0 <= i < qs.len(),
    ensures
        api::native_questions(qs).len() == qs.len(),
        api::native_questions(qs)[i].0 == qs[i].0,
        !(qs[i].1 is Object) ==> api::native_questions(qs)[i].1 == qs[i].1,
        k != "allow_abstain"@ ==> value::lookup(api::native_questions(qs)[i].1, k) == value::lookup(qs[i].1, k),
        value::lookup(qs[i].1, "allow_abstain"@) matches Some(v) ==> value::lookup(
            api::native_questions(qs)[i].1,
            "allow_abstain"@,
        ) == Some(v),
        qs[i].1 is Object && value::lookup(qs[i].1, "allow_abstain"@) is None ==> value::lookup(
            api::native_questions(qs)[i].1,
            "allow_abstain"@,
        ) == Some(Json::Bool(false)),
{
    if let Json::Object(m) = qs[i].1 {
        api::law_abstain_is_opt_in(m);
        let n = m.push(("allow_abstain"@, Json::Bool(false)));
        assert(n.drop_last() =~= m);
        value::lemma_place(n, k);
        value::lemma_place(m, "allow_abstain"@);
        value::lemma_place(n, "allow_abstain"@);
        if let Some(j) = value::place(m, k) {
            value::lemma_place(m, k);
            assert(n[j] == m[j]);
        }
    }
}

/// A model in the list goes by its name, tells where its file lies, and is
/// active just where it is the one that serves.
pub proof fn law_model_entry(i: int, active: Seq<char>)
    requires
        0 <= i < models::tested().len(),
    ensures
        server::model_entries(active).len() == models::tested().len(),
        ({
            let (m, e) = (models::tested()[i], server::model_entries(active)[i]);
            &&& value::index(e, "id"@) == Json::Str(m.0)
            &&& value::index(e, "repo"@) == Json::Str(m.1)
            &&& value::index(e, "file"@) == Json::Str(m.2)
            &&& value::index(e, "active"@) == Json::Bool(m.0 == active)
        }),
{
    let m = server::model_entry(models::tested()[i], active)->Object_0;
    reveal_strlit("id");
    reveal_strlit("object");
    reveal_strlit("created");
    reveal_strlit("owned_by");
    reveal_strlit("repo");
    reveal_strlit("file");
    reveal_strlit("active");
    assert("id"@.len() == 2 && "object"@.len() == 6 && "created"@.len() == 7 && "owned_by"@.len() == 8);
    assert("repo"@.len() == 4 && "file"@.len() == 4 && "active"@.len() == 6);
    assert("repo"@[0] == 'r' && "file"@[0] == 'f' && "object"@[0] == 'o' && "active"@[0] == 'a');
    assert(value::distinct(m));
    value::lemma_nth(m, 0);
    value::lemma_nth(m, 4);
    value::lemma_nth(m, 5);
    value::lemma_nth(m, 6);
}

/// A health check and a swap are answered with the model that serves, by its id
/// and by its name.
pub proof fn law_model_told(model: Seq<char>, name: Seq<char>, uptime_s: u64)
    ensures
        value::index(server::healthy(model, name, uptime_s), "model"@) == Json::Str(model),
        value::index(server::healthy(model, name, uptime_s), "name"@) == Json::Str(name),
        value::index(server::swapped(model, name), "status"@) == Json::Str("ok"@),
        value::index(server::swapped(model, name), "model"@) == Json::Str(model),
        value::index(server::swapped(model, name), "name"@) == Json::Str(name),
{
    let (h, s) = (
        server::healthy(model, name, uptime_s)->Object_0,
        server::swapped(model, name)->Object_0,
    );
    reveal_strlit("status");
    reveal_strlit("model");
    reveal_strlit("name");
    reveal_strlit("uptime_s");
    assert("status"@.len() == 6 && "model"@.len() == 5 && "name"@.len() == 4 && "uptime_s"@.len() == 8);
    assert(value::distinct(h));
    assert(value::distinct(s));
    value::lemma_nth(h, 1);
    value::lemma_nth(h, 2);
    value::lemma_nth(s, 0);
    value::lemma_nth(s, 1);
    value::lemma_nth(s, 2);
}

/// The id of a model starts with the project's name and holds no spaces of the
/// model's name; models whose names differ in more than that have different
/// ids, and so have those of one name in different quantisations.
pub proof fn law_model_id(name: Seq<char>, quant: Seq<char>, other: Seq<char>)
    ensures
        ("snap-"@).is_prefix_of(models::id_text(name, Some(quant))),
        ("snap-"@).is_prefix_of(models::id_text(name, None)),
        ("-"@ + quant).is_suffix_of(models::id_text(name, Some(quant))),
        !models::hyphened(name).contains(' '),
        models::hyphened(name).len() == name.len(),
        !name.contains(' ') ==> models::hyphened(name) == name,
        models::id_text(name, Some(quant)) == models::id_text(name, Some(other)) ==> quant == other,
        models::id_text(name, None) == "snap-"@ + models::hyphened(name),
{
    let h = models::hyphened(name);
    let t = models::id_text(name, Some(quant));
    assert("snap-"@ =~= t.subrange(0, "snap-"@.len() as int));
    let n = models::id_text(name, None);
    assert("snap-"@ =~= n.subrange(0, "snap-"@.len() as int));
    let q = "-"@ + quant;
    assert(q =~= t.subrange(t.len() - q.len(), t.len() as int));
    assert forall|i: int| 0 <= i < h.len() implies h[i] != ' ' by {}
    if !name.contains(' ') {
        assert forall|i: int| 0 <= i < name.len() implies h[i] == name[i] by {
            assert(name.contains(name[i]));
        }
        assert(h =~= name);
    }
    reveal_strlit("");
    assert(n =~= "snap-"@ + h);
    let u = models::id_text(name, Some(other));
    if t == u {
        let k = ("snap-"@ + h + "-"@).len() as int;
        assert(t =~= "snap-"@ + h + "-"@ + quant);
        assert(u =~= "snap-"@ + h + "-"@ + other);
        assert(quant =~= t.skip(k));
        assert(other =~= u.skip(k));
    }
}

/// A piece stands in what is joined of it.
proof fn lemma_joined_holds(v: Seq<Seq<char>>, sep: Seq<char>, i: int)
    requires
        0 <= i < v.len(),
    ensures
        text::holds(text::joined(v, sep), v[i]),
{
    let (a, b) = leaves::lemma_joined_holds(v, sep, i);
    text::lemma_holds(a, v[i], b);
}

/// Whoever asks for an unknown model is told which name is unknown, and every
/// name that is known.
pub proof fn law_unknown(shown: Seq<char>, i: int)
    requires
        0 <= i < models::names().len(),
    ensures
        text::holds(models::unknown(shown), shown),
        text::holds(models::unknown(shown), models::names()[i]),
        models::names()[i] == models::tested()[i].0,
{
    let (h, m, l) = ("unknown model "@, " — supported: "@, text::joined(models::names(), ", "@));
    let t = models::unknown(shown);
    assert(t =~= h + shown + (m + l));
    text::lemma_holds(h, shown, m + l);
    assert(t =~= (h + shown + m) + l + Seq::empty());
    text::lemma_holds(h + shown + m, l, Seq::empty());
    lemma_joined_holds(models::names(), ", "@, i);
    text::lemma_holds_through(t, l, models::names()[i]);
}

/// A model is listed by its name, and by where its file lies.
pub proof fn law_model_line(m: (Seq<char>, Seq<char>, Seq<char>))
    ensures
        text::holds(commands::model_line(m), m.0),
        (m.1 + "/"@ + m.2).is_suffix_of(commands::model_line(m)),
{
    let t = commands::model_line(m);
    let rest = lines::fill(m.0, 14) + " "@;
    assert(t =~= "  "@ + m.0 + (rest + m.1 + "/"@ + m.2));
    text::lemma_holds("  "@, m.0, rest + m.1 + "/"@ + m.2);
    let p = m.1 + "/"@ + m.2;
    assert(p =~= t.subrange(t.len() - p.len(), t.len() as int));
}

} // verus!
