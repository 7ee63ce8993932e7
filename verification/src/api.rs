//! The single wire API: POST /v1/systemone speaks the TypeSafe/Jev format,
//! extended with optional snap fields (numeric questions, allow_abstain,
//! mode, layout, expand, compact_state). Jev clients send the subset and get
//! Jev semantics by default.
use vstd::prelude::*;

use crate::schema::{Expand, Layout, Mode};
use crate::value;
use crate::value::{Json, Value};

verus! {

/// A request as it comes over the wire, its questions as they were written.
pub struct SystemoneRequest {
    pub model: Option<String>,
    pub state: Value,
    pub questions: Vec<(String, Value)>,
    /// divides the logits, as the bits of a number
    pub temperature: u64,
    pub mode: Mode,
    pub layout: Layout,
    pub expand: Expand,
    pub compact_state: bool,
}

/// A question that abstains only where it says so.
pub open spec fn decided_abstain(q: Json) -> Json {
    match q {
        Json::Object(m) => if value::place(m, "allow_abstain"@) is Some {
            q
        } else {
            Json::Object(m.push(("allow_abstain"@, Json::Bool(false))))
        },
        _ => q,
    }
}

/// The questions, each abstaining only where it says so.
pub open spec fn native_questions(qs: Seq<(Seq<char>, Json)>) -> Seq<(Seq<char>, Json)> {
    qs.map_values(|q: (Seq<char>, Json)| (q.0, decided_abstain(q.1)))
}

fn with_abstain(q: &Value) -> (r: Value)
    ensures
        r@ == decided_abstain(q@),
{
    match value::copy(q) {
        Value::Object(mut m) => {
            if value::place_of(&m, "allow_abstain").is_none() {
                value::push_field(&mut m, "allow_abstain", Value::Bool(false));
            }
            Value::Object(m)
        },
        v => v,
    }
}

impl SystemoneRequest {
    /// Jev default: no abstention slot, unless a question opts in explicitly.
    pub fn to_native(&self) -> (r: SystemoneRequest)
        ensures
            value::fields(r.questions@) == native_questions(value::fields(self.questions@)),
            r.model is Some == self.model is Some,
            r.model matches Some(m) ==> m@ == self.model->0@,
            r.state@ == self.state@,
            r.temperature == self.temperature,
            r.mode == self.mode,
            r.layout == self.layout,
            r.expand == self.expand,
            r.compact_state == self.compact_state,
    {
        let ghost f = value::fields(self.questions@);
        let ghost n = native_questions(f);
        proof {
            value::lemma_fields(self.questions@);
        }
        let mut questions: Vec<(String, Value)> = Vec::new();
        let mut i: usize = 0;
        proof {
            assert(n.take(0) =~= Seq::empty());
        }
        while i < self.questions.len()
            invariant
                i <= self.questions@.len(),
                f == value::fields(self.questions@),
                f.len() == self.questions@.len(),
                n == native_questions(f),
                forall|j: int|
                    0 <= j < f.len() ==> #[trigger] f[j] == (
                        self.questions@[j].0@,
                        value::json(self.questions@[j].1),
                    ),
                value::fields(questions@) == n.take(i as int),
            decreases self.questions@.len() - i,
        {
            value::push_field(&mut questions, self.questions[i].0.as_str(), with_abstain(&self.questions[i].1));
            proof {
                assert(f[i as int] == (self.questions@[i as int].0@, value::json(self.questions@[i as int].1)));
                assert(n.take(i + 1) =~= n.take(i as int).push(n[i as int]));
            }
            i += 1;
        }
        proof {
            assert(n.take(i as int) =~= n);
        }
        let model: Option<String> = match &self.model {
            Some(m) => Some(m.clone()),
            None => None,
        };
        SystemoneRequest {
            model,
            state: value::copy(&self.state),
            questions,
            temperature: self.temperature,
            mode: self.mode,
            layout: self.layout,
            expand: self.expand,
            compact_state: self.compact_state,
        }
    }
}

/// What every answer says: confidence, status, and coverage where it has one.
pub open spec fn common_fields(ans: Json) -> Seq<(Seq<char>, Json)> {
    let m = seq![
        ("confidence"@, value::index(ans, "confidence"@)),
        ("status"@, value::index(ans, "status"@)),
    ];
    match value::lookup(ans, "coverage"@) {
        Some(c) => m.push(("coverage"@, c)),
        None => m,
    }
}

/// The probability of yes; from the answer itself where there is none.
pub open spec fn p_yes(ans: Json, b: Json) -> Json {
    match value::lookup(value::index(ans, "probabilities"@), "yes"@) {
        Some(p) => p,
        None => Json::Number(
            if b == Json::Bool(true) {
                "1.0"@
            } else {
                "0.0"@
            },
        ),
    }
}

/// What an answer says by its type.
pub open spec fn typed_fields(ans: Json) -> Seq<(Seq<char>, Json)> {
    match value::lookup(ans, "boolean"@) {
        Some(b) => seq![
            ("type"@, Json::Str("noul"@)),
            ("noul"@, p_yes(ans, b)),
            ("boolean"@, b),
            ("choice"@, value::index(ans, "choice"@)),
            ("probabilities"@, value::index(ans, "probabilities"@)),
        ],
        None => if value::lookup(ans, "choice"@) is Some {
            seq![
                ("type"@, Json::Str("choice"@)),
                ("choice"@, value::index(ans, "choice"@)),
                ("probabilities"@, value::index(ans, "probabilities"@)),
            ]
        } else if value::lookup(ans, "score"@) is Some {
            seq![
                ("type"@, Json::Str("score"@)),
                ("score"@, value::index(ans, "score"@)),
                ("level"@, value::index(ans, "level"@)),
                ("probabilities"@, value::index(ans, "probabilities"@)),
            ]
        } else {
            seq![
                ("type"@, Json::Str("numeric"@)),
                ("value"@, value::index(ans, "value"@)),
                ("probabilities"@, value::index(ans, "probabilities"@)),
            ]
        },
    }
}

/// An answer in Jev's shape.
pub open spec fn shaped(ans: Json) -> Json {
    Json::Object(common_fields(ans) + typed_fields(ans))
}

/// Answers in Jev's shape.
pub open spec fn shaped_answers(m: Seq<(Seq<char>, Json)>) -> Seq<(Seq<char>, Json)>
    decreases m.len(),
{
    if m.len() == 0 {
        Seq::empty()
    } else {
        value::with(shaped_answers(m.drop_last()), m.last().0, shaped(m.last().1))
    }
}

/// A response in Jev's shape.
pub open spec fn shaped_response(native: Json) -> Json {
    Json::Object(
        seq![
            (
                "answers"@,
                Json::Object(
                    match value::index(native, "answers"@) {
                        Json::Object(m) => shaped_answers(m),
                        _ => Seq::empty(),
                    },
                ),
            ),
            ("model"@, value::index(native, "model"@)),
            ("usage"@, value::index(native, "usage"@)),
            ("x_snap"@, value::index(native, "x_snap"@)),
        ],
    )
}

fn yes_of(ans: &Value, b: &Value) -> (r: Value)
    ensures
        r@ == p_yes(ans@, b@),
{
    if let Some(p) = value::look(ans, "probabilities") {
        if let Some(y) = value::look(p, "yes") {
            return value::copy(y);
        }
    }
    let yes: bool = match b {
        Value::Bool(x) => *x,
        _ => false,
    };
    if yes {
        Value::Number("1.0".to_owned())
    } else {
        Value::Number("0.0".to_owned())
    }
}

fn shape(ans: &Value) -> (r: Value)
    ensures
        r@ == shaped(ans@),
{
    let mut a: Vec<(String, Value)> = Vec::new();
    value::push_field(&mut a, "confidence", value::copy_at(ans, "confidence"));
    value::push_field(&mut a, "status", value::copy_at(ans, "status"));
    if let Some(c) = value::look(ans, "coverage") {
        value::push_field(&mut a, "coverage", value::copy(c));
    }
    let ghost head = value::fields(a@);
    proof {
        assert(head =~= common_fields(ans@));
    }
    if let Some(b) = value::look(ans, "boolean") {
        value::push_field(&mut a, "type", Value::Str("noul".to_owned()));
        value::push_field(&mut a, "noul", yes_of(ans, b));
        value::push_field(&mut a, "boolean", value::copy(b));
        value::push_field(&mut a, "choice", value::copy_at(ans, "choice"));
        value::push_field(&mut a, "probabilities", value::copy_at(ans, "probabilities"));
    } else if value::look(ans, "choice").is_some() {
        value::push_field(&mut a, "type", Value::Str("choice".to_owned()));
        value::push_field(&mut a, "choice", value::copy_at(ans, "choice"));
        value::push_field(&mut a, "probabilities", value::copy_at(ans, "probabilities"));
    } else if value::look(ans, "score").is_some() {
        value::push_field(&mut a, "type", Value::Str("score".to_owned()));
        value::push_field(&mut a, "score", value::copy_at(ans, "score"));
        value::push_field(&mut a, "level", value::copy_at(ans, "level"));
        value::push_field(&mut a, "probabilities", value::copy_at(ans, "probabilities"));
    } else {
        value::push_field(&mut a, "type", Value::Str("numeric".to_owned()));
        value::push_field(&mut a, "value", value::copy_at(ans, "value"));
        value::push_field(&mut a, "probabilities", value::copy_at(ans, "probabilities"));
    }
    proof {
        assert(value::fields(a@) =~= head + typed_fields(ans@));
    }
    Value::Object(a)
}

/// Jev-shaped response: noul is the probability of yes, each answer carries its
/// type, plus extras Jev ignores: confidence, status, probabilities and the
/// typed fields (boolean, choice, level, value) for tooling.
pub fn from_native(native: &Value) -> (r: Value)
    ensures
        r@ == shaped_response(native@),
{
    let mut answers: Vec<(String, Value)> = Vec::new();
    if let Some(x) = value::look(native, "answers") {
        if let Value::Object(m) = x {
            let ghost f = value::fields(m@);
            proof {
                value::lemma_fields(m@);
                assert(f.take(0) =~= Seq::empty());
            }
            let mut i: usize = 0;
            while i < m.len()
                invariant
                    i <= m@.len(),
                    f == value::fields(m@),
                    f.len() == m@.len(),
                    forall|j: int| 0 <= j < m@.len() ==> #[trigger] f[j] == (m@[j].0@, value::json(m@[j].1)),
                    value::fields(answers@) == shaped_answers(f.take(i as int)),
                decreases m@.len() - i,
            {
                proof {
                    assert(f.take(i + 1).drop_last() =~= f.take(i as int));
                    assert(f.take(i + 1).last() == f[i as int]);
                }
                value::put(&mut answers, m[i].0.as_str(), shape(&m[i].1));
                i += 1;
            }
            proof {
                assert(f.take(i as int) =~= f);
            }
        }
    }
    let mut o: Vec<(String, Value)> = Vec::new();
    value::push_field(&mut o, "answers", Value::Object(answers));
    value::push_field(&mut o, "model", value::copy_at(native, "model"));
    value::push_field(&mut o, "usage", value::copy_at(native, "usage"));
    value::push_field(&mut o, "x_snap", value::copy_at(native, "x_snap"));
    proof {
        assert(value::fields(o@) =~= shaped_response(native@)->Object_0);
    }
    Value::Object(o)
}

/// Answers keep their names, in order.
pub proof fn law_names_kept(m: Seq<(Seq<char>, Json)>)
    requires
        value::distinct(m),
    ensures
        shaped_answers(m).len() == m.len(),
        forall|i: int| 0 <= i < m.len() ==> #[trigger] shaped_answers(m)[i] == (m[i].0, shaped(m[i].1)),
    decreases m.len(),
{
    if m.len() > 0 {
        let d = m.drop_last();
        assert(value::distinct(d)) by {
            assert forall|i: int, j: int| 0 <= i < j < d.len() implies (#[trigger] d[i]).0 != (#[trigger] d[j]).0 by {
                assert(m[i].0 != m[j].0);
            }
        }
        law_names_kept(d);
        let s = shaped_answers(d);
        value::lemma_place(s, m.last().0);
        if let Some(i) = value::place(s, m.last().0) {
            assert(s[i] == (d[i].0, shaped(d[i].1)));
            assert(m[i].0 != m[m.len() - 1].0);
        }
    }
}

/// A question that says whether it abstains goes through as it is; any other
/// object goes through with abstention off.
pub proof fn law_abstain_is_opt_in(m: Seq<(Seq<char>, Json)>)
    ensures
        value::place(m, "allow_abstain"@) is Some ==> decided_abstain(Json::Object(m)) == Json::Object(m),
        value::place(m, "allow_abstain"@) is None ==> value::index(decided_abstain(Json::Object(m)), "allow_abstain"@)
            == Json::Bool(false),
{
    let n = m.push(("allow_abstain"@, Json::Bool(false)));
    value::lemma_place(m, "allow_abstain"@);
    assert(n.drop_last() =~= m);
}

} // verus!
