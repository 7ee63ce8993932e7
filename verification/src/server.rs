//! What the server answers: health, the list of models, model swaps, errors.
//! The single decision API is in `api`.
use vstd::prelude::*;

use crate::instances;
use crate::models;
use crate::models::Model;
use crate::text;
use crate::value;
use crate::value::{Json, Value};

verus! {

/// A healthy answer.
pub open spec fn healthy(model: Seq<char>, name: Seq<char>, uptime_s: u64) -> Json {
    Json::Object(
        seq![
            ("status"@, Json::Str("ok"@)),
            ("model"@, Json::Str(model)),
            ("name"@, Json::Str(name)),
            ("uptime_s"@, Json::Number(text::digits(uptime_s as nat))),
        ],
    )
}

/// What a health check is answered.
pub fn healthz(model: &str, name: &str, uptime_s: u64) -> (r: Value)
    ensures
        r@ == healthy(model@, name@, uptime_s),
{
    let mut m: Vec<(String, Value)> = Vec::new();
    value::push_field(&mut m, "status", Value::Str("ok".to_owned()));
    value::push_field(&mut m, "model", Value::Str(model.to_owned()));
    value::push_field(&mut m, "name", Value::Str(name.to_owned()));
    value::push_field(&mut m, "uptime_s", Value::Number(text::decimal(uptime_s)));
    proof {
        assert(value::fields(m@) =~= healthy(model@, name@, uptime_s)->Object_0);
    }
    Value::Object(m)
}

/// A probe learns from a healthy answer that all is well, the name of the model
/// and the uptime.
pub proof fn law_health(model: Seq<char>, name: Seq<char>, uptime_s: u64)
    ensures
        value::text_in(value::index(healthy(model, name, uptime_s), "status"@)) == Some("ok"@),
        instances::health_model(healthy(model, name, uptime_s)) == name,
        value::unsigned_in(value::index(healthy(model, name, uptime_s), "uptime_s"@)) == Some(uptime_s as int),
{
    let m = healthy(model, name, uptime_s)->Object_0;
    reveal_strlit("status");
    reveal_strlit("model");
    reveal_strlit("name");
    reveal_strlit("uptime_s");
    assert("status"@[0] == 's' && "model"@[0] == 'm' && "name"@[0] == 'n' && "uptime_s"@[0] == 'u');
    value::lemma_is_place(m, "status"@, 0);
    value::lemma_is_place(m, "name"@, 2);
    value::lemma_is_place(m, "uptime_s"@, 3);
    text::law_digits(uptime_s as nat);
}

/// An entry of the list of models.
pub open spec fn model_entry(m: (Seq<char>, Seq<char>, Seq<char>), active: Seq<char>) -> Json {
    Json::Object(
        seq![
            ("id"@, Json::Str(m.0)),
            ("object"@, Json::Str("model"@)),
            ("created"@, Json::Number("0"@)),
            ("owned_by"@, Json::Str("snap"@)),
            ("repo"@, Json::Str(m.1)),
            ("file"@, Json::Str(m.2)),
            ("active"@, Json::Bool(m.0 == active)),
        ],
    )
}

/// The entries of the list of models.
pub open spec fn model_entries(active: Seq<char>) -> Seq<Json> {
    models::tested().map_values(|m: (Seq<char>, Seq<char>, Seq<char>)| model_entry(m, active))
}

fn entry(m: &Model, active: &str) -> (r: Value)
    ensures
        r@ == model_entry((m.name@, m.repo@, m.file@), active@),
{
    let mut o: Vec<(String, Value)> = Vec::new();
    value::push_field(&mut o, "id", Value::Str(m.name.to_owned()));
    value::push_field(&mut o, "object", Value::Str("model".to_owned()));
    value::push_field(&mut o, "created", Value::Number("0".to_owned()));
    value::push_field(&mut o, "owned_by", Value::Str("snap".to_owned()));
    value::push_field(&mut o, "repo", Value::Str(m.repo.to_owned()));
    value::push_field(&mut o, "file", Value::Str(m.file.to_owned()));
    value::push_field(&mut o, "active", Value::Bool(text::same(m.name, active)));
    proof {
        assert(value::fields(o@) =~= model_entry((m.name@, m.repo@, m.file@), active@)->Object_0);
    }
    Value::Object(o)
}

/// The list of models, the one that serves marked.
pub fn models_list(active: &str) -> (r: Value)
    ensures
        r@ == Json::Object(seq![("object"@, Json::Str("list"@)), ("data"@, Json::Array(model_entries(active@)))]),
{
    let ms: Vec<Model> = models::models();
    let ghost all = model_entries(active@);
    let mut data: Vec<Value> = Vec::new();
    let mut i: usize = 0;
    proof {
        assert(all.take(0) =~= Seq::empty());
    }
    while i < ms.len()
        invariant
            i <= ms@.len(),
            all == model_entries(active@),
            models::listed(ms@) == models::tested(),
            value::jsons(data@) == all.take(i as int),
        decreases ms@.len() - i,
    {
        let ghost d0 = data@;
        data.push(entry(&ms[i], active));
        proof {
            assert(data@.drop_last() =~= d0);
            assert(models::listed(ms@)[i as int] == (ms@[i as int].name@, ms@[i as int].repo@, ms@[i as int].file@));
            assert(all.take(i + 1) =~= all.take(i as int).push(all[i as int]));
        }
        i += 1;
    }
    proof {
        assert(models::listed(ms@).len() == all.len());
        assert(all.take(i as int) =~= all);
    }
    let mut o: Vec<(String, Value)> = Vec::new();
    value::push_field(&mut o, "object", Value::Str("list".to_owned()));
    value::push_field(&mut o, "data", Value::Array(data));
    proof {
        assert(value::fields(o@) =~= seq![
            ("object"@, Json::Str("list"@)),
            ("data"@, Json::Array(model_entries(active@))),
        ]);
    }
    Value::Object(o)
}

/// The model that a swap asks for; refused where it names none.
pub fn switch_name(req: &Value) -> (r: Result<String, String>)
    ensures
        match r {
            Ok(n) => value::text_in(value::index(req@, "model"@)) == Some(n@) && n@.len() > 0,
            Err(e) => (value::text_in(value::index(req@, "model"@)) is None || value::text_in(
                value::index(req@, "model"@),
            )->0.len() == 0) && e@ == "body must be {\"model\": \"<name>\"}"@,
        },
{
    if let Some(n) = value::str_at(req, "model") {
        if text::chars_of(n).len() > 0 {
            return Ok(n.to_owned());
        }
    }
    Err("body must be {\"model\": \"<name>\"}".to_owned())
}

/// A swap to the model that already serves loads nothing.
pub fn needs_load(serving: &str, name: &str) -> (r: bool)
    ensures
        r == (serving@ != name@),
{
    !text::same(serving, name)
}

/// What a swap is answered.
pub open spec fn swapped(model: Seq<char>, name: Seq<char>) -> Json {
    Json::Object(seq![("status"@, Json::Str("ok"@)), ("model"@, Json::Str(model)), ("name"@, Json::Str(name))])
}

/// What a swap is answered.
pub fn switched(model: &str, name: &str) -> (r: Value)
    ensures
        r@ == swapped(model@, name@),
{
    let mut m: Vec<(String, Value)> = Vec::new();
    value::push_field(&mut m, "status", Value::Str("ok".to_owned()));
    value::push_field(&mut m, "model", Value::Str(model.to_owned()));
    value::push_field(&mut m, "name", Value::Str(name.to_owned()));
    proof {
        assert(value::fields(m@) =~= swapped(model@, name@)->Object_0);
    }
    Value::Object(m)
}

/// What a refused request is answered.
pub fn refusal(error: &str) -> (r: Value)
    ensures
        r@ == Json::Object(seq![("error"@, Json::Str(error@))]),
{
    let mut m: Vec<(String, Value)> = Vec::new();
    value::push_field(&mut m, "error", Value::Str(error.to_owned()));
    proof {
        assert(value::fields(m@) =~= seq![("error"@, Json::Str(error@))]);
    }
    Value::Object(m)
}

} // verus!
