//! The wire format.
use snap::api::{from_native, SystemoneRequest};
use snap::schema::{Expand, Layout, Mode};
use snap::value::{look, Value};

fn json(text: &str) -> Value {
    fn of(v: &serde_json::Value) -> Value {
        match v {
            serde_json::Value::Null => Value::Null,
            serde_json::Value::Bool(b) => Value::Bool(*b),
            serde_json::Value::Number(n) => Value::Number(n.to_string()),
            serde_json::Value::String(s) => Value::Str(s.clone()),
            serde_json::Value::Array(a) => Value::Array(a.iter().map(of).collect()),
            serde_json::Value::Object(m) => Value::Object(m.iter().map(|(k, v)| (k.clone(), of(v))).collect()),
        }
    }
    of(&serde_json::from_str(text).unwrap())
}

/// The member at a path of names; null for none.
fn at<'a>(v: &'a Value, path: &[&str]) -> &'a Value {
    path.iter().fold(v, |v, k| look(v, k).unwrap_or(&Value::Null))
}

fn request(mode: Mode, questions: &str) -> SystemoneRequest {
    let questions = match json(questions) {
        Value::Object(m) => m,
        _ => panic!("questions"),
    };
    SystemoneRequest {
        model: Some("m".to_string()),
        state: Value::Str("s".to_string()),
        questions,
        temperature: 1.0f64.to_bits(),
        mode,
        layout: Layout::Auto,
        expand: Expand::Pages,
        compact_state: true,
    }
}

#[test]
fn to_native_abstain_defaults_false_but_opt_in() {
    let r = request(
        Mode::Shared,
        r#"{"q1": {"type": "noul", "instructions": "?"},
            "q2": {"type": "choice", "criteria": {"a": "x", "b": "y"}, "allow_abstain": true}}"#,
    );
    let n = Value::Object(r.to_native().questions);
    assert_eq!(*at(&n, &["q1", "allow_abstain"]), Value::Bool(false)); // Jev default
    assert_eq!(*at(&n, &["q2", "allow_abstain"]), Value::Bool(true)); // explicit opt-in survives
}

#[test]
fn to_native_mode_defaults_shared() {
    let r = request(snap::schema::default_mode(), r#"{"q": {"type": "noul"}}"#);
    assert_eq!(r.to_native().mode, Mode::Shared);
    let r = request(Mode::Direct, r#"{"q": {"type": "noul"}}"#);
    assert_eq!(r.to_native().mode, Mode::Direct);
}

#[test]
fn to_native_keeps_the_rest() {
    let n = request(Mode::Direct, r#"{"q": "not an object"}"#).to_native();
    assert_eq!(n.model.as_deref(), Some("m"));
    assert_eq!(n.state, Value::Str("s".to_string()));
    assert_eq!((f64::from_bits(n.temperature), n.layout, n.expand, n.compact_state), (1.0, Layout::Auto, Expand::Pages, true));
    assert_eq!(n.questions, vec![("q".to_string(), Value::Str("not an object".to_string()))]);
}

#[test]
fn from_native_noul_is_probability() {
    let native = json(
        r#"{"answers": {"q": {"status": "decided", "confidence": 0.9, "boolean": true, "choice": "yes",
            "probabilities": {"yes": 0.97, "no": 0.03}}},
            "model": "m", "usage": {}, "x_snap": {}}"#,
    );
    let out = from_native(&native);
    let a = at(&out, &["answers", "q"]);
    assert_eq!(*at(a, &["type"]), Value::Str("noul".to_string()));
    assert_eq!(*at(a, &["noul"]), Value::Number("0.97".to_string())); // P(yes) as float
    assert_eq!(*at(a, &["boolean"]), Value::Bool(true)); // typed extras ride along
    assert_eq!(*at(a, &["choice"]), Value::Str("yes".to_string()));
}

#[test]
fn yes_or_no_answers_carry_their_probabilities() {
    let native = json(
        r#"{"answers": {"q": {"status": "decided", "confidence": 0.9, "boolean": true, "choice": "yes",
            "probabilities": {"yes": 0.97, "no": 0.03}}},
            "model": "m", "usage": {}, "x_snap": {}}"#,
    );
    let out = from_native(&native);
    let want = json(
        r#"{"confidence": 0.9, "status": "decided", "type": "noul", "noul": 0.97, "boolean": true, "choice": "yes",
            "probabilities": {"yes": 0.97, "no": 0.03}}"#,
    );
    assert_eq!(*at(&out, &["answers", "q"]), want);
}

#[test]
fn from_native_choice_and_score() {
    let native = json(
        r#"{"answers": {
              "c": {"status": "decided", "confidence": 0.5, "choice": "opt", "probabilities": {"opt": 0.9}},
              "s": {"status": "decided", "confidence": 0.5, "score": 0.7, "level": 2,
                    "probabilities": {"a": 0.1, "b": 0.9}}},
            "model": "m", "usage": {}, "x_snap": {}}"#,
    );
    let out = from_native(&native);
    assert_eq!(*at(&out, &["answers", "c", "type"]), Value::Str("choice".to_string()));
    assert_eq!(*at(&out, &["answers", "c", "choice"]), Value::Str("opt".to_string()));
    assert_eq!(*at(&out, &["answers", "s", "type"]), Value::Str("score".to_string()));
    assert_eq!(*at(&out, &["answers", "s", "score"]), Value::Number("0.7".to_string()));
    assert_eq!(*at(&out, &["answers", "s", "level"]), Value::Number("2".to_string()));
}

#[test]
fn from_native_is_whole() {
    let native = json(
        r#"{"answers": {"n": {"status": "decided", "confidence": 0.5, "coverage": 0.25, "value": 4.5, "probabilities": {}},
                        "b": {"status": "decided", "confidence": 1.0, "boolean": false}},
            "model": "m", "usage": {"input_tokens": 3}, "x_snap": {"waves": 1}}"#,
    );
    let want = json(
        r#"{"answers": {"n": {"confidence": 0.5, "status": "decided", "coverage": 0.25, "type": "numeric", "value": 4.5,
                              "probabilities": {}},
                        "b": {"confidence": 1.0, "status": "decided", "type": "noul", "noul": 0.0, "boolean": false,
                              "choice": null, "probabilities": null}},
            "model": "m", "usage": {"input_tokens": 3}, "x_snap": {"waves": 1}}"#,
    );
    assert_eq!(from_native(&native), want);
    let empty = from_native(&Value::Null);
    assert_eq!(*at(&empty, &["answers"]), Value::Object(vec![]));
    assert!(look(&empty, "model").is_some());
}
