//! Requests and what is wrong with them.
use snap::num::Num;
use snap::schema::{
    default_granularity, DecideRequest, Expand, Layout, Mode, QType, Question, SchemaError, MAX_QUESTIONS,
};
use snap::value::{copy, look, Value};

fn json(text: &str) -> Value {
    fn of(v: &serde_json::Value) -> Value {
        match v {
            serde_json::Value::Null => Value::Null,
            serde_json::Value::Bool(b) => Value::Bool(*b),
            serde_json::Value::Number(n) => Value::Number(n.to_string()),
            serde_json::Value::String(s) => Value::Str(s.clone()),
            serde_json::Value::Array(a) => Value::Array(a.iter().map(of).collect()),
            serde_json::Value::Object(m) => Value::Object(m.iter().map(|(k, v)| (k.clone(), of(v))).collect()),
        }
    }
    of(&serde_json::from_str(text).unwrap())
}

/// The member at a path of names; null for none.
fn at<'a>(v: &'a Value, path: &[&str]) -> &'a Value {
    path.iter().fold(v, |v, k| look(v, k).unwrap_or(&Value::Null))
}

fn num(v: &Value) -> Option<Num> {
    match v {
        Value::Number(t) => {
            let x = t.parse::<f64>().unwrap();
            Some(Num { bits: x.to_bits(), text: format!("{x}") })
        }
        _ => None,
    }
}

/// A question as a file writes it; it may abstain unless it says otherwise.
fn question(text: &str) -> Question {
    question_of(&json(text))
}

fn question_of(v: &Value) -> Question {
    let qtype = match at(v, &["type"]) {
        Value::Str(t) if t == "boolean" => QType::Boolean,
        Value::Str(t) if t == "noul" => QType::Noul,
        Value::Str(t) if t == "choice" => QType::Choice,
        Value::Str(t) if t == "score" => QType::Score,
        Value::Str(t) if t == "numeric" => QType::Numeric,
        _ => panic!("type"),
    };
    let int = |k: &str, d: i64| match at(v, &[k]) {
        Value::Number(t) => t.parse::<i64>().unwrap(),
        _ => d,
    };
    let (min, max, granularity) = (num(at(v, &["min"])), num(at(v, &["max"])), int("granularity", default_granularity()));
    let anchors = match (&min, &max) {
        (Some(a), Some(b)) => {
            let (a, b) = (f64::from_bits(a.bits), f64::from_bits(b.bits));
            let n = num(at(v, &["step"])).map_or(granularity, |s| ((b - a) / f64::from_bits(s.bits)).round() as i64 + 1);
            anchors(a, b, n)
        }
        _ => Vec::new(),
    };
    Question {
        qtype,
        instructions: match at(v, &["instructions"]) {
            Value::Str(s) => s.clone(),
            _ => String::new(),
        },
        criteria: look(v, "criteria").map(copy),
        min,
        max,
        granularity,
        anchors,
        allow_abstain: *at(v, &["allow_abstain"]) != Value::Bool(false),
    }
}

/// Evenly spaced values, as they print.
fn anchors(min: f64, max: f64, n: i64) -> Vec<String> {
    (0..n).map(|i| format!("{}", min + (max - min) * i as f64 / (n - 1) as f64)).collect()
}

fn q(text: &str) -> Result<Question, SchemaError> {
    let q = question(text);
    q.validate()?;
    Ok(q)
}

fn said(text: &str) -> String {
    match q(text) {
        Ok(_) => "fine".to_string(),
        Err(e) => e.message(),
    }
}

fn options(n: usize) -> String {
    (0..n).map(|i| format!("\"o{i}\": \"x\"")).collect::<Vec<_>>().join(", ")
}

fn levels(n: usize) -> String {
    (0..n).map(|i| format!("\"l{i}\"")).collect::<Vec<_>>().join(", ")
}

#[test]
fn boolean_ok() {
    assert!(q(r#"{"type": "boolean"}"#).is_ok());
    assert!(q(r#"{"type": "noul"}"#).is_ok());
}

#[test]
fn choice_requires_criteria() {
    assert!(q(r#"{"type": "choice"}"#).is_err());
    assert!(q(r#"{"type": "choice", "criteria": {"a": "A"}}"#).is_err()); // <2 options
    assert!(q(r#"{"type": "choice", "criteria": {"a": "A", "b": "B"}}"#).is_ok());
    // array criteria also allowed
    assert!(q(r#"{"type": "choice", "criteria": ["A", "B"]}"#).is_ok());
}

#[test]
fn choice_option_limit() {
    // past the letter budget a choice expands to per-option scoring
    assert!(q(&format!("{{\"type\": \"choice\", \"criteria\": {{{}}}}}", options(256))).is_ok());
    assert!(q(&format!("{{\"type\": \"choice\", \"criteria\": {{{}}}}}", options(257))).is_err());
}

#[test]
fn score_slot_limit() {
    // scores stay within the letter budget: no expansion for ordinal levels
    assert!(q(&format!("{{\"type\": \"score\", \"criteria\": [{}]}}", levels(26))).is_err());
    assert!(q(&format!("{{\"type\": \"score\", \"criteria\": [{}]}}", levels(25))).is_ok());
}

#[test]
fn score_requires_array_criteria() {
    assert!(q(r#"{"type": "score", "criteria": {"a": "x", "b": "y"}}"#).is_err());
    assert!(q(r#"{"type": "score", "criteria": ["low", "high"]}"#).is_ok());
}

#[test]
fn numeric_bounds() {
    assert!(q(r#"{"type": "numeric"}"#).is_err()); // no min/max
    assert!(q(r#"{"type": "numeric", "min": 5, "max": 5}"#).is_err());
    assert!(q(r#"{"type": "numeric", "min": 0, "max": 10}"#).is_ok());
    // granularity out of range
    assert!(q(r#"{"type": "numeric", "min": 0, "max": 10, "granularity": 1}"#).is_err());
    assert!(q(r#"{"type": "numeric", "min": 0, "max": 10, "granularity": 25}"#).is_err());
    // granularity 24 + below/above + abstain = 27 > 26
    assert!(q(r#"{"type": "numeric", "min": 0, "max": 10, "granularity": 24}"#).is_err());
    assert!(q(r#"{"type": "numeric", "min": 0, "max": 10, "granularity": 23}"#).is_ok());
}

fn request(temperature: f64, names: &[&str]) -> DecideRequest {
    DecideRequest {
        model: None,
        state: Value::Str("x".to_string()),
        questions: names.iter().map(|n| (n.to_string(), Ok(question(r#"{"type": "boolean"}"#)))).collect(),
        temperature: temperature.to_bits(),
        mode: snap::schema::default_mode(),
        layout: Layout::Auto,
        expand: Expand::Probes,
        compact_state: false,
    }
}

#[test]
fn request_validation() {
    let r = request(1.0, &["q"]);
    assert!(r.validate().is_ok());
    assert_eq!(f64::from_bits(r.temperature), 1.0);
    assert_eq!(r.mode, Mode::Shared);
}

#[test]
fn bad_temperature() {
    assert!(request(0.0, &["q"]).validate().is_err());
    for t in [-1.0, 10.1, f64::NAN, f64::INFINITY] {
        assert!(matches!(request(t, &["q"]).validate(), Err(SchemaError::Temperature)));
    }
    assert!(request(10.0, &["q"]).validate().is_ok());
    assert_eq!(request(0.0, &["q"]).validate().err().map(|e| e.message()), Some("temperature must be in (0, 10]".to_string()));
}

#[test]
fn empty_questions_rejected() {
    assert!(request(1.0, &[]).validate().is_err());
    let many: Vec<String> = (0..=MAX_QUESTIONS).map(|i| format!("q{i}")).collect();
    let many: Vec<&str> = many.iter().map(|s| s.as_str()).collect();
    assert_eq!(
        request(1.0, &many).validate().err().map(|e| e.message()),
        Some("questions: need 1..=64".to_string())
    );
    assert!(request(1.0, &many[1..]).validate().is_ok());
}

#[test]
fn every_error_says_what_is_wrong() {
    assert_eq!(said(r#"{"type": "choice"}"#), "choice: criteria required");
    assert_eq!(said(r#"{"type": "score", "criteria": {"a": 1, "b": 2}}"#), "score: criteria must be a list of level descriptions");
    assert_eq!(said(r#"{"type": "score", "criteria": ["a"]}"#), "score: at least 2 options");
    assert_eq!(
        said(&format!("{{\"type\": \"score\", \"criteria\": [{}]}}", levels(26))),
        "score: 26 levels exceed 26 letter slots"
    );
    assert_eq!(
        said(&format!("{{\"type\": \"choice\", \"criteria\": {{{}}}}}", options(257))),
        "choice: 257 options exceed 256"
    );
    assert_eq!(said(r#"{"type": "numeric", "min": 5, "max": 5}"#), "numeric: requires min < max");
    assert_eq!(said(r#"{"type": "numeric", "min": 0, "max": 1, "granularity": 25}"#), "numeric: granularity must be in 2..=24");
    assert_eq!(
        said(r#"{"type": "numeric", "min": 0, "max": 1, "granularity": 24}"#),
        "numeric: granularity too high for letter slots"
    );
    assert_eq!(
        request(1.0, &["a\u{1f}b"]).validate().err().map(|e| e.message()),
        Some("question name \"a\\u{1f}b\": \\u001f is reserved".to_string())
    );
    let mut r = request(1.0, &["q"]);
    r.questions[0].1 = Err("unknown variant `magic`".to_string());
    assert_eq!(r.validate().err().map(|e| e.message()), Some("unknown variant `magic`".to_string()));
}
