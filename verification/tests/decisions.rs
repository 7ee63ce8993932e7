//! Answers from probabilities.
use snap::decisions::{counted, decode, merge_paged, merge_scored, mass_on, Reading, Shares};
use snap::num::Num;
use snap::prompts::{slots_for, Slot, ABOVE, ABSTAIN, BELOW};
use snap::schema::{default_granularity, QType, Question};
use snap::value::{copy, look, Value};

fn json(text: &str) -> Value {
    fn of(v: &serde_json::Value) -> Value {
        match v {
            serde_json::Value::Null => Value::Null,
            serde_json::Value::Bool(b) => Value::Bool(*b),
            serde_json::Value::Number(n) => Value::Number(n.to_string()),
            serde_json::Value::String(s) => Value::Str(s.clone()),
            serde_json::Value::Array(a) => Value::Array(a.iter().map(of).collect()),
            serde_json::Value::Object(m) => Value::Object(m.iter().map(|(k, v)| (k.clone(), of(v))).collect()),
        }
    }
    of(&serde_json::from_str(text).unwrap())
}

/// The member at a path of names; null for none.
fn at<'a>(v: &'a Value, path: &[&str]) -> &'a Value {
    path.iter().fold(v, |v, k| look(v, k).unwrap_or(&Value::Null))
}

fn num(v: &Value) -> Option<Num> {
    match v {
        Value::Number(t) => {
            let x = t.parse::<f64>().unwrap();
            Some(Num { bits: x.to_bits(), text: format!("{x}") })
        }
        _ => None,
    }
}

/// A question as a client writes it; abstention is opt-in.
fn question(text: &str) -> Question {
    question_of(&json(text))
}

fn question_of(v: &Value) -> Question {
    let qtype = match at(v, &["type"]) {
        Value::Str(t) if t == "boolean" => QType::Boolean,
        Value::Str(t) if t == "noul" => QType::Noul,
        Value::Str(t) if t == "choice" => QType::Choice,
        Value::Str(t) if t == "score" => QType::Score,
        Value::Str(t) if t == "numeric" => QType::Numeric,
        _ => panic!("type"),
    };
    let int = |k: &str, d: i64| match at(v, &[k]) {
        Value::Number(t) => t.parse::<i64>().unwrap(),
        _ => d,
    };
    let (min, max, granularity) = (num(at(v, &["min"])), num(at(v, &["max"])), int("granularity", default_granularity()));
    let anchors = match (&min, &max) {
        (Some(a), Some(b)) => {
            let (a, b) = (f64::from_bits(a.bits), f64::from_bits(b.bits));
            let n = num(at(v, &["step"])).map_or(granularity, |s| ((b - a) / f64::from_bits(s.bits)).round() as i64 + 1);
            anchors(a, b, n)
        }
        _ => Vec::new(),
    };
    Question {
        qtype,
        instructions: match at(v, &["instructions"]) {
            Value::Str(s) => s.clone(),
            _ => String::new(),
        },
        criteria: look(v, "criteria").map(copy),
        min,
        max,
        granularity,
        anchors,
        allow_abstain: *at(v, &["allow_abstain"]) == Value::Bool(true),
    }
}

/// Evenly spaced values, as they print.
fn anchors(min: f64, max: f64, n: i64) -> Vec<String> {
    (0..n).map(|i| format!("{}", min + (max - min) * i as f64 / (n - 1) as f64)).collect()
}

const UNCERTAIN_GAP: f64 = 0.15;

fn softmax(logits: &[f64], temperature: f64) -> Vec<f64> {
    let m = logits.iter().cloned().fold(f64::NEG_INFINITY, f64::max);
    let exps: Vec<f64> = logits.iter().map(|x| ((x - m) / temperature).exp()).collect();
    let s: f64 = exps.iter().sum();
    exps.iter().map(|e| e / s).collect()
}

fn confidence(probs: &[f64]) -> f64 {
    let n = probs.len();
    if n < 2 {
        return 1.0;
    }
    let top = probs.iter().cloned().fold(0.0, f64::max);
    ((n as f64 * top - 1.0) / (n as f64 - 1.0)).max(0.0)
}

/// A number as JSON prints it.
fn show(x: f64) -> String {
    serde_json::Value::from(x).to_string()
}

fn rounded(x: f64, scale: f64) -> String {
    show((x * scale).round() / scale)
}

fn gap(p: &[f64]) -> f64 {
    let mut o = p.to_vec();
    o.sort_by(|a, b| b.partial_cmp(a).unwrap());
    if o.len() > 1 {
        o[0] - o[1]
    } else {
        1.0
    }
}

fn read(q: &Question, slots: &Vec<Slot>, logits: &[f64], temperature: f64) -> Reading {
    let probs = softmax(logits, temperature);
    let used = counted(q, slots);
    let n = used.len();
    let score: f64 = if n > 1 {
        used.iter().enumerate().map(|(i, s)| probs[*s] * i as f64 / (n - 1) as f64).sum()
    } else {
        0.0
    };
    let mass: f64 = used.iter().map(|s| probs[*s]).sum();
    let value: f64 =
        used.iter().map(|s| probs[*s] * slots[*s].key.parse::<f64>().unwrap_or(0.0)).sum::<f64>() / mass;
    Reading {
        probs: probs.iter().map(|p| p.to_bits()).collect(),
        shown: probs.iter().map(|p| rounded(*p, 1e6)).collect(),
        close: gap(&probs) < UNCERTAIN_GAP,
        confidence: rounded(confidence(&probs), 1e4),
        score: rounded(score, 1e4),
        value: (mass > 0.0).then(|| rounded(value, 1e6)),
    }
}

fn shares(scores: &[f64], ranked: bool) -> Shares {
    let sum: f64 = scores.iter().sum();
    let norm: Vec<f64> = if sum > 0.0 {
        scores.iter().map(|p| p / sum).collect()
    } else {
        vec![1.0 / scores.len().max(1) as f64; scores.len()]
    };
    let by: &[f64] = if ranked { &norm } else { scores };
    Shares {
        scores: by.iter().map(|p| p.to_bits()).collect(),
        shown: norm.iter().map(|p| rounded(*p, 1e6)).collect(),
        close: gap(by) < UNCERTAIN_GAP,
        confidence: rounded(confidence(&norm), 1e4),
    }
}

fn answer(q: &Question, logits: &[f64]) -> Value {
    let slots = slots_for(q);
    decode(q, &slots, &read(q, &slots, logits, 1.0))
}

fn text<'a>(v: &'a Value, path: &[&str]) -> &'a str {
    match at(v, path) {
        Value::Str(s) => s,
        _ => panic!("{path:?}"),
    }
}

fn float(v: &Value, path: &[&str]) -> f64 {
    match at(v, path) {
        Value::Number(t) => t.parse().unwrap(),
        _ => panic!("{path:?}"),
    }
}

#[test]
fn decode_boolean() {
    let q = question(r#"{"type": "boolean", "allow_abstain": true}"#);
    // yes, no, abstain
    let ans = answer(&q, &[5.0, 0.0, -3.0]);
    assert_eq!(*at(&ans, &["boolean"]), Value::Bool(true));
    assert_eq!(text(&ans, &["choice"]), "yes");
    assert_eq!(text(&ans, &["status"]), "decided");
    let ans = answer(&q, &[0.0, 5.0, -3.0]);
    assert_eq!(*at(&ans, &["boolean"]), Value::Bool(false));
}

#[test]
fn decode_abstain_status() {
    let q = question(r#"{"type": "choice", "criteria": {"a": "A", "b": "B"}, "allow_abstain": true}"#);
    let ans = answer(&q, &[0.0, 0.0, 9.0]);
    assert_eq!(text(&ans, &["status"]), "abstained");
    // abstain mass is reported so callers can see how close the call was
    assert!(look(at(&ans, &["probabilities"]), ABSTAIN).is_some());
    // numeric reports the range markers too
    let qn = question(r#"{"type": "numeric", "min": 0, "max": 10, "granularity": 3, "allow_abstain": true}"#);
    let an = answer(&qn, &[-9.0, 0.0, 6.0, 0.0, -9.0, 0.0]);
    assert!(look(at(&an, &["probabilities"]), BELOW).is_some());
    assert!(look(at(&an, &["probabilities"]), ABOVE).is_some());
}

#[test]
fn decode_contested() {
    let q = question(r#"{"type": "boolean", "allow_abstain": false}"#);
    let ans = answer(&q, &[1.0, 1.0]); // 50/50 -> gap 0
    assert_eq!(text(&ans, &["status"]), "contested");
}

#[test]
fn decode_choice() {
    let q = question(r#"{"type": "choice", "allow_abstain": false, "criteria": {"red": "R", "blue": "B", "green": "G"}}"#);
    let ans = answer(&q, &[0.0, 4.0, 1.0]);
    assert_eq!(text(&ans, &["choice"]), "blue");
}

#[test]
fn decode_score() {
    let q = question(r#"{"type": "score", "allow_abstain": false, "criteria": ["bad", "ok", "great"]}"#);
    let ans = answer(&q, &[0.0, 0.0, 5.0]);
    assert_eq!(*at(&ans, &["level"]), Value::Number("2".to_string()));
    assert!(float(&ans, &["score"]) > 0.95); // near top of [0,1]
    // probabilities keyed by level text
    assert!(look(at(&ans, &["probabilities"]), "great").is_some());
}

#[test]
fn decode_numeric() {
    let q = question(r#"{"type": "numeric", "min": 0, "max": 10, "granularity": 3, "allow_abstain": false}"#);
    // slots: below, 0, 5, 10, above -> concentrate mass on "5"
    let ans = answer(&q, &[-9.0, 0.0, 6.0, 0.0, -9.0]);
    assert_eq!(float(&ans, &["value"]), 5.0);
}

#[test]
fn decode_numeric_out_of_bounds() {
    let q = question(r#"{"type": "numeric", "min": 0, "max": 10, "granularity": 3, "allow_abstain": false}"#);
    let ans = answer(&q, &[9.0, 0.0, 0.0, 0.0, -9.0]);
    assert_eq!(text(&ans, &["status"]), "out_of_bounds");
}

#[test]
fn merge_scored_picks_argmax() {
    let q = question(r#"{"type": "choice", "allow_abstain": false, "criteria": {"a": "A", "b": "B", "c": "C"}}"#);
    let keys = vec!["a".to_string(), "b".to_string(), "c".to_string()];
    let ans = merge_scored(&q, &keys, &shares(&[0.9, 0.1, 0.2], false));
    assert_eq!(text(&ans, &["choice"]), "a");
    assert_eq!(text(&ans, &["status"]), "decided");
    assert!((float(&ans, &["probabilities", "a"]) - 0.75).abs() < 1e-6); // 0.9/1.2
    assert!((float(&ans, &["probabilities", "b"]) - 0.1 / 1.2).abs() < 1e-6);
}

#[test]
fn merge_scored_abstains_when_nothing_convinces() {
    let q = question(r#"{"type": "choice", "allow_abstain": true, "criteria": {"a": "A", "b": "B", "c": "C", "d": "D"}}"#);
    let keys: Vec<String> = ["a", "b", "c", "d"].iter().map(|s| s.to_string()).collect();
    let ans = merge_scored(&q, &keys, &shares(&[0.3, 0.4, 0.2, 0.1], false));
    assert_eq!(text(&ans, &["status"]), "abstained");
    // abstain still reports the argmax so callers see the closest call
    assert_eq!(text(&ans, &["choice"]), "b");
}

#[test]
fn merge_paged_ranks_shares_over_all_pages() {
    let q = question(r#"{"type": "choice", "allow_abstain": true, "criteria": {"a": "A", "b": "B", "c": "C"}}"#);
    let keys: Vec<String> = ["a", "b", "c"].iter().map(|s| s.to_string()).collect();
    let pages = [json(r#"{"probabilities": {"a": 0.75, "b": 0.25}}"#), json(r#"{"probabilities": {"c": 1.0}}"#)];
    let raw: Vec<f64> = keys
        .iter()
        .map(|k| pages.iter().map(|p| mass_on(p, k).map_or(0.0, |t| t.parse::<f64>().unwrap())).sum())
        .collect();
    assert_eq!(raw, [0.75, 0.25, 1.0]);
    let ans = merge_paged(&q, &keys, &shares(&raw, true), false);
    assert_eq!(text(&ans, &["choice"]), "c");
    assert_eq!(text(&ans, &["status"]), "contested"); // 0.5 against 0.375
    assert_eq!(float(&ans, &["probabilities", "c"]), 0.5);
    // answers that are missing surface as abstained, unless that is not allowed
    let ans = merge_paged(&q, &keys, &shares(&[0.0, 0.0, 0.0], true), true);
    assert_eq!(text(&ans, &["status"]), "abstained");
    let q = Question { allow_abstain: false, ..q };
    let ans = merge_paged(&q, &keys, &shares(&[0.0, 0.0, 0.0], true), true);
    assert_eq!(text(&ans, &["status"]), "contested");
}

#[test]
fn ties_go_to_the_last_and_yes_wins_even() {
    let q = question(r#"{"type": "choice", "criteria": {"a": "A", "b": "B", "c": "C"}}"#);
    assert_eq!(text(&answer(&q, &[2.0, 2.0, 0.0]), &["choice"]), "b");
    let q = question(r#"{"type": "boolean"}"#);
    assert_eq!(*at(&answer(&q, &[1.0, 1.0]), &["boolean"]), Value::Bool(true));
}

#[test]
fn abstaining_scores_have_no_level() {
    let q = question(r#"{"type": "score", "allow_abstain": true, "criteria": ["bad", "ok", "great"]}"#);
    let ans = answer(&q, &[0.0, 0.0, 0.0, 9.0]);
    assert_eq!(*at(&ans, &["level"]), Value::Null);
    assert_eq!(text(&ans, &["status"]), "abstained");
    assert!(look(at(&ans, &["probabilities"]), ABSTAIN).is_none());
}
