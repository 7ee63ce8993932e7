//! Prompts: options, messages, compact states.
use snap::compact::{render_state, render_state_compact};
use snap::expand::expand_choice;
use snap::num::Num;
use snap::prompts::{catalog_entry, catalog_message, slots_for, user_message, ABOVE, ABSTAIN, BELOW};
use snap::schema::{default_granularity, Expand, Layout, QType, Question};
use snap::value::{copy, look, Value};

fn json(text: &str) -> Value {
    fn of(v: &serde_json::Value) -> Value {
        match v {
            serde_json::Value::Null => Value::Null,
            serde_json::Value::Bool(b) => Value::Bool(*b),
            serde_json::Value::Number(n) => Value::Number(n.to_string()),
            serde_json::Value::String(s) => Value::Str(s.clone()),
            serde_json::Value::Array(a) => Value::Array(a.iter().map(of).collect()),
            serde_json::Value::Object(m) => Value::Object(m.iter().map(|(k, v)| (k.clone(), of(v))).collect()),
        }
    }
    of(&serde_json::from_str(text).unwrap())
}

/// The member at a path of names; null for none.
fn at<'a>(v: &'a Value, path: &[&str]) -> &'a Value {
    path.iter().fold(v, |v, k| look(v, k).unwrap_or(&Value::Null))
}

fn num(v: &Value) -> Option<Num> {
    match v {
        Value::Number(t) => {
            let x = t.parse::<f64>().unwrap();
            Some(Num { bits: x.to_bits(), text: format!("{x}") })
        }
        _ => None,
    }
}

/// A question as a client writes it; abstention is opt-in.
fn question(text: &str) -> Question {
    question_of(&json(text))
}

fn question_of(v: &Value) -> Question {
    let qtype = match at(v, &["type"]) {
        Value::Str(t) if t == "boolean" => QType::Boolean,
        Value::Str(t) if t == "noul" => QType::Noul,
        Value::Str(t) if t == "choice" => QType::Choice,
        Value::Str(t) if t == "score" => QType::Score,
        Value::Str(t) if t == "numeric" => QType::Numeric,
        _ => panic!("type"),
    };
    let int = |k: &str, d: i64| match at(v, &[k]) {
        Value::Number(t) => t.parse::<i64>().unwrap(),
        _ => d,
    };
    let (min, max, granularity) = (num(at(v, &["min"])), num(at(v, &["max"])), int("granularity", default_granularity()));
    let anchors = match (&min, &max) {
        (Some(a), Some(b)) => {
            let (a, b) = (f64::from_bits(a.bits), f64::from_bits(b.bits));
            let n = num(at(v, &["step"])).map_or(granularity, |s| ((b - a) / f64::from_bits(s.bits)).round() as i64 + 1);
            anchors(a, b, n)
        }
        _ => Vec::new(),
    };
    Question {
        qtype,
        instructions: match at(v, &["instructions"]) {
            Value::Str(s) => s.clone(),
            _ => String::new(),
        },
        criteria: look(v, "criteria").map(copy),
        min,
        max,
        granularity,
        anchors,
        allow_abstain: *at(v, &["allow_abstain"]) == Value::Bool(true),
    }
}

/// Evenly spaced values, as they print.
fn anchors(min: f64, max: f64, n: i64) -> Vec<String> {
    (0..n).map(|i| format!("{}", min + (max - min) * i as f64 / (n - 1) as f64)).collect()
}

#[test]
fn boolean_slots() {
    let s = slots_for(&question(r#"{"type": "boolean", "allow_abstain": true}"#));
    assert_eq!(s.len(), 3); // yes, no, abstain
    assert_eq!(s[0].key, "yes");
    assert_eq!(s[1].key, "no");
    assert!(s[2].special && s[2].key == ABSTAIN);
    // no abstain by default
    let s = slots_for(&question(r#"{"type": "boolean"}"#));
    assert_eq!(s.len(), 2);
}

#[test]
fn choice_slots_keys() {
    let s = slots_for(&question(
        r#"{"type": "choice", "allow_abstain": false, "criteria": {"a": "desc a", "b": "desc b"}}"#,
    ));
    assert_eq!(s.len(), 2);
    assert_eq!(s[0].key, "a");
    assert_eq!(s[0].text, "desc a");
    // an empty description still shows the key
    let s = slots_for(&question(r#"{"type": "choice", "criteria": {"refund": ""}}"#));
    assert_eq!(s[0].text, "refund");
}

#[test]
fn score_slots_numeric_keys() {
    let s = slots_for(&question(r#"{"type": "score", "allow_abstain": false, "criteria": ["low", "mid", "high"]}"#));
    assert_eq!(s.len(), 3);
    assert_eq!(s[0].key, "0");
    assert_eq!(s[2].key, "2");
    assert_eq!(s[2].text, "high");
}

#[test]
fn numeric_slots_anchors() {
    let s = slots_for(&question(
        r#"{"type": "numeric", "min": 0, "max": 100, "granularity": 5, "allow_abstain": false}"#,
    ));
    assert_eq!(s.len(), 7); // below + 5 + above
    assert!(s[0].special && s[0].key == BELOW);
    assert_eq!(s[1].key, "0");
    assert_eq!(s[5].key, "100");
    assert!(s[6].special && s[6].key == ABOVE);
    assert_eq!(s[0].text, "Below 0");
    assert_eq!(s[6].text, "Above 100");
}

#[test]
fn numeric_step_overrides_granularity() {
    let s = slots_for(&question(
        r#"{"type": "numeric", "min": 0, "max": 10, "step": 5, "granularity": 8, "allow_abstain": false}"#,
    ));
    // 0,5,10 -> 3 interior slots
    assert_eq!(s.len(), 5);
}

#[test]
fn user_message_shape() {
    let qu = question(r#"{"type": "boolean", "instructions": "Is it spam?", "allow_abstain": true}"#);
    let s = slots_for(&qu);
    let m = user_message("hello world", &qu, &s, Layout::StateFirst, &vec![]);
    assert!(m.starts_with("STATE\nhello world"));
    assert!(m.contains("QUESTION\nIs it spam?"));
    assert!(m.contains("A) Yes"));
    assert!(m.contains("B) No"));
    assert!(m.contains("C) None of the above"));
    assert!(m.ends_with("Reply with one letter only."));
}

#[test]
fn user_message_question_first() {
    let qu = question(r#"{"type": "boolean", "instructions": "Is it spam?"}"#);
    let s = slots_for(&qu);
    let m = user_message("hello world", &qu, &s, Layout::QuestionFirst, &vec![]);
    assert!(m.starts_with("QUESTION\nIs it spam?"));
    assert!(m.contains("\n\nSTATE\nhello world\n\nReply with one letter only."));
    assert!(!m.contains("QUESTIONS"));
}

#[test]
fn user_message_header() {
    let qu = question(r#"{"type": "boolean", "instructions": "Is it spam?"}"#);
    let s = slots_for(&qu);
    let preamble = vec!["1. spam — Is it spam?".to_string(), "2. mood — Mood?".to_string()];
    let m = user_message("hello world", &qu, &s, Layout::Header, &preamble);
    assert!(m.starts_with("QUESTIONS\n"));
    assert!(m.contains("1. spam — Is it spam?"));
    // state still comes before the concrete question
    assert!(m.find("\nSTATE\n").unwrap() < m.find("\nQUESTION\n").unwrap());
}

#[test]
fn catalog_message_shape() {
    let qu = question(r#"{"type": "boolean", "instructions": "Is it spam?"}"#);
    let s = slots_for(&qu);
    let cat = catalog_entry(0, "spam", &qu);
    let m = catalog_message(&cat, "hello world", 0, "spam", &s);
    assert!(m.starts_with("QUESTIONS\n"));
    assert!(m.contains("1) spam — Is it spam?"));
    // options live in the tail, right before the reply cue
    assert!(m.contains("\nSTATE\nhello world\n\nQUESTION 1 — spam\n\nOPTIONS\nA) Yes"));
    assert!(m.ends_with("Reply with one letter only."));
}

#[test]
fn render_state_compact_shape() {
    let s = render_state_compact(&json(r#"{"user": {"name": "ada", "n": 3}, "tags": ["x", "y"], "note": "see: this"}"#));
    assert!(s.contains("user:\n  name: ada\n  n: 3"));
    assert!(s.contains("tags:\n  x, y"));
    // ": " inside a string must stay quoted
    assert!(s.contains("note: \"see: this\""));
    // strings that look like scalars stay quoted too
    assert!(render_state_compact(&json(r#"{"v": "true"}"#)).contains("\"true\""));
    // plain strings pass through untouched
    assert_eq!(render_state_compact(&json(r#""plain text""#)), "plain text");
    // uniform object arrays become a csv table with one header line
    let s = render_state_compact(&json(r#"{"items": [{"sku": "a", "qty": 1}, {"sku": "b", "qty": 2}]}"#));
    assert!(s.contains("items:\n  (sku, qty)\n  a, 1\n  b, 2"), "{s}");
}

#[test]
fn states_print_as_json_unless_they_are_text() {
    assert_eq!(render_state(&json(r#""a \"b\"""#)), "a \"b\"");
    assert_eq!(render_state(&json(r#"{"k": ["é\n\u0001", 1.5, null, true]}"#)), "{\"k\":[\"é\\n\\u0001\",1.5,null,true]}");
}

#[test]
fn messages_of_a_request_share_their_prefix() {
    let (a, b) = (
        question(r#"{"type": "boolean", "instructions": "Spam?"}"#),
        question(r#"{"type": "score", "instructions": "Mood?", "criteria": ["low", "high"]}"#),
    );
    let say = |q: &Question, state: &str, l: Layout| user_message(state, q, &slots_for(q), l, &vec![]);
    let (x, y) = (say(&a, "the state", Layout::StateFirst), say(&b, "the state", Layout::StateFirst));
    let head = "STATE\nthe state\n";
    assert!(x.starts_with(head) && y.starts_with(head));
    let (x, y) = (say(&a, "one", Layout::QuestionFirst), say(&a, "two", Layout::QuestionFirst));
    let head = "QUESTION\nSpam?\n";
    assert!(x.starts_with(head) && y.starts_with(head));
    assert!(x.find("one").unwrap() == y.find("two").unwrap());
}

fn wide(n: usize) -> Question {
    let c: Vec<String> = (0..n).map(|i| format!("\"o{i}\": \"option number {i}\"")).collect();
    question(&format!("{{\"type\": \"choice\", \"instructions\": \"Which?\", \"criteria\": {{{}}}}}", c.join(", ")))
}

#[test]
fn wide_choices_expand() {
    assert!(expand_choice(&wide(26), Expand::Probes).is_none());
    let (probes, keys) = expand_choice(&wide(27), Expand::Probes).unwrap();
    assert_eq!((probes.len(), keys.len()), (27, 27));
    assert!(probes.iter().all(|p| matches!(p.qtype, QType::Boolean)));
    let (pages, keys) = expand_choice(&wide(60), Expand::Pages).unwrap();
    assert_eq!((pages.len(), keys.len()), (3, 60));
    let on_pages: Vec<String> = pages.iter().flat_map(|p| slots_for(p)).map(|s| s.key).collect();
    assert_eq!(on_pages, keys);
}
