//! The rest of the library: text, values, numbers, batches, models, benchmarks,
//! what the server answers.
use snap::batch::{batches, fewer_seqs, seq_capacity, take_lines, threads, wants};
use snap::bench::{big_state, doc_state, mode_check, payload, print_bench, request, row, scenarios, small_state, Latency};
use snap::group::named_groups;
use snap::kv::Dec;
use snap::lines::{pad_right, Piece};
use snap::models::{id_of, model_id, models, resolve, DEFAULT_MODEL};
use snap::num::{at_most, best, less};
use snap::server::{healthz, models_list, needs_load, refusal, switch_name, switched};
use snap::text::{decimal, insert, lines};
use snap::value::{json_text, look, same_value, unsigned_at, Value};

fn json(text: &str) -> Value {
    fn of(v: &serde_json::Value) -> Value {
        match v {
            serde_json::Value::Null => Value::Null,
            serde_json::Value::Bool(b) => Value::Bool(*b),
            serde_json::Value::Number(n) => Value::Number(n.to_string()),
            serde_json::Value::String(s) => Value::Str(s.clone()),
            serde_json::Value::Array(a) => Value::Array(a.iter().map(of).collect()),
            serde_json::Value::Object(m) => Value::Object(m.iter().map(|(k, v)| (k.clone(), of(v))).collect()),
        }
    }
    of(&serde_json::from_str(text).unwrap())
}

/// The member at a path of names; null for none.
fn at<'a>(v: &'a Value, path: &[&str]) -> &'a Value {
    path.iter().fold(v, |v, k| look(v, k).unwrap_or(&Value::Null))
}

#[test]
fn numbers_order_by_their_bits() {
    let b = f64::to_bits;
    for (x, y) in [(0.0, 1.0), (-1.0, 0.0), (-2.0, -1.0), (f64::NEG_INFINITY, f64::INFINITY), (0.1, 0.2)] {
        assert!(less(b(x), b(y)) && !less(b(y), b(x)) && at_most(b(x), b(y)));
    }
    assert!(at_most(b(-0.0), b(0.0)) && !less(b(-0.0), b(0.0)));
    assert!(!less(b(f64::NAN), b(1.0)) && !at_most(b(f64::NAN), b(f64::NAN)));
    assert_eq!(best(&[0.5, 2.0, -3.0, 2.0].map(b).to_vec()), 3);
    assert_eq!(best(&Vec::new()), 0);
}

#[test]
fn texts() {
    assert_eq!(decimal(0), "0");
    assert_eq!(decimal(u64::MAX), "18446744073709551615");
    assert_eq!(lines("a\r\nb\n\nc\r"), ["a", "b", "", "c\r"]);
    let mut v = Vec::new();
    for k in ["b", "a", "è", "b", "ab"] {
        insert(&mut v, k);
    }
    assert_eq!(v, ["a", "ab", "b", "è"]);
    assert_eq!(pad_right("è", 3), "è  ");
}

#[test]
fn names_group_in_order() {
    let ks: Vec<String> = ["b", "a", "b"].iter().map(|s| s.to_string()).collect();
    let gs: Vec<(String, Vec<usize>)> = named_groups(&ks).into_iter().map(|g| (g.name, g.members)).collect();
    assert_eq!(gs, [("a".to_string(), vec![1]), ("b".to_string(), vec![0, 2])]);
}

#[test]
fn values_compare_whatever_the_order_of_members() {
    assert!(same_value(&json(r#"{"a": 1, "b": [2, {"c": null}]}"#), &json(r#"{"b": [2, {"c": null}], "a": 1}"#)));
    assert!(!same_value(&json(r#"{"a": 1}"#), &json(r#"{"a": 1.0}"#)));
    assert!(!same_value(&json("[1, 2]"), &json("[2, 1]")));
    assert!(!same_value(&json(r#"{"a": 1}"#), &json(r#"{"a": 1, "b": 2}"#)));
    assert_eq!(json_text(&json(r#"{"a": ["\"\\\u0008\u000c\n\r\t\u001f/é", -1.5e300, false]}"#)), "{\"a\":[\"\\\"\\\\\\b\\f\\n\\r\\t\\u001f/é\",-1.5e+300,false]}");
    assert_eq!(unsigned_at(&json(r#"{"n": 18446744073709551615}"#), "n"), Some(u64::MAX));
    assert_eq!(unsigned_at(&json(r#"{"n": -1}"#), "n"), None);
    assert_eq!(unsigned_at(&json(r#"{"n": 1.0}"#), "n"), None);
}

#[test]
fn batches_hold_every_token_once_in_order() {
    let toks: Vec<i32> = (0..7).collect();
    let groups = vec![
        Dec { seqs: vec![1], toks: &toks[..3], pos0: 0, logits: true },
        Dec { seqs: vec![2], toks: &toks[3..3], pos0: 0, logits: true },
        Dec { seqs: vec![1, 2], toks: &toks[3..], pos0: 3, logits: false },
    ];
    let bs = batches(&groups, 3);
    assert_eq!(bs.iter().map(|b| b.len()).collect::<Vec<_>>(), [3, 3, 1]);
    let flat: Vec<i32> = bs.iter().flatten().map(|p| groups[p.group].toks[p.at]).collect();
    assert_eq!(flat, toks);
    assert!(wants(&groups[0], 2) && !wants(&groups[0], 1) && !wants(&groups[2], 3));
    assert!(batches(&Vec::new(), 3).is_empty());
}

#[test]
fn runtimes_degrade_instead_of_failing() {
    assert_eq!((seq_capacity(false), seq_capacity(true)), (65, 17));
    let mut n = seq_capacity(false);
    let mut tried = vec![n];
    while let Some(m) = fewer_seqs(n) {
        n = m;
        tried.push(n);
    }
    assert_eq!(tried, [65, 33, 17, 9, 5, 3, 2]);
    assert_eq!((threads(6, Some(8)), threads(0, Some(8)), threads(-1, None)), (6, 8, 4));
}

#[test]
fn log_lines_wait_for_their_end() {
    let (ls, rest) = take_lines("load", "ing: \nok \r\npart");
    assert_eq!(ls, ["loading:", "ok"]);
    assert_eq!(rest, "part");
    let (ls, rest) = take_lines("part", "");
    assert!(ls.is_empty());
    assert_eq!(rest, "part");
}

#[test]
fn models_resolve_by_name() {
    assert_eq!(models().len(), 4);
    let m = resolve(DEFAULT_MODEL).unwrap_or_else(|e| panic!("{e}"));
    assert_eq!((m.repo, m.file), ("openbmb/MiniCPM5-2B-GGUF", "MiniCPM5-2B-Q4_K_M.gguf"));
    assert_eq!(
        resolve("gpt\"").err(),
        Some("unknown model \"gpt\\\"\" — supported: minicpm5-2b, qwen3.8-4b, spark-4b, spark-4b-q4".to_string())
    );
}

#[test]
fn the_server_answers() {
    assert_eq!(healthz("id", "n", 3), json(r#"{"status": "ok", "model": "id", "name": "n", "uptime_s": 3}"#));
    let l = models_list("spark-4b");
    match at(&l, &["data"]) {
        Value::Array(a) => {
            let active: Vec<&Value> = a.iter().map(|m| at(m, &["active"])).collect();
            assert_eq!(active, [&Value::Bool(false), &Value::Bool(false), &Value::Bool(true), &Value::Bool(false)]);
            assert_eq!(
                a[2],
                json(
                    r#"{"id": "spark-4b", "object": "model", "created": 0, "owned_by": "snap",
                        "repo": "XHToken/Spark-X2.5-4B-GGUF", "file": "Spark-X2.5-4B-Q8_0.gguf", "active": true}"#
                )
            );
        }
        _ => panic!("data"),
    }
    assert_eq!(switch_name(&json(r#"{"model": "spark-4b"}"#)), Ok("spark-4b".to_string()));
    for bad in ["{}", r#"{"model": ""}"#, r#"{"model": 1}"#] {
        assert_eq!(switch_name(&json(bad)), Err("body must be {\"model\": \"<name>\"}".to_string()));
    }
    assert!(needs_load("a", "b") && !needs_load("a", "a"));
    assert_eq!(switched("id", "n"), json(r#"{"status": "ok", "model": "id", "name": "n"}"#));
    assert_eq!(refusal("no"), json(r#"{"error": "no"}"#));
}

#[test]
fn benchmark_requests() {
    assert_eq!(small_state(u64::MAX), json(r#"{"item": "latte", "quantity": 1, "order": 18446744073709551615}"#));
    match doc_state(3) {
        Value::Str(s) => {
            assert!(s.starts_with("Ordine 3. Riga 0: 1 x prodotto P0003, consegna zona 0. Riga 1: 2 x prodotto P0010, "));
            assert!(s.ends_with("Riga 39: 4 x prodotto P0276, consegna zona 3."));
        }
        _ => panic!("text"),
    }
    let b = big_state(9);
    assert!(json_text(&b).len() > 3000);
    assert_eq!(*at(&b, &["request"]), json("9"));
    let p = payload(Value::Null, 2, "direct");
    assert_eq!(*at(&p, &["mode"]), json("\"direct\""));
    assert!(look(at(&p, &["questions"]), "q1").is_some() && look(at(&p, &["questions"]), "q2").is_none());
    let ss = scenarios();
    assert_eq!(ss.len(), 7);
    assert_eq!(*at(&request(&ss[6], 4), &["state", "request"]), json("4"));
}

fn line(ps: &[Piece]) -> String {
    ps.iter()
        .map(|p| match p {
            Piece::Text(s) => s.clone(),
            Piece::Number { text, digits, width, .. } => {
                format!("{:>w$.d$}", text.parse::<f64>().unwrap(), w = *width as usize, d = *digits as usize)
            }
        })
        .collect()
}

#[test]
fn benchmark_tables() {
    let l = Latency {
        n: 20,
        p50: "12.5".to_string(),
        p95: "20.0".to_string(),
        mean: "13.0".to_string(),
        req_s: "76.92".to_string(),
        ms_per_question: Some("3.3".to_string()),
    };
    let four = r#"{"answers": {"q0": {"choice": "a"}, "q1": {"choice": "a"}, "q2": {}, "q3": {"choice": "b"}}}"#;
    let rows = vec![
        row(&l, "shared-4q"),
        row(&Latency { ms_per_question: None, ..l }, "single-1q"),
        mode_check(&json(four), &json(four)),
        mode_check(&json(four), &json("{}")),
    ];
    assert_eq!(
        rows[0],
        json(
            r#"{"n": 20, "p50": 12.5, "p95": 20.0, "mean": 13.0, "req_s": 76.92, "ms_per_question": 3.3,
                "scenario": "shared-4q"}"#
        )
    );
    let printed: Vec<String> = print_bench(&rows).iter().map(|l| line(l)).collect();
    assert_eq!(printed, [
        "scenario          n   p50 ms   p95 ms  mean ms   req/s    ms/q".to_string(),
        "─".repeat(62),
        "shared-4q      20     12.5     20.0     13.0   76.92     3.3".to_string(),
        "single-1q      20     12.5     20.0     13.0   76.92       -".to_string(),
        String::new(),
        "mode-check     shared/direct answers match (n=4)".to_string(),
        "mode-check     shared/direct answers MISMATCH (n=4)".to_string(),
    ]);
    assert_eq!(print_bench(&rows[..1].iter().map(snap::value::copy).collect()).len(), 3);
}

#[test]
fn ids_are_lower_case_and_hyphened() {
    assert_eq!(model_id("MiniCPM5 2B", Some("15")), "snap-minicpm5-2b-15");
    assert_eq!(model_id("Spark X2.5 4B", None), "snap-spark-x2.5-4b");
    assert_eq!(model_id("\u{c8}", None), "snap-\u{e8}");
    assert_eq!(id_of("a  b", Some("")), "snap-a--b-");
}
