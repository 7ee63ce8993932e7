//! Cases, verdicts, variants and reports.
use snap::evaluate::{
    answer_brief, auto_variants, build_req, case_count, case_lines, case_row, judge, judge_case, merged_case, payload,
    pick, plan_case, CasePlan, Pick, Verdict,
};
use snap::lines::{Piece, Scale};
use snap::report::{
    consistency, drift, per_class, per_kind, print_report, report, tally, times, Measures, Steadiness,
};
use snap::schema::{Expand, Layout};
use snap::value::{look, same_value, Value};

fn json(text: &str) -> Value {
    fn of(v: &serde_json::Value) -> Value {
        match v {
            serde_json::Value::Null => Value::Null,
            serde_json::Value::Bool(b) => Value::Bool(*b),
            serde_json::Value::Number(n) => Value::Number(n.to_string()),
            serde_json::Value::String(s) => Value::Str(s.clone()),
            serde_json::Value::Array(a) => Value::Array(a.iter().map(of).collect()),
            serde_json::Value::Object(m) => Value::Object(m.iter().map(|(k, v)| (k.clone(), of(v))).collect()),
        }
    }
    of(&serde_json::from_str(text).unwrap())
}

/// The member at a path of names; null for none.
fn at<'a>(v: &'a Value, path: &[&str]) -> &'a Value {
    path.iter().fold(v, |v, k| look(v, k).unwrap_or(&Value::Null))
}

/// A verdict with its numbers compared.
fn settled(v: Verdict) -> Option<bool> {
    let n = |t: String| t.parse::<f64>().unwrap();
    match v {
        Verdict::Unchecked => None,
        Verdict::Sure(b) => Some(b),
        Verdict::Near { got, want, tol } => Some((n(got) - n(want)).abs() <= n(tol)),
    }
}

fn judged(ans: &str, expect: &str) -> Option<bool> {
    settled(judge(&json(ans), &json(expect)))
}

fn find<'a>(vars: &'a [(String, Value)], kind: &str) -> Option<&'a Value> {
    vars.iter().find(|(k, _)| k == kind).map(|(_, v)| v)
}

#[test]
fn judge_choice_boolean_level() {
    let a = r#"{"choice": "billing", "status": "decided"}"#;
    assert_eq!(judged(a, r#"{"choice": "billing"}"#), Some(true));
    assert_eq!(judged(a, r#"{"choice": "sales"}"#), Some(false));
    assert_eq!(judged(r#"{"boolean": true}"#, r#"{"boolean": true}"#), Some(true));
    assert_eq!(judged(r#"{"level": 3}"#, r#"{"level": 3}"#), Some(true));
    assert_eq!(judged(r#"{"level": 3}"#, r#"{"level": 2}"#), Some(false));
}

#[test]
fn judge_status() {
    let a = r#"{"status": "abstained"}"#;
    assert_eq!(judged(a, r#"{"status": "abstained"}"#), Some(true));
    assert_eq!(judged(a, r#"{"status": "decided"}"#), Some(false));
}

#[test]
fn judge_score_tolerance() {
    let a = r#"{"score": 0.5}"#;
    assert_eq!(judged(a, r#"{"score": 0.5}"#), Some(true));
    assert_eq!(judged(a, r#"{"score": 0.5, "tol": 0.1}"#), Some(true));
    assert_eq!(judged(a, r#"{"score": 0.9, "tol": 0.1}"#), Some(false));
    // default tol 0.34
    assert_eq!(judged(a, r#"{"score": 0.8}"#), Some(true));
    assert_eq!(judged(a, r#"{"score": 0.9}"#), Some(false));
}

#[test]
fn judge_value() {
    let a = r#"{"value": 42.0}"#;
    assert_eq!(judged(a, r#"{"value": 42.0}"#), Some(true));
    assert_eq!(judged(a, r#"{"value": 42.0, "tol": 0.5}"#), Some(true));
    assert_eq!(judged(a, r#"{"value": 50.0, "tol": 0.5}"#), Some(false));
}

#[test]
fn judge_no_expectation() {
    assert_eq!(judged(r#"{"choice": "x"}"#, "{}"), None);
}

#[test]
fn the_two_zeros_are_equal() {
    let same = |a: &str, b: &str| same_value(&Value::Number(a.to_string()), &Value::Number(b.to_string()));
    assert!(same("0.0", "-0.0"));
    assert!(same("-0.0", "0.0"));
    assert!(same("1.5", "1.5"));
    assert!(!same("1.5", "-1.5"));
    assert!(!same("0", "0.0")); // an integer is no float
    assert_eq!(judged(r#"{"choice": -0.0}"#, r#"{"choice": 0.0}"#), Some(true));
}

#[test]
fn judge_answers_that_lack_what_is_expected() {
    assert_eq!(judged("{}", r#"{"choice": "x"}"#), Some(false));
    assert_eq!(judged("{}", r#"{"value": 1}"#), Some(false));
    assert_eq!(judged("{}", r#"{"score": 0.5}"#), Some(false)); // -9 is far from any score
    assert_eq!(judged(r#"{"score": 0.5}"#, r#"{"score": "high"}"#), None);
    assert_eq!(judged(r#"{"value": 1}"#, r#"{"value": "high"}"#), Some(false));
    // status comes first, whatever else is expected
    assert_eq!(judged(r#"{"status": "decided", "choice": "x"}"#, r#"{"choice": "x", "status": "abstained"}"#), Some(false));
    assert_eq!(settled(judge_case(&json(r#"{"expect": {"choice": "x"}}"#), &json(r#"{"choice": "x"}"#))), Some(true));
    assert_eq!(settled(judge_case(&json("{}"), &json(r#"{"choice": "x"}"#))), None);
}

#[test]
fn auto_variants_choice_reversal() {
    let case = json(
        r#"{"id": "c", "state": {"x": 1},
            "question": {"type": "choice", "instructions": "Pick one", "criteria": {"a": "A", "b": "B", "c": "C"}}}"#,
    );
    let vars = auto_variants(&case);
    let rev = find(&vars, "option_reversal").unwrap();
    let keys: Vec<&str> = match at(rev, &["question", "criteria"]) {
        Value::Object(m) => m.iter().map(|(k, _)| k.as_str()).collect(),
        _ => panic!("criteria"),
    };
    assert_eq!(keys, ["c", "b", "a"]); // reversed letter assignment
    // irrelevant context lands inside the object state
    let noise = find(&vars, "irrelevant_context").unwrap();
    assert!(matches!(at(noise, &["state", "unrelated_note"]), Value::Str(_)));
    // wrapper rewords the instruction
    let wrap = find(&vars, "criterion_wrapper").unwrap();
    assert!(matches!(at(wrap, &["question", "instructions"]), Value::Str(s) if s.contains("Pick one")));
}

#[test]
fn auto_variants_string_state_and_noul() {
    let case = json(r#"{"id": "n", "state": "a ticket", "question": {"type": "noul", "instructions": "Urgent?"}}"#);
    let vars = auto_variants(&case);
    assert!(find(&vars, "option_reversal").is_none()); // not a choice
    let noise = find(&vars, "irrelevant_context").unwrap();
    assert!(matches!(at(noise, &["state"]), Value::Str(s) if s.starts_with("a ticket")));
}

#[test]
fn build_req_forces_no_abstain() {
    let case = json(r#"{"state": "s", "question": {"type": "boolean"}}"#);
    let r = build_req(&case, true, None);
    assert_eq!(*at(&r.question, &["allow_abstain"]), Value::Bool(false));
    let r = build_req(&case, false, None);
    assert!(look(&r.question, "allow_abstain").is_none());
}

#[test]
fn layouts_are_forced_pinned_or_auto() {
    let case = json(r#"{"layout": "header", "expand": "pages", "compact_state": true}"#);
    assert_eq!(build_req(&case, false, Some(Layout::Catalog)).layout, Layout::Catalog);
    let r = build_req(&case, false, None);
    assert_eq!((r.layout, r.expand, r.compact_state), (Layout::Header, Expand::Pages, true));
    let r = build_req(&json(r#"{"layout": "sideways"}"#), false, None);
    assert_eq!((r.layout, r.expand, r.compact_state), (Layout::Auto, Expand::Probes, false));
    let p = payload(&build_req(&json(r#"{"state": "s", "question": {"type": "noul"}}"#), true, None));
    assert_eq!(
        p,
        json(
            r#"{"state": "s", "questions": {"q": {"type": "noul", "allow_abstain": false}}, "temperature": 1.0,
                "mode": "shared", "layout": "auto", "expand": "probes", "compact_state": false}"#
        )
    );
}

#[test]
fn case_files_skip_blanks_and_comments() {
    assert_eq!(case_lines("# head\r\n{\"a\": 1}\r\n   \n\n{\"b\": 2}"), ["{\"a\": 1}", "{\"b\": 2}"]);
    assert_eq!(case_lines(" # not a comment\n"), [" # not a comment"]);
    assert!(case_lines("").is_empty());
    assert_eq!((case_count(None, 5), case_count(Some(3), 5), case_count(Some(9), 5)), (5, 3, 5));
}

#[test]
fn variants_apply_over_the_base_case() {
    let case = json(r#"{"id": 1, "state": "old", "question": {"type": "noul", "instructions": "A"}}"#);
    let got = merged_case(&case, &json(r#"{"state": "new", "question": {"instructions": "B", "extra": 1}}"#));
    assert_eq!(got, json(r#"{"id": 1, "state": "new", "question": {"type": "noul", "instructions": "B", "extra": 1}}"#));
    assert_eq!(merged_case(&case, &json("{}")), case);
}

#[test]
fn plans_ask_declared_variants_first() {
    let case = json(
        r#"{"id": "c", "state": "s", "requires_abstain": true, "variants": [{"state": "t"}],
            "question": {"type": "noul", "instructions": "Q"}}"#,
    );
    match plan_case(&case, true, true, None) {
        CasePlan::Skip(row) => assert_eq!(
            row,
            json(
                r#"{"id": "c", "type": "noul", "ok": null, "confidence": null, "ms": 0.0,
                    "answer": {"skipped": "requires_abstain"}}"#
            )
        ),
        _ => panic!("not skipped"),
    }
    match plan_case(&case, false, true, None) {
        CasePlan::Run { base, probes } => {
            assert_eq!(base.state, Value::Str("s".to_string()));
            let kinds: Vec<&str> = probes.iter().map(|p| p.kind.as_str()).collect();
            assert_eq!(kinds, ["declared", "criterion_wrapper", "irrelevant_context"]);
            assert_eq!(probes[0].req.state, Value::Str("t".to_string()));
        }
        _ => panic!("skipped"),
    }
    match plan_case(&case, false, false, None) {
        CasePlan::Run { probes, .. } => assert_eq!(probes.len(), 1),
        _ => panic!("skipped"),
    }
}

#[test]
fn rows_and_picks() {
    let ans = json(r#"{"status": "decided", "confidence": 0.9, "choice": "a", "coverage": 1.0}"#);
    assert_eq!(answer_brief(&ans), json(r#"{"choice": "a", "status": "decided"}"#));
    let row = case_row(
        &json(r#"{"id": "x", "question": {"type": "choice"}}"#),
        Some(true),
        &ans,
        Value::Number("1.5".to_string()),
    );
    assert_eq!(
        row,
        json(
            r#"{"id": "x", "type": "choice", "ok": true, "confidence": 0.9, "ms": 1.5,
                "answer": {"choice": "a", "status": "decided"}}"#
        )
    );
    assert!(matches!(pick(&ans), Pick::Of(Value::Str(s)) if s == "a"));
    assert!(matches!(pick(&json(r#"{"choice": null, "level": 2}"#)), Pick::Of(Value::Number(n)) if n == "2"));
    assert!(matches!(pick(&json(r#"{"level": null, "score": 0.456}"#)), Pick::Rounded(n) if n == "0.456"));
    assert!(matches!(pick(&json("{}")), Pick::Nothing));
}

#[test]
fn drift_runs_over_both_answers_keys() {
    let a = json(r#"{"probabilities": {"b": 0.7, "a": 0.3}}"#);
    let b = json(r#"{"probabilities": {"c": 1.0, "a": 0.1}}"#);
    let ts: Vec<(String, String, String)> =
        drift(&a, &b).unwrap().into_iter().map(|t| (t.key, t.a, t.b)).collect();
    let want = [("a", "0.3", "0.1"), ("b", "0.7", "0.0"), ("c", "0.0", "1.0")];
    assert_eq!(ts, want.map(|(k, x, y)| (k.to_string(), x.to_string(), y.to_string())));
    assert!(drift(&a, &json("{}")).is_none());
}

fn rows() -> Vec<Value> {
    vec![
        json(r#"{"id": "1", "type": "choice", "ok": true, "confidence": 0.5, "ms": 10.0, "answer": {"choice": "a"}}"#),
        json(r#"{"id": "2", "type": "noul", "ok": false, "confidence": 0.25, "ms": 0.0, "answer": {"boolean": true}}"#),
        json(r#"{"id": "3", "type": "choice", "ok": false, "confidence": null, "ms": 5.0, "answer": {}}"#),
        json(r#"{"id": "4", "type": "choice", "ok": null, "confidence": null, "ms": null, "answer": {}}"#),
    ]
}

#[test]
fn tallies_count_scored_rows() {
    let t = tally(&rows());
    assert_eq!((t.scored, t.passed), (3, 1));
    let by: Vec<(&str, usize, usize)> = t.by_type.iter().map(|t| (t.name.as_str(), t.n, t.ok)).collect();
    assert_eq!(by, [("choice", 2, 1), ("noul", 1, 0)]);
    assert_eq!(t.failures.len(), 2);
    assert_eq!(t.failures[0], json(r#"{"id": "2", "type": "noul", "answer": {"boolean": true}, "confidence": 0.25}"#));
    assert_eq!(t.confidences, ["0.5", "0.25", "0.0"]);
    assert_eq!(times(&rows()), ["10.0", "0.0", "5.0"]);
    let classes = per_class(&vec![2, 0, 2], &vec![true, false, false]);
    assert_eq!(classes.iter().map(|c| (c.class, c.ok, c.n)).collect::<Vec<_>>(), [(0, 0, 1), (2, 1, 2)]);
    let kinds: Vec<String> = ["noise", "declared", "noise"].iter().map(|s| s.to_string()).collect();
    let kinds = per_kind(&kinds, &vec![true, true, false]);
    assert_eq!(
        kinds.iter().map(|k| (k.kind.as_str(), k.agreed, k.members.clone())).collect::<Vec<_>>(),
        [("declared", 1, vec![1]), ("noise", 1, vec![0, 2])]
    );
}

fn stead(n: usize) -> Steadiness {
    Steadiness { n, agreement: "0.5".to_string(), mean_drift: "0.125".to_string() }
}

fn measures() -> Measures {
    Measures {
        accuracy: "0.3333".to_string(),
        balanced_accuracy: Value::Null,
        brier: json("0.25"),
        ece: json("0.125"),
        consistency: consistency(&stead(2), &vec![("noise".to_string(), stead(2))]),
        mean_confidence: "0.25".to_string(),
        type_accuracy: vec!["0.5".to_string(), "0.0".to_string()],
        ms_mean: "7.5".to_string(),
        ms_total: "15.0".to_string(),
    }
}

/// A line as it prints.
fn line(ps: &[Piece]) -> String {
    ps.iter()
        .map(|p| match p {
            Piece::Text(s) => s.clone(),
            Piece::Number { text, scale, digits, width } => {
                let x: f64 = text.parse().unwrap();
                let x = match scale {
                    Scale::Once => x,
                    Scale::Percent => x * 100.0,
                    Scale::Thousandth => x / 1000.0,
                };
                format!("{:>w$.d$}", x, w = *width as usize, d = *digits as usize)
            }
        })
        .collect()
}

#[test]
fn reports_hold_what_was_counted_and_measured() {
    let rep = report("m", rows(), &tally(&rows()), &measures());
    assert_eq!(*at(&rep, &["cases"]), json("4"));
    assert_eq!(*at(&rep, &["scored"]), json("3"));
    assert_eq!(*at(&rep, &["per_type", "choice"]), json(r#"{"n": 2, "acc": 0.5}"#));
    assert_eq!(*at(&rep, &["rows"]), Value::Array(rows()));
    assert_eq!(
        *at(&rep, &["consistency"]),
        json(
            r#"{"n": 2, "agreement": 0.5, "mean_drift": 0.125,
                "by_kind": {"noise": {"n": 2, "agreement": 0.5, "mean_drift": 0.125}}}"#
        )
    );
    let printed: Vec<String> = print_report(&rep).iter().map(|l| line(l)).collect();
    assert_eq!(printed, [
        "model=\"m\" cases=4",
        "accuracy 33.3%  (balanced 0.0%, mean confidence 25.0%)",
        "brier 0.2500   ece 0.1250",
        "consistency  50.0% agreement, mean drift 0.125  (n=2)",
        "  noise              50% agree, drift 0.125  (n=2)",
        "  choice   50%  (n=2)",
        "  noul     0%  (n=1)",
        "latency  mean 8 ms/case, total 0.0 s",
        "failures:",
        "  2              noul     -> {\"boolean\":true} (conf 0.25)",
        "  3              choice   -> {} (conf null)",
    ]);
}
