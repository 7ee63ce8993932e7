//! Calibration bookkeeping.
use std::collections::BTreeSet;

use snap::calibrate::{
    bucket, document, fit_plan, fits, fold_of, level_key, nearest, place_case, resample, separated, splits,
    target_key, Aim, Calibration, Rng, BOOT, FOLDS, HIGH, LOW,
};
use snap::group::groups;
use snap::value::Value;

fn json(text: &str) -> Value {
    fn of(v: &serde_json::Value) -> Value {
        match v {
            serde_json::Value::Null => Value::Null,
            serde_json::Value::Bool(b) => Value::Bool(*b),
            serde_json::Value::Number(n) => Value::Number(n.to_string()),
            serde_json::Value::String(s) => Value::Str(s.clone()),
            serde_json::Value::Array(a) => Value::Array(a.iter().map(of).collect()),
            serde_json::Value::Object(m) => Value::Object(m.iter().map(|(k, v)| (k.clone(), of(v))).collect()),
        }
    }
    of(&serde_json::from_str(text).unwrap())
}

fn probs(keys: &[&str]) -> Vec<(String, Value)> {
    keys.iter().map(|k| (k.to_string(), Value::Number("0.5".to_string()))).collect()
}

#[test]
fn fold_assignment_is_stable_and_bounded() {
    for id in ["route-01", "edge-03", "x"] {
        let f = fold_of(id);
        assert!(f < FOLDS);
        assert_eq!(f, fold_of(id)); // deterministic
    }
    // different ids spread across folds
    let seen: BTreeSet<usize> = (0..40).map(|i| fold_of(&format!("case-{i}"))).collect();
    assert!(seen.len() > 1);
}

#[test]
fn folds_hash_the_prefixed_id() {
    let mut h = 0xcbf29ce484222325u64;
    for b in "snap-fold/città".bytes() {
        h ^= b as u64;
        h = h.wrapping_mul(0x100000001b3);
    }
    assert_eq!(fold_of("città"), (h % 5) as usize);
}

#[test]
fn buckets_are_shared_by_booleans() {
    assert_eq!(bucket("noul"), "boolean");
    assert_eq!(bucket("score"), "score");
}

#[test]
fn generator_is_xorshift64_star() {
    let mut r = Rng::new(0x5eed);
    let mut x = 0x5eedu64 | 1;
    for _ in 0..100 {
        x ^= x >> 12;
        x ^= x << 25;
        x ^= x >> 27;
        assert_eq!(r.next(), x.wrapping_mul(0x2545f4914f6cdd1d));
    }
    assert_eq!(r.below(0), 0);
    assert!((0..50).all(|_| r.below(7) < 7));
}

#[test]
fn targets_by_type() {
    let key = |q: &str, e: &str, p: &[&str]| match target_key(&json(q), &json(e), &probs(p)) {
        Aim::Key(k) => Some(k),
        _ => None,
    };
    assert_eq!(key(r#"{"type":"choice"}"#, r#"{"choice":"a"}"#, &["a"]), Some("a".to_string()));
    assert_eq!(key(r#"{"type":"boolean"}"#, r#"{"boolean":true}"#, &[]), Some("yes".to_string()));
    assert_eq!(key(r#"{"type":"noul"}"#, r#"{"boolean":false}"#, &[]), Some("no".to_string()));
    let score = r#"{"type":"score","criteria":["low","mid","high"]}"#;
    assert_eq!(key(score, r#"{"level":1}"#, &[]), Some("mid".to_string()));
    assert_eq!(key(score, r#"{"level":3}"#, &[]), None);
    assert_eq!(key(score, r#"{"level":-1}"#, &[]), None);
    assert!(matches!(
        target_key(&json(score), &json(r#"{"score":0.5}"#), &probs(&[])),
        Aim::Level { score, levels: 3 } if score == "0.5"
    ));
    assert!(matches!(level_key(&json(score), 2), Aim::Key(k) if k == "high"));
    assert!(matches!(level_key(&json(score), 3), Aim::Nothing));
    assert!(matches!(
        target_key(&json(r#"{"type":"numeric"}"#), &json(r#"{"value":4}"#), &probs(&["0", "5"])),
        Aim::Nearest(v) if v == "4"
    ));
    // abstention is a target only where it has a probability; bounds never are
    assert_eq!(
        key(r#"{"type":"choice"}"#, r#"{"status":"abstained"}"#, &["__abstain__"]),
        Some("__abstain__".to_string())
    );
    assert_eq!(key(r#"{"type":"choice"}"#, r#"{"status":"abstained"}"#, &["a"]), None);
    assert_eq!(key(r#"{"type":"numeric"}"#, r#"{"status":"out_of_bounds","value":4}"#, &["0"]), None);
    assert_eq!(key(r#"{"type":"magic"}"#, r#"{"choice":"a"}"#, &["a"]), None);
}

#[test]
fn the_nearest_key_wins_the_first_of_equals() {
    let d = |v: &[Option<f64>]| nearest(&v.iter().map(|x| x.map(f64::to_bits)).collect());
    assert_eq!(d(&[Some(4.0), None, Some(1.0), Some(1.0)]), Some(2));
    assert_eq!(d(&[None, None]), None);
    assert_eq!(d(&[Some(0.0)]), Some(0));
}

#[test]
fn cases_without_an_id_fold_by_place() {
    let c = json(r#"{"id":"route-01","question":{"type":"noul"}}"#);
    assert_eq!(place_case(&c, 0), ("boolean".to_string(), fold_of("route-01")));
    assert_eq!(place_case(&c, 3), place_case(&c, 0));
    assert_eq!(place_case(&json(r#"{"id":""}"#), 7), ("?".to_string(), 2));
}

#[test]
fn rows_are_never_scored_on_what_they_were_fitted_on() {
    let rows = vec![10, 11, 12, 13];
    let folds: Vec<usize> = (0..14).map(|i| [0, 0, 1, 2][i % 4]).collect();
    let ss = splits(&rows, &folds);
    assert_eq!(ss.len(), 5);
    for (f, s) in ss.iter().enumerate() {
        assert!(s.test.iter().all(|r| folds[*r] == f));
        assert!(s.train.iter().all(|r| folds[*r] != f));
        assert_eq!(s.test.len() + s.train.len(), 4);
    }
    // too little left to fit on: the fold is left out
    assert_eq!(splits(&vec![0, 2], &vec![0, 0, 1]).len(), 3);
    assert!(fits(4) && !fits(3));
}

#[test]
fn resamples_draw_whole_groups() {
    let gs = groups(&vec![4, 2, 4, 9]);
    assert_eq!(gs.iter().map(|g| (g.key, g.members.clone())).collect::<Vec<_>>(), [
        (2, vec![1]),
        (4, vec![0, 2]),
        (9, vec![3])
    ]);
    let mut rng = Rng::new(42);
    for _ in 0..20 {
        let r = resample(&gs, &mut rng);
        assert_eq!(r.iter().filter(|i| **i == 0).count(), r.iter().filter(|i| **i == 2).count());
        assert!((3..=6).contains(&r.len()));
    }
}

fn calibration() -> Calibration {
    Calibration {
        model: "snap-m".to_string(),
        prompt_version: 4,
        temperatures: vec![("boolean".to_string(), "1.25".to_string()), ("choice".to_string(), "0.9".to_string())],
        fitted: 12,
        skipped: 3,
        ece_before: "0.2".to_string(),
        ece_after: "0.1".to_string(),
        ece_oof: "0.15".to_string(),
        ci_before: ("0.1".to_string(), "0.3".to_string()),
        ci_oof: ("0.05".to_string(), "0.25".to_string()),
        ci_separated: false,
    }
}

#[test]
fn calibrations_bind_to_model_and_prompt() {
    let c = calibration();
    assert!(c.check("snap-m").is_ok());
    assert_eq!(
        c.check("other").err().map(|e| e.message()),
        Some("calibration was fit on \"snap-m\", this engine is \"other\"".to_string())
    );
    let old = Calibration { prompt_version: 3, ..c };
    assert_eq!(
        old.check("snap-m").err().map(|e| e.message()),
        Some("calibration used prompt format v3, this build uses v4".to_string())
    );
    assert_eq!(old.temp("boolean"), "1.25");
    assert_eq!(old.temp("score"), "1.0");
    assert!(separated(0.1f64.to_bits(), 0.2f64.to_bits()));
    assert!(!separated(0.2f64.to_bits(), 0.2f64.to_bits()));
}

#[test]
fn calibrations_read_back() {
    let d = document(&calibration());
    let c = Calibration::load("c.json", &d).unwrap_or_else(|e| panic!("{e}"));
    assert_eq!((c.model.as_str(), c.prompt_version, c.fitted), ("snap-m", 4, 12));
    assert_eq!(c.temperatures, calibration().temperatures);
    assert_eq!((c.ece_before.as_str(), c.ece_after.as_str(), c.ece_oof.as_str()), ("0.2", "0.1", "0.15"));
    assert_eq!(Calibration::load("c.json", &Value::Null).err(), Some("c.json: not a snap calibration file".to_string()));
    // older files name the errors otherwise
    let old = json(r#"{"kind":"snap-calibration","ece":{"before":0.4,"after":0.3},"temperatures":{"score":null}}"#);
    let c = Calibration::load("c.json", &old).unwrap_or_else(|e| panic!("{e}"));
    assert_eq!((c.ece_before.as_str(), c.ece_after.as_str(), c.ece_oof.as_str()), ("0.4", "0.3", "0.0"));
    assert_eq!(c.temp("score"), "1.0");
}

#[test]
fn a_fit_goes_by_question_type() {
    let names: Vec<String> = ["score", "boolean", "boolean", "boolean", "boolean"].iter().map(|s| s.to_string()).collect();
    let plan = fit_plan(&names, &vec![0, 0, 1, 1, 2]);
    assert_eq!(plan.iter().map(|b| b.name.as_str()).collect::<Vec<_>>(), ["boolean", "score"]);
    assert_eq!(plan[0].members, [1, 2, 3, 4]);
    assert!(plan[0].fitted && !plan[1].fitted);
    assert_eq!(plan[0].splits.len(), FOLDS);
    assert_eq!((&plan[0].splits[1].train, &plan[0].splits[1].test), (&vec![1, 4], &vec![2, 3]));
    // one row leaves nothing to fit on
    assert!(plan[1].splits.is_empty());
}

/// Expected calibration error: 10 equal-width bins over the top probability.
fn ece(samples: &[(f64, bool)]) -> f64 {
    let (mut cnt, mut conf, mut acc) = ([0usize; 10], [0f64; 10], [0usize; 10]);
    for (c, ok) in samples {
        let i = ((c * 10.0) as usize).min(9);
        cnt[i] += 1;
        conf[i] += c;
        acc[i] += *ok as usize;
    }
    let n = samples.len() as f64;
    (0..10)
        .filter(|&i| cnt[i] > 0)
        .map(|i| (cnt[i] as f64 / n) * (acc[i] as f64 / cnt[i] as f64 - conf[i] / cnt[i] as f64).abs())
        .sum()
}

#[test]
fn bootstrap_ci_brackets_the_point_estimate() {
    // 20 groups of 4 rows, conf 0.8, 75% accurate -> ece ~0.05
    let rows: Vec<(usize, f64, bool)> = (0..20).flat_map(|g| (0..4).map(move |i| (g, 0.8, i < 3))).collect();
    let gs = groups(&rows.iter().map(|r| r.0).collect());
    let mut rng = Rng::new(42);
    let mut vals: Vec<f64> = (0..BOOT)
        .map(|_| {
            let draw = resample(&gs, &mut rng);
            ece(&draw.iter().map(|&r| (rows[r].1, rows[r].2)).collect::<Vec<_>>())
        })
        .collect();
    vals.sort_by(|a, b| a.partial_cmp(b).unwrap());
    let (lo, hi) = (vals[LOW], vals[HIGH]);
    let point = ece(&rows.iter().map(|(_, c, ok)| (*c, *ok)).collect::<Vec<_>>());
    assert!(lo <= point && point <= hi, "point {point} outside [{lo},{hi}]");
    assert!(hi - lo < 0.3); // sane width at n=80
}
