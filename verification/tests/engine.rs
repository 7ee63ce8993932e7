//! The engine end to end, over the simulated runtime.
use std::collections::{HashMap, HashSet};

use snap::answer::{folded_answers, item_answers, option_masses, Readout, Weighed};
use snap::batch::{batches, wants};
use snap::decide::{response, Decided, Engine, EngineError};
use snap::decisions::{counted, decode, Reading, Shares};
use snap::engine::{resolve_layout, Ask};
use snap::fold::assemble;
use snap::frame::prompt_tokens;
use snap::kv::{Backend, Dec, DecodeError};
use snap::num::Num;
use snap::prompts::{slots_for, user_message, Slot};
use snap::run::KvError;
use snap::schema::{default_granularity, DecideRequest, Expand, Layout, Mode, QType, Question};
use snap::value::{copy, look, Value};

/// Simulated llama.cpp memory: a unified pool of KV cells shared through seq
/// tags, per-seq token histories, and the rules llama.cpp enforces on every
/// decode call (positions, coupled seqs, capacity): violations panic, capacity
/// returns NoSlot atomically. A row is a hash of its sequence's whole history,
/// so it equals `row(prompt)` exactly when precisely that prompt was assembled
/// at positions 0.. on that seq. Tokens are bytes, but for the template's own
/// markers; the chat template is a fixed wrapper.
struct Sim {
    n_ctx: usize,
    n_seq: usize,
    n_batch: usize,
    seqs: Vec<Vec<(i32, usize)>>,
    refs: HashMap<usize, usize>,
    next: usize,
    calls: usize,
    /// genuine out-of-cells failures: a planner sizing waves right never
    /// causes one
    no_slots: usize,
    /// make this decode call (1-based) fail with NoSlot
    fail_call: Option<usize>,
    /// fail every decode call
    broken: bool,
    /// the row of each job of the last run
    rows: HashMap<usize, Vec<f32>>,
}

const N_VOCAB: usize = 259;
const MARKERS: [&str; 3] = ["<s>", "<u>", "<a>"];

impl Sim {
    fn new(n_ctx: usize, n_seq: usize, n_batch: usize) -> Sim {
        Sim {
            n_ctx,
            n_seq,
            n_batch,
            seqs: vec![Vec::new(); n_seq],
            refs: HashMap::new(),
            next: 0,
            calls: 0,
            no_slots: 0,
            fail_call: None,
            broken: false,
            rows: HashMap::new(),
        }
    }

    fn history(&self, seq: i32) -> Vec<i32> {
        self.seqs[seq as usize].iter().map(|c| c.0).collect()
    }

    fn used(&self) -> usize {
        self.refs.len()
    }
}

/// Deterministic pseudo-logits for a token history.
fn row(hist: &[i32]) -> Vec<f32> {
    let mut h = 0xcbf2_9ce4_8422_2325u64;
    for &t in hist {
        h = (h ^ t as u64).wrapping_mul(0x0100_0000_01b3);
    }
    (0..N_VOCAB)
        .map(|_| {
            h ^= h >> 12;
            h ^= h << 25;
            h ^= h >> 27;
            (h.wrapping_mul(0x2545_f491_4f6c_dd1d) >> 40) as f32 / (1u64 << 21) as f32 - 4.0
        })
        .collect()
}

impl Backend for Sim {
    fn render(&self, system: &str, user: &str) -> Result<String, String> {
        Ok(format!("<s>{system}<u>{user}<a>"))
    }

    fn tokenize(&self, text: &str, special: bool) -> Result<Vec<i32>, String> {
        let mut out = Vec::new();
        let mut rest = text;
        while !rest.is_empty() {
            if special {
                if let Some(m) = MARKERS.iter().position(|m| rest.starts_with(m)) {
                    out.push(256 + m as i32);
                    rest = &rest[3..];
                    continue;
                }
            }
            let n = rest.chars().next().unwrap().len_utf8();
            out.extend(rest[..n].bytes().map(i32::from));
            rest = &rest[n..];
        }
        Ok(out)
    }

    fn decode(&mut self, groups: &Vec<Dec>, jobs: &Vec<Vec<usize>>) -> Result<(), DecodeError> {
        assert_eq!(groups.len(), jobs.len());
        for chunk in batches(groups, self.n_batch) {
            self.calls += 1;
            if self.broken {
                return Err(DecodeError::Failed("device lost".to_string()));
            }
            if self.fail_call == Some(self.calls) {
                return Err(DecodeError::NoSlot);
            }
            if self.used() + chunk.len() > self.n_ctx {
                self.no_slots += 1;
                return Err(DecodeError::NoSlot);
            }
            // coupled seqs must hold identical histories before the call,
            // positions continue each seq's history without gaps
            let mut len: HashMap<i32, usize> = HashMap::new();
            let mut seen = HashSet::new();
            for p in &chunk {
                let d = &groups[p.group];
                for &s in &d.seqs {
                    assert!((s as usize) < self.n_seq, "seq {s} out of range");
                    let l = len.entry(s).or_insert_with(|| self.seqs[s as usize].len());
                    assert_eq!(d.pos0 + p.at, *l, "seq {s}: position gap or overlap");
                    *l += 1;
                }
                if seen.insert(p.group) {
                    let h0 = self.history(d.seqs[0]);
                    for &s in &d.seqs[1..] {
                        assert_eq!(self.history(s), h0, "coupled seqs diverged");
                    }
                }
            }
            for p in &chunk {
                let d = &groups[p.group];
                self.next += 1;
                self.refs.insert(self.next, d.seqs.len());
                for &s in &d.seqs {
                    self.seqs[s as usize].push((d.toks[p.at], self.next));
                }
                if wants(d, p.at) {
                    let hist = self.history(d.seqs[0]);
                    for &s in &d.seqs[1..] {
                        assert_eq!(self.history(s), hist, "coupled seqs hold different prompts");
                    }
                    for &j in &jobs[p.group] {
                        self.rows.insert(j, row(&hist));
                    }
                }
            }
        }
        Ok(())
    }

    fn seq_rm(&mut self, seq: i32) {
        for (_, c) in std::mem::take(&mut self.seqs[seq as usize]) {
            let r = self.refs.get_mut(&c).unwrap();
            *r -= 1;
            if *r == 0 {
                self.refs.remove(&c);
            }
        }
    }

    fn seq_cp(&mut self, src: i32, dst: i32, len: usize) {
        assert_eq!(self.seqs[src as usize].len(), len, "partial copy of seq {src}");
        assert!(self.seqs[dst as usize].is_empty(), "copy onto non-empty seq {dst}");
        self.seqs[dst as usize] = self.seqs[src as usize].clone();
        for (_, c) in &self.seqs[dst as usize] {
            *self.refs.get_mut(c).unwrap() += 1;
        }
    }

    fn clear(&mut self) {
        self.seqs.iter_mut().for_each(Vec::clear);
        self.refs.clear();
    }
}

fn json(text: &str) -> Value {
    fn of(v: &serde_json::Value) -> Value {
        match v {
            serde_json::Value::Null => Value::Null,
            serde_json::Value::Bool(b) => Value::Bool(*b),
            serde_json::Value::Number(n) => Value::Number(n.to_string()),
            serde_json::Value::String(s) => Value::Str(s.clone()),
            serde_json::Value::Array(a) => Value::Array(a.iter().map(of).collect()),
            serde_json::Value::Object(m) => Value::Object(m.iter().map(|(k, v)| (k.clone(), of(v))).collect()),
        }
    }
    of(&serde_json::from_str(text).unwrap())
}

/// The member at a path of names; null for none.
fn at<'a>(v: &'a Value, path: &[&str]) -> &'a Value {
    path.iter().fold(v, |v, k| look(v, k).unwrap_or(&Value::Null))
}

fn num(v: &Value) -> Option<Num> {
    match v {
        Value::Number(t) => {
            let x = t.parse::<f64>().unwrap();
            Some(Num { bits: x.to_bits(), text: format!("{x}") })
        }
        _ => None,
    }
}

/// A question as a client writes it; abstention is opt-in.
fn question(text: &str) -> Question {
    question_of(&json(text))
}

fn question_of(v: &Value) -> Question {
    let qtype = match at(v, &["type"]) {
        Value::Str(t) if t == "boolean" => QType::Boolean,
        Value::Str(t) if t == "noul" => QType::Noul,
        Value::Str(t) if t == "choice" => QType::Choice,
        Value::Str(t) if t == "score" => QType::Score,
        Value::Str(t) if t == "numeric" => QType::Numeric,
        _ => panic!("type"),
    };
    let int = |k: &str, d: i64| match at(v, &[k]) {
        Value::Number(t) => t.parse::<i64>().unwrap(),
        _ => d,
    };
    let (min, max, granularity) = (num(at(v, &["min"])), num(at(v, &["max"])), int("granularity", default_granularity()));
    let anchors = match (&min, &max) {
        (Some(a), Some(b)) => {
            let (a, b) = (f64::from_bits(a.bits), f64::from_bits(b.bits));
            let n = num(at(v, &["step"])).map_or(granularity, |s| ((b - a) / f64::from_bits(s.bits)).round() as i64 + 1);
            anchors(a, b, n)
        }
        _ => Vec::new(),
    };
    Question {
        qtype,
        instructions: match at(v, &["instructions"]) {
            Value::Str(s) => s.clone(),
            _ => String::new(),
        },
        criteria: look(v, "criteria").map(copy),
        min,
        max,
        granularity,
        anchors,
        allow_abstain: *at(v, &["allow_abstain"]) == Value::Bool(true),
    }
}

/// Evenly spaced values, as they print.
fn anchors(min: f64, max: f64, n: i64) -> Vec<String> {
    (0..n).map(|i| format!("{}", min + (max - min) * i as f64 / (n - 1) as f64)).collect()
}

const UNCERTAIN_GAP: f64 = 0.15;

fn softmax(logits: &[f64], temperature: f64) -> Vec<f64> {
    let m = logits.iter().cloned().fold(f64::NEG_INFINITY, f64::max);
    let exps: Vec<f64> = logits.iter().map(|x| ((x - m) / temperature).exp()).collect();
    let s: f64 = exps.iter().sum();
    exps.iter().map(|e| e / s).collect()
}

fn confidence(probs: &[f64]) -> f64 {
    let n = probs.len();
    if n < 2 {
        return 1.0;
    }
    let top = probs.iter().cloned().fold(0.0, f64::max);
    ((n as f64 * top - 1.0) / (n as f64 - 1.0)).max(0.0)
}

/// A number as JSON prints it.
fn show(x: f64) -> String {
    serde_json::Value::from(x).to_string()
}

fn rounded(x: f64, scale: f64) -> String {
    show((x * scale).round() / scale)
}

fn gap(p: &[f64]) -> f64 {
    let mut o = p.to_vec();
    o.sort_by(|a, b| b.partial_cmp(a).unwrap());
    if o.len() > 1 {
        o[0] - o[1]
    } else {
        1.0
    }
}

fn read(q: &Question, slots: &Vec<Slot>, logits: &[f64], temperature: f64) -> Reading {
    let probs = softmax(logits, temperature);
    let used = counted(q, slots);
    let n = used.len();
    let score: f64 = if n > 1 {
        used.iter().enumerate().map(|(i, s)| probs[*s] * i as f64 / (n - 1) as f64).sum()
    } else {
        0.0
    };
    let mass: f64 = used.iter().map(|s| probs[*s]).sum();
    let value: f64 =
        used.iter().map(|s| probs[*s] * slots[*s].key.parse::<f64>().unwrap_or(0.0)).sum::<f64>() / mass;
    Reading {
        probs: probs.iter().map(|p| p.to_bits()).collect(),
        shown: probs.iter().map(|p| rounded(*p, 1e6)).collect(),
        close: gap(&probs) < UNCERTAIN_GAP,
        confidence: rounded(confidence(&probs), 1e4),
        score: rounded(score, 1e4),
        value: (mass > 0.0).then(|| rounded(value, 1e6)),
    }
}

fn shares(scores: &[f64], ranked: bool) -> Shares {
    let sum: f64 = scores.iter().sum();
    let norm: Vec<f64> = if sum > 0.0 {
        scores.iter().map(|p| p / sum).collect()
    } else {
        vec![1.0 / scores.len().max(1) as f64; scores.len()]
    };
    let by: &[f64] = if ranked { &norm } else { scores };
    Shares {
        scores: by.iter().map(|p| p.to_bits()).collect(),
        shown: norm.iter().map(|p| rounded(*p, 1e6)).collect(),
        close: gap(by) < UNCERTAIN_GAP,
        confidence: rounded(confidence(&norm), 1e4),
    }
}

/// Letter logits (max over each letter's token variants) and coverage: the
/// share of the raw next-token mass landing on the allowed letters at all.
fn read_row(row: &[f32], letters: &[Vec<i32>]) -> (Vec<f64>, f64) {
    let logits = letters
        .iter()
        .map(|ids| ids.iter().map(|&t| row[t as usize] as f64).fold(f64::NEG_INFINITY, f64::max))
        .collect();
    let max = row.iter().fold(f32::NEG_INFINITY, |a, &b| a.max(b)) as f64;
    let all: f64 = row.iter().map(|&l| (l as f64 - max).exp()).sum();
    let hit: f64 = letters.iter().flatten().map(|&t| (row[t as usize] as f64 - max).exp()).sum();
    (logits, if all > 0.0 { hit / all } else { 0.0 })
}

fn engine(n_ctx: usize, n_seq: usize, n_batch: usize) -> Engine<Sim> {
    match Engine::new(Sim::new(n_ctx, n_seq, n_batch), n_seq, n_ctx, "snap-sim".to_string()) {
        Ok(e) => e,
        Err(e) => panic!("{}", e.message()),
    }
}

fn float(v: &Value, path: &[&str]) -> f64 {
    match at(v, path) {
        Value::Number(t) => t.parse().unwrap(),
        _ => 0.0,
    }
}

/// Decide a request and read every row, as a caller does.
fn ask(eng: &mut Engine<Sim>, req: &DecideRequest) -> Result<Value, EngineError> {
    eng.llm.rows.clear();
    let d: Decided = eng.decide(req)?;
    let asks = &d.compiled.asks;
    let readouts: Vec<Readout> = (0..asks.asks.len())
        .map(|i| {
            let slots = &d.compiled.slots[i];
            let (logits, cov) = read_row(&eng.llm.rows[&i], &eng.letter_ids[..slots.len()]);
            Readout {
                reading: read(&asks.asks[i].q, slots, &logits, f64::from_bits(req.temperature)),
                coverage: rounded(cov, 1e4),
            }
        })
        .collect();
    let answers = item_answers(&d.compiled, &readouts);
    let weighed: Vec<Weighed> = asks
        .folded
        .iter()
        .map(|f| {
            let cov: f64 = answers[f.first..f.first + f.n].iter().map(|a| float(a, &["coverage"])).sum();
            let raw: Vec<f64> = option_masses(f, req.expand, &answers)
                .iter()
                .map(|m| m.iter().map(|t| t.as_ref().map_or(0.0, |t| t.parse::<f64>().unwrap())).sum::<f64>())
                .collect();
            Weighed {
                shares: shares(&raw, req.expand == Expand::Pages),
                empty: raw.iter().sum::<f64>() <= 0.0,
                coverage: rounded(cov / f.n.max(1) as f64, 1e4),
            }
        })
        .collect();
    let merged = folded_answers(asks, req.expand, &weighed);
    let out = assemble(asks, &answers, &merged);
    Ok(response(&d, &eng.head, out, &eng.model_id, "0.0", "0.0"))
}

fn decided(eng: &mut Engine<Sim>, req: &DecideRequest) -> Value {
    ask(eng, req).unwrap_or_else(|e| panic!("{}", e.message()))
}

fn layout(name: &str) -> Layout {
    snap::evaluate::layout_of(name).unwrap()
}

fn req(state: &str, questions: &str) -> DecideRequest {
    let questions = match json(questions) {
        Value::Object(m) => m.iter().map(|(k, v)| (k.clone(), Ok(question_of(v)))).collect(),
        _ => panic!("questions"),
    };
    DecideRequest {
        model: None,
        state: json(state),
        questions,
        temperature: 1.0f64.to_bits(),
        mode: Mode::Shared,
        layout: Layout::Auto,
        expand: Expand::Probes,
        compact_state: false,
    }
}

fn big_choice(n: usize) -> String {
    let c: Vec<String> = (0..n).map(|i| format!("\"o{i}\": \"option number {i}\"")).collect();
    format!("{{{}}}", c.join(", "))
}

/// A question set touching every type, abstain, and both expansions.
fn questions() -> String {
    format!(
        r#"{{"urgent": {{"type": "noul", "instructions": "Is it urgent?"}},
            "route": {{"type": "choice", "instructions": "Which team?",
                      "criteria": {{"billing": "payments", "tech": "bugs", "sales": "pricing"}}}},
            "mood": {{"type": "score", "instructions": "How angry?", "criteria": ["calm", "annoyed", "furious"]}},
            "days": {{"type": "numeric", "instructions": "Refund in days?", "min": 0, "max": 10, "granularity": 5}},
            "maybe": {{"type": "boolean", "instructions": "Enough info?", "allow_abstain": true}},
            "sku": {{"type": "choice", "instructions": "Which product?", "criteria": {}}}}}"#,
        big_choice(30)
    )
}

const LAYOUTS: [&str; 5] = ["auto", "state_first", "question_first", "header", "catalog"];

#[test]
fn every_path_answers_like_direct_decoding() {
    // direct mode decodes every item alone off the head: the reference
    for (n_ctx, n_seq, n_batch) in [(1 << 16, 65, 512), (1 << 16, 17, 97), (6000, 5, 64)] {
        let mut eng = engine(n_ctx, n_seq, n_batch);
        for l in LAYOUTS {
            for expand in [Expand::Probes, Expand::Pages] {
                let r = |mode: Mode| DecideRequest {
                    layout: layout(l),
                    expand,
                    mode,
                    ..req(r#"{"ticket": "refund please, charged twice"}"#, &questions())
                };
                let reference = decided(&mut eng, &r(Mode::Direct));
                for pass in 0..2 {
                    let out = decided(&mut eng, &r(Mode::Shared));
                    assert_eq!(at(&out, &["answers"]), at(&reference, &["answers"]), "{l} pass {pass}");
                }
            }
        }
    }
}

#[test]
fn answer_is_the_softmax_of_the_prompt_letters() {
    let mut eng = engine(1 << 16, 65, 512);
    let qj = r#"{"type": "boolean", "instructions": "Spam?"}"#;
    let q = question(qj);
    let r = DecideRequest { layout: Layout::StateFirst, ..req("\"buy now\"", &format!("{{\"q\": {qj}}}")) };
    let out = decided(&mut eng, &r);
    // rebuild the prompt by hand and read the same row the sim hands out
    let slots = slots_for(&q);
    let msg = user_message("buy now", &q, &slots, Layout::StateFirst, &vec![]);
    let toks = match prompt_tokens(&eng.llm, &eng.frame.0, &eng.frame.1, &msg) {
        Ok(t) => t,
        Err(_) => panic!("no prompt"),
    };
    let (logits, _) = read_row(&row(&toks), &eng.letter_ids[..slots.len()]);
    let want = decode(&q, &slots, &read(&q, &slots, &logits, 1.0));
    assert_eq!(at(&out, &["answers", "q", "probabilities"]), at(&want, &["probabilities"]));
}

#[test]
fn repeats_hit_the_cache_and_decode_less() {
    let mut eng = engine(1 << 16, 65, 512);
    for l in ["state_first", "question_first", "catalog"] {
        let r = DecideRequest { layout: layout(l), ..req("\"a long enough ticket body\"", &questions()) };
        let cold = decided(&mut eng, &r);
        let warm = decided(&mut eng, &r);
        assert_eq!(at(&cold, &["answers"]), at(&warm, &["answers"]));
        let tok = |v: &Value| float(v, &["usage", "input_tokens"]);
        assert!(tok(&warm) < tok(&cold), "{l}: no reuse");
        assert!(float(&warm, &["x_snap", "cache_hits"]) > 0.0, "{l}");
        assert!(tok(&cold) < float(&warm, &["x_snap", "prompt_tokens"]));
    }
}

#[test]
fn shared_prefix_is_decoded_once() {
    let mut eng = engine(1 << 16, 65, 512);
    let qs: Vec<String> =
        (0..8).map(|i| format!("\"q{i}\": {{\"type\": \"noul\", \"instructions\": \"Item {i}?\"}}")).collect();
    let r = |mode| DecideRequest { mode, ..req(&format!("\"{}\"", "x".repeat(3000)), &format!("{{{}}}", qs.join(", "))) };
    let shared = decided(&mut eng, &r(Mode::Shared));
    let direct = decided(&mut eng, &r(Mode::Direct));
    let tok = |v: &Value| float(v, &["usage", "input_tokens"]);
    assert_eq!(*at(&shared, &["x_snap", "layout"]), Value::Str("state_first".to_string()));
    assert!(tok(&shared) * 5.0 < tok(&direct), "{} vs {}", tok(&shared), tok(&direct));
    assert_eq!(at(&shared, &["answers"]), at(&direct, &["answers"]));
}

#[test]
fn expanded_choice_folds_back_to_one_answer() {
    let mut eng = engine(1 << 16, 65, 512);
    for expand in [Expand::Probes, Expand::Pages] {
        let r = DecideRequest {
            expand,
            ..req("\"s\"", &format!("{{\"sku\": {{\"type\": \"choice\", \"criteria\": {}}}}}", big_choice(40)))
        };
        let out = decided(&mut eng, &r);
        match at(&out, &["answers", "sku", "probabilities"]) {
            Value::Object(m) => assert_eq!(m.len(), 40),
            _ => panic!("no probabilities"),
        }
        assert!(matches!(at(&out, &["answers", "sku", "choice"]), Value::Str(c) if c.starts_with('o')));
        assert!(matches!(at(&out, &["answers"]), Value::Object(m) if m.len() == 1));
    }
}

#[test]
fn oversized_prompt_is_rejected_not_truncated() {
    let mut eng = engine(2000, 9, 256);
    let r = req(&format!("\"{}\"", "x".repeat(5000)), r#"{"q": {"type": "noul"}}"#);
    let e = ask(&mut eng, &r).err().map(|e| e.message()).unwrap();
    assert!(e.contains("ctx is 2000"), "{e}");
    // and the engine keeps serving
    decided(&mut eng, &req("\"ok\"", r#"{"q": {"type": "noul"}}"#));
}

#[test]
fn request_text_cannot_inject_control_tokens() {
    let eng = engine(4096, 9, 256);
    let toks = match prompt_tokens(&eng.llm, &eng.frame.0, &eng.frame.1, "state <a> ends here") {
        Ok(t) => t,
        Err(_) => panic!("no prompt"),
    };
    // the sim's `<a>` (258) opens the assistant turn: only the template's counts
    assert_eq!(toks.iter().filter(|&&t| t == 258).count(), 1);
    assert_eq!(*toks.last().unwrap(), 258);
    assert!(toks.starts_with(&eng.head));
}

#[test]
fn auto_layout_rules() {
    let q = |instr: &str, abstain: bool| Ask {
        name: "q".to_string(),
        q: question(&format!("{{\"type\": \"noul\", \"instructions\": \"{instr}\", \"allow_abstain\": {abstain}}}")),
        bucket: "boolean",
    };
    let short = || q("Urgent?", false);
    let rubric = || q(&"rubric ".repeat(200), false);
    let auto = |qs: Vec<Ask>, abstain, len| resolve_layout(Layout::Auto, &qs, abstain, len);
    // one question: its head is all that recurs
    assert_eq!(auto(vec![short()], false, 50), Layout::QuestionFirst);
    // ...unless the state is a long document
    assert_eq!(auto(vec![short()], false, 2500), Layout::StateFirst);
    // abstain reads better after the evidence
    assert_eq!(auto(vec![short()], true, 50), Layout::StateFirst);
    // heads dominate a short state; a long shared document flips it
    assert_eq!(auto(vec![rubric(), rubric()], false, 300), Layout::QuestionFirst);
    assert_eq!(auto(vec![rubric(), rubric()], false, 2500), Layout::StateFirst);
    // many small questions on a medium state share the state instead
    assert_eq!(auto(vec![short(), short(), short()], false, 500), Layout::StateFirst);
    // explicit layouts pass through
    assert_eq!(resolve_layout(Layout::Header, &vec![short()], true, 9), Layout::Header);
}

#[test]
fn auto_layout_counts_characters_not_bytes() {
    let mut eng = engine(1 << 16, 65, 512);
    let q = format!(
        "{{\"q\": {{\"type\": \"noul\", \"instructions\": \"{}\", \"allow_abstain\": false}}}}",
        "r".repeat(1600)
    );
    let used = |eng: &mut Engine<Sim>, n: usize| {
        let r = req(&format!("\"{}\"", "\u{e9}".repeat(n)), &q);
        match at(&decided(eng, &r), &["x_snap", "layout"]) {
            Value::Str(s) => s.clone(),
            _ => panic!("no layout"),
        }
    };
    assert_eq!(used(&mut eng, 1500), "question_first");
    assert_eq!(used(&mut eng, 2000), "question_first");
    assert_eq!(used(&mut eng, 2001), "state_first");
    // heads are weighed in characters too: 2 x 600 against a state of 1000
    let wide = |n: usize| Ask {
        name: "q".to_string(),
        q: question(&format!(
            "{{\"type\": \"noul\", \"instructions\": \"{}\", \"allow_abstain\": false}}",
            "\u{e9}".repeat(n)
        )),
        bucket: "boolean",
    };
    let auto = |n: usize| resolve_layout(Layout::Auto, &vec![wide(n), wide(n)], false, 1000);
    assert_eq!(auto(600), Layout::QuestionFirst);
    assert_eq!(auto(500), Layout::StateFirst);
}

#[test]
fn a_backend_that_keeps_failing_is_tried_twice() {
    let mut eng = engine(1 << 16, 65, 512);
    let r = req("\"s\"", &questions());
    let want = decided(&mut eng, &r);
    eng.llm.broken = true;
    let calls = eng.llm.calls;
    match ask(&mut eng, &r) {
        Err(EngineError::Kv(KvError::Decode(DecodeError::Failed(why)))) => assert_eq!(why, "device lost"),
        _ => panic!("not refused"),
    }
    // the request, then the head that memory is rebuilt with
    assert_eq!(eng.llm.calls, calls + 2);
    eng.llm.broken = false;
    assert_eq!(at(&decided(&mut eng, &r), &["answers"]), at(&want, &["answers"]));
}

#[test]
fn a_failed_decode_is_retried_once_on_a_fresh_cache() {
    let mut eng = engine(1 << 16, 65, 512);
    let r = req("\"s\"", &questions());
    let want = decided(&mut eng, &r);
    eng.llm.fail_call = Some(eng.llm.calls + 1);
    assert_eq!(at(&decided(&mut eng, &r), &["answers"]), at(&want, &["answers"]));
}

#[test]
fn bad_requests_are_refused_before_anything_is_decoded() {
    let mut eng = engine(1 << 16, 65, 512);
    let calls = eng.llm.calls;
    let r = DecideRequest { temperature: 0.0f64.to_bits(), ..req("\"s\"", &questions()) };
    assert!(matches!(ask(&mut eng, &r), Err(EngineError::Schema(_))));
    assert_eq!(eng.llm.calls, calls);
    // nor do they cost anything that was cached
    decided(&mut eng, &req("\"s\"", &questions()));
    let (calls, cached) = (eng.llm.calls, eng.kv.entries());
    assert!(cached.len() > 1);
    assert!(ask(&mut eng, &r).is_err());
    let long = req(&format!("\"{}\"", "x".repeat(1 << 17)), &questions());
    assert!(matches!(ask(&mut eng, &long), Err(EngineError::TooLong { .. })));
    assert_eq!((eng.llm.calls, eng.kv.entries()), (calls, cached));
}

#[test]
fn the_response_says_what_was_done() {
    let mut eng = engine(1 << 16, 65, 512);
    let out = decided(&mut eng, &req("\"s\"", r#"{"a": {"type": "noul"}, "b": {"type": "boolean", "instructions": "B?"}}"#));
    assert_eq!(*at(&out, &["model"]), Value::Str("snap-sim".to_string()));
    assert_eq!(float(&out, &["x_snap", "decoded_items"]), 2.0);
    assert_eq!(float(&out, &["x_snap", "waves"]), 1.0);
    assert_eq!(float(&out, &["x_snap", "cached_head_tokens"]), eng.head.len() as f64);
    let names: Vec<&str> = match at(&out, &["answers"]) {
        Value::Object(m) => m.iter().map(|(k, _)| k.as_str()).collect(),
        _ => panic!("answers"),
    };
    assert_eq!(names, ["a", "b"]);
}

#[test]
fn warmup_runs_two_requests() {
    let mut eng = engine(1 << 16, 17, 256);
    assert!(eng.warmup().is_ok());
    // the second request is about the same state, so it starts from the first
    assert!(eng.llm.calls >= 2);
    assert_eq!(eng.llm.rows.len(), 2);
    let one = snap::warm::warmup_request(true);
    let out = decided(&mut eng, &one);
    assert_eq!(at(&out, &["x_snap", "cache_hits"]), &Value::Number("1".to_string()));
    // what the backend refuses is not hidden
    let mut eng = engine(1 << 16, 17, 256);
    eng.kv.n_ctx = 8;
    assert!(eng.warmup().is_err());
}
