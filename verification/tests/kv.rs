//! The cache against a simulated runtime that enforces its rules.
use std::collections::{HashMap, HashSet};

use snap::batch::{batches, wants};
use snap::kv::{Backend, Dec, DecodeError, Job, Kv};
use snap::run::{KvError, Stats};

/// Simulated llama.cpp memory: a unified pool of KV cells shared through seq
/// tags, per-seq token histories, and the rules llama.cpp enforces on every
/// decode call (positions, coupled seqs, capacity): violations panic, capacity
/// returns NoSlot atomically. A row is a hash of its sequence's whole history,
/// so it equals `row(prompt)` exactly when precisely that prompt was assembled
/// at positions 0.. on that seq. Tokens are bytes, but for the template's own
/// markers; the chat template is a fixed wrapper.
struct Sim {
    n_ctx: usize,
    n_seq: usize,
    n_batch: usize,
    seqs: Vec<Vec<(i32, usize)>>,
    refs: HashMap<usize, usize>,
    next: usize,
    calls: usize,
    /// sequences removed, in order
    removed: Vec<i32>,
    /// genuine out-of-cells failures: a planner sizing waves right never
    /// causes one
    no_slots: usize,
    /// make this decode call (1-based) fail with NoSlot
    fail_call: Option<usize>,
    /// the row of each job of the last run
    rows: HashMap<usize, Vec<f32>>,
}

const N_VOCAB: usize = 259;
const MARKERS: [&str; 3] = ["<s>", "<u>", "<a>"];

impl Sim {
    fn new(n_ctx: usize, n_seq: usize, n_batch: usize) -> Sim {
        Sim {
            n_ctx,
            n_seq,
            n_batch,
            seqs: vec![Vec::new(); n_seq],
            refs: HashMap::new(),
            next: 0,
            calls: 0,
            removed: Vec::new(),
            no_slots: 0,
            fail_call: None,
            rows: HashMap::new(),
        }
    }

    fn history(&self, seq: i32) -> Vec<i32> {
        self.seqs[seq as usize].iter().map(|c| c.0).collect()
    }

    fn used(&self) -> usize {
        self.refs.len()
    }
}

/// Deterministic pseudo-logits for a token history.
fn row(hist: &[i32]) -> Vec<f32> {
    let mut h = 0xcbf2_9ce4_8422_2325u64;
    for &t in hist {
        h = (h ^ t as u64).wrapping_mul(0x0100_0000_01b3);
    }
    (0..N_VOCAB)
        .map(|_| {
            h ^= h >> 12;
            h ^= h << 25;
            h ^= h >> 27;
            (h.wrapping_mul(0x2545_f491_4f6c_dd1d) >> 40) as f32 / (1u64 << 21) as f32 - 4.0
        })
        .collect()
}

impl Backend for Sim {
    fn render(&self, system: &str, user: &str) -> Result<String, String> {
        Ok(format!("<s>{system}<u>{user}<a>"))
    }

    fn tokenize(&self, text: &str, special: bool) -> Result<Vec<i32>, String> {
        let mut out = Vec::new();
        let mut rest = text;
        while !rest.is_empty() {
            if special {
                if let Some(m) = MARKERS.iter().position(|m| rest.starts_with(m)) {
                    out.push(256 + m as i32);
                    rest = &rest[3..];
                    continue;
                }
            }
            let n = rest.chars().next().unwrap().len_utf8();
            out.extend(rest[..n].bytes().map(i32::from));
            rest = &rest[n..];
        }
        Ok(out)
    }

    fn decode(&mut self, groups: &Vec<Dec>, jobs: &Vec<Vec<usize>>) -> Result<(), DecodeError> {
        assert_eq!(groups.len(), jobs.len());
        for chunk in batches(groups, self.n_batch) {
            self.calls += 1;
            if self.fail_call == Some(self.calls) {
                return Err(DecodeError::NoSlot);
            }
            if self.used() + chunk.len() > self.n_ctx {
                self.no_slots += 1;
                return Err(DecodeError::NoSlot);
            }
            // coupled seqs must hold identical histories before the call,
            // positions continue each seq's history without gaps
            let mut len: HashMap<i32, usize> = HashMap::new();
            let mut seen = HashSet::new();
            for p in &chunk {
                let d = &groups[p.group];
                for &s in &d.seqs {
                    assert!((s as usize) < self.n_seq, "seq {s} out of range");
                    let l = len.entry(s).or_insert_with(|| self.seqs[s as usize].len());
                    assert_eq!(d.pos0 + p.at, *l, "seq {s}: position gap or overlap");
                    *l += 1;
                }
                if seen.insert(p.group) {
                    let h0 = self.history(d.seqs[0]);
                    for &s in &d.seqs[1..] {
                        assert_eq!(self.history(s), h0, "coupled seqs diverged");
                    }
                }
            }
            for p in &chunk {
                let d = &groups[p.group];
                self.next += 1;
                self.refs.insert(self.next, d.seqs.len());
                for &s in &d.seqs {
                    self.seqs[s as usize].push((d.toks[p.at], self.next));
                }
                if wants(d, p.at) {
                    let hist = self.history(d.seqs[0]);
                    for &s in &d.seqs[1..] {
                        assert_eq!(self.history(s), hist, "coupled seqs hold different prompts");
                    }
                    for &j in &jobs[p.group] {
                        self.rows.insert(j, row(&hist));
                    }
                }
            }
        }
        Ok(())
    }

    fn seq_rm(&mut self, seq: i32) {
        self.removed.push(seq);
        for (_, c) in std::mem::take(&mut self.seqs[seq as usize]) {
            let r = self.refs.get_mut(&c).unwrap();
            *r -= 1;
            if *r == 0 {
                self.refs.remove(&c);
            }
        }
    }

    fn seq_cp(&mut self, src: i32, dst: i32, len: usize) {
        assert_eq!(self.seqs[src as usize].len(), len, "partial copy of seq {src}");
        assert!(self.seqs[dst as usize].is_empty(), "copy onto non-empty seq {dst}");
        self.seqs[dst as usize] = self.seqs[src as usize].clone();
        for (_, c) in &self.seqs[dst as usize] {
            *self.refs.get_mut(c).unwrap() += 1;
        }
    }

    fn clear(&mut self) {
        self.seqs.iter_mut().for_each(Vec::clear);
        self.refs.clear();
    }
}

impl Sim {
    /// Distinct cells held by `seqs` and not by `but`.
    fn cells_of(&self, seqs: &[i32], but: i32) -> usize {
        let skip: HashSet<usize> = self.seqs[but as usize].iter().map(|c| c.1).collect();
        let mut held: Vec<usize> = seqs
            .iter()
            .flat_map(|&s| self.seqs[s as usize].iter().map(|c| c.1))
            .filter(|c| !skip.contains(c))
            .collect();
        held.sort_unstable();
        held.dedup();
        held.len()
    }

    /// Write tokens straight onto a seq: the residue of an aborted wave.
    fn scribble(&mut self, seq: i32, toks: &[i32]) {
        for &t in toks {
            self.next += 1;
            *self.refs.entry(self.next).or_default() += 1;
            self.seqs[seq as usize].push((t, self.next));
        }
    }
}

/// xorshift: deterministic randomness without a dependency
struct Rng(u64);

impl Rng {
    fn below(&mut self, n: usize) -> usize {
        self.0 ^= self.0 << 13;
        self.0 ^= self.0 >> 7;
        self.0 ^= self.0 << 17;
        (self.0 % n as u64) as usize
    }
}

const HEAD: [i32; 5] = [90, 91, 92, 93, 94];

/// Prompts over a 3-token alphabet after the head: heavy prefix sharing,
/// duplicates and prefix-of-another prompts all show up.
fn prompts(rng: &mut Rng, n: usize) -> Vec<(Vec<i32>, usize)> {
    (0..n)
        .map(|_| {
            let mut t = HEAD.to_vec();
            let len = 1 + rng.below(24);
            t.extend((0..len).map(|_| 1 + rng.below(3) as i32));
            let keep = match rng.below(3) {
                0 => 0,
                _ => HEAD.len() + rng.below(len),
            };
            (t, keep)
        })
        .collect()
}

fn run(kv: &mut Kv, sim: &mut Sim, ps: &[(Vec<i32>, usize)], shared: bool) -> Stats {
    let jobs: Vec<Job> = ps.iter().map(|(t, k)| Job { toks: t, keep: *k }).collect();
    sim.rows.clear();
    let st = match kv.run(sim, &jobs, shared) {
        Ok(st) => st,
        Err(_) => panic!("run failed"),
    };
    for (i, (t, _)) in ps.iter().enumerate() {
        assert_eq!(sim.rows.get(&i), Some(&row(t)), "job {i} got the wrong row");
    }
    check(kv, sim);
    st
}

/// After a run: every entry holds exactly its span, every other seq is
/// empty, the cache respects its budgets.
fn check(kv: &Kv, sim: &Sim) {
    let entries = kv.entries();
    for s in 0..sim.n_seq as i32 {
        match entries.iter().find(|e| e.0 == s) {
            Some((_, toks)) => assert_eq!(&sim.history(s), toks, "entry seq {s}"),
            None => assert!(sim.history(s).is_empty(), "stray tokens on seq {s}"),
        }
    }
    let cached: Vec<i32> = entries.iter().map(|e| e.0).filter(|&s| s != 0).collect();
    assert!(cached.len() <= sim.n_seq / 2, "{} entries", cached.len());
    let cells = sim.cells_of(&cached, 0);
    assert!(cells <= sim.n_ctx / 2, "cache holds {cells} cells");
}

fn setup(n_ctx: usize, n_seq: usize, n_batch: usize) -> (Kv, Sim) {
    let mut sim = Sim::new(n_ctx, n_seq, n_batch);
    match Kv::new(&mut sim, n_seq, n_ctx, HEAD.to_vec()) {
        Ok(kv) => (kv, sim),
        Err(_) => panic!("no cache"),
    }
}

#[test]
fn rows_match_from_scratch_decoding_everywhere() {
    // roomy, hybrid-sized, cramped, and barely-alive contexts
    for (n_ctx, n_seq, n_batch) in [(4096, 65, 64), (4096, 17, 7), (400, 6, 16), (160, 3, 5)] {
        let (mut kv, mut sim) = setup(n_ctx, n_seq, n_batch);
        let mut rng = Rng(0x5eed ^ n_ctx as u64);
        for round in 0..60 {
            let n = 1 + rng.below(40);
            let ps = prompts(&mut rng, n);
            run(&mut kv, &mut sim, &ps, round % 5 != 0);
        }
        // waves are sized from exact trie cell counts
        assert_eq!(sim.no_slots, 0, "ctx {n_ctx}: planner overfilled a wave");
    }
}

#[test]
fn shared_text_is_decoded_once() {
    let (mut kv, mut sim) = setup(4096, 65, 512);
    let mut rng = Rng(7);
    let ps: Vec<(Vec<i32>, usize)> = prompts(&mut rng, 30).into_iter().map(|(t, _)| (t, 0)).collect();
    let st = run(&mut kv, &mut sim, &ps, true);
    // one wave, and exactly one decode per distinct prefix past the head
    let distinct: HashSet<&[i32]> =
        ps.iter().flat_map(|(t, _)| (HEAD.len() + 1..=t.len()).map(move |i| &t[..i])).collect();
    assert_eq!((st.waves, st.decoded), (1, distinct.len()));
    // direct mode shares nothing but the head
    let st = run(&mut kv, &mut sim, &ps, false);
    let total: usize = ps.iter().map(|(t, _)| t.len() - HEAD.len()).sum();
    assert_eq!(st.decoded, total);
}

#[test]
fn kept_spans_are_reused_across_runs() {
    let (mut kv, mut sim) = setup(4096, 65, 64);
    let state: Vec<i32> = HEAD.iter().copied().chain(vec![7; 100]).collect();
    let ps: Vec<(Vec<i32>, usize)> =
        (0..8).map(|q| (state.iter().copied().chain([q, q, q]).collect(), state.len())).collect();
    let cold = run(&mut kv, &mut sim, &ps, true);
    let warm = run(&mut kv, &mut sim, &ps, true);
    assert_eq!((cold.misses, cold.hits), (8, 0));
    assert_eq!((warm.misses, warm.hits), (0, 8));
    assert_eq!(cold.decoded - warm.decoded, 100);
    assert!(kv.entries().iter().any(|(_, t)| *t == state));
}

#[test]
fn a_span_decoded_in_wave_one_serves_later_waves() {
    // 4 seqs: every wave fits two questions, the state goes in once
    let (mut kv, mut sim) = setup(4096, 4, 64);
    let state: Vec<i32> = HEAD.iter().copied().chain(vec![7; 200]).collect();
    let ps: Vec<(Vec<i32>, usize)> =
        (0..6).map(|q| (state.iter().copied().chain([q, 1]).collect(), state.len())).collect();
    let st = run(&mut kv, &mut sim, &ps, true);
    assert!(st.waves >= 3);
    assert!(st.decoded < 200 + 6 * 2 + 50, "state re-decoded: {}", st.decoded);
}

#[test]
fn later_waves_fork_past_the_shared_prefix() {
    // 3 usable seqs force several waves; the prompts share a state (kept
    // across requests) plus a boilerplate stem (held for this run only)
    let (mut kv, mut sim) = setup(4096, 4, 64);
    let state: Vec<i32> = HEAD.iter().copied().chain(vec![7; 200]).collect();
    let stem: Vec<i32> = state.iter().copied().chain([9; 6]).collect();
    let ps: Vec<(Vec<i32>, usize)> =
        (0..6).map(|q| (stem.iter().copied().chain([q, 1]).collect(), state.len())).collect();
    let st = run(&mut kv, &mut sim, &ps, true);
    assert!(st.waves >= 3);
    // state and stem decoded once, each question's own tokens once
    assert_eq!(st.decoded, 200 + 6 + 6 * 2);
    // the held stem was request-scoped
    assert!(kv.entries().iter().all(|e| e.1 != stem));
}

#[test]
fn no_slot_mid_wave_is_retried() {
    let (mut kv, mut sim) = setup(4096, 65, 8);
    let mut rng = Rng(11);
    let ps = prompts(&mut rng, 20);
    sim.fail_call = Some(sim.calls + 3);
    run(&mut kv, &mut sim, &ps, true);
}

#[test]
fn cache_is_evicted_to_make_room() {
    // every run caches a different long span; the context only holds a few
    let (mut kv, mut sim) = setup(600, 17, 32);
    for s in 0..12 {
        let state: Vec<i32> = HEAD.iter().copied().chain(vec![10 + s; 150]).collect();
        let ps: Vec<(Vec<i32>, usize)> =
            (0..3).map(|q| (state.iter().copied().chain([q]).collect(), state.len())).collect();
        run(&mut kv, &mut sim, &ps, true);
    }
}

#[test]
fn oversized_prompt_is_an_error() {
    let (mut kv, mut sim) = setup(64, 4, 16);
    let long: Vec<i32> = HEAD.iter().copied().chain(vec![1; 100]).collect();
    let jobs = vec![Job { toks: &long, keep: 0 }];
    match kv.run(&mut sim, &jobs, true) {
        Err(KvError::Prompt { tokens, ctx }) => assert_eq!((tokens, ctx), (105, 64)),
        _ => panic!("not refused"),
    }
    let fits: Vec<i32> = HEAD.iter().copied().chain(vec![1; 40]).collect();
    run(&mut kv, &mut sim, &[(fits, 0)], true);
}

#[test]
fn a_run_with_a_prompt_that_cannot_be_decoded_decodes_nothing() {
    let (mut kv, mut sim) = setup(64, 8, 16);
    let fits: Vec<i32> = HEAD.iter().copied().chain(vec![1, 2, 3, 4]).collect();
    run(&mut kv, &mut sim, &[(fits.clone(), 7)], true);
    let (calls, cached) = (sim.calls, kv.entries());
    sim.rows.clear();
    for bad in [Vec::new(), vec![1; 65]] {
        let jobs = vec![Job { toks: &fits, keep: 0 }, Job { toks: &bad, keep: 0 }];
        match kv.run(&mut sim, &jobs, true) {
            Err(KvError::Prompt { tokens, ctx }) => assert_eq!((tokens, ctx), (bad.len(), 64)),
            _ => panic!("not refused"),
        }
    }
    assert_eq!(sim.calls, calls);
    assert!(sim.rows.is_empty());
    assert_eq!(kv.entries(), cached);
}

#[test]
fn a_second_run_decodes_less_and_hits() {
    let (mut kv, mut sim) = setup(4096, 16, 64);
    let span: Vec<i32> = HEAD.iter().copied().chain(vec![7; 20]).collect();
    let ps: Vec<(Vec<i32>, usize)> =
        (0..4).map(|i| (span.iter().copied().chain(vec![i; 3]).collect(), span.len())).collect();
    let once = run(&mut kv, &mut sim, &ps, true);
    let again = run(&mut kv, &mut sim, &ps, true);
    assert_eq!((once.decoded, once.waves, once.hits), (20 + 4 * 3, 1, 0));
    assert_eq!((again.decoded, again.waves, again.hits), (4 * 3, 1, 4));
    // in either mode the head is not decoded again
    let alone = run(&mut kv, &mut sim, &ps, false);
    assert_eq!(alone.decoded, 4 * 23);
    // no row but the jobs' own
    assert_eq!(sim.rows.len(), 4);
}

#[test]
fn an_eviction_removes_one_sequence() {
    let (mut kv, mut sim) = setup(4096, 16, 64);
    for i in 0..3 {
        let span: Vec<i32> = HEAD.iter().copied().chain(vec![10 + i; 4]).collect();
        let keep = span.len();
        run(&mut kv, &mut sim, &[(span.into_iter().chain([1, 2]).collect(), keep)], true);
    }
    let cached = kv.entries();
    assert_eq!(cached.len(), 4);
    sim.removed.clear();
    assert!(kv.evict(&mut sim, &vec![cached[1].0], false)); // the oldest is held
    assert_eq!(sim.removed, vec![cached[2].0]);
    check(&kv, &sim);
    sim.removed.clear();
    let rest: Vec<i32> = kv.entries().iter().map(|e| e.0).collect();
    assert!(!kv.evict(&mut sim, &rest, false));
    assert!(!kv.evict(&mut sim, &Vec::new(), true)); // none is request-scoped
    assert!(sim.removed.is_empty());
    assert_eq!(kv.entries().len(), 3);
}

#[test]
fn residue_of_an_aborted_wave_is_wiped() {
    let (mut kv, mut sim) = setup(4096, 8, 64);
    sim.scribble(5, &[1, 2, 3]);
    kv.scratch.push(5);
    let mut rng = Rng(3);
    let ps = prompts(&mut rng, 10);
    run(&mut kv, &mut sim, &ps, true);
}

#[test]
fn empty_prompt_is_an_error() {
    let (mut kv, mut sim) = setup(64, 4, 16);
    let none: Vec<i32> = Vec::new();
    let jobs = vec![Job { toks: &none, keep: 0 }];
    assert!(kv.run(&mut sim, &jobs, true).is_err());
}

#[test]
fn a_prompt_that_never_fits_next_to_the_head_is_unfit() {
    // 64 cells, 5 of them the head's: a direct prompt of 64 tokens needs 59
    // past the head and fits, one that cannot fork off the head does not
    let (mut kv, mut sim) = setup(64, 4, 16);
    let alone: Vec<i32> = vec![1; 64];
    let jobs = vec![Job { toks: &alone, keep: 0 }];
    match kv.run(&mut sim, &jobs, false) {
        Err(KvError::Unfit { tokens, ctx }) => assert_eq!((tokens, ctx), (64, 64)),
        _ => panic!("not refused"),
    }
    let fits: Vec<i32> = HEAD.iter().copied().chain(vec![1; 59]).collect();
    run(&mut kv, &mut sim, &[(fits, 0)], false);
}

#[test]
fn the_longest_cached_span_is_forked() {
    let (mut kv, mut sim) = setup(4096, 65, 64);
    let short: Vec<i32> = HEAD.iter().copied().chain(vec![7; 10]).collect();
    let long: Vec<i32> = short.iter().copied().chain(vec![8; 10]).collect();
    let ask = |t: &Vec<i32>| t.iter().copied().chain([1, 2]).collect::<Vec<i32>>();
    run(&mut kv, &mut sim, &[(ask(&short), short.len())], true);
    run(&mut kv, &mut sim, &[(ask(&long), long.len())], true);
    let seq = |t: &Vec<i32>| kv.entries().iter().find(|e| e.1 == *t).map(|e| e.0);
    let (seq, len) = (seq(&long).or(seq(&short)).unwrap(), if seq(&long).is_some() { long.len() } else { short.len() });
    assert_eq!(kv.base(&ask(&long), true), (seq, len));
    // direct mode forks off the head alone
    assert_eq!(kv.base(&ask(&long), false), (0, HEAD.len()));
    assert_eq!(kv.base(&[1, 2, 3], true), (-1, 0));
}
