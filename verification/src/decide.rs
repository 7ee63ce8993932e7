//! A request decided: compiled to prompts, decoded, and folded into answers.
use vstd::prelude::*;
use vstd::slice::slice_to_vec;

use crate::calls;
use crate::engine;
use crate::engine::Compiled;
use crate::expand;
use crate::frame;
use crate::frame::FrameError;
use crate::kv;
use crate::kv::{Backend, DecodeError, Job, Kv};
use crate::prefix;
use crate::prompts;
use crate::run;
use crate::run::{KvError, Stats};
use crate::schema;
use crate::schema::{DecideRequest, Expand, Layout, Mode, SchemaError};
use crate::text;
use crate::value;
use crate::value::{Json, Value};
use crate::weight;

verus! {

pub struct Engine<B> {
    pub llm: B,
    pub kv: Kv,
    pub letter_ids: Vec<Vec<i32>>,
    /// The template text around the user message: (before, after).
    pub frame: (String, String),
    pub head: Vec<i32>,
    pub model_id: String,
}

/// Why a request was not decided.
pub enum EngineError {
    Schema(SchemaError),
    Frame(FrameError),
    /// a prompt is longer than the context
    TooLong { name: String, tokens: usize, ctx: usize },
    Kv(KvError),
}

/// A request decoded: its items, their prompts, and what decoding them took.
pub struct Decided {
    pub compiled: Compiled,
    pub toks: Vec<Vec<i32>>,
    pub keeps: Vec<usize>,
    /// tokens that all prompts share, in shared mode
    pub plen: usize,
    pub stats: Stats,
}

/// More items than any valid request becomes.
pub const MAX_ITEMS: usize = 16384;

proof fn lemma_item_bound(qs: Seq<schema::Asked>, e: Expand, n: int)
    requires
        0 <= n <= qs.len(),
        forall|i: int| 0 <= i < n ==> schema::asked_ok(#[trigger] qs[i]),
    ensures
        engine::offset(qs, e, n) <= n * 256,
    decreases n,
{
    if n > 0 {
        lemma_item_bound(qs, e, n - 1);
        assert(schema::asked_ok(qs[n - 1]));
        let q = qs[n - 1].1->Ok_0;
        if expand::expands(q) {
            match q.criteria {
                Some(Value::Object(m)) => {
                    value::lemma_fields(m@);
                },
                Some(Value::Array(a)) => {
                    value::lemma_jsons(a@);
                },
                _ => {},
            }
            let o = prompts::options_of(q.criteria->0@).len() as int;
            assert(o <= 256);
            expand::law_pages(o);
            assert(expand::page_count(o) <= o) by {
                assert(o > 25);
            }
        }
    }
}

/// The prompt of the `i`-th message.
pub open spec fn prompts_message<B: Backend>(llm: &B, frame: (String, String), c: Compiled, toks: Seq<Vec<i32>>, i: int) -> bool {
    frame::prompt_of(llm, frame.0@, frame.1@, c.msgs@[i]@, toks[i]@)
}

/// The message of a question over no state in particular.
pub open spec fn stateless(c: Compiled, i: int) -> Seq<char> {
    text::joined(
        prompts::message_lines(
            frame::STATE_SENTINEL@,
            c.asks.asks@[i].q,
            prompts::slots_of(c.asks.asks@[i].q),
            Layout::QuestionFirst,
            Seq::empty(),
        ),
        "\n"@,
    )
}

/// The length of the prefix that tokens share with a prompt for `user`.
pub open spec fn shares_with<B: Backend>(llm: &B, frame: (String, String), user: Seq<char>, toks: Seq<i32>, n: int) -> bool {
    exists|p: Seq<i32>| #[trigger]
        frame::prompt_of(llm, frame.0@, frame.1@, user, p) && n == prefix::lcp(toks, p)
}

/// What a prompt shares with the same question over another state.
pub open spec fn own_prefix<B: Backend>(llm: &B, frame: (String, String), c: Compiled, toks: Seq<i32>, i: int, keep: int) -> bool {
    shares_with(llm, frame, stateless(c, i), toks, keep)
}

/// How much of the first prompt is the same for all questions, or for all
/// states: what it shares with the prompt of its message cut short, or nothing
/// where that cannot be measured.
pub open spec fn first_prefix<B: Backend>(llm: &B, frame: (String, String), c: Compiled, toks: Seq<i32>, s: int) -> bool {
    match frame::stop_at(c.msgs@[0]@, c.layout, c.asks.asks@[0].q, prompts::slots_of(c.asks.asks@[0].q)) {
        Some(n) => shares_with(llm, frame, c.msgs@[0]@.take(n), toks, s) || s == 0 && exists|e: FrameError| #[trigger]
            frame::prompt_fails(llm, frame.0@, frame.1@, c.msgs@[0]@.take(n), e),
        None => s == 0,
    }
}

/// The keeps of a request's prompts: nothing unless they share, each question's
/// own text where it comes first, else one length for all, no longer than the
/// prefix that all share.
pub open spec fn keeps_ok<B: Backend>(llm: &B, frame: (String, String), d: Decided, shared: bool) -> bool {
    &&& d.keeps@.len() == d.toks@.len()
    &&& !shared ==> forall|i: int| 0 <= i < d.keeps@.len() ==> #[trigger] d.keeps@[i] == 0
    &&& shared && d.compiled.layout == Layout::QuestionFirst ==> forall|i: int|
        0 <= i < d.keeps@.len() ==> own_prefix(llm, frame, d.compiled, d.toks@[i]@, i, (#[trigger] d.keeps@[i]) as int)
    &&& shared && d.compiled.layout != Layout::QuestionFirst ==> exists|s: int| #[trigger]
        first_prefix(llm, frame, d.compiled, d.toks@[0]@, s) && one_length(d.keeps@, d.plen as int, s)
}

/// Every length is `s`, or `plen` where that is a shorter prefix.
pub open spec fn one_length(keeps: Seq<usize>, plen: int, s: int) -> bool {
    forall|i: int|
        0 <= i < keeps.len() ==> #[trigger] keeps[i] == if plen > 0 && plen < s {
            plen
        } else {
            s
        }
}

/// Every prompt was read, right after its last token.
pub open spec fn all_heard(kv: &Kv, toks: Seq<Vec<i32>>) -> bool {
    forall|j: usize| j < toks.len() ==> #[trigger] kv.ledger.seen@.dom().contains(j) && kv.ledger.seen@[j] == toks[j as int]@
}

/// A run of `jobs` that the counts tell of starts from the cache of `k`: that
/// of `o`, or a fresh one after the backend refused the first try.
pub open spec fn ran_from(o: &Kv, k: &Kv, f: &Kv, jobs: Seq<Job>, shared: bool, st: Stats, way: Seq<run::Point>) -> bool {
    &&& k.n_seq == o.n_seq
    &&& k.n_ctx == o.n_ctx
    &&& k.head@ == o.head@
    &&& *k == *o || (run::fresh(k) && k.ledger.refused@ > o.ledger.refused@)
    &&& run::same_head(f.entries@, k.entries@)
    &&& run::arrived(k, f, jobs, shared, st, way)
    &&& st.decoded == f.ledger.written@ - k.ledger.written@
    &&& st.waves == f.ledger.passed@ - k.ledger.passed@
    &&& k.ledger.refused@ <= f.ledger.refused@
}

/// A second run of `jobs`, over the fresh cache of `k`, ended with `e`.
pub open spec fn failed_again(o: &Kv, k: &Kv, f: &Kv, jobs: Seq<Job>, shared: bool, e: KvError, way: Seq<run::Point>) -> bool {
    &&& k.n_seq == o.n_seq
    &&& k.n_ctx == o.n_ctx
    &&& k.head@ == o.head@
    &&& run::fresh(k)
    &&& match e {
        KvError::Unfit { tokens, ctx } => ctx == o.n_ctx && run::ended_short(k, f, jobs, shared, tokens as int, way),
        KvError::Decode(_) => run::ended_broken(k, f, jobs, shared, way),
        KvError::Prompt { .. } => false,
    }
}

/// Memory was rebuilt and the jobs tried again, but that failed too: the head could
/// not be decoded any more, or the second run ended as the first did.
pub open spec fn failed_twice(o: &Kv, f: &Kv, jobs: Seq<Job>, shared: bool, e: KvError) -> bool {
    ||| e is Decode && f.head@.len() > 0 && f.entries@.len() == 0
    ||| exists|k: Kv, way: Seq<run::Point>| #[trigger] failed_again(o, &k, f, jobs, shared, e, way)
}

/// The jobs that prompts become.
pub open spec fn jobs_from(jobs: Seq<Job>, toks: Seq<Vec<i32>>, keeps: Seq<usize>) -> bool {
    &&& jobs.len() == toks.len()
    &&& forall|i: int| 0 <= i < jobs.len() ==> (#[trigger] jobs[i]).toks@ == toks[i]@ && jobs[i].keep == keeps[i]
}

/// The counts are those of a run of the request's prompts.
pub open spec fn accounted(o: &Kv, f: &Kv, shared: bool, d: Decided) -> bool {
    exists|k: Kv, jobs: Seq<Job>, way: Seq<run::Point>| #[trigger]
        ran_from(o, &k, f, jobs, shared, d.stats, way) && jobs_from(jobs, d.toks@, d.keeps@)
}

/// What decoding a compiled request came to.
pub open spec fn decoded<B: Backend>(llm: &B, frame: (String, String), kv: &Kv, shared: bool, d: Decided) -> bool {
    &&& d.toks@.len() == d.compiled.asks.asks@.len()
    &&& forall|i: int|
        0 <= i < d.toks@.len() ==> 1 <= (#[trigger] d.toks@[i])@.len() <= kv.n_ctx && prompts_message(
            llm,
            frame,
            d.compiled,
            d.toks@,
            i,
        )
    &&& d.plen == if shared {
        frame::shared_by_all(d.toks@, d.toks@.len() as int)
    } else {
        0
    }
    &&& keeps_ok(llm, frame, d, shared)
    &&& all_heard(kv, d.toks@)
    &&& run::only_read(kv.ledger.seen@, d.toks@.len() as int)
    &&& run::trimmed(kv)
}

/// A prompt of the `i`-th message.
pub open spec fn long_prompt<B: Backend>(llm: &B, frame: (String, String), c: Compiled, i: int, t: Seq<i32>) -> bool {
    0 <= i < c.msgs@.len() && frame::prompt_of(llm, frame.0@, frame.1@, c.msgs@[i]@, t)
}

/// A prompt of the item named so is longer than the context.
pub open spec fn too_long<B: Backend>(
    llm: &B,
    frame: (String, String),
    c: Compiled,
    name: Seq<char>,
    tokens: int,
    ctx: int,
) -> bool {
    tokens > ctx && exists|i: int, t: Seq<i32>| #[trigger]
        long_prompt(llm, frame, c, i, t) && name == c.asks.asks@[i].name@ && t.len() == tokens
}

/// A text that the backend is asked for a prompt of: a message, or a question
/// over no state in particular where its own text comes first and is kept.
pub open spec fn is_asked(c: Compiled, shared: bool, u: Seq<char>) -> bool {
    exists|i: int|
        0 <= i < c.msgs@.len() && ((#[trigger] c.msgs@[i])@ == u || shared && c.layout == Layout::QuestionFirst && stateless(
            c,
            i,
        ) == u)
}

/// Some text of a request has no prompt.
pub open spec fn has_no_prompt<B: Backend>(llm: &B, frame: (String, String), c: Compiled, shared: bool, e: FrameError) -> bool {
    exists|u: Seq<char>| #[trigger] is_asked(c, shared, u) && frame::prompt_fails(llm, frame.0@, frame.1@, u, e)
}

/// The prompt of some message is empty.
pub open spec fn has_empty_prompt<B: Backend>(llm: &B, frame: (String, String), c: Compiled) -> bool {
    exists|i: int, t: Seq<i32>| #[trigger] long_prompt(llm, frame, c, i, t) && t.len() == 0
}

/// One job for the prompt of every message.
pub open spec fn asks_for<B: Backend>(llm: &B, frame: (String, String), c: Compiled, jobs: Seq<Job>) -> bool {
    &&& jobs.len() == c.msgs@.len()
    &&& forall|i: int| 0 <= i < jobs.len() ==> long_prompt(llm, frame, c, i, (#[trigger] jobs[i]).toks@)
}

/// The prompts of messages, and how much of each question's own text comes
/// before the state.
fn tokenize_all<B: Backend>(
    llm: &B,
    frame: &(String, String),
    n_ctx: usize,
    c: &Compiled,
    shared: bool,
) -> (r: Result<(Vec<Vec<i32>>, Vec<usize>), EngineError>)
    requires
        c.slots@.len() == c.asks.asks@.len(),
        c.msgs@.len() == c.asks.asks@.len(),
        forall|i: int|
            0 <= i < c.asks.asks@.len() ==> prompts::slot_views((#[trigger] c.slots@[i])@) == prompts::slots_of(
                c.asks.asks@[i].q,
            ),
        forall|i: int| 0 <= i < c.asks.asks@.len() ==> engine::askable((#[trigger] c.asks.asks@[i]).q),
    ensures
        match r {
            Ok((toks, keeps)) => {
                &&& toks@.len() == c.msgs@.len()
                &&& keeps@.len() == c.msgs@.len()
                &&& forall|i: int|
                    0 <= i < toks@.len() ==> (#[trigger] toks@[i])@.len() <= n_ctx && prompts_message(
                        llm,
                        *frame,
                        *c,
                        toks@,
                        i,
                    )
                &&& forall|i: int|
                    0 <= i < keeps@.len() ==> if shared && c.layout == Layout::QuestionFirst {
                        own_prefix(llm, *frame, *c, toks@[i]@, i, (#[trigger] keeps@[i]) as int)
                    } else {
                        keeps@[i] == 0
                    }
            },
            Err(EngineError::TooLong { name, tokens, ctx }) => ctx == n_ctx && too_long(
                llm,
                *frame,
                *c,
                name@,
                tokens as int,
                ctx as int,
            ),
            Err(EngineError::Frame(e)) => has_no_prompt(llm, *frame, *c, shared, e),
            Err(_) => false,
        },
{
    let mut toks: Vec<Vec<i32>> = Vec::new();
    let mut keeps: Vec<usize> = Vec::new();
    let mut i: usize = 0;
    while i < c.msgs.len()
        invariant
            i <= c.msgs@.len(),
            c.slots@.len() == c.asks.asks@.len(),
            c.msgs@.len() == c.asks.asks@.len(),
            forall|k: int|
                0 <= k < c.asks.asks@.len() ==> prompts::slot_views((#[trigger] c.slots@[k])@) == prompts::slots_of(
                    c.asks.asks@[k].q,
                ),
            forall|k: int| 0 <= k < c.asks.asks@.len() ==> engine::askable((#[trigger] c.asks.asks@[k]).q),
            toks@.len() == i,
            keeps@.len() == i,
            forall|k: int|
                0 <= k < i ==> (#[trigger] toks@[k])@.len() <= n_ctx && prompts_message(llm, *frame, *c, toks@, k),
            forall|k: int|
                0 <= k < i ==> if shared && c.layout == Layout::QuestionFirst {
                    own_prefix(llm, *frame, *c, toks@[k]@, k, (#[trigger] keeps@[k]) as int)
                } else {
                    keeps@[k] == 0
                },
        decreases c.msgs@.len() - i,
    {
        let t: Vec<i32> = match frame::prompt_tokens(llm, frame.0.as_str(), frame.1.as_str(), c.msgs[i].as_str()) {
            Ok(t) => t,
            Err(e) => {
                assert(is_asked(*c, shared, c.msgs@[i as int]@));
                return Err(EngineError::Frame(e));
            },
        };
        if t.len() > n_ctx {
            assert(long_prompt(llm, *frame, *c, i as int, t@));
            return Err(EngineError::TooLong { name: c.asks.asks[i].name.clone(), tokens: t.len(), ctx: n_ctx });
        }
        let mut keep: usize = 0;
        if shared && c.layout == Layout::QuestionFirst {
            // the same message over a sentinel state: what both share is the
            // question's own text, whatever the tokenizer merges at its end
            proof {
                assert(engine::askable(c.asks.asks@[i as int].q));
                assert(prompts::slot_views(c.slots@[i as int]@).len() == c.slots@[i as int]@.len());
            }
            let none: Vec<String> = Vec::new();
            proof {
                assert(text::views(none@) =~= Seq::empty());
            }
            let probe: String = prompts::user_message(
                frame::STATE_SENTINEL,
                &c.asks.asks[i].q,
                &c.slots[i],
                Layout::QuestionFirst,
                &none,
            );
            match frame::prompt_tokens(llm, frame.0.as_str(), frame.1.as_str(), probe.as_str()) {
                Ok(p) => {
                    keep = prefix::common(t.as_slice(), p.as_slice());
                    proof {
                        assert(probe@ == stateless(*c, i as int));
                        assert(own_prefix(llm, *frame, *c, t@, i as int, keep as int));
                    }
                },
                Err(e) => {
                    proof {
                        assert(c.msgs@[i as int]@ == c.msgs@[i as int]@);
                        assert(is_asked(*c, shared, probe@));
                    }
                    return Err(EngineError::Frame(e));
                },
            }
        }
        toks.push(t);
        keeps.push(keep);
        i += 1;
    }
    Ok((toks, keeps))
}

/// How much of the first prompt is the same for all questions, or for all
/// states; 0 where that cannot be measured.
fn cache_prefix_len<B: Backend>(llm: &B, frame: &(String, String), c: &Compiled, first: &Vec<i32>) -> (r: usize)
    requires
        c.msgs@.len() > 0,
        c.slots@.len() == c.msgs@.len(),
        c.asks.asks@.len() == c.msgs@.len(),
        prompts::has_options(c.asks.asks@[0].q),
        prompts::slot_views(c.slots@[0]@) == prompts::slots_of(c.asks.asks@[0].q),
        c.slots@[0]@.len() <= 26,
    ensures
        first_prefix(llm, *frame, *c, first@, r as int),
{
    match frame::cacheable(c.msgs[0].as_str(), c.layout, &c.asks.asks[0].q, &c.slots[0]) {
        Some(t) => match frame::prompt_tokens(llm, frame.0.as_str(), frame.1.as_str(), t.as_str()) {
            Ok(p) => {
                let n: usize = prefix::common(first.as_slice(), p.as_slice());
                proof {
                    assert(frame::prompt_of(llm, frame.0@, frame.1@, c.msgs@[0]@.take(t@.len() as int), p@));
                    assert(shares_with(llm, *frame, c.msgs@[0]@.take(t@.len() as int), first@, n as int));
                }
                n
            },
            Err(_) => 0,
        },
        None => 0,
    }
}

/// One length for every prompt.
fn keep_all(keeps: &mut Vec<usize>, s: usize)
    ensures
        final(keeps)@.len() == old(keeps)@.len(),
        forall|i: int| 0 <= i < final(keeps)@.len() ==> #[trigger] final(keeps)@[i] == s,
{
    let mut i: usize = 0;
    while i < keeps.len()
        invariant
            i <= keeps@.len(),
            keeps@.len() == old(keeps)@.len(),
            forall|k: int| 0 <= k < i ==> #[trigger] keeps@[k] == s,
        decreases keeps@.len() - i,
    {
        keeps[i] = s;
        i += 1;
    }
}

fn jobs_for<'a>(toks: &'a Vec<Vec<i32>>, keeps: &Vec<usize>) -> (r: Vec<Job<'a>>)
    requires
        keeps@.len() == toks@.len(),
    ensures
        r@.len() == toks@.len(),
        forall|i: int| 0 <= i < r@.len() ==> (#[trigger] r@[i]).toks@ == toks@[i]@ && r@[i].keep == keeps@[i],
{
    let mut r: Vec<Job<'a>> = Vec::new();
    let mut i: usize = 0;
    while i < toks.len()
        invariant
            i <= toks@.len(),
            keeps@.len() == toks@.len(),
            r@.len() == i,
            forall|k: int| 0 <= k < i ==> (#[trigger] r@[k]).toks@ == toks@[k]@ && r@[k].keep == keeps@[k],
        decreases toks@.len() - i,
    {
        r.push(Job { toks: toks[i].as_slice(), keep: keeps[i] });
        i += 1;
    }
    r
}

/// Jobs that were heard right are prompts that were.
proof fn lemma_all_heard(kv: &Kv, jobs: Seq<Job>, toks: Seq<Vec<i32>>)
    requires
        jobs.len() == toks.len(),
        forall|i: int| 0 <= i < jobs.len() ==> (#[trigger] jobs[i]).toks@ == toks[i]@,
        forall|j: usize| j < jobs.len() ==> #[trigger] run::heard_right(&kv.ledger, jobs, j),
    ensures
        all_heard(kv, toks),
{
    assert forall|j: usize| j < toks.len() implies #[trigger] kv.ledger.seen@.dom().contains(j) && kv.ledger.seen@[j]
        == toks[j as int]@ by {
        assert(run::heard_right(&kv.ledger, jobs, j));
    }
}

/// The backend refused to decode.
pub open spec fn refused<B: Backend>(e: KvError) -> bool {
    match e {
        KvError::Decode(d) => kv::refuses::<B>(d),
        KvError::Unfit { .. } => kv::refuses::<B>(DecodeError::NoSlot),
        KvError::Prompt { .. } => false,
    }
}

/// `full` is what the sentinel in place of a message may be rendered to.
pub open spec fn renders_sentinel<B: Backend>(llm: &B, full: Seq<char>) -> bool {
    llm.renders(prompts::SYSTEM@, frame::HEAD_SENTINEL@, full)
}

/// Why an engine knows no letters or no frame to put messages in.
pub open spec fn no_frame<B: Backend>(llm: &B, e: FrameError) -> bool {
    match e {
        FrameError::Letter(c) => frame::stands_for(llm, c, Seq::empty()) && exists|i: int|
            0 <= i < 26 && c == #[trigger] prompts::letter(i),
        FrameError::Template => exists|full: Seq<char>| #[trigger]
            renders_sentinel(llm, full) && !text::holds(full, frame::HEAD_SENTINEL@),
        FrameError::Backend(why) => llm.render_fails(prompts::SYSTEM@, frame::HEAD_SENTINEL@, why@) || exists|pre: Seq<char>, post: Seq<char>|
            #[trigger] renders_sentinel(llm, pre + frame::HEAD_SENTINEL@ + post) && llm.tokenize_fails(pre, true, why@),
    }
}

/// The backend of `f` was given calls that the backend of `o` had not, and the
/// memory of `f` is what they made of that of `o`.
pub open spec fn spoke<B: Backend>(o: Engine<B>, f: Engine<B>) -> bool {
    calls::follows(o.llm.told(), f.llm.told(), calls::unread(o.kv.ledger.model()), f.kv.ledger.model())
}

/// The request `req` was decided as `d`, which left `f` of the engine `o`.
pub open spec fn decided<B: Backend>(o: Engine<B>, f: Engine<B>, req: DecideRequest, d: Decided) -> bool {
    let shared = req.mode == Mode::Shared;
    &&& engine::compiled(req, d.compiled)
    &&& decoded(&o.llm, o.frame, &f.kv, shared, d)
    &&& accounted(&o.kv, &f.kv, shared, d)
    &&& spoke(o, f)
    &&& forall|p: (usize, Seq<i32>)| #[trigger]
        f.kv.ledger.asks@.contains(p) ==> o.kv.ledger.asks@.contains(p) || (p.0 < d.toks@.len() && p.1
            == d.toks@[p.0 as int]@)
}

/// The request `req` was not decided for `e`, which left `f` of the engine `o`.
/// Refused before anything was decoded, it left everything as it was.
pub open spec fn undecided<B: Backend>(o: Engine<B>, f: Engine<B>, req: DecideRequest, e: EngineError) -> bool {
    let shared = req.mode == Mode::Shared;
    &&& if e is Kv {
        spoke(o, f)
    } else {
        f.kv == o.kv && f.llm == o.llm
    }
    &&& match e {
        EngineError::Schema(e) => if req.temperature_ok() {
            req.questions_error(e)
        } else {
            e == SchemaError::Temperature
        },
        EngineError::TooLong { name, tokens, ctx } => ctx == o.kv.n_ctx && exists|c: Compiled| #[trigger]
            engine::compiled(req, c) && too_long(&o.llm, o.frame, c, name@, tokens as int, ctx as int),
        EngineError::Frame(e) => exists|c: Compiled| #[trigger]
            engine::compiled(req, c) && has_no_prompt(&o.llm, o.frame, c, shared, e),
        EngineError::Kv(KvError::Prompt { tokens, ctx }) => {
            &&& tokens == 0
            &&& ctx == o.kv.n_ctx
            &&& f.kv.ledger.seen@ == Map::<usize, Seq<i32>>::empty()
            &&& exists|c: Compiled| #[trigger] engine::compiled(req, c) && has_empty_prompt(&o.llm, o.frame, c)
        },
        EngineError::Kv(e) => {
            &&& refused::<B>(e)
            &&& f.kv.ledger.refused@ > o.kv.ledger.refused@
            &&& f.kv.ledger.refused@ >= o.kv.ledger.refused@ + 2 || exists|c: Compiled| #[trigger]
                engine::compiled(req, c) && has_empty_prompt(&o.llm, o.frame, c)
            &&& exists|c: Compiled, jobs: Seq<Job>|
                engine::compiled(req, c) && #[trigger] asks_for(&o.llm, o.frame, c, jobs) && failed_twice(
                    &o.kv,
                    &f.kv,
                    jobs,
                    shared,
                    e,
                ) && run::asked_right(o.kv.ledger.asks@, f.kv.ledger.asks@, jobs)
        },
    }
}

impl<B: Backend> Engine<B> {
    /// An engine over a backend with `n_seq` sequences and `n_ctx` cells.
    pub fn new(llm: B, n_seq: usize, n_ctx: usize, model_id: String) -> (r: Result<Engine<B>, EngineError>)
        requires
            2 <= n_seq <= i32::MAX,
        ensures
            r matches Ok(e) ==> {
                &&& run::fresh(&e.kv)
                &&& e.kv.n_seq == n_seq
                &&& e.kv.n_ctx == n_ctx
                &&& e.kv.head@ == e.head@
                &&& e.letter_ids@.len() == 26
                &&& forall|i: int|
                    0 <= i < 26 ==> (#[trigger] e.letter_ids@[i])@.len() > 0 && frame::stands_for(
                        &llm,
                        prompts::letter(i),
                        e.letter_ids@[i]@,
                    )
                &&& llm.renders(prompts::SYSTEM@, frame::HEAD_SENTINEL@, e.frame.0@ + frame::HEAD_SENTINEL@ + e.frame.1@)
                &&& forall|j: int|
                    0 <= j < e.frame.0@.len() ==> !#[trigger] text::stands_at(
                        e.frame.0@ + frame::HEAD_SENTINEL@ + e.frame.1@,
                        frame::HEAD_SENTINEL@,
                        j,
                    )
                &&& llm.tokenizes(e.frame.0@, true, e.head@)
                &&& e.model_id@ == model_id@
                &&& calls::follows(llm.told(), e.llm.told(), calls::untouched(), e.kv.ledger.model())
            },
            match r {
                Ok(_) => true,
                Err(EngineError::Frame(e)) => no_frame(&llm, e),
                Err(EngineError::Kv(e)) => run::refused_head::<B>(e),
                Err(_) => false,
            },
    {
        let ghost llm0 = llm;
        let mut llm: B = llm;
        let letter_ids: Vec<Vec<i32>> = match frame::letter_ids(&llm) {
            Ok(v) => v,
            Err(e) => {
                return Err(EngineError::Frame(e));
            },
        };
        let prompt: String = match llm.render(prompts::SYSTEM, frame::HEAD_SENTINEL) {
            Ok(p) => p,
            Err(e) => {
                return Err(EngineError::Frame(FrameError::Backend(e)));
            },
        };
        let frame: (String, String) = match frame::split_once(prompt.as_str(), frame::HEAD_SENTINEL) {
            Some(f) => f,
            None => {
                assert(renders_sentinel(&llm0, prompt@));
                return Err(EngineError::Frame(FrameError::Template));
            },
        };
        let head: Vec<i32> = match llm.tokenize(frame.0.as_str(), true) {
            Ok(h) => h,
            Err(e) => {
                assert(renders_sentinel(&llm0, frame.0@ + frame::HEAD_SENTINEL@ + frame.1@));
                return Err(EngineError::Frame(FrameError::Backend(e)));
            },
        };
        let kv: Kv = match Kv::new(&mut llm, n_seq, n_ctx, slice_to_vec(head.as_slice())) {
            Ok(kv) => kv,
            Err(e) => {
                return Err(EngineError::Kv(e));
            },
        };
        Ok(Engine { llm, kv, letter_ids, frame, head, model_id })
    }

    /// Run jobs; memory may be half-written after a failure: rebuild it and
    /// retry once.
    fn run_or_retry<'a>(&mut self, jobs: &Vec<Job<'a>>, shared: bool) -> (r: Result<Stats, KvError>)
        requires
            old(self).kv.wf(),
            weight::prompt_tokens(jobs@) <= usize::MAX,
        ensures
            calls::follows(
                old(self).llm.told(),
                final(self).llm.told(),
                calls::unread(old(self).kv.ledger.model()),
                final(self).kv.ledger.model(),
            ),
            final(self).kv.wf(),
            final(self).kv.n_seq == old(self).kv.n_seq,
            final(self).kv.n_ctx == old(self).kv.n_ctx,
            final(self).letter_ids == old(self).letter_ids,
            final(self).frame == old(self).frame,
            final(self).head == old(self).head,
            final(self).model_id == old(self).model_id,
            run::asked_right(old(self).kv.ledger.asks@, final(self).kv.ledger.asks@, jobs@),
            r is Ok ==> {
                &&& forall|j: int| 0 <= j < jobs@.len() ==> !run::unfit(#[trigger] jobs@[j], old(self).kv.n_ctx as int)
                &&& forall|j: usize| j < jobs@.len() ==> #[trigger] run::heard_right(&final(self).kv.ledger, jobs@, j)
                &&& run::only_read(final(self).kv.ledger.seen@, jobs@.len() as int)
                &&& run::trimmed(&final(self).kv)
                &&& exists|k: Kv, way: Seq<run::Point>| #[trigger]
                    ran_from(&old(self).kv, &k, &final(self).kv, jobs@, shared, r->Ok_0, way)
            },
            r matches Err(e) ==> match e {
                KvError::Prompt { tokens, ctx } => {
                    &&& ctx == old(self).kv.n_ctx
                    &&& final(self).kv.ledger.seen@ == Map::<usize, Seq<i32>>::empty()
                    &&& exists|j: int|
                        0 <= j < jobs@.len() && run::unfit(#[trigger] jobs@[j], ctx as int) && tokens == jobs@[j].toks@.len()
                },
                _ => {
                    &&& refused::<B>(e)
                    &&& failed_twice(&old(self).kv, &final(self).kv, jobs@, shared, e)
                    &&& final(self).kv.ledger.refused@ > old(self).kv.ledger.refused@
                    &&& final(self).kv.ledger.refused@ >= old(self).kv.ledger.refused@ + 2 || exists|j: int|
                        0 <= j < jobs@.len() && run::unfit(#[trigger] jobs@[j], old(self).kv.n_ctx as int)
                },
            },
    {
        let ghost o = self.kv;
        let ghost (t0, l0) = (self.llm.told(), calls::unread(self.kv.ledger.model()));
        match self.kv.run(&mut self.llm, jobs, shared) {
            Ok(st) => {
                proof {
                    let way = choose|way: Seq<run::Point>| #[trigger] run::arrived(&o, &self.kv, jobs@, shared, st, way);
                    assert(ran_from(&o, &o, &self.kv, jobs@, shared, st, way));
                }
                Ok(st)
            },
            Err(_) => {
                let ghost (t1, l1) = (self.llm.told(), self.kv.ledger.model());
                let back: Result<(), KvError> = self.kv.reset(&mut self.llm);
                let ghost k = self.kv;
                let ghost t2 = self.llm.told();
                proof {
                    calls::lemma_on(t0, t1, t2, l0, l1, k.ledger.model());
                }
                match back {
                    Ok(_) => {},
                    Err(e) => {
                        return Err(e);
                    },
                }
                let r: Result<Stats, KvError> = self.kv.run(&mut self.llm, jobs, shared);
                proof {
                    assert(calls::unread(k.ledger.model()) =~= k.ledger.model());
                    calls::lemma_on(t0, t2, self.llm.told(), l0, k.ledger.model(), self.kv.ledger.model());
                    if r is Ok {
                        let way = choose|way: Seq<run::Point>| #[trigger]
                            run::arrived(&k, &self.kv, jobs@, shared, r->Ok_0, way);
                        assert(ran_from(&o, &k, &self.kv, jobs@, shared, r->Ok_0, way));
                    } else {
                        let e = r->Err_0;
                        if let KvError::Unfit { tokens, ctx } = e {
                            let way = choose|way: Seq<run::Point>| #[trigger]
                                run::ended_short(&k, &self.kv, jobs@, shared, tokens as int, way);
                            assert(failed_again(&o, &k, &self.kv, jobs@, shared, e, way));
                        } else if e is Decode {
                            let way = choose|way: Seq<run::Point>| #[trigger]
                                run::ended_broken(&k, &self.kv, jobs@, shared, way);
                            assert(failed_again(&o, &k, &self.kv, jobs@, shared, e, way));
                        }
                    }
                }
                r
            },
        }
    }

    /// Decode every item of a request. The backend hands each item its logits
    /// row, read right after exactly its prompt.
    pub fn decide(&mut self, req: &DecideRequest) -> (r: Result<Decided, EngineError>)
        requires
            old(self).kv.wf(),
            MAX_ITEMS * old(self).kv.n_ctx <= usize::MAX,
        ensures
            final(self).kv.wf(),
            final(self).kv.n_seq == old(self).kv.n_seq,
            final(self).kv.n_ctx == old(self).kv.n_ctx,
            final(self).letter_ids == old(self).letter_ids,
            final(self).frame == old(self).frame,
            final(self).head == old(self).head,
            final(self).model_id == old(self).model_id,
            req.temperature_ok() && req.questions_ok() <==> !(r is Err && r->Err_0 is Schema),
            match r {
                Ok(d) => decided(*old(self), *final(self), *req, d),
                Err(e) => undecided(*old(self), *final(self), *req, e),
            },
    {
        match req.validate() {
            Ok(_) => {},
            Err(e) => {
                return Err(EngineError::Schema(e));
            },
        }
        let shared: bool = req.mode == Mode::Shared;
        let c: Compiled = engine::compile(req);
        let (toks, mut keeps): (Vec<Vec<i32>>, Vec<usize>) = match tokenize_all(
            &self.llm,
            &self.frame,
            self.kv.n_ctx,
            &c,
            shared,
        ) {
            Ok(t) => t,
            Err(e) => {
                return Err(e);
            },
        };
        let plen: usize = if shared {
            frame::shared_prefix(&toks)
        } else {
            0
        };
        if shared && c.layout != Layout::QuestionFirst {
            proof {
                assert(engine::askable(c.asks.asks@[0].q));
                assert(prompts::slot_views(c.slots@[0]@) == prompts::slots_of(c.asks.asks@[0].q));
                assert(prompts::slot_views(c.slots@[0]@).len() == c.slots@[0]@.len());
            }
            let s: usize = cache_prefix_len(&self.llm, &self.frame, &c, &toks[0]);
            keep_all(&mut keeps, frame::keep_len(s, plen));
            proof {
                assert(first_prefix(&old(self).llm, old(self).frame, c, toks@[0]@, s as int));
                assert(one_length(keeps@, plen as int, s as int));
            }
        }
        let jobs: Vec<Job> = jobs_for(&toks, &keeps);
        proof {
            lemma_item_bound(req.questions@, req.expand, req.questions@.len() as int);
            assert(jobs@.len() * self.kv.n_ctx <= MAX_ITEMS * self.kv.n_ctx) by (nonlinear_arith)
                requires
                    jobs@.len() <= MAX_ITEMS,
            ;
            assert forall|j: int| 0 <= j < jobs@.len() implies (#[trigger] jobs@[j]).toks@.len() <= self.kv.n_ctx by {
                assert(toks@[j]@.len() <= self.kv.n_ctx);
            }
            weight::lemma_tokens_bound(jobs@, self.kv.n_ctx as int);
        }
        let st: Stats = match self.run_or_retry(&jobs, shared) {
            Ok(st) => st,
            Err(e) => {
                proof {
                    if exists|j: int| 0 <= j < jobs@.len() && run::unfit(#[trigger] jobs@[j], old(self).kv.n_ctx as int) {
                        let j = choose|j: int|
                            0 <= j < jobs@.len() && run::unfit(#[trigger] jobs@[j], old(self).kv.n_ctx as int);
                        assert(toks@[j]@.len() <= self.kv.n_ctx);
                        assert(prompts_message(&old(self).llm, old(self).frame, c, toks@, j));
                        assert(long_prompt(&old(self).llm, old(self).frame, c, j, toks@[j]@));
                        assert(has_empty_prompt(&old(self).llm, old(self).frame, c));
                    }
                    assert(asks_for(&old(self).llm, old(self).frame, c, jobs@)) by {
                        assert forall|i: int| 0 <= i < jobs@.len() implies long_prompt(
                            &old(self).llm,
                            old(self).frame,
                            c,
                            i,
                            (#[trigger] jobs@[i]).toks@,
                        ) by {
                            assert(prompts_message(&old(self).llm, old(self).frame, c, toks@, i));
                        }
                    }
                }
                return Err(EngineError::Kv(e));
            },
        };
        proof {
            assert forall|i: int| 0 <= i < toks@.len() implies 1 <= (#[trigger] toks@[i])@.len() by {
                assert(!run::unfit(jobs@[i], self.kv.n_ctx as int));
            }
            lemma_all_heard(&self.kv, jobs@, toks@);
        }
        let ghost js = jobs@;
        let d: Decided = Decided { compiled: c, toks, keeps, plen, stats: st };
        proof {
            let (k, way) = choose|k: Kv, way: Seq<run::Point>| #[trigger]
                ran_from(&old(self).kv, &k, &self.kv, js, shared, st, way);
            assert(ran_from(&old(self).kv, &k, &self.kv, js, shared, d.stats, way));
            assert(jobs_from(js, d.toks@, d.keeps@));
            assert(keeps_ok(&old(self).llm, old(self).frame, d, shared));
            assert forall|p: (usize, Seq<i32>)| #[trigger] self.kv.ledger.asks@.contains(p) implies old(self).kv.ledger.asks@.contains(
                p,
            ) || (p.0 < d.toks@.len() && p.1 == d.toks@[p.0 as int]@) by {
                if !old(self).kv.ledger.asks@.contains(p) {
                    assert(run::right_ask(js, p));
                    assert(js[p.0 as int].toks@ == d.toks@[p.0 as int]@);
                }
            }
        }
        Ok(d)
    }
}

/// Tokens of all prompts.
pub open spec fn total(toks: Seq<Vec<i32>>) -> nat
    decreases toks.len(),
{
    if toks.len() == 0 {
        0
    } else {
        total(toks.drop_last()) + toks.last()@.len()
    }
}

proof fn lemma_total(toks: Seq<Vec<i32>>, n: int)
    requires
        0 <= n <= toks.len(),
    ensures
        total(toks.take(n)) <= total(toks),
    decreases toks.len(),
{
    if n < toks.len() {
        lemma_total(toks.drop_last(), n);
        assert(toks.drop_last().take(n) =~= toks.take(n));
    } else {
        assert(toks.take(n) =~= toks);
    }
}

fn total_of(toks: &Vec<Vec<i32>>) -> (r: u64)
    requires
        total(toks@) <= u64::MAX,
    ensures
        r == total(toks@),
{
    let mut r: u64 = 0;
    let mut i: usize = 0;
    proof {
        assert(toks@.take(0) =~= Seq::empty());
    }
    while i < toks.len()
        invariant
            i <= toks@.len(),
            total(toks@) <= u64::MAX,
            r == total(toks@.take(i as int)),
        decreases toks@.len() - i,
    {
        proof {
            lemma_total(toks@, i + 1);
            assert(toks@.take(i + 1).drop_last() =~= toks@.take(i as int));
            assert(toks@.take(i + 1).last() == toks@[i as int]);
        }
        r = r + toks[i].len() as u64;
        i += 1;
    }
    proof {
        assert(toks@.take(i as int) =~= toks@);
    }
    r
}

/// A number as JSON prints it.
pub open spec fn count_json(n: nat) -> Json {
    Json::Number(text::digits(n))
}

/// What was done to answer a request.
pub open spec fn x_snap(d: Decided, head: Seq<i32>, decode_ms: Seq<char>, total_ms: Seq<char>) -> Seq<(Seq<char>, Json)> {
    seq![
        ("layout"@, Json::Str(engine::layout_name(d.compiled.layout))),
        ("decoded_items"@, count_json(d.toks@.len())),
        ("prompt_tokens"@, count_json(total(d.toks@))),
        (
            "cached_head_tokens"@,
            count_json(
                if frame::extend_head(d.toks@, head) {
                    head.len()
                } else {
                    0
                },
            ),
        ),
        ("shared_prefix_tokens"@, count_json(d.plen as nat)),
        ("cache_hits"@, count_json(d.stats.hits as nat)),
        ("cache_misses"@, count_json(d.stats.misses as nat)),
        ("waves"@, count_json(d.stats.waves as nat)),
        ("decode_ms"@, Json::Number(decode_ms)),
        ("total_ms"@, Json::Number(total_ms)),
    ]
}

/// The response to a request.
pub open spec fn response_of(
    d: Decided,
    head: Seq<i32>,
    answers: Seq<(Seq<char>, Json)>,
    model: Seq<char>,
    decode_ms: Seq<char>,
    total_ms: Seq<char>,
) -> Json {
    Json::Object(
        seq![
            ("answers"@, Json::Object(answers)),
            ("model"@, Json::Str(model)),
            ("usage"@, Json::Object(seq![("input_tokens"@, count_json(d.stats.decoded as nat))])),
            ("x_snap"@, Json::Object(x_snap(d, head, decode_ms, total_ms))),
        ],
    )
}

fn count_value(n: u64) -> (r: Value)
    ensures
        r@ == count_json(n as nat),
{
    Value::Number(text::decimal(n))
}

/// The response to a request: its answers, and exactly what was done.
pub fn response(
    d: &Decided,
    head: &Vec<i32>,
    answers: Vec<(String, Value)>,
    model: &str,
    decode_ms: &str,
    total_ms: &str,
) -> (r: Value)
    requires
        total(d.toks@) <= u64::MAX,
    ensures
        r@ == response_of(*d, head@, value::fields(answers@), model@, decode_ms@, total_ms@),
{
    let mut x: Vec<(String, Value)> = Vec::new();
    value::push_field(&mut x, "layout", Value::Str(engine::layout_str(d.compiled.layout).to_owned()));
    value::push_field(&mut x, "decoded_items", count_value(d.toks.len() as u64));
    value::push_field(&mut x, "prompt_tokens", count_value(total_of(&d.toks)));
    value::push_field(&mut x, "cached_head_tokens", count_value(frame::head_used(&d.toks, head) as u64));
    value::push_field(&mut x, "shared_prefix_tokens", count_value(d.plen as u64));
    value::push_field(&mut x, "cache_hits", count_value(d.stats.hits as u64));
    value::push_field(&mut x, "cache_misses", count_value(d.stats.misses as u64));
    value::push_field(&mut x, "waves", count_value(d.stats.waves as u64));
    value::push_field(&mut x, "decode_ms", Value::Number(decode_ms.to_owned()));
    value::push_field(&mut x, "total_ms", Value::Number(total_ms.to_owned()));
    proof {
        assert(value::fields(x@) =~= x_snap(*d, head@, decode_ms@, total_ms@));
    }
    let mut u: Vec<(String, Value)> = Vec::new();
    value::push_field(&mut u, "input_tokens", count_value(d.stats.decoded as u64));
    proof {
        assert(value::fields(u@) =~= seq![("input_tokens"@, count_json(d.stats.decoded as nat))]);
    }
    let mut out: Vec<(String, Value)> = Vec::new();
    value::push_field(&mut out, "answers", Value::Object(answers));
    value::push_field(&mut out, "model", Value::Str(model.to_owned()));
    value::push_field(&mut out, "usage", Value::Object(u));
    value::push_field(&mut out, "x_snap", Value::Object(x));
    proof {
        assert(value::fields(out@) =~= response_of(*d, head@, value::fields(answers@), model@, decode_ms@, total_ms@)->Object_0);
    }
    Value::Object(out)
}

/// The error of a request, in words.
pub open spec fn kv_said(e: KvError) -> Seq<char> {
    match e {
        KvError::Prompt { tokens, ctx } => "prompt is "@ + text::digits(tokens as nat) + " tokens, ctx is "@ + text::digits(
            ctx as nat,
        ),
        KvError::Unfit { tokens, ctx } => "prompt of "@ + text::digits(tokens as nat) + " tokens does not fit ctx "@
            + text::digits(ctx as nat),
        KvError::Decode(crate::kv::DecodeError::NoSlot) => "no free KV cells for the batch"@,
        KvError::Decode(crate::kv::DecodeError::Failed(m)) => m@,
    }
}

pub fn kv_message(e: &KvError) -> (r: String)
    ensures
        r@ == kv_said(*e),
{
    match e {
        KvError::Prompt { tokens, ctx } => "prompt is ".to_owned().concat(text::decimal(*tokens as u64).as_str()).concat(
            " tokens, ctx is ",
        ).concat(text::decimal(*ctx as u64).as_str()),
        KvError::Unfit { tokens, ctx } => "prompt of ".to_owned().concat(text::decimal(*tokens as u64).as_str()).concat(
            " tokens does not fit ctx ",
        ).concat(text::decimal(*ctx as u64).as_str()),
        KvError::Decode(d) => d.message(),
    }
}

/// The error of a request, in words.
pub open spec fn engine_said(e: EngineError) -> Seq<char> {
    match e {
        EngineError::Schema(e) => schema::said(e),
        EngineError::Frame(FrameError::Template) => "chat template does not render the user message verbatim"@,
        EngineError::Frame(FrameError::Backend(m)) => m@,
        EngineError::Frame(FrameError::Letter(c)) => "letter "@ + schema::debug_text(seq![c])
            + " is not a single token in this tokenizer"@,
        EngineError::TooLong { name, tokens, ctx } => "question "@ + schema::debug_text(name@) + ": prompt is "@
            + text::digits(tokens as nat) + " tokens, ctx is "@ + text::digits(ctx as nat),
        EngineError::Kv(e) => kv_said(e),
    }
}

/// What is said of a letter, quoted so, that no single token stands for.
pub fn no_token(shown: &str) -> (r: String)
    ensures
        r@ == "letter "@ + shown@ + " is not a single token in this tokenizer"@,
{
    "letter ".to_owned().concat(shown).concat(" is not a single token in this tokenizer")
}

/// What is said of a question, its name quoted so, that does not fit.
pub fn prompt_too_long(shown: &str, tokens: usize, ctx: usize) -> (r: String)
    ensures
        r@ == "question "@ + shown@ + ": prompt is "@ + text::digits(tokens as nat) + " tokens, ctx is "@ + text::digits(
            ctx as nat,
        ),
{
    "question ".to_owned().concat(shown).concat(": prompt is ").concat(text::decimal(tokens as u64).as_str()).concat(
        " tokens, ctx is ",
    ).concat(text::decimal(ctx as u64).as_str())
}

impl EngineError {
    /// The error in words.
    pub fn message(&self) -> (r: String)
        ensures
            r@ == engine_said(*self),
    {
        match self {
            EngineError::Schema(e) => e.message(),
            EngineError::Frame(e) => match e {
                FrameError::Template => "chat template does not render the user message verbatim".to_owned(),
                FrameError::Backend(m) => m.clone(),
                FrameError::Letter(c) => {
                    let mut t: String = String::new();
                    t.push(*c);
                    proof {
                        assert(t@ =~= seq![*c]);
                    }
                    no_token(schema::debug_of(t.as_str()).as_str())
                },
            },
            EngineError::TooLong { name, tokens, ctx } => prompt_too_long(
                schema::debug_of(name.as_str()).as_str(),
                *tokens,
                *ctx,
            ),
            EngineError::Kv(e) => kv_message(e),
        }
    }
}

} // verus!
