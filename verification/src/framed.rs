//! What prompts and responses promise: request content never becomes markup, a
//! letter is read by every token that stands for it, and a response tells what
//! was done under the right names.
use vstd::prelude::*;

use crate::batch;
use crate::decide;
use crate::decide::{Decided, Engine, EngineError};
use crate::engine;
use crate::frame;
use crate::kv::{Backend, Dec};
use crate::prefix;
use crate::prompts;
use crate::run::KvError;
use crate::schema;
use crate::schema::DecideRequest;
use crate::text;
use crate::value;
use crate::value::Json;

verus! {

/// A prompt is three parts: before and after stands the template's own text,
/// which alone may be markup; between them stands what the message was rendered
/// to, tokenized as plain text.
pub proof fn law_content_is_plain<B: Backend>(llm: &B, pre: Seq<char>, post: Seq<char>, user: Seq<char>, toks: Seq<i32>) -> (r: (
    Seq<char>,
    Seq<i32>,
    Seq<i32>,
    Seq<i32>,
))
    requires
        frame::prompt_of(llm, pre, post, user, toks),
    ensures
        llm.renders(prompts::SYSTEM@, user, pre + r.0 + post),
        llm.tokenizes(pre, true, r.1),
        llm.tokenizes(r.0, false, r.2),
        llm.tokenizes(post, true, r.3),
        toks == r.1 + r.2 + r.3,
{
    let (body, a, b, c) = choose|body: Seq<char>, a: Seq<i32>, b: Seq<i32>, c: Seq<i32>| #[trigger]
        frame::prompt_parts(llm, pre, post, user, body, a, b, c) && toks == a + b + c;
    (body, a, b, c)
}

/// The tokens that a letter is read by are all those that one of its forms is
/// as a single token, each once.
pub proof fn law_singles(ts: Seq<Option<Vec<i32>>>)
    ensures
        frame::singles(ts).no_duplicates(),
        forall|x: i32| #[trigger] frame::singles(ts).contains(x) <==> is_single(ts, x),
    decreases ts.len(),
{
    if ts.len() > 0 {
        let d = ts.drop_last();
        law_singles(d);
        let (b, s) = (frame::singles(d), frame::singles(ts));
        assert forall|x: i32| #[trigger] s.contains(x) <==> is_single(ts, x) by {
            assert(b.contains(x) <==> is_single(d, x));
            if is_single(d, x) {
                let i = choose|i: int| 0 <= i < d.len() && (#[trigger] d[i]) is Some && d[i]->0@ == seq![x];
                assert(ts[i] == d[i]);
            }
            if is_single(ts, x) && !is_single(d, x) {
                let i = choose|i: int| 0 <= i < ts.len() && (#[trigger] ts[i]) is Some && ts[i]->0@ == seq![x];
                if i < d.len() {
                    assert(d[i] == ts[i]);
                }
                assert(ts.last()->0@[0] == x);
                assert(s.last() == x || b.contains(x));
            }
            if s.contains(x) && !b.contains(x) {
                let v = ts.last()->0@;
                assert(s.last() == v[0]);
                let k = choose|k: int| 0 <= k < s.len() && s[k] == x;
                if k < b.len() {
                    assert(b[k] == x);
                }
                assert(v =~= seq![x]);
                assert(ts[ts.len() - 1] is Some);
            }
            if b.contains(x) {
                let k = choose|k: int| 0 <= k < b.len() && b[k] == x;
                assert(s[k] == x);
            }
        }
    }
}

/// One of the tokenizations is the token `x` alone.
pub open spec fn is_single(ts: Seq<Option<Vec<i32>>>, x: i32) -> bool {
    exists|i: int| 0 <= i < ts.len() && (#[trigger] ts[i]) is Some && ts[i]->0@ == seq![x]
}

/// A letter may be bare, or follow a space or a line's end.
pub proof fn law_letter_forms(c: char, k: int)
    requires
        0 <= k < frame::letter_forms(c).len(),
    ensures
        frame::letter_forms(c).len() == 3,
        frame::letter_forms(c).contains(seq![c]),
        frame::letter_forms(c).contains(seq![' ', c]),
        frame::letter_forms(c).contains(seq!['\n', c]),
        frame::letter_forms(c)[k].last() == c,
{
    let f = frame::letter_forms(c);
    assert(f[0] == seq![c] && f[1] == seq![' ', c] && f[2] == seq!['\n', c]);
}

/// The prefix that prompts share is shared by all of them, and no longer one is.
pub proof fn law_shared_by_all(toks: Seq<Vec<i32>>, n: int)
    requires
        2 <= n <= toks.len(),
    ensures
        ({
            let l = frame::shared_by_all(toks, n) as int;
            &&& forall|i: int| 0 <= i < n ==> l <= (#[trigger] toks[i])@.len() && toks[i]@.take(l) == toks[0]@.take(l)
            &&& exists|i: int|
                0 < i < n && (l == toks[0]@.len() || l == (#[trigger] toks[i])@.len() || toks[i]@[l] != toks[0]@[l])
        }),
    decreases n,
{
    let l = frame::shared_by_all(toks, n) as int;
    let m = prefix::lcp(toks[0]@, toks[n - 1]@) as int;
    prefix::lemma_lcp(toks[0]@, toks[n - 1]@);
    if n > 2 {
        law_shared_by_all(toks, n - 1);
    }
    assert forall|i: int| 0 <= i < n implies l <= (#[trigger] toks[i])@.len() && toks[i]@.take(l) == toks[0]@.take(l) by {
        if i == n - 1 {
            assert(l <= m);
            assert(toks[i]@.take(l) =~= toks[i]@.take(m).take(l));
            assert(toks[0]@.take(l) =~= toks[0]@.take(m).take(l));
        } else if n > 2 {
            let k = frame::shared_by_all(toks, n - 1) as int;
            assert(l <= k);
            assert(toks[i]@.take(k) == toks[0]@.take(k));
            assert(toks[i]@.take(l) =~= toks[i]@.take(k).take(l));
            assert(toks[0]@.take(l) =~= toks[0]@.take(k).take(l));
        }
    }
    if l == m {
        assert(l == toks[0]@.len() || l == toks[n - 1]@.len() || toks[n - 1]@[l] != toks[0]@[l]);
    } else {
        let i = choose|i: int|
            0 < i < n - 1 && (l == toks[0]@.len() || l == (#[trigger] toks[i])@.len() || toks[i]@[l] != toks[0]@[l]);
        assert(l == toks[0]@.len() || l == toks[i]@.len() || toks[i]@[l] != toks[0]@[l]);
    }
}

proof fn lemma_total_push(toks: Seq<Vec<i32>>, n: int)
    requires
        0 <= n < toks.len(),
    ensures
        decide::total(toks.take(n + 1)) == decide::total(toks.take(n)) + toks[n]@.len(),
{
    assert(toks.take(n + 1).drop_last() =~= toks.take(n));
    assert(toks.take(n + 1).last() == toks[n]);
}

/// The tokens of a request are those of all its prompts, one by one.
pub proof fn law_total(toks: Seq<Vec<i32>>)
    ensures
        decide::total(Seq::empty()) == 0,
        forall|n: int|
            0 <= n < toks.len() ==> #[trigger] decide::total(toks.take(n + 1)) == decide::total(toks.take(n)) + toks[n]@.len(),
        decide::total(toks.take(toks.len() as int)) == decide::total(toks),
{
    assert forall|n: int| 0 <= n < toks.len() implies #[trigger] decide::total(toks.take(n + 1)) == decide::total(
        toks.take(n),
    ) + toks[n]@.len() by {
        lemma_total_push(toks, n);
    }
    assert(toks.take(toks.len() as int) =~= toks);
}

/// What a response tells: its answers, the model that gave them, and what was
/// done for them: the layout used, how many items were asked and tokens sent,
/// what was shared, cached and missed, how many waves it took and how long.
pub proof fn law_response(
    d: Decided,
    head: Seq<i32>,
    answers: Seq<(Seq<char>, Json)>,
    model: Seq<char>,
    decode_ms: Seq<char>,
    total_ms: Seq<char>,
)
    ensures
        ({
            let r = decide::response_of(d, head, answers, model, decode_ms, total_ms);
            let x = value::index(r, "x_snap"@);
            &&& value::index(r, "answers"@) == Json::Object(answers)
            &&& value::index(r, "model"@) == Json::Str(model)
            &&& value::index(value::index(r, "usage"@), "input_tokens"@) == Json::Number(
                text::digits(d.stats.decoded as nat),
            )
            &&& value::index(x, "layout"@) == Json::Str(engine::layout_name(d.compiled.layout))
            &&& value::index(x, "decoded_items"@) == Json::Number(text::digits(d.toks@.len()))
            &&& value::index(x, "prompt_tokens"@) == Json::Number(text::digits(decide::total(d.toks@)))
            &&& value::index(x, "shared_prefix_tokens"@) == Json::Number(text::digits(d.plen as nat))
            &&& value::index(x, "cache_hits"@) == Json::Number(text::digits(d.stats.hits as nat))
            &&& value::index(x, "cache_misses"@) == Json::Number(text::digits(d.stats.misses as nat))
            &&& value::index(x, "waves"@) == Json::Number(text::digits(d.stats.waves as nat))
            &&& value::index(x, "decode_ms"@) == Json::Number(decode_ms)
            &&& value::index(x, "total_ms"@) == Json::Number(total_ms)
            &&& (forall|i: int|
                0 <= i < d.toks@.len() ==> (#[trigger] d.toks@[i])@.len() > head.len() && d.toks@[i]@.take(head.len() as int)
                    == head) ==> value::index(x, "cached_head_tokens"@) == Json::Number(text::digits(head.len()))
        }),
{
    let o = decide::response_of(d, head, answers, model, decode_ms, total_ms)->Object_0;
    let x = decide::x_snap(d, head, decode_ms, total_ms);
    reveal_strlit("answers");
    reveal_strlit("model");
    reveal_strlit("usage");
    reveal_strlit("x_snap");
    assert("answers"@.len() == 7 && "model"@.len() == 5 && "usage"@.len() == 5 && "x_snap"@.len() == 6);
    assert("model"@[0] == 'm' && "usage"@[0] == 'u');
    assert(value::distinct(o));
    value::lemma_nth(o, 0);
    value::lemma_nth(o, 1);
    value::lemma_nth(o, 2);
    value::lemma_nth(o, 3);
    let u = seq![("input_tokens"@, decide::count_json(d.stats.decoded as nat))];
    value::lemma_nth(u, 0);
    lemma_x_snap(d, head, decode_ms, total_ms);
    if forall|i: int|
        0 <= i < d.toks@.len() ==> (#[trigger] d.toks@[i])@.len() > head.len() && d.toks@[i]@.take(head.len() as int) == head {
        assert(frame::extend_head(d.toks@, head)) by {
            assert forall|i: int| 0 <= i < d.toks@.len() implies (#[trigger] d.toks@[i])@.len() > head.len()
                && head.is_prefix_of(d.toks@[i]@) by {
                assert(d.toks@[i]@.take(head.len() as int) =~= d.toks@[i]@.subrange(0, head.len() as int));
            }
        }
    }
}

proof fn lemma_x_snap(d: Decided, head: Seq<i32>, decode_ms: Seq<char>, total_ms: Seq<char>)
    ensures
        ({
            let x = decide::x_snap(d, head, decode_ms, total_ms);
            forall|i: int| 0 <= i < x.len() ==> value::member(x, (#[trigger] x[i]).0) == Some(x[i].1)
        }),
        ({
            let x = decide::x_snap(d, head, decode_ms, total_ms);
            &&& x.len() == 10
            &&& x[0].0 == "layout"@
            &&& x[1].0 == "decoded_items"@
            &&& x[2].0 == "prompt_tokens"@
            &&& x[3].0 == "cached_head_tokens"@
            &&& x[4].0 == "shared_prefix_tokens"@
            &&& x[5].0 == "cache_hits"@
            &&& x[6].0 == "cache_misses"@
            &&& x[7].0 == "waves"@
            &&& x[8].0 == "decode_ms"@
            &&& x[9].0 == "total_ms"@
        }),
{
    let x = decide::x_snap(d, head, decode_ms, total_ms);
    reveal_strlit("layout");
    reveal_strlit("decoded_items");
    reveal_strlit("prompt_tokens");
    reveal_strlit("cached_head_tokens");
    reveal_strlit("shared_prefix_tokens");
    reveal_strlit("cache_hits");
    reveal_strlit("cache_misses");
    reveal_strlit("waves");
    reveal_strlit("decode_ms");
    reveal_strlit("total_ms");
    assert("layout"@.len() == 6 && "decoded_items"@.len() == 13 && "prompt_tokens"@.len() == 13);
    assert("cached_head_tokens"@.len() == 18 && "shared_prefix_tokens"@.len() == 20 && "cache_hits"@.len() == 10);
    assert("cache_misses"@.len() == 12 && "waves"@.len() == 5 && "decode_ms"@.len() == 9 && "total_ms"@.len() == 8);
    assert("decoded_items"@[0] == 'd' && "prompt_tokens"@[0] == 'p');
    assert(value::distinct(x)) by {
        assert forall|i: int, j: int| 0 <= i < j < x.len() implies (#[trigger] x[i]).0 != (#[trigger] x[j]).0 by {}
    }
    assert forall|i: int| 0 <= i < x.len() implies value::member(x, (#[trigger] x[i]).0) == Some(x[i].1) by {
        value::lemma_nth(x, i);
    }
}

proof fn lemma_told(a: Seq<char>, n: Seq<char>, w: Seq<char>, c: Seq<char>)
    ensures
        text::holds(a + n + w + c, n),
        c.is_suffix_of(a + n + w + c),
{
    let t = a + n + w + c;
    assert(t =~= a + n + (w + c));
    text::lemma_holds(a, n, w + c);
    assert(c =~= t.subrange(t.len() - c.len(), t.len() as int));
}

/// A prompt that does not fit is told with its length and, last, the length
/// there is room for, and by its question's name where there are several.
pub proof fn law_told(tokens: usize, ctx: usize, name: String)
    ensures
        text::holds(decide::kv_said(KvError::Prompt { tokens, ctx }), text::digits(tokens as nat)),
        text::digits(ctx as nat).is_suffix_of(decide::kv_said(KvError::Prompt { tokens, ctx })),
        text::holds(decide::kv_said(KvError::Unfit { tokens, ctx }), text::digits(tokens as nat)),
        text::digits(ctx as nat).is_suffix_of(decide::kv_said(KvError::Unfit { tokens, ctx })),
        text::holds(decide::engine_said(EngineError::TooLong { name, tokens, ctx }), text::digits(tokens as nat)),
        text::holds(decide::engine_said(EngineError::TooLong { name, tokens, ctx }), schema::debug_text(name@)),
        text::digits(ctx as nat).is_suffix_of(decide::engine_said(EngineError::TooLong { name, tokens, ctx })),
{
    let (n, c) = (text::digits(tokens as nat), text::digits(ctx as nat));
    lemma_told("prompt is "@, n, " tokens, ctx is "@, c);
    lemma_told("prompt of "@, n, " tokens does not fit ctx "@, c);
    let d = schema::debug_text(name@);
    lemma_told("question "@ + d + ": prompt is "@, n, " tokens, ctx is "@, c);
    let rest = ": prompt is "@ + n + " tokens, ctx is "@;
    lemma_told("question "@, d, rest, c);
    assert("question "@ + d + rest + c =~= "question "@ + d + ": prompt is "@ + n + " tokens, ctx is "@ + c);
}

proof fn lemma_line(s: Seq<char>)
    ensures
        0 <= text::line_end(s) <= s.len(),
        forall|k: int| 0 <= k < text::line_end(s) ==> #[trigger] s[k] != '\n',
        text::line_end(s) < s.len() ==> s[text::line_end(s)] == '\n',
    decreases s.len(),
{
    if s.len() > 0 && s[0] != '\n' {
        let r = s.skip(1);
        lemma_line(r);
        assert forall|k: int| 0 <= k < text::line_end(s) implies #[trigger] s[k] != '\n' by {
            if k > 0 {
                assert(s[k] == r[k - 1]);
            }
        }
        if text::line_end(s) < s.len() {
            assert(s[text::line_end(s)] == r[text::line_end(r)]);
        }
    }
}

/// Text that arrives in pieces gives the lines that it gives at once: what a
/// piece leaves unfinished goes before the next.
pub proof fn law_pieces(a: Seq<char>, b: Seq<char>)
    ensures
        batch::complete_lines(a + b) == batch::complete_lines(a) + batch::complete_lines(batch::pending_in(a) + b),
        batch::pending_in(a + b) == batch::pending_in(batch::pending_in(a) + b),
        forall|k: int| 0 <= k < batch::pending_in(a).len() ==> #[trigger] batch::pending_in(a)[k] != '\n',
    decreases a.len(),
{
    let i = text::line_end(a);
    lemma_line(a);
    if i < a.len() {
        let r = a.skip(i + 1);
        law_pieces(r, b);
        let t = a + b;
        text::lemma_line_end(t, i);
        assert(t.take(i + 1) =~= a.take(i + 1));
        assert(t.skip(i + 1) =~= r + b);
        let one = seq![text::trimmed_end(a.take(i + 1))];
        assert(batch::complete_lines(t) == one + batch::complete_lines(r + b));
        assert(batch::complete_lines(t) =~= batch::complete_lines(a) + batch::complete_lines(
            batch::pending_in(a) + b,
        ));
    } else {
        assert(batch::complete_lines(a) =~= Seq::empty());
        assert(batch::complete_lines(a + b) =~= batch::complete_lines(a) + batch::complete_lines(a + b));
    }
}

/// What was decided was read in full: every item's prompt is that of its whole
/// message, fits, and was read right after its last token. Nothing is cut short.
pub proof fn law_never_truncated<B: Backend>(o: Engine<B>, f: Engine<B>, req: DecideRequest, d: Decided, i: int)
    requires
        decide::decided(o, f, req, d),
        0 <= i < d.toks@.len(),
        d.toks@.len() <= usize::MAX,
    ensures
        d.toks@.len() == d.compiled.asks.asks@.len(),
        frame::prompt_of(&o.llm, o.frame.0@, o.frame.1@, d.compiled.msgs@[i]@, d.toks@[i]@),
        1 <= d.toks@[i]@.len() <= f.kv.n_ctx,
        f.kv.ledger.seen@.dom().contains(i as usize),
        f.kv.ledger.seen@[i as usize] == d.toks@[i]@,
{
    assert(decide::prompts_message(&o.llm, o.frame, d.compiled, d.toks@, i));
    let j = i as usize;
    assert(f.kv.ledger.seen@.dom().contains(j));
}

/// Head tokens count as cached only where every prompt of the request starts
/// with all of them and goes on.
pub proof fn law_head_counts(d: Decided, head: Seq<i32>, decode_ms: Seq<char>, total_ms: Seq<char>, i: int)
    requires
        0 <= i < d.toks@.len(),
        d.toks@[i]@.len() <= head.len() || d.toks@[i]@.take(head.len() as int) != head,
    ensures
        value::index(Json::Object(decide::x_snap(d, head, decode_ms, total_ms)), "cached_head_tokens"@) == Json::Number(
            text::digits(0),
        ),
{
    let x = decide::x_snap(d, head, decode_ms, total_ms);
    lemma_x_snap(d, head, decode_ms, total_ms);
    assert(value::member(x, x[3].0) == Some(x[3].1));
    if frame::extend_head(d.toks@, head) {
        assert(d.toks@[i]@.len() > head.len() && head.is_prefix_of(d.toks@[i]@));
        assert(d.toks@[i]@.take(head.len() as int) =~= head);
    }
}

/// A group that is to be read is read once, after its last token, and any other
/// never.
pub proof fn law_read_once(d: Dec, at: int, other: int)
    requires
        0 <= at < d.toks@.len(),
        0 <= other < d.toks@.len(),
    ensures
        d.logits ==> batch::wanted(d, d.toks@.len() - 1),
        batch::wanted(d, at) && batch::wanted(d, other) ==> at == other,
        !d.logits ==> !batch::wanted(d, at),
{
}

} // verus!
