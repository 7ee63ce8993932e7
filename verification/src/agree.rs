//! The same questions over the same state, asked twice: whatever the mode and
//! whatever the cache holds, the same prompts are read at the same tokens, and
//! get the same answers.
use vstd::prelude::*;

use crate::answer;
use crate::answer::{Readout, Weighed};
use crate::decide;
use crate::decide::Decided;
use crate::decisions;
use crate::engine;
use crate::engine::{Ask, Asks, Compiled, Folded};
use crate::expand;
use crate::fold;
use crate::frame;
use crate::kv::{Backend, Kv};
use crate::prompts;
use crate::prompts::Slot;
use crate::schema;
use crate::schema::{DecideRequest, Expand, Question};
use crate::text;
use crate::value::Json;

verus! {

/// Requests that ask the same of the same state.
pub open spec fn same_ask(a: DecideRequest, b: DecideRequest) -> bool {
    &&& a.questions@ == b.questions@
    &&& a.state@ == b.state@
    &&& a.layout == b.layout
    &&& a.expand == b.expand
    &&& a.compact_state == b.compact_state
}

/// Items that ask the same.
pub open spec fn same_item(a: Ask, b: Ask) -> bool {
    a.name@ == b.name@ && a.bucket@ == b.bucket@ && schema::same_question(a.q, b.q)
}

/// Items that ask the same, one for one.
pub open spec fn same_items(a: Seq<Ask>, b: Seq<Ask>) -> bool {
    a.len() == b.len() && forall|i: int| 0 <= i < a.len() ==> same_item(#[trigger] a[i], b[i])
}

/// Questions that offer no values offer the same.
proof fn lemma_plain(a: Question, b: Question)
    requires
        a.anchors@.len() == 0,
        b.anchors@.len() == 0,
    ensures
        text::views(a.anchors@) == text::views(b.anchors@),
{
    assert(text::views(a.anchors@) =~= text::views(b.anchors@));
}

/// A request becomes the same items whenever it is laid out.
proof fn lemma_same_item(qs: Seq<schema::Asked>, e: Expand, r: Asks, t: Asks, k: int)
    requires
        engine::laid_out(qs, e, qs.len() as int, r),
        engine::laid_out(qs, e, qs.len() as int, t),
        0 <= k < r.asks@.len(),
    ensures
        same_item(r.asks@[k], t.asks@[k]),
{
    let n = qs.len() as int;
    let i = engine::lemma_whose(qs, e, n, k);
    engine::lemma_offset(qs, e, i + 1, n);
    let (lo, hi) = (engine::offset(qs, e, i) as int, engine::offset(qs, e, i + 1) as int);
    assert(engine::items_at(qs, e, r.asks@, i) && engine::items_at(qs, e, t.asks@, i));
    reveal(engine::items_of);
    let (x, y) = (r.asks@.subrange(lo, hi), t.asks@.subrange(lo, hi));
    let (a, b) = (x[k - lo], y[k - lo]);
    assert(a == r.asks@[k] && b == t.asks@[k]);
    let q = qs[i].1->Ok_0;
    if expand::expands(q) {
        assert(engine::questions_of(x)[k - lo] == a.q && engine::questions_of(y)[k - lo] == b.q);
        lemma_plain(a.q, b.q);
    }
}

proof fn lemma_same_items(qs: Seq<schema::Asked>, e: Expand, r: Asks, t: Asks)
    requires
        engine::laid_out(qs, e, qs.len() as int, r),
        engine::laid_out(qs, e, qs.len() as int, t),
    ensures
        same_items(r.asks@, t.asks@),
{
    assert forall|k: int| 0 <= k < r.asks@.len() implies same_item(#[trigger] r.asks@[k], t.asks@[k]) by {
        lemma_same_item(qs, e, r, t, k);
    }
}

/// The same question weighs the same and reads the same.
proof fn lemma_same_text(a: Question, b: Question)
    requires
        schema::same_question(a, b),
        prompts::has_options(a),
    ensures
        prompts::slots_of(a) == prompts::slots_of(b),
        prompts::type_lines(a) == prompts::type_lines(b),
        engine::head_chars(a) == engine::head_chars(b),
{
}

proof fn lemma_same_heads(a: Seq<Ask>, b: Seq<Ask>)
    requires
        same_items(a, b),
        forall|i: int| 0 <= i < a.len() ==> engine::askable((#[trigger] a[i]).q),
    ensures
        engine::head_sum(engine::questions_of(a)) == engine::head_sum(engine::questions_of(b)),
    decreases a.len(),
{
    let (x, y) = (engine::questions_of(a), engine::questions_of(b));
    if a.len() > 0 {
        let (c, d) = (a.drop_last(), b.drop_last());
        assert forall|i: int| 0 <= i < c.len() implies same_item(#[trigger] c[i], d[i]) && engine::askable(c[i].q) by {
            assert(same_item(a[i], b[i]));
        }
        lemma_same_heads(c, d);
        assert(x.drop_last() =~= engine::questions_of(c));
        assert(y.drop_last() =~= engine::questions_of(d));
        assert(same_item(a[a.len() - 1], b[b.len() - 1]));
        lemma_same_text(a.last().q, b.last().q);
    }
}

proof fn lemma_same_catalog(a: Seq<Ask>, b: Seq<Ask>, n: int)
    requires
        same_items(a, b),
        0 <= n <= a.len(),
        forall|i: int| 0 <= i < a.len() ==> engine::askable((#[trigger] a[i]).q),
    ensures
        engine::catalog_of(a, n) == engine::catalog_of(b, n),
    decreases n,
{
    if n > 0 {
        lemma_same_catalog(a, b, n - 1);
        assert(same_item(a[n - 1], b[n - 1]));
    }
}

/// Two compilations of the same questions over the same state hold the same
/// messages in the same layout, for the same items.
pub proof fn law_same_messages(a: DecideRequest, b: DecideRequest, c: Compiled, d: Compiled)
    requires
        engine::compiled(a, c),
        engine::compiled(b, d),
        same_ask(a, b),
    ensures
        same_items(c.asks.asks@, d.asks.asks@),
        c.layout == d.layout,
        c.msgs@.len() == d.msgs@.len(),
        forall|i: int| 0 <= i < c.msgs@.len() ==> (#[trigger] c.msgs@[i])@ == d.msgs@[i]@,
        forall|i: int|
            0 <= i < c.slots@.len() ==> prompts::slot_views((#[trigger] c.slots@[i])@) == prompts::slot_views(d.slots@[i]@),
{
    let (x, y) = (c.asks.asks@, d.asks.asks@);
    let qs = a.questions@;
    lemma_same_items(qs, a.expand, c.asks, d.asks);
    lemma_same_heads(x, y);
    lemma_same_catalog(x, y, x.len() as int);
    assert(engine::state_text(a) == engine::state_text(b));
    assert(engine::questions_of(x).len() == engine::questions_of(y).len());
    assert(c.layout == d.layout);
    assert forall|i: int| 0 <= i < c.msgs@.len() implies (#[trigger] c.msgs@[i])@ == d.msgs@[i]@ && prompts::slot_views(
        c.slots@[i]@,
    ) == prompts::slot_views(d.slots@[i]@) by {
        assert(same_item(x[i], y[i]) && engine::askable(x[i].q));
        lemma_same_text(x[i].q, y[i].q);
        assert(prompts::slot_views(c.slots@[i]@) == prompts::slots_of(x[i].q));
        assert(prompts::slot_views(d.slots@[i]@) == prompts::slots_of(y[i].q));
        assert(d.msgs@[i]@ == engine::message_of(qs, y, d.layout, d.state@, i));
        assert(prompts::block(x[i].q, prompts::slots_of(x[i].q)) == prompts::block(y[i].q, prompts::slots_of(y[i].q)));
    }
}

/// Backends that render and tokenize alike.
pub open spec fn alike<B: Backend>(x: &B, y: &B) -> bool {
    &&& forall|s: Seq<char>, u: Seq<char>, p: Seq<char>, q: Seq<char>| #[trigger]
        x.renders(s, u, p) && #[trigger] y.renders(s, u, q) ==> p == q
    &&& forall|t: Seq<char>, special: bool, p: Seq<i32>, q: Seq<i32>| #[trigger]
        x.tokenizes(t, special, p) && #[trigger] y.tokenizes(t, special, q) ==> p == q
}

proof fn lemma_one_prompt<B: Backend>(x: &B, y: &B, pre: Seq<char>, post: Seq<char>, user: Seq<char>, p: Seq<i32>, q: Seq<i32>)
    requires
        alike(x, y),
        frame::prompt_of(x, pre, post, user, p),
        frame::prompt_of(y, pre, post, user, q),
    ensures
        p == q,
{
    let (b1, p1, p2, p3) = choose|body: Seq<char>, a: Seq<i32>, b: Seq<i32>, c: Seq<i32>| #[trigger]
        frame::prompt_parts(x, pre, post, user, body, a, b, c) && p == a + b + c;
    let (b2, q1, q2, q3) = choose|body: Seq<char>, a: Seq<i32>, b: Seq<i32>, c: Seq<i32>| #[trigger]
        frame::prompt_parts(y, pre, post, user, body, a, b, c) && q == a + b + c;
    let (f1, f2) = (pre + b1 + post, pre + b2 + post);
    assert(f1 == f2);
    assert(b1.len() == b2.len());
    assert(b1 =~= f1.subrange(pre.len() as int, pre.len() as int + b1.len()));
    assert(b2 =~= f2.subrange(pre.len() as int, pre.len() as int + b2.len()));
}

/// Sharing changes what is decoded, never what is read: asked in either mode,
/// over whatever cache, the same questions about the same state are read right
/// after the same tokens, for the same letters.
pub proof fn law_modes_agree<B: Backend>(
    x: &B,
    y: &B,
    frame: (String, String),
    a: DecideRequest,
    b: DecideRequest,
    u: &Kv,
    v: &Kv,
    d: Decided,
    e: Decided,
    shared: bool,
    alone: bool,
    j: usize,
)
    requires
        alike(x, y),
        same_ask(a, b),
        engine::compiled(a, d.compiled),
        engine::compiled(b, e.compiled),
        decide::decoded(x, frame, u, shared, d),
        decide::decoded(y, frame, v, alone, e),
        j < d.toks@.len(),
    ensures
        d.toks@.len() == e.toks@.len(),
        u.ledger.seen@.dom().contains(j) && v.ledger.seen@.dom().contains(j),
        u.ledger.seen@[j] == v.ledger.seen@[j],
        u.ledger.seen@[j] == d.toks@[j as int]@,
        same_item(d.compiled.asks.asks@[j as int], e.compiled.asks.asks@[j as int]),
        prompts::slot_views(d.compiled.slots@[j as int]@) == prompts::slot_views(e.compiled.slots@[j as int]@),
{
    law_same_messages(a, b, d.compiled, e.compiled);
    let i = j as int;
    assert(same_item(d.compiled.asks.asks@[i], e.compiled.asks.asks@[i]));
    assert(decide::prompts_message(x, frame, d.compiled, d.toks@, i));
    assert(decide::prompts_message(y, frame, e.compiled, e.toks@, i));
    assert(d.compiled.msgs@[i]@ == e.compiled.msgs@[i]@);
    lemma_one_prompt(x, y, frame.0@, frame.1@, d.compiled.msgs@[i]@, d.toks@[i]@, e.toks@[i]@);
    assert(prompts::slot_views(d.compiled.slots@[i]@) == prompts::slot_views(e.compiled.slots@[i]@));
}

/// The answers of all items.
pub open spec fn items_answered(c: Compiled, rs: Seq<Readout>) -> Seq<Json> {
    Seq::new(rs.len(), |i: int| answer::item_answer(c.asks.asks@[i].q, c.slots@[i]@, rs[i]))
}

/// The answers of all expanded questions.
pub open spec fn expanded_answered(c: Compiled, e: Expand, ws: Seq<Weighed>) -> Seq<Json> {
    Seq::new(ws.len(), |i: int| answer::folded_answer(c.asks.folded@[i], e, ws[i]))
}

/// The answers to a request, of which `rs` was read for its items and `ws` came of
/// its expanded questions.
pub open spec fn answered(c: Compiled, e: Expand, rs: Seq<Readout>, ws: Seq<Weighed>) -> fold::Members {
    let asks = c.asks.asks@;
    let folded = c.asks.folded@;
    fold::refolded(
        fold::by_name(asks, items_answered(c, rs), asks.len() as int),
        folded,
        expanded_answered(c, e, ws),
        folded.len() as int,
    )
}

/// Readouts that say the same.
pub open spec fn same_readout(a: Readout, b: Readout) -> bool {
    &&& a.reading.probs@ == b.reading.probs@
    &&& text::views(a.reading.shown@) == text::views(b.reading.shown@)
    &&& a.reading.close == b.reading.close
    &&& a.reading.confidence@ == b.reading.confidence@
    &&& a.reading.score@ == b.reading.score@
    &&& match (a.reading.value, b.reading.value) {
        (Some(x), Some(y)) => x@ == y@,
        (None, None) => true,
        _ => false,
    }
    &&& a.coverage@ == b.coverage@
}

/// What expanded questions came to, the same of both.
pub open spec fn same_weighed(a: Weighed, b: Weighed) -> bool {
    &&& a.shares.scores@ == b.shares.scores@
    &&& text::views(a.shares.shown@) == text::views(b.shares.shown@)
    &&& a.shares.close == b.shares.close
    &&& a.shares.confidence@ == b.shares.confidence@
    &&& a.empty == b.empty
    &&& a.coverage@ == b.coverage@
}

/// A row depends on the tokens before it alone: the `j`-th items, read after the
/// same tokens for the same letters, are read alike.
pub open spec fn reads_alike(u: &Kv, v: &Kv, c: Compiled, d: Compiled, rs: Seq<Readout>, ts: Seq<Readout>, j: int) -> bool {
    u.ledger.seen@[j as usize] == v.ledger.seen@[j as usize] && same_item(c.asks.asks@[j], d.asks.asks@[j])
        && prompts::slot_views(c.slots@[j]@) == prompts::slot_views(d.slots@[j]@) ==> same_readout(rs[j], ts[j])
}

/// What an expanded question comes to depends on the answers of its items alone:
/// the `k`-th ones, of items answered alike, come to the same.
pub open spec fn weighs_alike(c: Compiled, d: Compiled, x: Seq<Json>, y: Seq<Json>, ws: Seq<Weighed>, vs: Seq<Weighed>, k: int) -> bool {
    let f = c.asks.folded@[k];
    same_folded(f, d.asks.folded@[k]) && x.subrange(f.first as int, f.first + f.n) == y.subrange(
        f.first as int,
        f.first + f.n,
    ) ==> same_weighed(ws[k], vs[k])
}

/// The same expanded question.
pub open spec fn same_folded(a: Folded, b: Folded) -> bool {
    &&& a.name@ == b.name@
    &&& schema::same_question(a.q, b.q)
    &&& text::views(a.keys@) == text::views(b.keys@)
    &&& a.first == b.first
    &&& a.n == b.n
}

/// The same reading of the same question is the same answer.
proof fn lemma_same_answer(a: Question, b: Question, s: Seq<Slot>, t: Seq<Slot>, x: Readout, y: Readout)
    requires
        schema::same_question(a, b),
        prompts::slot_views(s) == prompts::slot_views(t),
        same_readout(x, y),
    ensures
        answer::item_answer(a, s, x) == answer::item_answer(b, t, y),
{
    let (m, n) = (
        decisions::answer_of(a, prompts::slot_views(s), x.reading),
        decisions::answer_of(b, prompts::slot_views(t), y.reading),
    );
    assert(m->Object_0 =~= n->Object_0);
}

proof fn lemma_same_by_name(a: Seq<Ask>, b: Seq<Ask>, x: Seq<Json>, n: int)
    requires
        same_items(a, b),
        0 <= n <= a.len(),
    ensures
        fold::by_name(a, x, n) == fold::by_name(b, x, n),
    decreases n,
{
    if n > 0 {
        lemma_same_by_name(a, b, x, n - 1);
        assert(same_item(a[n - 1], b[n - 1]));
    }
}

proof fn lemma_same_refolded(m: fold::Members, a: Seq<Folded>, b: Seq<Folded>, x: Seq<Json>, n: int)
    requires
        forall|k: int| 0 <= k < n ==> same_folded(#[trigger] a[k], b[k]),
    ensures
        fold::refolded(m, a, x, n) == fold::refolded(m, b, x, n),
    decreases n,
{
    if n > 0 {
        lemma_same_refolded(m, a, b, x, n - 1);
        assert(same_folded(a[n - 1], b[n - 1]));
    }
}

/// A backend whose rows depend on nothing but the tokens before them gives the same
/// questions over the same state the same answers: asked in either mode, with
/// every question on its own or text shared between them, over whatever an
/// earlier request left cached.
pub proof fn law_same_answers<B: Backend>(
    x: &B,
    y: &B,
    frame: (String, String),
    a: DecideRequest,
    b: DecideRequest,
    u: &Kv,
    v: &Kv,
    d: Decided,
    e: Decided,
    shared: bool,
    alone: bool,
    rs: Seq<Readout>,
    ts: Seq<Readout>,
    ws: Seq<Weighed>,
    vs: Seq<Weighed>,
)
    requires
        alike(x, y),
        same_ask(a, b),
        engine::compiled(a, d.compiled),
        engine::compiled(b, e.compiled),
        decide::decoded(x, frame, u, shared, d),
        decide::decoded(y, frame, v, alone, e),
        rs.len() == d.toks@.len(),
        ts.len() == e.toks@.len(),
        ws.len() == d.compiled.asks.folded@.len(),
        vs.len() == e.compiled.asks.folded@.len(),
        forall|j: int| 0 <= j < rs.len() ==> #[trigger] reads_alike(u, v, d.compiled, e.compiled, rs, ts, j),
        forall|k: int|
            0 <= k < ws.len() ==> #[trigger] weighs_alike(
                d.compiled,
                e.compiled,
                items_answered(d.compiled, rs),
                items_answered(e.compiled, ts),
                ws,
                vs,
                k,
            ),
    ensures
        answered(d.compiled, a.expand, rs, ws) == answered(e.compiled, b.expand, ts, vs),
{
    let (c1, c2) = (d.compiled, e.compiled);
    let (qs, n) = (a.questions@, a.questions@.len() as int);
    law_same_messages(a, b, c1, c2);
    assert(rs.len() == ts.len());
    let (p, q) = (items_answered(c1, rs), items_answered(c2, ts));
    assert forall|j: int| 0 <= j < rs.len() implies p[j] == q[j] by {
        assert(j < d.toks.len());
        law_modes_agree(x, y, frame, a, b, u, v, d, e, shared, alone, j as usize);
        assert(reads_alike(u, v, c1, c2, rs, ts, j));
        assert(same_item(c1.asks.asks@[j], c2.asks.asks@[j]));
        lemma_same_answer(c1.asks.asks@[j].q, c2.asks.asks@[j].q, c1.slots@[j]@, c2.slots@[j]@, rs[j], ts[j]);
    }
    assert(p =~= q);
    let (f, g) = (c1.asks.folded@, c2.asks.folded@);
    assert(f.len() == g.len());
    let (r, t) = (expanded_answered(c1, a.expand, ws), expanded_answered(c2, b.expand, vs));
    assert forall|k: int| 0 <= k < f.len() implies same_folded(#[trigger] f[k], g[k]) by {
        let i = engine::expanding(qs, n)[k];
        assert(engine::folded_from(qs, a.expand, i, f[k]));
        assert(engine::folded_from(qs, a.expand, i, g[k]));
    }
    assert forall|k: int| 0 <= k < f.len() implies r[k] == t[k] by {
        assert(weighs_alike(c1, c2, p, q, ws, vs, k));
        assert(same_folded(f[k], g[k]));
    }
    assert(r =~= t);
    lemma_same_by_name(c1.asks.asks@, c2.asks.asks@, p, c1.asks.asks@.len() as int);
    lemma_same_refolded(fold::by_name(c1.asks.asks@, p, c1.asks.asks@.len() as int), f, g, r, f.len() as int);
}

} // verus!
