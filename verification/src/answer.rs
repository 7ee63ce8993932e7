//! From what was read at the letters of every item to the answers of items, and
//! of the questions that were expanded.
use vstd::prelude::*;

use crate::decisions;
use crate::decisions::{Reading, Shares};
use crate::engine;
use crate::engine::{Asks, Compiled, Folded};
use crate::expand;
use crate::fold;
use crate::num;
use crate::prompts;
use crate::prompts::Slot;
use crate::schema::{DecideRequest, Expand, QType, Question};
use crate::text;
use crate::value;
use crate::value::{Json, Value};

verus! {

/// What was read for one item.
pub struct Readout {
    pub reading: Reading,
    /// the share of the next-token mass on the allowed letters, as it is
    /// reported
    pub coverage: String,
}

/// The answer of an item.
pub open spec fn item_answer(q: Question, slots: Seq<Slot>, r: Readout) -> Json {
    decisions::covered(decisions::answer_of(q, prompts::slot_views(slots), r.reading), r.coverage@)
}

/// One readout for every item, one probability for every slot of it.
pub open spec fn all_read(c: Compiled, rs: Seq<Readout>) -> bool {
    &&& rs.len() == c.asks.asks@.len()
    &&& rs.len() == c.slots@.len()
    &&& forall|i: int| 0 <= i < rs.len() ==> (#[trigger] rs[i]).reading.covers(prompts::slot_views(c.slots@[i]@))
}

/// The answers of all items, in order.
pub fn item_answers(c: &Compiled, rs: &Vec<Readout>) -> (r: Vec<Value>)
    requires
        all_read(*c, rs@),
    ensures
        r@.len() == rs@.len(),
        forall|i: int| 0 <= i < r@.len() ==> (#[trigger] r@[i])@ == item_answer(c.asks.asks@[i].q, c.slots@[i]@, rs@[i]),
{
    let mut r: Vec<Value> = Vec::new();
    let mut i: usize = 0;
    while i < rs.len()
        invariant
            i <= rs@.len(),
            all_read(*c, rs@),
            r@.len() == i,
            forall|j: int|
                0 <= j < r@.len() ==> (#[trigger] r@[j])@ == item_answer(c.asks.asks@[j].q, c.slots@[j]@, rs@[j]),
        decreases rs@.len() - i,
    {
        let a: Value = decisions::decode(&c.asks.asks[i].q, &c.slots[i], &rs[i].reading);
        r.push(decisions::with_coverage(a, rs[i].coverage.as_str()));
        i += 1;
    }
    r
}

/// The items of an expanded question lie among the answers: one for each
/// option where each is probed.
pub open spec fn lies_in(f: Folded, e: Expand, n: int) -> bool {
    &&& f.first + f.n <= n
    &&& e is Probes ==> f.n == f.keys@.len()
}

/// The numbers that make up the mass of option `i`: what its own probe says to
/// yes, or what every page says to it.
pub open spec fn option_mass(f: Folded, e: Expand, answers: Seq<Json>, i: int) -> Seq<Option<Seq<char>>> {
    match e {
        Expand::Probes => seq![decisions::page_mass(answers[f.first + i], "yes"@)],
        Expand::Pages => Seq::new(
            f.n as nat,
            |p: int| decisions::page_mass(answers[f.first + p], f.keys@[i]@),
        ),
    }
}

/// Numbers, by the text they print as.
pub open spec fn texts(v: Seq<Option<String>>) -> Seq<Option<Seq<char>>> {
    v.map_values(
        |t: Option<String>|
            match t {
                Some(s) => Some(s@),
                None => None,
            },
    )
}

/// What every page says to an option.
fn page_masses(f: &Folded, answers: &Vec<Value>, k: &str) -> (r: Vec<Option<String>>)
    requires
        f.first + f.n <= answers@.len(),
    ensures
        texts(r@) == Seq::new(
            f.n as nat,
            |p: int| decisions::page_mass(value::jsons(answers@)[f.first + p], k@),
        ),
{
    let mut r: Vec<Option<String>> = Vec::new();
    let ghost all = Seq::new(f.n as nat, |p: int| decisions::page_mass(value::jsons(answers@)[f.first + p], k@));
    proof {
        value::lemma_jsons(answers@);
    }
    let len: usize = answers.len();
    let mut p: usize = 0;
    while p < f.n
        invariant
            p <= f.n,
            len == answers@.len(),
            f.first + f.n <= answers@.len(),
            all == Seq::new(f.n as nat, |p: int| decisions::page_mass(value::jsons(answers@)[f.first + p], k@)),
            value::jsons(answers@).len() == answers@.len(),
            forall|j: int| 0 <= j < answers@.len() ==> #[trigger] value::jsons(answers@)[j] == value::json(answers@[j]),
            texts(r@) =~= all.take(p as int),
        decreases f.n - p,
    {
        let m: Option<String> = decisions::mass_on(&answers[f.first + p], k);
        let ghost before = r@;
        r.push(m);
        proof {
            assert(texts(r@) =~= texts(before).push(all[p as int]));
        }
        p += 1;
    }
    proof {
        assert(all.take(p as int) =~= all);
    }
    r
}

/// The numbers that make up the mass of every option of an expanded question.
pub fn option_masses(f: &Folded, e: Expand, answers: &Vec<Value>) -> (r: Vec<Vec<Option<String>>>)
    requires
        lies_in(*f, e, answers@.len() as int),
    ensures
        r@.len() == f.keys@.len(),
        forall|i: int|
            0 <= i < r@.len() ==> texts((#[trigger] r@[i])@) == option_mass(*f, e, value::jsons(answers@), i),
{
    let mut r: Vec<Vec<Option<String>>> = Vec::new();
    let len: usize = answers.len();
    let mut i: usize = 0;
    proof {
        value::lemma_jsons(answers@);
    }
    while i < f.keys.len()
        invariant
            i <= f.keys@.len(),
            len == answers@.len(),
            lies_in(*f, e, answers@.len() as int),
            value::jsons(answers@).len() == answers@.len(),
            forall|j: int| 0 <= j < answers@.len() ==> #[trigger] value::jsons(answers@)[j] == value::json(answers@[j]),
            r@.len() == i,
            forall|j: int|
                0 <= j < r@.len() ==> texts((#[trigger] r@[j])@) == option_mass(*f, e, value::jsons(answers@), j),
        decreases f.keys@.len() - i,
    {
        let m: Vec<Option<String>> = match e {
            Expand::Probes => {
                let mut one: Vec<Option<String>> = Vec::new();
                one.push(decisions::mass_on(&answers[f.first + i], "yes"));
                proof {
                    assert(texts(one@) =~= option_mass(*f, e, value::jsons(answers@), i as int));
                }
                one
            },
            Expand::Pages => page_masses(f, answers, f.keys[i].as_str()),
        };
        r.push(m);
        i += 1;
    }
    r
}

/// What the items of an expanded question came to.
pub struct Weighed {
    pub shares: Shares,
    /// the options have no mass at all
    pub empty: bool,
    /// the mean coverage of the items, as it is reported
    pub coverage: String,
}

/// The answer of an expanded question.
pub open spec fn folded_answer(f: Folded, e: Expand, w: Weighed) -> Json {
    let abstained = match e {
        Expand::Probes => decisions::unconvinced(f.q, w.shares.scores@),
        Expand::Pages => w.empty && f.q.allow_abstain,
    };
    decisions::covered(decisions::merged_answer(text::views(f.keys@), w.shares, abstained), w.coverage@)
}

/// The answers of all expanded questions, in order.
pub fn folded_answers(asks: &Asks, e: Expand, ws: &Vec<Weighed>) -> (r: Vec<Value>)
    requires
        ws@.len() == asks.folded@.len(),
        forall|i: int| 0 <= i < ws@.len() ==> (#[trigger] ws@[i]).shares.shown@.len() == asks.folded@[i].keys@.len(),
    ensures
        r@.len() == ws@.len(),
        forall|i: int| 0 <= i < r@.len() ==> (#[trigger] r@[i])@ == folded_answer(asks.folded@[i], e, ws@[i]),
{
    let mut r: Vec<Value> = Vec::new();
    let mut i: usize = 0;
    while i < ws.len()
        invariant
            i <= ws@.len(),
            ws@.len() == asks.folded@.len(),
            forall|i: int| 0 <= i < ws@.len() ==> (#[trigger] ws@[i]).shares.shown@.len() == asks.folded@[i].keys@.len(),
            r@.len() == i,
            forall|j: int| 0 <= j < r@.len() ==> (#[trigger] r@[j])@ == folded_answer(asks.folded@[j], e, ws@[j]),
        decreases ws@.len() - i,
    {
        let f: &Folded = &asks.folded[i];
        let w: &Weighed = &ws[i];
        let a: Value = match e {
            Expand::Probes => decisions::merge_scored(&f.q, &f.keys, &w.shares),
            Expand::Pages => decisions::merge_paged(&f.q, &f.keys, &w.shares, w.empty),
        };
        r.push(decisions::with_coverage(a, w.coverage.as_str()));
        i += 1;
    }
    r
}

/// The items of an expanded question are those that it expands into, in order.
proof fn lemma_items(req: DecideRequest, c: Compiled, k: int) -> (i: int)
    requires
        engine::compiled(req, c),
        0 <= k < c.asks.folded@.len(),
    ensures
        0 <= i < req.questions@.len(),
        engine::folded_from(req.questions@, req.expand, i, c.asks.folded@[k]),
        ({
            let f = c.asks.folded@[k];
            &&& f.first + f.n <= c.asks.asks@.len()
            &&& expand::is_expansion(
                req.questions@[i].1->Ok_0,
                req.expand,
                engine::questions_of(c.asks.asks@.subrange(f.first as int, f.first + f.n)),
            )
        }),
{
    let (qs, e, n) = (req.questions@, req.expand, req.questions@.len() as int);
    fold::lemma_expanding(qs, n);
    let i = engine::expanding(qs, n)[k];
    assert(engine::folded_from(qs, e, i, c.asks.folded@[k]));
    assert(engine::items_at(qs, e, c.asks.asks@, i));
    engine::lemma_offset(qs, e, i + 1, n);
    reveal(engine::items_of);
    i
}

/// What an item's answer gives an option is what was read at the option's
/// slot.
proof fn lemma_mass(q: Question, slots: Seq<Slot>, r: Readout, y: int)
    requires
        q.qtype != QType::Score,
        r.reading.covers(prompts::slot_views(slots)),
        0 <= y < slots.len(),
        !slots[y].special,
        forall|j: int| y < j < slots.len() ==> (#[trigger] slots[j]).key@ != slots[y].key@,
    ensures
        decisions::page_mass(item_answer(q, slots, r), slots[y].key@) == Some(r.reading.shown@[y]@),
{
    let s = prompts::slot_views(slots);
    assert(s[y] == slots[y]@);
    assert forall|j: int| y < j < s.len() implies (#[trigger] s[j]).key != s[y].key by {
        assert(s[j] == slots[j]@);
    }
    decisions::law_probabilities(q, s, r.reading, y);
    decisions::law_coverage(q, s, r.reading, r.coverage@);
    reveal_strlit("probabilities");
    reveal_strlit("coverage");
    assert("probabilities"@.len() == 13 && "coverage"@.len() == 8);
    let a = item_answer(q, slots, r);
    assert(value::index(a, "probabilities"@) == value::index(
        decisions::answer_of(q, s, r.reading),
        "probabilities"@,
    ));
}

/// `answers` are those of the items of `c`, as they were read.
pub open spec fn answered(c: Compiled, rs: Seq<Readout>, answers: Seq<Json>) -> bool {
    &&& answers.len() == rs.len()
    &&& forall|j: int|
        0 <= j < answers.len() ==> #[trigger] answers[j] == item_answer(c.asks.asks@[j].q, c.slots@[j]@, rs[j])
}

/// Where every option is probed, the mass of an option is what was read for
/// yes at the end of the prompt that asks about that very option, and nothing
/// else: the option most strongly affirmed has the largest.
pub proof fn law_probe_mass(req: DecideRequest, c: Compiled, rs: Seq<Readout>, answers: Seq<Json>, k: int, i: int)
    requires
        engine::compiled(req, c),
        req.expand == Expand::Probes,
        all_read(c, rs),
        answered(c, rs, answers),
        0 <= k < c.asks.folded@.len(),
        0 <= i < c.asks.folded@[k].keys@.len(),
    ensures
        ({
            let f = c.asks.folded@[k];
            let at = f.first + i;
            let slots = c.slots@[at]@;
            &&& 0 <= at < rs.len()
            &&& text::holds(c.asks.asks@[at].q.instructions@, "\nCandidate: "@ + f.keys@[i]@)
            &&& slots.len() == 2
            &&& slots[0].key@ == "yes"@
            &&& slots[1].key@ == "no"@
            &&& option_mass(f, req.expand, answers, i) == seq![Some(rs[at].reading.shown@[0]@)]
        }),
{
    let f = c.asks.folded@[k];
    let n = lemma_items(req, c, k);
    let q = req.questions@[n].1->Ok_0;
    let part = c.asks.asks@.subrange(f.first as int, f.first + f.n);
    let subs = engine::questions_of(part);
    let at = f.first + i;
    assert(text::views(f.keys@).len() == expand::keys_of(q).len());
    assert(part[i] == c.asks.asks@[at]);
    assert(subs[i] == c.asks.asks@[at].q);
    expand::law_probe(q, subs, i);
    let o = prompts::options_of(q.criteria->0@)[i];
    assert(text::views(f.keys@)[i] == f.keys@[i]@);
    assert(expand::keys_of(q)[i] == o.0);
    let t = subs[i].instructions@;
    let cue = "\nCandidate: "@;
    if o.0 == o.1 {
        let p = cue + o.0;
        assert(t =~= t.take(t.len() - p.len()) + p + Seq::empty());
        text::lemma_holds(t.take(t.len() - p.len()), p, Seq::empty());
    } else {
        let p = cue + o.0 + " — "@ + o.1;
        assert(p =~= (cue + o.0) + (" — "@ + o.1));
        assert(t =~= t.take(t.len() - p.len()) + p);
        assert(t =~= t.take(t.len() - p.len()) + (cue + o.0) + (" — "@ + o.1));
        text::lemma_holds(t.take(t.len() - p.len()), cue + o.0, " — "@ + o.1);
    }
    let s = prompts::slot_views(c.slots@[at]@);
    assert(s == prompts::slots_of(subs[i]));
    assert(s[0] == c.slots@[at]@[0]@);
    assert(s[1] == c.slots@[at]@[1]@);
    reveal_strlit("yes");
    reveal_strlit("no");
    assert("yes"@.len() == 3 && "no"@.len() == 2);
    lemma_mass(subs[i], c.slots@[at]@, rs[at], 0);
    assert(answers[at] == item_answer(subs[i], c.slots@[at]@, rs[at]));
}

/// An item's answer gives nothing to an option that it has no slot for.
proof fn lemma_no_mass(q: Question, slots: Seq<Slot>, r: Readout, k: Seq<char>)
    requires
        q.qtype == QType::Choice,
        r.reading.covers(prompts::slot_views(slots)),
        forall|j: int| 0 <= j < slots.len() ==> (#[trigger] slots[j]).key@ != k,
    ensures
        decisions::page_mass(item_answer(q, slots, r), k) is None,
{
    let s = prompts::slot_views(slots);
    assert(s[s.len() - 1] == slots[s.len() - 1]@);
    decisions::law_probabilities(q, s, r.reading, s.len() - 1);
    decisions::law_coverage(q, s, r.reading, r.coverage@);
    reveal_strlit("probabilities");
    reveal_strlit("coverage");
    assert("probabilities"@.len() == 13 && "coverage"@.len() == 8);
    let p = value::index(decisions::answer_of(q, s, r.reading), "probabilities"@);
    assert(value::index(item_answer(q, slots, r), "probabilities"@) == p);
    if value::index(p, k) != Json::Null {
        let j = choose|j: int| 0 <= j < s.len() && ((#[trigger] s[j]).key == k || (q.qtype == QType::Score && s[j].text == k));
        assert(s[j] == slots[j]@);
    }
}

/// Where options are asked in pages, the mass of an option is what was read at
/// its own slot on its own page, and no other page adds to it.
pub proof fn law_page_mass(req: DecideRequest, c: Compiled, rs: Seq<Readout>, answers: Seq<Json>, k: int, i: int)
    requires
        engine::compiled(req, c),
        req.expand == Expand::Pages,
        all_read(c, rs),
        answered(c, rs, answers),
        0 <= k < c.asks.folded@.len(),
        0 <= i < c.asks.folded@[k].keys@.len(),
        text::views(c.asks.folded@[k].keys@).no_duplicates(),
    ensures
        ({
            let f = c.asks.folded@[k];
            let size = expand::page_size(f.keys@.len() as int);
            let (p, y) = (i / size, i % size);
            let m = option_mass(f, req.expand, answers, i);
            &&& 0 <= p < f.n
            &&& f.first + f.n <= rs.len()
            &&& 0 <= y < c.slots@[f.first + p]@.len()
            &&& c.slots@[f.first + p]@[y].key@ == f.keys@[i]@
            &&& m.len() == f.n
            &&& m[p] == Some(rs[f.first + p].reading.shown@[y]@)
            &&& forall|x: int| 0 <= x < f.n && x != p ==> #[trigger] m[x] is None
        }),
{
    let f = c.asks.folded@[k];
    let n = lemma_items(req, c, k);
    let q = req.questions@[n].1->Ok_0;
    let o = prompts::options_of(q.criteria->0@);
    let subs = engine::questions_of(c.asks.asks@.subrange(f.first as int, f.first + f.n));
    let keys = text::views(f.keys@);
    let size = expand::page_size(o.len() as int);
    assert(keys.len() == expand::keys_of(q).len());
    expand::law_pages(o.len() as int);
    expand::law_option_page(o, i);
    let (p, y) = (i / size, i % size);
    assert(i - p * size == y) by (nonlinear_arith)
        requires
            p == i / size,
            y == i % size,
            size >= 1,
    ;
    assert(f.n == expand::ceil_div(o.len() as int, size));
    let m = option_mass(f, req.expand, answers, i);
    assert forall|x: int| 0 <= x < f.n implies #[trigger] m[x] == (if x == p {
        Some(rs[f.first + p].reading.shown@[y]@)
    } else {
        None
    }) by {
        let at = f.first + x;
        assert(subs[x] == c.asks.asks@[at].q);
        assert(expand::is_page(subs[x], expand::stem_of(q), expand::page_of(o, x)));
        let slots = c.slots@[at]@;
        assert(prompts::slot_views(slots) == prompts::slots_of(subs[x]));
        assert(prompts::slot_views(slots).len() == slots.len());
        let page = expand::page_of(o, x);
        expand::lemma_page_in(o, x);
        assert forall|a: int, b: int| 0 <= a < b < page.len() implies (#[trigger] page[a]).0 != (#[trigger] page[b]).0 by {
            assert(page[a] == o[x * size + a] && page[b] == o[x * size + b]);
            assert(keys[x * size + a] == expand::keys_of(q)[x * size + a]);
            assert(keys[x * size + b] == expand::keys_of(q)[x * size + b]);
        }
        expand::lemma_page_map(page);
        assert(slots.len() == page.len());
        assert forall|j: int| 0 <= j < slots.len() implies (#[trigger] slots[j]).key@ == page[j].0 && !slots[j].special by {
            assert(prompts::slot_views(slots)[j] == slots[j]@);
            assert(expand::page_map(page)[j] == (page[j].0, Json::Str(page[j].1)));
        }
        assert(keys[i] == f.keys@[i]@);
        assert(expand::keys_of(q)[i] == o[i].0);
        if x == p {
            assert(page[y] == o[i]);
            assert(slots[y].key@ == keys[i]);
            assert forall|j: int| y < j < slots.len() implies (#[trigger] slots[j]).key@ != slots[y].key@ by {
                assert(page[j].0 != page[y].0);
            }
            lemma_mass(subs[x], slots, rs[at], y);
        } else {
            assert forall|j: int| 0 <= j < slots.len() implies (#[trigger] slots[j]).key@ != keys[i] by {
                let z = x * size + j;
                assert(page[j] == o[z]);
                if z == i {
                    assert((x + 1) * size == x * size + size) by (nonlinear_arith);
                    assert(expand::on_page(o, x, i));
                }
                assert(keys[z] == expand::keys_of(q)[z]);
            }
            lemma_no_mass(subs[x], slots, rs[at], keys[i]);
        }
        assert(answers[at] == item_answer(subs[x], slots, rs[at]));
    }
    let at = f.first + p;
    assert(m[p] is Some);
    assert(subs[p] == c.asks.asks@[at].q);
    assert(expand::is_page(subs[p], expand::stem_of(q), expand::page_of(o, p)));
    let page = expand::page_of(o, p);
    expand::lemma_page_in(o, p);
    assert forall|a: int, b: int| 0 <= a < b < page.len() implies (#[trigger] page[a]).0 != (#[trigger] page[b]).0 by {
        assert(page[a] == o[p * size + a] && page[b] == o[p * size + b]);
        assert(keys[p * size + a] == expand::keys_of(q)[p * size + a]);
        assert(keys[p * size + b] == expand::keys_of(q)[p * size + b]);
    }
    expand::lemma_page_map(page);
    let slots = c.slots@[at]@;
    assert(prompts::slot_views(slots) == prompts::slots_of(subs[p]));
    assert(prompts::slot_views(slots)[y] == slots[y]@);
    assert(expand::page_map(page)[y] == (page[y].0, Json::Str(page[y].1)));
    assert(keys[i] == f.keys@[i]@);
    assert(expand::keys_of(q)[i] == o[i].0);
}

/// The answer of an expanded question is the option whose score nothing beats,
/// every option beside its own share. Where every option was probed it abstains
/// only where it may and no score reaches a half; where options were asked in
/// pages, only where it may and they have no mass at all.
pub proof fn law_folded_answer(f: Folded, e: Expand, w: Weighed, i: int)
    requires
        num::is_best(w.shares.scores@, i),
        w.shares.scores@.len() == f.keys@.len(),
        w.shares.shown@.len() == f.keys@.len(),
        text::views(f.keys@).no_duplicates(),
        forall|k: int| 0 <= k < f.keys@.len() ==> !num::nan(#[trigger] w.shares.scores@[k]),
    ensures
        ({
            let a = folded_answer(f, e, w);
            let p = value::index(a, "probabilities"@);
            let abstains = f.q.allow_abstain && match e {
                Expand::Probes => num::rank(w.shares.scores@[i]) < 0x3fe0_0000_0000_0000,
                Expand::Pages => w.empty,
            };
            &&& value::index(a, "choice"@) == Json::Str(f.keys@[i]@)
            &&& value::index(a, "confidence"@) == Json::Number(w.shares.confidence@)
            &&& value::index(a, "coverage"@) == Json::Number(w.coverage@)
            &&& abstains ==> value::index(a, "status"@) == Json::Str("abstained"@)
            &&& !abstains && w.shares.close ==> value::index(a, "status"@) == Json::Str("contested"@)
            &&& !abstains && !w.shares.close ==> value::index(a, "status"@) == Json::Str("decided"@)
            &&& forall|k: int|
                0 <= k < f.keys@.len() ==> value::index(p, #[trigger] f.keys@[k]@) == Json::Number(w.shares.shown@[k]@)
        }),
{
    let keys = text::views(f.keys@);
    let abstained = match e {
        Expand::Probes => decisions::unconvinced(f.q, w.shares.scores@),
        Expand::Pages => w.empty && f.q.allow_abstain,
    };
    num::law_best(w.shares.scores@);
    assert(!num::nan(w.shares.scores@[i]));
    decisions::law_merged(keys, w.shares, abstained, i);
    let a = decisions::merged_answer(keys, w.shares, abstained);
    reveal_strlit("status");
    reveal_strlit("probabilities");
    reveal_strlit("confidence");
    reveal_strlit("choice");
    reveal_strlit("coverage");
    assert("status"@.len() == 6 && "probabilities"@.len() == 13 && "confidence"@.len() == 10 && "coverage"@.len() == 8);
    assert("choice"@.len() == 6 && "choice"@[0] == 'c' && "status"@[0] == 's');
    assert(value::distinct(a->Object_0));
    value::law_with(a->Object_0, "coverage"@, Json::Number(w.coverage@));
    assert(keys[i] == f.keys@[i]@);
    let b = folded_answer(f, e, w);
    assert(value::index(b, "status"@) == value::index(a, "status"@));
    assert(value::index(b, "choice"@) == value::index(a, "choice"@));
    assert(value::index(b, "confidence"@) == value::index(a, "confidence"@));
    assert(value::index(b, "probabilities"@) == value::index(a, "probabilities"@));
    assert forall|k: int| 0 <= k < f.keys@.len() implies value::index(
        value::index(a, "probabilities"@),
        #[trigger] f.keys@[k]@,
    ) == Json::Number(w.shares.shown@[k]@) by {
        assert(keys[k] == f.keys@[k]@);
    }
}

/// Every expanded question of a request finds its items among the request's:
/// one for each option where each is probed.
pub proof fn law_items_are_there(req: DecideRequest, c: Compiled)
    requires
        engine::compiled(req, c),
    ensures
        forall|k: int|
            0 <= k < c.asks.folded@.len() ==> lies_in(
                #[trigger] c.asks.folded@[k],
                req.expand,
                c.asks.asks@.len() as int,
            ),
{
    let (qs, e, n) = (req.questions@, req.expand, req.questions@.len() as int);
    assert forall|k: int| 0 <= k < c.asks.folded@.len() implies lies_in(
        #[trigger] c.asks.folded@[k],
        e,
        c.asks.asks@.len() as int,
    ) by {
        fold::lemma_expanding(qs, n);
        let i = engine::expanding(qs, n)[k];
        assert(engine::folded_from(qs, e, i, c.asks.folded@[k]));
        engine::lemma_offset(qs, e, i + 1, n);
        assert(text::views(c.asks.folded@[k].keys@).len() == expand::keys_of(qs[i].1->Ok_0).len());
    }
}

} // verus!
