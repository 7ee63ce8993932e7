//! Engine: typed questions in, typed answers out, one logits row each.
//!
//! Instead of generating text, each question is compiled to a prompt whose
//! first answer token must be one of A-Z; the answer is read off the letters
//! at that single position. Every question, and every item that a choice past
//! the alphabet expands into, becomes a token prompt plus the prefix of it
//! worth caching across requests.
use vstd::prelude::*;
use vstd::string::StringSliceAdditionalSpecFns;

use crate::calibrate;
use crate::compact;
use crate::expand;
use crate::prompts;
use crate::prompts::Slot;
use crate::schema;
use crate::schema::{DecideRequest, Expand, Layout, QType, Question, TAG};
use crate::text;
use crate::value;
use crate::value::{Json, Value};

verus! {

/// `Layout::Auto` flips to the state first past this many characters of rendered
/// state.
pub const LONG_STATE_CHARS: usize = 2000;

pub open spec fn layout_name(l: Layout) -> Seq<char> {
    match l {
        Layout::Auto => "auto"@,
        Layout::StateFirst => "state_first"@,
        Layout::QuestionFirst => "question_first"@,
        Layout::Header => "header"@,
        Layout::Catalog => "catalog"@,
    }
}

pub fn layout_str(l: Layout) -> (r: &'static str)
    ensures
        r@ == layout_name(l),
{
    match l {
        Layout::Auto => "auto",
        Layout::StateFirst => "state_first",
        Layout::QuestionFirst => "question_first",
        Layout::Header => "header",
        Layout::Catalog => "catalog",
    }
}

/// The characters of a question's head in its prompt.
pub open spec fn head_chars(q: Question) -> nat {
    q.instructions@.len() + match q.criteria {
        Some(c) => value::json_text_of(c@).len(),
        None => 0,
    }
}

pub open spec fn head_sum(qs: Seq<Question>) -> nat
    decreases qs.len(),
{
    if qs.len() == 0 {
        0
    } else {
        head_sum(qs.drop_last()) + head_chars(qs.last())
    }
}

/// The question heads outweigh the state, decoded once more per question; both
/// in characters.
pub open spec fn heads_dominate(qs: Seq<Question>, state_len: int) -> bool {
    qs.len() <= 1 || head_sum(qs) > (qs.len() - 1) * state_len
}

/// The layout that is used: `Auto` puts the question first only where the
/// question heads outweigh a state that is no long document, and no question
/// may abstain.
pub open spec fn layout_used(layout: Layout, qs: Seq<Question>, any_abstain: bool, state_len: int) -> Layout {
    if layout != Layout::Auto {
        layout
    } else if any_abstain || state_len > LONG_STATE_CHARS || !heads_dominate(qs, state_len) {
        Layout::StateFirst
    } else {
        Layout::QuestionFirst
    }
}

/// A layout that is asked for is used. Otherwise a long document and questions
/// that may abstain put the state first, a lone question over a short state
/// itself.
pub proof fn law_layout(layout: Layout, qs: Seq<Question>, any_abstain: bool, state_len: int)
    ensures
        layout != Layout::Auto ==> layout_used(layout, qs, any_abstain, state_len) == layout,
        layout_used(layout, qs, any_abstain, state_len) != Layout::Auto,
        layout == Layout::Auto && (any_abstain || state_len > LONG_STATE_CHARS) ==> layout_used(
            layout,
            qs,
            any_abstain,
            state_len,
        ) == Layout::StateFirst,
        layout == Layout::Auto && !any_abstain && state_len <= LONG_STATE_CHARS && qs.len() <= 1 ==> layout_used(
            layout,
            qs,
            any_abstain,
            state_len,
        ) == Layout::QuestionFirst,
{
}

/// Where `Auto` lets questions go first it weighs what is decoded: the heads of
/// all questions, their instructions and criteria, against the state once more
/// for every question but the first. A longer state never brings the question
/// to the front.
pub proof fn law_layout_weighs(qs: Seq<Question>, q: Question, state_len: int, longer: int)
    requires
        0 <= state_len <= longer,
    ensures
        head_sum(qs.push(q)) == head_sum(qs) + q.instructions@.len() + (match q.criteria {
            Some(c) => value::json_text_of(c@).len(),
            None => 0,
        }),
        head_sum(Seq::empty()) == 0,
        layout_used(Layout::Auto, qs, false, state_len) == Layout::StateFirst ==> layout_used(
            Layout::Auto,
            qs,
            false,
            longer,
        ) == Layout::StateFirst,
        qs.len() == 2 && state_len <= 2000 ==> (layout_used(Layout::Auto, qs, false, state_len) == Layout::QuestionFirst
            <==> head_sum(qs) > state_len),
        qs.len() > 2 && state_len <= 2000 && head_sum(qs) <= state_len ==> layout_used(
            Layout::Auto,
            qs,
            false,
            state_len,
        ) == Layout::StateFirst,
{
    assert(qs.push(q).drop_last() =~= qs);
    let n = qs.len() - 1;
    if n > 0 {
        assert(n * state_len <= n * longer) by (nonlinear_arith)
            requires
                0 <= state_len <= longer,
                n > 0,
        ;
        assert(state_len <= n * state_len) by (nonlinear_arith)
            requires
                0 <= state_len,
                n > 0,
        ;
    }
    if n == 1 {
        assert(n * state_len == state_len) by (nonlinear_arith)
            requires
                n == 1,
        ;
    }
}

/// `n`, as far as 128 bits go.
spec fn capped(n: int) -> int {
    if n > u128::MAX {
        u128::MAX as int
    } else {
        n
    }
}

/// The questions of items.
pub open spec fn questions_of(v: Seq<Ask>) -> Seq<Question> {
    v.map_values(|a: Ask| a.q)
}

/// `layout: auto` resolved. Steady-state cost decides: question first
/// re-decodes the state per question, state first pays it once plus every
/// question head. `state_len` counts the characters of the rendered state.
pub fn resolve_layout(layout: Layout, asks: &Vec<Ask>, any_abstain: bool, state_len: usize) -> (r: Layout)
    ensures
        r == layout_used(layout, questions_of(asks@), any_abstain, state_len as int),
{
    if layout != Layout::Auto {
        return layout;
    }
    let ghost qs = questions_of(asks@);
    let mut sum: u128 = 0;
    let mut i: usize = 0;
    proof {
        assert(qs.take(0) =~= Seq::empty());
    }
    while i < asks.len()
        invariant
            i <= asks@.len(),
            qs == questions_of(asks@),
            sum == capped(head_sum(qs.take(i as int)) as int),
        decreases asks@.len() - i,
    {
        let q: &Question = &asks[i].q;
        proof {
            assert(qs.take(i + 1).drop_last() =~= qs.take(i as int));
            assert(qs.take(i + 1).last() == q);
        }
        sum = sum.saturating_add(q.instructions.as_str().unicode_len() as u128);
        if let Some(c) = &q.criteria {
            sum = sum.saturating_add(value::json_text(c).as_str().unicode_len() as u128);
        }
        i += 1;
    }
    let n: usize = asks.len();
    proof {
        assert(qs.take(i as int) =~= qs);
        if n > 1 {
            assert((n - 1) * state_len < u128::MAX) by (nonlinear_arith)
                requires
                    1 < n <= u64::MAX,
                    0 <= state_len <= u64::MAX,
            ;
        }
    }
    let dominate: bool = n <= 1 || sum > (n as u128 - 1) * state_len as u128;
    if any_abstain || state_len > LONG_STATE_CHARS || !dominate {
        Layout::StateFirst
    } else {
        Layout::QuestionFirst
    }
}

/// One decode unit: a question as written, or one that a choice past the
/// letters expands into.
pub struct Ask {
    pub name: String,
    pub q: Question,
    /// whose fitted temperature applies
    pub bucket: &'static str,
}

/// A choice that was expanded: its name, question and option keys, and the
/// items `first..first + n` that it expanded into.
pub struct Folded {
    pub name: String,
    pub q: Question,
    pub keys: Vec<String>,
    pub first: usize,
    pub n: usize,
}

/// The items of a request.
pub struct Asks {
    pub asks: Vec<Ask>,
    pub folded: Vec<Folded>,
    pub any_abstain: bool,
}

/// The name of item `i` that question `name` expands into.
pub open spec fn tagged(name: Seq<char>, i: int) -> Seq<char> {
    name.push(TAG) + text::digits(i as nat)
}

/// Items that a question becomes.
pub open spec fn item_count(q: Question, e: Expand) -> nat {
    if expand::expands(q) {
        let n = prompts::options_of(q.criteria->0@).len() as int;
        match e {
            Expand::Probes => n as nat,
            Expand::Pages => expand::ceil_div(n, expand::page_size(n)) as nat,
        }
    } else {
        1
    }
}

/// Items that the first `i` questions become.
pub open spec fn offset(qs: Seq<schema::Asked>, e: Expand, i: int) -> nat
    decreases i,
{
    if i <= 0 {
        0
    } else {
        offset(qs, e, i - 1) + item_count(qs[i - 1].1->Ok_0, e)
    }
}

/// Whose fitted temperature an expansion's items use: probes are booleans
/// mechanically, pages are real choices.
pub open spec fn expanded_bucket(e: Expand) -> Seq<char> {
    match e {
        Expand::Pages => "choice"@,
        Expand::Probes => "boolean"@,
    }
}

/// An expanded question's items use the temperature fitted for what they are.
pub proof fn law_expanded_bucket(q: Question, e: Expand, subs: Seq<Question>, i: int)
    requires
        expand::expands(q),
        expand::is_expansion(q, e, subs),
        0 <= i < subs.len(),
    ensures
        expanded_bucket(e) == calibrate::bucket_name(subs[i].qtype.name()),
{
    let o = prompts::options_of(q.criteria->0@);
    reveal_strlit("boolean");
    reveal_strlit("choice");
    reveal_strlit("noul");
    assert("boolean"@.len() == 7 && "choice"@.len() == 6 && "noul"@.len() == 4);
    match e {
        Expand::Probes => assert(expand::is_probe(subs[i], expand::stem_of(q), o[i])),
        Expand::Pages => assert(expand::is_page(subs[i], expand::stem_of(q), expand::page_of(o, i))),
    }
}

/// `asks` are the items that question `a` becomes.
#[verifier::opaque]
pub open spec fn items_of(a: schema::Asked, e: Expand, asks: Seq<Ask>) -> bool {
    let q = a.1->Ok_0;
    if expand::expands(q) {
        &&& expand::is_expansion(q, e, questions_of(asks))
        &&& forall|k: int|
            0 <= k < asks.len() ==> (#[trigger] asks[k]).name@ == tagged(a.0@, k) && asks[k].bucket@
                == expanded_bucket(e)
    } else {
        &&& asks.len() == 1
        &&& asks[0].name@ == a.0@
        &&& schema::same_question(asks[0].q, q)
        &&& asks[0].bucket@ == calibrate::bucket_name(q.qtype.name())
    }
}

/// Question `i` has its items in its place among `asks`.
pub open spec fn items_at(qs: Seq<schema::Asked>, e: Expand, asks: Seq<Ask>, i: int) -> bool {
    items_of(qs[i], e, asks.subrange(offset(qs, e, i) as int, offset(qs, e, i + 1) as int))
}

/// `f` is question `i`, expanded.
pub open spec fn folded_from(qs: Seq<schema::Asked>, e: Expand, i: int, f: Folded) -> bool {
    let q = qs[i].1->Ok_0;
    &&& expand::expands(q)
    &&& f.name@ == qs[i].0@
    &&& schema::same_question(f.q, q)
    &&& text::views(f.keys@) == expand::keys_of(q)
    &&& f.first == offset(qs, e, i)
    &&& f.n == item_count(q, e)
}

/// The expanded questions among the first `n`.
pub open spec fn expanding(qs: Seq<schema::Asked>, n: int) -> Seq<int>
    decreases n,
{
    if n <= 0 {
        Seq::empty()
    } else if expand::expands(qs[n - 1].1->Ok_0) {
        expanding(qs, n - 1).push(n - 1)
    } else {
        expanding(qs, n - 1)
    }
}

/// The items of the first `n` questions of a request.
pub open spec fn laid_out(qs: Seq<schema::Asked>, e: Expand, n: int, r: Asks) -> bool {
    &&& r.asks@.len() == offset(qs, e, n)
    &&& forall|i: int| 0 <= i < n ==> #[trigger] items_at(qs, e, r.asks@, i)
    &&& r.folded@.len() == expanding(qs, n).len()
    &&& forall|k: int|
        0 <= k < r.folded@.len() ==> folded_from(qs, e, #[trigger] expanding(qs, n)[k], r.folded@[k])
    &&& r.any_abstain == exists|i: int| 0 <= i < n && (#[trigger] qs[i]).1->Ok_0.allow_abstain
}

pub proof fn lemma_offset(qs: Seq<schema::Asked>, e: Expand, i: int, n: int)
    requires
        0 <= i <= n,
    ensures
        offset(qs, e, i) <= offset(qs, e, n),
    decreases n,
{
    if i < n {
        lemma_offset(qs, e, i, n - 1);
    }
}

/// The name of item `i` that question `name` expands into.
pub fn tag(name: &str, i: usize) -> (r: String)
    ensures
        r@ == tagged(name@, i as int),
{
    let mut r: String = name.to_owned();
    r.push(TAG);
    r.append(text::decimal(i as u64).as_str());
    r
}

/// Add the items that an expanded question becomes.
fn push_subs(asks: &mut Vec<Ask>, name: &str, subs: Vec<Question>, bucket: &'static str)
    ensures
        final(asks)@.len() == old(asks)@.len() + subs@.len(),
        final(asks)@.take(old(asks)@.len() as int) == old(asks)@,
        questions_of(final(asks)@.skip(old(asks)@.len() as int)) == subs@,
        forall|k: int|
            0 <= k < subs@.len() ==> (#[trigger] final(asks)@[old(asks)@.len() + k]).name@ == tagged(name@, k)
                && final(asks)@[old(asks)@.len() + k].bucket@ == bucket@,
{
    let ghost n0 = asks@.len() as int;
    let ghost all = subs@;
    let n: usize = subs.len();
    let mut subs: Vec<Question> = subs;
    let mut rev: Vec<Question> = Vec::new();
    while subs.len() > 0
        invariant
            rev@ + subs@.reverse() =~= all.reverse(),
        decreases subs@.len(),
    {
        let ghost before = subs@;
        match subs.pop() {
            Some(q) => {
                rev.push(q);
            },
            None => {},
        }
        proof {
            assert(before.reverse() =~= seq![before.last()] + subs@.reverse());
        }
    }
    proof {
        assert(rev@ =~= all.reverse());
        assert(rev@.reverse() =~= all);
    }
    let mut i: usize = 0;
    while rev.len() > 0
        invariant
            rev@.len() + i == n,
            n == all.len(),
            rev@ == all.reverse().take(all.len() - i),
            asks@.len() == n0 + i,
            n0 == old(asks)@.len(),
            asks@.take(n0) == old(asks)@,
            forall|k: int|
                0 <= k < i ==> (#[trigger] asks@[n0 + k]).name@ == tagged(name@, k) && asks@[n0 + k].bucket@ == bucket@
                    && asks@[n0 + k].q == all[k],
        decreases rev@.len(),
    {
        let ghost before = asks@;
        let ghost r0 = rev@;
        let t: String = tag(name, i);
        match rev.pop() {
            Some(q) => {
                proof {
                    assert(q == r0.last());
                    assert(r0.last() == all.reverse()[all.len() - i - 1]);
                    assert(q == all[i as int]);
                    assert(rev@ =~= all.reverse().take(all.len() - i - 1));
                }
                asks.push(Ask { name: t, q, bucket });
            },
            None => {},
        }
        i += 1;
        proof {
            assert(asks@.take(n0) =~= before.take(n0));
            assert forall|k: int| 0 <= k < i implies (#[trigger] asks@[n0 + k]).name@ == tagged(name@, k) && asks@[n0
                + k].bucket@ == bucket@ && asks@[n0 + k].q == all[k] by {
                if k < i - 1 {
                    assert(before[n0 + k] == asks@[n0 + k]);
                }
            }
        }
    }
    proof {
        let got = questions_of(asks@.skip(n0));
        assert forall|k: int| 0 <= k < all.len() implies got[k] == all[k] by {
            assert(asks@[n0 + k].q == all[k]);
        }
        assert(got =~= all);
    }
}

/// The items of a request: expanded choices are laid out in place, because the
/// layout heuristic wants the real item count.
pub fn lay_out(req: &DecideRequest) -> (r: Asks)
    requires
        req.questions_ok(),
    ensures
        laid_out(req.questions@, req.expand, req.questions@.len() as int, r),
{
    let ghost qs = req.questions@;
    let ghost e = req.expand;
    let mut asks: Vec<Ask> = Vec::new();
    let mut folded: Vec<Folded> = Vec::new();
    let mut any_abstain: bool = false;
    let mut i: usize = 0;
    while i < req.questions.len()
        invariant
            req.questions_ok(),
            qs == req.questions@,
            e == req.expand,
            i <= qs.len(),
            laid_out(qs, e, i as int, (Asks { asks, folded, any_abstain })),
        decreases qs.len() - i,
    {
        let a: &schema::Asked = &req.questions[i];
        proof {
            assert(schema::asked_ok(qs[i as int]));
        }
        let ghost asks0 = asks@;
        let ghost folded0 = folded@;
        let ghost any0 = any_abstain;
        let first: usize = asks.len();
        match &a.1 {
            Ok(q) => {
                any_abstain = any_abstain || q.allow_abstain;
                match expand::expand_choice(q, req.expand) {
                    Some((subs, keys)) => {
                        let bucket: &'static str = match req.expand {
                            Expand::Pages => "choice",
                            Expand::Probes => "boolean",
                        };
                        let n: usize = subs.len();
                        push_subs(&mut asks, a.0.as_str(), subs, bucket);
                        folded.push(Folded { name: a.0.clone(), q: schema::copy_question(q), keys, first, n });
                        proof {
                            assert(folded@.drop_last() =~= folded0);
                            assert(folded_from(qs, e, i as int, folded@.last()));
                            let more = asks@.skip(first as int);
                            assert(items_of(qs[i as int], e, more)) by {
                                reveal(items_of);
                                assert forall|k: int| 0 <= k < more.len() implies (#[trigger] more[k]).name@ == tagged(
                                    qs[i as int].0@,
                                    k,
                                ) && more[k].bucket@ == expanded_bucket(e) by {
                                    assert(more[k] == asks@[first + k]);
                                }
                            }
                        }
                    },
                    None => {
                        asks.push(
                            Ask {
                                name: a.0.clone(),
                                q: schema::copy_question(q),
                                bucket: calibrate::bucket(q.qtype.as_str()),
                            },
                        );
                        proof {
                            assert(asks@.take(asks0.len() as int) =~= asks0);
                            assert(items_of(qs[i as int], e, asks@.skip(first as int))) by {
                                reveal(items_of);
                            }
                        }
                    },
                }
            },
            Err(_) => {
                assert(false);
            },
        }
        proof {
            lemma_laid_out_step(
                qs,
                e,
                i as int,
                Asks { asks: asks, folded: folded, any_abstain },
                asks0,
                folded0,
                any0,
            );
        }
        i += 1;
    }
    Asks { asks, folded, any_abstain }
}

/// One more question laid out.
proof fn lemma_laid_out_step(
    qs: Seq<schema::Asked>,
    e: Expand,
    i: int,
    r: Asks,
    asks0: Seq<Ask>,
    folded0: Seq<Folded>,
    any0: bool,
)
    requires
        0 <= i < qs.len(),
        asks0.len() == offset(qs, e, i),
        forall|k: int| 0 <= k < i ==> #[trigger] items_at(qs, e, asks0, k),
        folded0.len() == expanding(qs, i).len(),
        forall|k: int| 0 <= k < folded0.len() ==> folded_from(qs, e, #[trigger] expanding(qs, i)[k], folded0[k]),
        any0 == exists|k: int| 0 <= k < i && (#[trigger] qs[k]).1->Ok_0.allow_abstain,
        r.any_abstain == (any0 || qs[i].1->Ok_0.allow_abstain),
        r.asks@.len() >= asks0.len(),
        r.asks@.take(asks0.len() as int) == asks0,
        items_of(qs[i], e, r.asks@.skip(asks0.len() as int)),
        if expand::expands(qs[i].1->Ok_0) {
            r.folded@.len() == folded0.len() + 1 && r.folded@.drop_last() == folded0 && folded_from(
                qs,
                e,
                i,
                r.folded@.last(),
            )
        } else {
            r.folded@ == folded0
        },
    ensures
        laid_out(qs, e, i + 1, r),
{
    let (n0, n1) = (offset(qs, e, i) as int, offset(qs, e, i + 1) as int);
    assert(r.asks@.skip(n0).len() == item_count(qs[i].1->Ok_0, e)) by {
        reveal(items_of);
    }
    assert(r.asks@.len() == n1);
    assert(r.asks@.subrange(n0, n1) =~= r.asks@.skip(n0));
    assert forall|k: int| 0 <= k < i + 1 implies #[trigger] items_at(qs, e, r.asks@, k) by {
        if k < i {
            assert(items_at(qs, e, asks0, k));
            lemma_offset(qs, e, k + 1, i);
            let (a, b) = (offset(qs, e, k) as int, offset(qs, e, k + 1) as int);
            assert(r.asks@.subrange(a, b) =~= asks0.subrange(a, b)) by {
                assert forall|x: int| 0 <= x < b - a implies r.asks@.subrange(a, b)[x] == asks0.subrange(a, b)[x] by {
                    assert(r.asks@.take(n0)[a + x] == asks0[a + x]);
                }
            }
        }
    }
    lemma_folded_step(qs, e, i, folded0, r.folded@);
    lemma_any_step(qs, i, any0, r.any_abstain);
}

proof fn lemma_folded_step(qs: Seq<schema::Asked>, e: Expand, i: int, folded0: Seq<Folded>, folded: Seq<Folded>)
    requires
        0 <= i < qs.len(),
        folded0.len() == expanding(qs, i).len(),
        forall|k: int| 0 <= k < folded0.len() ==> folded_from(qs, e, #[trigger] expanding(qs, i)[k], folded0[k]),
        if expand::expands(qs[i].1->Ok_0) {
            folded.len() == folded0.len() + 1 && folded.drop_last() == folded0 && folded_from(qs, e, i, folded.last())
        } else {
            folded == folded0
        },
    ensures
        folded.len() == expanding(qs, i + 1).len(),
        forall|k: int| 0 <= k < folded.len() ==> folded_from(qs, e, #[trigger] expanding(qs, i + 1)[k], folded[k]),
{
    let (x0, x1) = (expanding(qs, i), expanding(qs, i + 1));
    assert forall|k: int| 0 <= k < folded.len() implies folded_from(qs, e, #[trigger] x1[k], folded[k]) by {
        if k < folded0.len() {
            assert(x1[k] == x0[k]);
            if expand::expands(qs[i].1->Ok_0) {
                assert(folded.drop_last()[k] == folded[k]);
            }
        }
    }
}

proof fn lemma_any_step(qs: Seq<schema::Asked>, i: int, any0: bool, any: bool)
    requires
        0 <= i < qs.len(),
        any0 == exists|k: int| 0 <= k < i && (#[trigger] qs[k]).1->Ok_0.allow_abstain,
        any == (any0 || qs[i].1->Ok_0.allow_abstain),
    ensures
        any == exists|k: int| 0 <= k < i + 1 && (#[trigger] qs[k]).1->Ok_0.allow_abstain,
{
    if any0 {
        let k = choose|k: int| 0 <= k < i && (#[trigger] qs[k]).1->Ok_0.allow_abstain;
        assert(qs[k].1->Ok_0.allow_abstain);
    }
    if qs[i].1->Ok_0.allow_abstain {
        assert(qs[i].1->Ok_0.allow_abstain);
    }
}

/// The question can be asked in letters.
pub open spec fn askable(q: Question) -> bool {
    prompts::has_options(q) && prompts::slots_of(q).len() <= 26
}

/// Questions alike have the same slots.
proof fn lemma_same_slots(a: Question, b: Question)
    requires
        schema::same_question(a, b),
    ensures
        prompts::has_options(a) == prompts::has_options(b),
        prompts::has_options(a) ==> prompts::slots_of(a) == prompts::slots_of(b),
{
}

/// A valid question that doesn't expand has a letter for every slot.
pub proof fn law_valid_askable(q: Question)
    requires
        q.valid(),
        !expand::expands(q),
    ensures
        askable(q),
{
    if q.qtype == QType::Choice || q.qtype == QType::Score {
        match q.criteria {
            Some(Value::Object(m)) => {
                value::lemma_fields(m@);
            },
            Some(Value::Array(a)) => {
                value::lemma_jsons(a@);
            },
            _ => {},
        }
    }
}

proof fn lemma_page_map(page: expand::Pairs)
    ensures
        expand::page_map(page).len() <= page.len(),
    decreases page.len(),
{
    if page.len() > 0 {
        lemma_page_map(page.drop_last());
        value::lemma_place(expand::page_map(page.drop_last()), page.last().0);
    }
}

/// Everything a choice expands into has a letter for every slot.
pub proof fn law_expansion_askable(q: Question, e: Expand, subs: Seq<Question>)
    requires
        expand::expands(q),
        expand::is_expansion(q, e, subs),
    ensures
        forall|i: int| 0 <= i < subs.len() ==> askable(#[trigger] subs[i]),
{
    let o = prompts::options_of(q.criteria->0@);
    let n = o.len() as int;
    assert forall|i: int| 0 <= i < subs.len() implies askable(#[trigger] subs[i]) by {
        match e {
            Expand::Probes => {
                assert(expand::is_probe(subs[i], expand::stem_of(q), o[i]));
            },
            Expand::Pages => {
                assert(expand::is_page(subs[i], expand::stem_of(q), expand::page_of(o, i)));
                expand::law_pages(n);
                lemma_page_map(expand::page_of(o, i));
                let z = expand::page_size(n);
                assert((i + 1) * z == i * z + z) by (nonlinear_arith);
                assert(0 <= i * z) by (nonlinear_arith)
                    requires
                        0 <= i,
                        0 <= z,
                ;
                assert(i * z <= (subs.len() - 1) * z) by (nonlinear_arith)
                    requires
                        i <= subs.len() - 1,
                        0 <= z,
                ;
                assert(subs[i].criteria is Some);
                assert(subs[i].criteria->0@ == Json::Object(expand::page_map(expand::page_of(o, i))));
            },
        }
    }
}

/// Every item of a request can be asked in letters.
proof fn lemma_all_askable(qs: Seq<schema::Asked>, e: Expand, n: int, r: Asks)
    requires
        0 <= n <= qs.len(),
        forall|i: int| 0 <= i < n ==> schema::asked_ok(#[trigger] qs[i]),
        laid_out(qs, e, n, r),
    ensures
        forall|k: int| 0 <= k < r.asks@.len() ==> askable((#[trigger] r.asks@[k]).q),
{
    assert forall|k: int| 0 <= k < r.asks@.len() implies askable((#[trigger] r.asks@[k]).q) by {
        let i = lemma_whose(qs, e, n, k);
        let (a, b) = (offset(qs, e, i) as int, offset(qs, e, i + 1) as int);
        let part = r.asks@.subrange(a, b);
        assert(items_at(qs, e, r.asks@, i));
        lemma_offset(qs, e, i + 1, n);
        assert(part[k - a] == r.asks@[k]);
        reveal(items_of);
        let q = qs[i].1->Ok_0;
        assert(schema::asked_ok(qs[i]));
        if expand::expands(q) {
            law_expansion_askable(q, e, questions_of(part));
            assert(questions_of(part)[k - a] == r.asks@[k].q);
        } else {
            law_valid_askable(q);
            lemma_same_slots(part[0].q, q);
        }
    }
}

/// The question that item `k` comes from.
pub proof fn lemma_whose(qs: Seq<schema::Asked>, e: Expand, n: int, k: int) -> (i: int)
    requires
        0 <= k < offset(qs, e, n),
        0 <= n <= qs.len(),
    ensures
        0 <= i < n,
        offset(qs, e, i) <= k < offset(qs, e, i + 1),
    decreases n,
{
    if k >= offset(qs, e, n - 1) {
        n - 1
    } else {
        lemma_whose(qs, e, n - 1, k)
    }
}

/// The part of a name before its tag.
pub open spec fn untagged(s: Seq<char>) -> Seq<char>
    decreases s.len(),
{
    if s.len() == 0 || s[0] == TAG {
        Seq::empty()
    } else {
        seq![s[0]] + untagged(s.skip(1))
    }
}

/// What a prompt shows of an item's name: the question's, whatever it was
/// expanded into.
pub proof fn law_display(name: Seq<char>, i: int)
    requires
        !name.contains(TAG),
    ensures
        untagged(name) == name,
        untagged(tagged(name, i)) == name,
    decreases name.len(),
{
    if name.len() > 0 {
        assert(name[0] != TAG);
        let rest = name.skip(1);
        assert(!rest.contains(TAG)) by {
            if rest.contains(TAG) {
                let k = choose|k: int| 0 <= k < rest.len() && rest[k] == TAG;
                assert(name[k + 1] == TAG);
            }
        }
        law_display(rest, i);
        assert(tagged(name, i).skip(1) =~= tagged(rest, i));
        assert(name =~= seq![name[0]] + rest);
    }
}

/// The part of a name before its tag: expanded items carry one; prompts show
/// the name.
pub fn display(name: &str) -> (r: String)
    ensures
        r@ == untagged(name@),
{
    let v: Vec<char> = text::chars_of(name);
    let mut r: String = String::new();
    let mut i: usize = 0;
    proof {
        assert(v@.skip(0) =~= v@);
        assert(r@ + untagged(v@) =~= untagged(v@));
    }
    while i < v.len() && v[i] != TAG
        invariant
            i <= v@.len(),
            v@ == name@,
            r@ + untagged(v@.skip(i as int)) == untagged(v@),
        decreases v@.len() - i,
    {
        proof {
            assert(v@.skip(i as int).skip(1) =~= v@.skip(i + 1));
            assert(r@.push(v@[i as int]) + untagged(v@.skip(i + 1)) =~= r@ + (seq![v@[i as int]] + untagged(
                v@.skip(i + 1),
            )));
        }
        r.push(v[i]);
        i += 1;
    }
    proof {
        assert(untagged(v@.skip(i as int)) =~= Seq::empty());
        assert(r@ + Seq::<char>::empty() =~= r@);
    }
    r
}

/// The lines that list a request's questions before the state: "1. name — what
/// it asks".
pub open spec fn preamble_of(qs: Seq<schema::Asked>) -> Seq<Seq<char>> {
    Seq::new(
        qs.len(),
        |i: int| text::digits((i + 1) as nat) + ". "@ + prompts::dashed(qs[i].0@, qs[i].1->Ok_0.instructions@),
    )
}

fn list_preamble(qs: &Vec<schema::Asked>) -> (r: Vec<String>)
    requires
        forall|i: int| 0 <= i < qs@.len() ==> schema::asked_ok(#[trigger] qs@[i]),
    ensures
        text::views(r@) == preamble_of(qs@),
{
    let mut r: Vec<String> = Vec::new();
    let mut i: usize = 0;
    while i < qs.len()
        invariant
            i <= qs@.len(),
            forall|k: int| 0 <= k < qs@.len() ==> schema::asked_ok(#[trigger] qs@[k]),
            r@.len() == i,
            forall|k: int| 0 <= k < i ==> (#[trigger] r@[k])@ == preamble_of(qs@)[k],
        decreases qs@.len() - i,
    {
        let mut l: String = text::decimal(i as u64 + 1);
        l.append(". ");
        l.append(qs[i].0.as_str());
        proof {
            assert(schema::asked_ok(qs@[i as int]));
        }
        if let Ok(q) = &qs[i].1 {
            if !q.instructions.as_str().is_empty() {
                l.append(" — ");
                l.append(q.instructions.as_str());
            }
        }
        proof {
            assert(l@ =~= preamble_of(qs@)[i as int]);
        }
        r.push(l);
        i += 1;
    }
    proof {
        assert(text::views(r@) =~= preamble_of(qs@));
    }
    r
}

/// The catalog of the first `n` items: their entries, an empty line between.
pub open spec fn catalog_of(asks: Seq<Ask>, n: int) -> Seq<Seq<char>>
    decreases n,
{
    if n <= 0 {
        Seq::empty()
    } else {
        let e = prompts::entry_lines(n - 1, untagged(asks[n - 1].name@), asks[n - 1].q);
        if n == 1 {
            e
        } else {
            catalog_of(asks, n - 1).push(Seq::empty()) + e
        }
    }
}

fn list_catalog(asks: &Vec<Ask>) -> (r: Vec<String>)
    requires
        forall|k: int| 0 <= k < asks@.len() ==> askable((#[trigger] asks@[k]).q),
    ensures
        text::views(r@) == catalog_of(asks@, asks@.len() as int),
{
    let mut r: Vec<String> = Vec::new();
    let mut i: usize = 0;
    proof {
        assert(text::views(r@) =~= Seq::empty());
    }
    while i < asks.len()
        invariant
            i <= asks@.len(),
            forall|k: int| 0 <= k < asks@.len() ==> askable((#[trigger] asks@[k]).q),
            text::views(r@) == catalog_of(asks@, i as int),
        decreases asks@.len() - i,
    {
        proof {
            assert(askable(asks@[i as int].q));
        }
        if i > 0 {
            let empty: String = String::new();
            prompts::push_line(&mut r, empty.as_str());
        }
        let name: String = display(asks[i].name.as_str());
        let e: Vec<String> = prompts::catalog_entry(i, name.as_str(), &asks[i].q);
        prompts::push_lines(&mut r, &e);
        i += 1;
        proof {
            assert(text::views(r@) =~= catalog_of(asks@, i as int));
        }
    }
    r
}

/// A request compiled to messages: one per item, each with its letter slots.
pub struct Compiled {
    pub asks: Asks,
    pub layout: Layout,
    pub state: String,
    pub slots: Vec<Vec<Slot>>,
    pub msgs: Vec<String>,
}

/// The state as prompts show it.
pub open spec fn state_text(req: DecideRequest) -> Seq<char> {
    if req.compact_state {
        compact::compacted(req.state@)
    } else {
        value::shown(req.state@)
    }
}

/// The message of item `i`.
pub open spec fn message_of(qs: Seq<schema::Asked>, asks: Seq<Ask>, layout: Layout, state: Seq<char>, i: int) -> Seq<char> {
    let (a, s) = (asks[i], prompts::slots_of(asks[i].q));
    let lines = if layout == Layout::Catalog {
        prompts::catalog_lines(catalog_of(asks, asks.len() as int), state, i, untagged(a.name@), s)
    } else {
        prompts::message_lines(
            state,
            a.q,
            s,
            layout,
            if layout == Layout::Header {
                preamble_of(qs)
            } else {
                Seq::empty()
            },
        )
    };
    text::joined(lines, "\n"@)
}

/// `c` is the request, compiled.
pub open spec fn compiled(req: DecideRequest, c: Compiled) -> bool {
    let asks = c.asks.asks@;
    &&& laid_out(req.questions@, req.expand, req.questions@.len() as int, c.asks)
    &&& c.state@ == state_text(req)
    &&& c.layout == layout_used(req.layout, questions_of(asks), c.asks.any_abstain, c.state@.len() as int)
    &&& c.slots@.len() == asks.len()
    &&& c.msgs@.len() == asks.len()
    &&& forall|i: int|
        0 <= i < asks.len() ==> prompts::slot_views((#[trigger] c.slots@[i])@) == prompts::slots_of(asks[i].q)
    &&& forall|i: int|
        0 <= i < asks.len() ==> (#[trigger] c.msgs@[i])@ == message_of(req.questions@, asks, c.layout, c.state@, i)
    &&& forall|i: int| 0 <= i < asks.len() ==> askable((#[trigger] asks[i]).q)
    &&& asks.len() > 0
}

/// Compile a request: lay out its items, resolve the layout, and write one
/// message per item.
pub fn compile(req: &DecideRequest) -> (c: Compiled)
    requires
        req.questions_ok(),
    ensures
        compiled(*req, c),
{
    let asks: Asks = lay_out(req);
    let ghost qs = req.questions@;
    proof {
        lemma_all_askable(qs, req.expand, qs.len() as int, asks);
        lemma_some_items(qs, req.expand, qs.len() as int);
    }
    let state: String = if req.compact_state {
        compact::render_state_compact(&req.state)
    } else {
        compact::render_state(&req.state)
    };
    let layout: Layout = resolve_layout(req.layout, &asks.asks, asks.any_abstain, state.as_str().unicode_len());
    let preamble: Vec<String> = if layout == Layout::Header {
        list_preamble(&req.questions)
    } else {
        Vec::new()
    };
    let catalog: Vec<String> = if layout == Layout::Catalog {
        list_catalog(&asks.asks)
    } else {
        Vec::new()
    };
    proof {
        if layout != Layout::Header {
            assert(text::views(preamble@) =~= Seq::empty());
        }
    }
    let mut slots: Vec<Vec<Slot>> = Vec::new();
    let mut msgs: Vec<String> = Vec::new();
    let mut i: usize = 0;
    while i < asks.asks.len()
        invariant
            i <= asks.asks@.len(),
            qs == req.questions@,
            forall|k: int| 0 <= k < asks.asks@.len() ==> askable((#[trigger] asks.asks@[k]).q),
            layout == Layout::Header ==> text::views(preamble@) == preamble_of(qs),
            layout != Layout::Header ==> text::views(preamble@) == Seq::<Seq<char>>::empty(),
            layout == Layout::Catalog ==> text::views(catalog@) == catalog_of(asks.asks@, asks.asks@.len() as int),
            slots@.len() == i,
            msgs@.len() == i,
            forall|k: int|
                0 <= k < i ==> prompts::slot_views((#[trigger] slots@[k])@) == prompts::slots_of(asks.asks@[k].q),
            forall|k: int|
                0 <= k < i ==> (#[trigger] msgs@[k])@ == message_of(qs, asks.asks@, layout, state@, k),
        decreases asks.asks@.len() - i,
    {
        let a: &Ask = &asks.asks[i];
        proof {
            assert(askable(asks.asks@[i as int].q));
        }
        let sl: Vec<Slot> = prompts::slots_for(&a.q);
        proof {
            assert(prompts::slot_views(sl@).len() == sl@.len());
        }
        let msg: String = if layout == Layout::Catalog {
            let name: String = display(a.name.as_str());
            prompts::catalog_message(&catalog, state.as_str(), i, name.as_str(), &sl)
        } else {
            prompts::user_message(state.as_str(), &a.q, &sl, layout, &preamble)
        };
        slots.push(sl);
        msgs.push(msg);
        i += 1;
    }
    Compiled { asks, layout, state, slots, msgs }
}

proof fn lemma_some_items(qs: Seq<schema::Asked>, e: Expand, n: int)
    requires
        0 <= n <= qs.len(),
    ensures
        offset(qs, e, n) >= n,
    decreases n,
{
    if n > 0 {
        lemma_some_items(qs, e, n - 1);
        let q = qs[n - 1].1->Ok_0;
        if expand::expands(q) {
            expand::law_pages(prompts::options_of(q.criteria->0@).len() as int);
        }
    }
}

/// The text that the messages of all items start with, in the layouts that put
/// the state before the question: it is decoded once, the state with it.
pub open spec fn shared_head(qs: Seq<schema::Asked>, asks: Seq<Ask>, layout: Layout, state: Seq<char>) -> Seq<char> {
    let lines = if layout == Layout::Catalog {
        prompts::catalog_head(catalog_of(asks, asks.len() as int)) + seq!["STATE"@, state]
    } else {
        prompts::state_head(
            state,
            layout,
            if layout == Layout::Header {
                preamble_of(qs)
            } else {
                Seq::empty()
            },
        )
    };
    text::joined(lines, "\n"@) + "\n"@
}

/// Every item's message starts with the text that all share, unless the question
/// comes first.
pub proof fn law_state_is_shared(qs: Seq<schema::Asked>, asks: Seq<Ask>, layout: Layout, state: Seq<char>, i: int)
    requires
        layout != Layout::QuestionFirst,
        0 <= i < asks.len(),
    ensures
        shared_head(qs, asks, layout, state).is_prefix_of(message_of(qs, asks, layout, state, i)),
{
    let (a, s) = (asks[i], prompts::slots_of(asks[i].q));
    let (h, t) = if layout == Layout::Catalog {
        (
            prompts::catalog_head(catalog_of(asks, asks.len() as int)) + seq!["STATE"@, state],
            prompts::catalog_tail(i, untagged(a.name@), s),
        )
    } else {
        (
            prompts::state_head(
                state,
                layout,
                if layout == Layout::Header {
                    preamble_of(qs)
                } else {
                    Seq::empty()
                },
            ),
            prompts::block(a.q, s) + seq![Seq::empty(), prompts::REPLY_CUE@],
        )
    };
    text::lemma_joined(h, t, "\n"@);
    let m = message_of(qs, asks, layout, state, i);
    if layout == Layout::Catalog {
        assert(m == text::joined(h + t, "\n"@));
    } else {
        assert(h + t =~= prompts::message_lines(
            state,
            a.q,
            s,
            layout,
            if layout == Layout::Header {
                preamble_of(qs)
            } else {
                Seq::empty()
            },
        ));
    }
    let p = shared_head(qs, asks, layout, state);
    assert(m =~= p + text::joined(t, "\n"@));
    assert(p =~= m.subrange(0, p.len() as int));
}

/// Every message ends on the cue to reply, right where the answer is read.
pub proof fn law_ends_on_the_cue(qs: Seq<schema::Asked>, asks: Seq<Ask>, layout: Layout, state: Seq<char>, i: int)
    requires
        0 <= i < asks.len(),
    ensures
        prompts::ends_on_cue(message_of(qs, asks, layout, state, i)),
{
    let (a, s) = (asks[i], prompts::slots_of(asks[i].q));
    if layout == Layout::Catalog {
        let cat = catalog_of(asks, asks.len() as int);
        prompts::lemma_catalog_cue(cat, state, i, untagged(a.name@), s);
        prompts::lemma_cue(prompts::catalog_lines(cat, state, i, untagged(a.name@), s));
    } else {
        let preamble = if layout == Layout::Header {
            preamble_of(qs)
        } else {
            Seq::empty()
        };
        prompts::lemma_message_cue(state, a.q, s, layout, preamble);
        prompts::lemma_cue(prompts::message_lines(state, a.q, s, layout, preamble));
    }
}

} // verus!
