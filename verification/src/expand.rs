//! Choices past the alphabet: one with more options than letter slots expands
//! into several questions, and folds back into one answer.
use vstd::prelude::*;

use crate::prompts;
use crate::schema;
use crate::schema::{Expand, QType, Question, MAX_SLOTS};
use crate::text;
use crate::value;
use crate::value::{Json, Value};

verus! {

/// (key, description) pairs.
pub type Pairs = Seq<(Seq<char>, Seq<char>)>;

/// A choice with more options than letter slots.
pub open spec fn expands(q: Question) -> bool {
    q.qtype == QType::Choice && q.criteria is Some && prompts::options_of(q.criteria->0@).len() + schema::one_if(
        q.allow_abstain,
    ) > MAX_SLOTS
}

/// What the questions it expands into ask.
pub open spec fn stem_of(q: Question) -> Seq<char> {
    if q.instructions@.len() == 0 {
        "Choose the best option."@
    } else {
        q.instructions@
    }
}

/// How a probe names its candidate.
pub open spec fn candidate(o: (Seq<char>, Seq<char>)) -> Seq<char> {
    if o.0 == o.1 {
        o.0
    } else {
        o.0 + " — "@ + o.1
    }
}

/// A question of this type with nothing else set.
pub open spec fn plain(s: Question, qtype: QType, instructions: Seq<char>, criteria: Option<Json>) -> bool {
    &&& s.qtype == qtype
    &&& s.instructions@ == instructions
    &&& schema::criteria_view(s.criteria) == criteria
    &&& s.min is None
    &&& s.max is None
    &&& s.granularity == 8
    &&& s.anchors@.len() == 0
    &&& !s.allow_abstain
}

/// The probe of one option: the shared stem ends at "Candidate:", so that
/// probes differ in the option's text alone.
pub open spec fn is_probe(s: Question, stem: Seq<char>, o: (Seq<char>, Seq<char>)) -> bool {
    plain(
        s,
        QType::Boolean,
        stem + "\nIs this candidate the correct answer?\nCandidate: "@ + candidate(o),
        None,
    )
}

/// The criteria of a page.
pub open spec fn page_map(page: Pairs) -> Seq<(Seq<char>, Json)>
    decreases page.len(),
{
    if page.len() == 0 {
        Seq::empty()
    } else {
        value::with(page_map(page.drop_last()), page.last().0, Json::Str(page.last().1))
    }
}

/// The question that a page of options asks.
pub open spec fn is_page(s: Question, stem: Seq<char>, page: Pairs) -> bool {
    plain(
        s,
        QType::Choice,
        stem + "\nThese candidates are a subset — pick the best among them."@,
        Some(Json::Object(page_map(page))),
    )
}

/// `a / b`, rounded up.
pub open spec fn ceil_div(a: int, b: int) -> int {
    (a + b - 1) / b
}

/// Pages that `n` options take.
pub open spec fn page_count(n: int) -> int {
    ceil_div(n, MAX_SLOTS as int)
}

/// Options on each page but the last, which may have fewer: pages are of equal
/// size, so that probabilities within one compare across pages.
pub open spec fn page_size(n: int) -> int {
    ceil_div(n, page_count(n))
}

/// Page `i` of the options.
pub open spec fn page_of(o: Pairs, i: int) -> Pairs {
    let (lo, hi) = (i * page_size(o.len() as int), (i + 1) * page_size(o.len() as int));
    o.subrange(
        lo,
        if hi < o.len() {
            hi
        } else {
            o.len() as int
        },
    )
}

/// The questions that a choice expands into.
pub open spec fn is_expansion(q: Question, expand: Expand, subs: Seq<Question>) -> bool {
    let o = prompts::options_of(q.criteria->0@);
    let n = o.len() as int;
    match expand {
        Expand::Probes => subs.len() == n && forall|i: int|
            0 <= i < n ==> is_probe(#[trigger] subs[i], stem_of(q), o[i]),
        Expand::Pages => subs.len() == ceil_div(n, page_size(n)) && forall|i: int|
            0 <= i < subs.len() ==> is_page(#[trigger] subs[i], stem_of(q), page_of(o, i)),
    }
}

/// The options' keys, in order.
pub open spec fn keys_of(q: Question) -> Seq<Seq<char>> {
    prompts::options_of(q.criteria->0@).map_values(|o: (Seq<char>, Seq<char>)| o.0)
}

/// Pairs of strings as the texts they hold.
pub open spec fn pairs(v: Seq<(String, String)>) -> Pairs {
    v.map_values(|o: (String, String)| (o.0@, o.1@))
}

proof fn lemma_ceil(a: int, b: int)
    by (nonlinear_arith)
    requires
        0 < a,
        0 < b,
    ensures
        1 <= ceil_div(a, b),
        ceil_div(a, b) <= a,
        (ceil_div(a, b) - 1) * b < a <= ceil_div(a, b) * b,
{
}

/// Every page but the last is full, and none is empty or past the letters.
pub proof fn law_pages(n: int)
    requires
        n > 0,
    ensures
        1 <= page_size(n) <= MAX_SLOTS,
        page_count(n) >= 1,
        ceil_div(n, page_size(n)) >= 1,
        (ceil_div(n, page_size(n)) - 1) * page_size(n) < n <= ceil_div(n, page_size(n)) * page_size(n),
        ceil_div(n, page_size(n)) <= page_count(n),
{
    lemma_ceil(n, MAX_SLOTS as int);
    let c = page_count(n);
    lemma_ceil(n, c);
    let s = page_size(n);
    lemma_ceil(n, s);
    assert(s <= 26) by (nonlinear_arith)
        requires
            (s - 1) * c < n <= c * 26,
            c >= 1,
    ;
    let p = ceil_div(n, s);
    assert(p <= c) by (nonlinear_arith)
        requires
            (p - 1) * s < n <= s * c,
            s >= 1,
            n <= c * s,
    ;
}

/// Every option stands on exactly one page, in its place.
pub proof fn law_option_page(o: Pairs, i: int)
    requires
        0 <= i < o.len(),
    ensures
        ({
            let (n, size) = (o.len() as int, page_size(o.len() as int));
            let p = i / size;
            &&& 0 <= p < ceil_div(n, size)
            &&& 0 <= i - p * size < page_of(o, p).len()
            &&& page_of(o, p)[i - p * size] == o[i]
            &&& forall|q: int|
                0 <= q < ceil_div(n, size) && #[trigger] on_page(o, q, i) ==> q == p
        }),
{
    let (n, size) = (o.len() as int, page_size(o.len() as int));
    law_pages(n);
    let p = i / size;
    let c = ceil_div(n, size);
    assert(p * size <= i < (p + 1) * size && 0 <= p) by (nonlinear_arith)
        requires
            p == i / size,
            size >= 1,
            i >= 0,
    ;
    assert(p < c) by (nonlinear_arith)
        requires
            p * size <= i,
            i < n,
            n <= c * size,
            size >= 1,
    ;
    assert forall|q: int| 0 <= q < c && #[trigger] on_page(o, q, i) implies q == p by {
        assert(q == p) by (nonlinear_arith)
            requires
                q * size <= i < (q + 1) * size,
                p * size <= i < (p + 1) * size,
                size >= 1,
        ;
    }
}

/// Place `i` of the options lies on page `q`.
pub open spec fn on_page(o: Pairs, q: int, i: int) -> bool {
    q * page_size(o.len() as int) <= i < (q + 1) * page_size(o.len() as int)
}

/// Where a page of the options lies.
pub proof fn lemma_page_in(o: Pairs, p: int)
    requires
        o.len() > 0,
        0 <= p < ceil_div(o.len() as int, page_size(o.len() as int)),
    ensures
        ({
            let (n, size) = (o.len() as int, page_size(o.len() as int));
            &&& 0 <= p * size < n
            &&& p * size + page_of(o, p).len() <= n
            &&& 0 < page_of(o, p).len() <= size
            &&& forall|j: int| 0 <= j < page_of(o, p).len() ==> #[trigger] page_of(o, p)[j] == o[p * size + j]
        }),
{
    let (n, size) = (o.len() as int, page_size(o.len() as int));
    let c = ceil_div(n, size);
    law_pages(n);
    assert(0 <= p * size && p * size <= (c - 1) * size) by (nonlinear_arith)
        requires
            0 <= p <= c - 1,
            size >= 1,
    ;
    assert((p + 1) * size == p * size + size) by (nonlinear_arith);
}

/// A page whose options have names of their own lists them all in order.
pub proof fn lemma_page_map(page: Pairs)
    requires
        forall|a: int, b: int| 0 <= a < b < page.len() ==> (#[trigger] page[a]).0 != (#[trigger] page[b]).0,
    ensures
        page_map(page).len() == page.len(),
        forall|j: int| 0 <= j < page.len() ==> #[trigger] page_map(page)[j] == (page[j].0, Json::Str(page[j].1)),
    decreases page.len(),
{
    if page.len() > 0 {
        let d = page.drop_last();
        assert forall|a: int, b: int| 0 <= a < b < d.len() implies (#[trigger] d[a]).0 != (#[trigger] d[b]).0 by {
            assert(page[a].0 != page[b].0);
        }
        lemma_page_map(d);
        let m = page_map(d);
        value::lemma_place(m, page.last().0);
        if let Some(i) = value::place(m, page.last().0) {
            assert(m[i] == (d[i].0, Json::Str(d[i].1)));
            assert(page[i].0 != page[page.len() - 1].0);
        }
    }
}

/// A probe asks yes or no, in the words of its question, about the option in
/// its own place: it names that option last, by its key, and by its
/// description where that says more.
pub proof fn law_probe(q: Question, subs: Seq<Question>, i: int)
    requires
        expands(q),
        is_expansion(q, Expand::Probes, subs),
        0 <= i < subs.len(),
    ensures
        subs.len() == prompts::options_of(q.criteria->0@).len(),
        ({
            let (s, o) = (subs[i], prompts::options_of(q.criteria->0@)[i]);
            &&& s.qtype == QType::Boolean
            &&& !s.allow_abstain
            &&& q.instructions@.is_prefix_of(s.instructions@)
            &&& o.0 == o.1 ==> ("\nCandidate: "@ + o.0).is_suffix_of(s.instructions@)
            &&& o.0 != o.1 ==> ("\nCandidate: "@ + o.0 + " — "@ + o.1).is_suffix_of(s.instructions@)
        }),
{
    let (s, o) = (subs[i], prompts::options_of(q.criteria->0@)[i]);
    assert(is_probe(s, stem_of(q), o));
    let ask = "\nIs this candidate the correct answer?\nCandidate: "@;
    reveal_strlit("\nIs this candidate the correct answer?\nCandidate: ");
    reveal_strlit("\nCandidate: ");
    let end = "\nCandidate: "@;
    assert(ask =~= ask.take(ask.len() - end.len()) + end);
    let t = s.instructions@;
    assert(t == stem_of(q) + ask + candidate(o));
    assert(q.instructions@ =~= t.subrange(0, q.instructions@.len() as int));
    let last = end + candidate(o);
    assert(last =~= t.subrange(t.len() - last.len(), t.len() as int));
    assert(end + o.0 + " — "@ + o.1 =~= end + (o.0 + " — "@ + o.1));
}

/// A page asks for one of its own options, in the words of its question and
/// without a way out: every option on it stands there by its key and its
/// description, in order.
pub proof fn law_page(q: Question, subs: Seq<Question>, p: int)
    requires
        expands(q),
        is_expansion(q, Expand::Pages, subs),
        0 <= p < subs.len(),
        keys_of(q).no_duplicates(),
    ensures
        ({
            let (s, o) = (subs[p], prompts::options_of(q.criteria->0@));
            let size = page_size(o.len() as int);
            &&& s.qtype == QType::Choice
            &&& !s.allow_abstain
            &&& q.instructions@.is_prefix_of(s.instructions@)
            &&& s.criteria is Some
            &&& (s.criteria->0@ matches Json::Object(m) && 0 < m.len() <= 26 && p * size + m.len() <= o.len() && (p + 1
                < subs.len() ==> m.len() == size) && forall|j: int|
                0 <= j < m.len() ==> #[trigger] m[j] == (o[p * size + j].0, Json::Str(o[p * size + j].1)))
        }),
{
    let (s, o) = (subs[p], prompts::options_of(q.criteria->0@));
    let (n, size) = (o.len() as int, page_size(o.len() as int));
    assert(is_page(s, stem_of(q), page_of(o, p)));
    let t = s.instructions@;
    assert(q.instructions@ =~= t.subrange(0, q.instructions@.len() as int));
    law_pages(n);
    lemma_page_in(o, p);
    let page = page_of(o, p);
    assert forall|a: int, b: int| 0 <= a < b < page.len() implies (#[trigger] page[a]).0 != (#[trigger] page[b]).0 by {
        assert(page[a] == o[p * size + a] && page[b] == o[p * size + b]);
        assert(keys_of(q)[p * size + a] != keys_of(q)[p * size + b]);
    }
    lemma_page_map(page);
    assert(s.criteria is Some);
    let m = page_map(page);
    assert forall|j: int| 0 <= j < m.len() implies #[trigger] m[j] == (o[p * size + j].0, Json::Str(o[p * size + j].1)) by {
        assert(page[j] == o[p * size + j]);
    }
    if p + 1 < subs.len() {
        let c = ceil_div(n, size);
        assert((p + 1) * size == p * size + size && (p + 1) * size <= (c - 1) * size) by (nonlinear_arith)
            requires
                p + 1 <= c - 1,
                size >= 1,
        ;
    }
}

fn plain_question(qtype: QType, instructions: String, criteria: Option<Value>) -> (r: Question)
    ensures
        plain(r, qtype, instructions@, schema::criteria_view(criteria)),
{
    Question {
        qtype,
        instructions,
        criteria,
        min: None,
        max: None,
        granularity: schema::default_granularity(),
        anchors: Vec::new(),
        allow_abstain: false,
    }
}

/// One yes/no probe per option.
fn probes(stem: &str, opts: &Vec<(String, String)>) -> (r: Vec<Question>)
    ensures
        r@.len() == opts@.len(),
        forall|i: int| 0 <= i < r@.len() ==> is_probe(#[trigger] r@[i], stem@, pairs(opts@)[i]),
{
    let mut r: Vec<Question> = Vec::new();
    let mut i: usize = 0;
    while i < opts.len()
        invariant
            i <= opts@.len(),
            r@.len() == i,
            forall|k: int| 0 <= k < i ==> is_probe(#[trigger] r@[k], stem@, pairs(opts@)[k]),
        decreases opts@.len() - i,
    {
        let (key, desc): (&str, &str) = (opts[i].0.as_str(), opts[i].1.as_str());
        let mut t: String = stem.to_owned().concat("\nIs this candidate the correct answer?\nCandidate: ");
        t.append(key);
        if !text::same(key, desc) {
            t.append(" — ");
            t.append(desc);
        }
        proof {
            assert(t@ =~= stem@ + "\nIs this candidate the correct answer?\nCandidate: "@ + candidate(pairs(opts@)[i as int]));
        }
        r.push(plain_question(QType::Boolean, t, None));
        i += 1;
    }
    r
}

/// Chunks of options as choices of their own.
fn pages(stem: &str, opts: &Vec<(String, String)>) -> (r: Vec<Question>)
    requires
        opts@.len() > 0,
    ensures
        r@.len() == ceil_div(opts@.len() as int, page_size(opts@.len() as int)),
        forall|i: int| 0 <= i < r@.len() ==> is_page(#[trigger] r@[i], stem@, page_of(pairs(opts@), i)),
{
    let ghost o = pairs(opts@);
    let n: usize = opts.len();
    let count: usize = (n - 1) / MAX_SLOTS + 1;
    proof {
        law_pages(n as int);
        assert(count == page_count(n as int)) by (nonlinear_arith)
            requires
                n >= 1,
                count == (n - 1) / 26 + 1,
                page_count(n as int) == (n + 26 - 1) / 26,
        ;
    }
    let size: usize = (n - 1) / count + 1;
    proof {
        assert(size == page_size(n as int)) by (nonlinear_arith)
            requires
                n >= 1,
                count >= 1,
                size == (n - 1) / count as int + 1,
                page_size(n as int) == (n + count - 1) / count as int,
        ;
    }
    let mut r: Vec<Question> = Vec::new();
    let mut at: usize = 0;
    proof {
        assert(0 * size == 0) by (nonlinear_arith);
    }
    while at < n
        invariant
            n == opts@.len(),
            o == pairs(opts@),
            size == page_size(n as int),
            1 <= size,
            at <= n,
            at == (if r@.len() * size < n { r@.len() * size } else { n as int }),
            at == n ==> (r@.len() - 1) * size < n,
            forall|i: int| 0 <= i < r@.len() ==> is_page(#[trigger] r@[i], stem@, page_of(o, i)),
        decreases n - at,
    {
        let end: usize = if n - at > size {
            at + size
        } else {
            n
        };
        let ghost p = r@.len() as int;
        proof {
            assert((p + 1) * size == p * size + size) by (nonlinear_arith);
        }
        let mut map: Vec<(String, Value)> = Vec::new();
        let mut k: usize = at;
        proof {
            assert(o.subrange(at as int, at as int) =~= Seq::empty());
        }
        while k < end
            invariant
                at <= k <= end <= n,
                n == opts@.len(),
                o == pairs(opts@),
                value::fields(map@) == page_map(o.subrange(at as int, k as int)),
            decreases end - k,
        {
            proof {
                assert(o.subrange(at as int, k + 1).drop_last() =~= o.subrange(at as int, k as int));
                assert(o.subrange(at as int, k + 1).last() == o[k as int]);
            }
            value::put(&mut map, opts[k].0.as_str(), Value::Str(opts[k].1.clone()));
            k += 1;
        }
        let t: String = stem.to_owned().concat("\nThese candidates are a subset — pick the best among them.");
        proof {
            assert(page_of(o, p) =~= o.subrange(at as int, end as int));
        }
        let s: Question = plain_question(QType::Choice, t, Some(Value::Object(map)));
        proof {
            assert(is_page(s, stem@, page_of(o, p)));
        }
        r.push(s);
        at = end;
    }
    proof {
        let p = r@.len() as int;
        assert(p == ceil_div(n as int, size as int)) by {
            lemma_ceil(n as int, size as int);
            let c = ceil_div(n as int, size as int);
            assert(p == c) by (nonlinear_arith)
                requires
                    (c - 1) * size < n <= c * size,
                    (p - 1) * size < n <= p * size,
                    size >= 1,
            ;
        }
    }
    r
}

/// A choice with more options than letter slots expands into several items.
/// `Probes`: one boolean probe per option. `Pages`: chunks of at most
/// `MAX_SLOTS` candidates as real choice questions: far fewer items, and no
/// abstain. Returns the sub questions and the option keys in slot order.
pub fn expand_choice(q: &Question, expand: Expand) -> (r: Option<(Vec<Question>, Vec<String>)>)
    ensures
        match r {
            Some((subs, keys)) => expands(*q) && is_expansion(*q, expand, subs@) && text::views(keys@) == keys_of(*q),
            None => !expands(*q),
        },
{
    if q.qtype != QType::Choice {
        return None;
    }
    let opts: Vec<(String, String)> = match &q.criteria {
        Some(c) => prompts::list_options(c),
        None => {
            return None;
        },
    };
    proof {
        assert(pairs(opts@) =~= prompts::options_of(q.criteria->0@));
    }
    let slots: usize = MAX_SLOTS - (if q.allow_abstain { 1 } else { 0 });
    if opts.len() <= slots {
        return None;
    }
    let stem: String = if q.instructions.as_str().is_empty() {
        "Choose the best option.".to_owned()
    } else {
        q.instructions.clone()
    };
    let subs: Vec<Question> = match expand {
        Expand::Probes => probes(stem.as_str(), &opts),
        Expand::Pages => pages(stem.as_str(), &opts),
    };
    let mut keys: Vec<String> = Vec::new();
    let mut i: usize = 0;
    while i < opts.len()
        invariant
            i <= opts@.len(),
            keys@.len() == i,
            forall|k: int| 0 <= k < i ==> (#[trigger] keys@[k])@ == opts@[k].0@,
        decreases opts@.len() - i,
    {
        keys.push(opts[i].0.clone());
        i += 1;
    }
    proof {
        assert(text::views(keys@) =~= keys_of(*q));
    }
    Some((subs, keys))
}

} // verus!
