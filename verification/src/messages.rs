//! What messages say: the state, the question and its options stand in every
//! one, and two messages that differ in what they ask read differently.
use vstd::prelude::*;

use crate::compact;
use crate::decisions;
use crate::engine;
use crate::engine::{Ask, Compiled};
use crate::expand;
use crate::prompts;
use crate::prompts::{SlotView, ABOVE, ABSTAIN, BELOW};
use crate::schema;
use crate::schema::{DecideRequest, Layout, QType, Question};
use crate::text;
use crate::value;
use crate::value::Json;

verus! {

/// Lines `i..j` of a text that goes on after them stand in it together.
proof fn lemma_lines(lines: Seq<Seq<char>>, i: int, j: int)
    requires
        0 <= i < j < lines.len(),
    ensures
        text::holds(text::joined(lines, "\n"@), text::joined(lines.subrange(i, j), "\n"@) + "\n"@),
        i > 0 ==> text::holds(
            text::joined(lines, "\n"@),
            "\n"@ + text::joined(lines.subrange(i, j), "\n"@) + "\n"@,
        ),
{
    let nl = "\n"@;
    let (a, b, c) = (lines.take(i), lines.subrange(i, j), lines.skip(j));
    let m = text::joined(lines, nl);
    assert(lines =~= lines.take(j) + c);
    text::lemma_joined(lines.take(j), c, nl);
    let p = text::joined(b, nl) + nl;
    if i > 0 {
        assert(lines.take(j) =~= a + b);
        text::lemma_joined(a, b, nl);
        let x = text::joined(a, nl);
        assert(m =~= (x + nl) + p + text::joined(c, nl));
        text::lemma_holds(x + nl, p, text::joined(c, nl));
        assert(m =~= x + (nl + text::joined(b, nl) + nl) + text::joined(c, nl));
        text::lemma_holds(x, nl + text::joined(b, nl) + nl, text::joined(c, nl));
    } else {
        assert(lines.take(j) =~= b);
        assert(m =~= Seq::<char>::empty() + p + text::joined(c, nl));
        text::lemma_holds(Seq::empty(), p, text::joined(c, nl));
    }
}

/// A line and the one after it stand in the text together.
proof fn lemma_two(lines: Seq<Seq<char>>, i: int)
    requires
        0 <= i,
        i + 2 < lines.len(),
    ensures
        text::holds(text::joined(lines, "\n"@), lines[i] + "\n"@ + lines[i + 1] + "\n"@),
{
    let s = lines.subrange(i, i + 2);
    lemma_lines(lines, i, i + 2);
    assert(s.drop_last() =~= seq![s[0]]);
    assert(text::joined(seq![s[0]], "\n"@) == s[0]);
    assert(text::joined(s, "\n"@) == s[0] + "\n"@ + s[1]);
}

/// A line that others precede and follow stands in the text as one.
proof fn lemma_one(lines: Seq<Seq<char>>, i: int)
    requires
        0 < i,
        i + 1 < lines.len(),
    ensures
        text::holds(text::joined(lines, "\n"@), "\n"@ + lines[i] + "\n"@),
{
    let s = lines.subrange(i, i + 1);
    lemma_lines(lines, i, i + 1);
    assert(text::joined(s, "\n"@) == lines[i]);
}

/// Texts that differ in one line differ.
proof fn lemma_line_counts(a: Seq<Seq<char>>, b: Seq<Seq<char>>, i: int)
    requires
        0 < i < a.len() - 1,
        a.len() == b.len(),
        a.take(i) == b.take(i),
        a.skip(i + 1) == b.skip(i + 1),
        text::joined(a, "\n"@) == text::joined(b, "\n"@),
    ensures
        a[i] == b[i],
{
    let nl = "\n"@;
    let (x, z) = (text::joined(a.take(i), nl) + nl, nl + text::joined(a.skip(i + 1), nl));
    lemma_around(a, i);
    lemma_around(b, i);
    let (m, k) = (x.len() as int, z.len() as int);
    let t = text::joined(a, nl);
    assert(t == x + a[i] + z && t == x + b[i] + z);
    assert(a[i] =~= t.subrange(m, t.len() - k));
    assert(b[i] =~= t.subrange(m, t.len() - k));
}

/// A text is what precedes one of its lines, that line, and what follows.
proof fn lemma_around(lines: Seq<Seq<char>>, i: int)
    requires
        0 < i < lines.len() - 1,
    ensures
        text::joined(lines, "\n"@) == text::joined(lines.take(i), "\n"@) + "\n"@ + lines[i] + ("\n"@ + text::joined(
            lines.skip(i + 1),
            "\n"@,
        )),
{
    let nl = "\n"@;
    let (a, b) = (lines.take(i), lines.skip(i));
    assert(lines =~= a + b);
    text::lemma_joined(a, b, nl);
    assert(b =~= seq![lines[i]] + lines.skip(i + 1));
    text::lemma_joined(seq![lines[i]], lines.skip(i + 1), nl);
    assert(text::joined(seq![lines[i]], nl) == lines[i]);
    assert(text::joined(lines, nl) =~= text::joined(a, nl) + nl + lines[i] + (nl + text::joined(lines.skip(i + 1), nl)));
}

/// Slots are lettered in the order of the alphabet.
pub proof fn law_letters(i: int)
    requires
        0 <= i < 26,
    ensures
        prompts::letter(i) == "ABCDEFGHIJKLMNOPQRSTUVWXYZ"@[i],
{
    reveal_strlit("ABCDEFGHIJKLMNOPQRSTUVWXYZ");
}

/// Where the question block starts in a message.
spec fn block_at(layout: Layout, preamble: Seq<Seq<char>>) -> int {
    if layout == Layout::QuestionFirst {
        0
    } else if layout == Layout::Header {
        preamble.len() as int + 6
    } else {
        3
    }
}

/// What the model reads in every layout but the catalog: the state, whatever it
/// is; the instructions of the question, whatever its type; how to answer; and
/// every option behind its letter.
pub proof fn law_message(state: Seq<char>, q: Question, s: Seq<SlotView>, layout: Layout, preamble: Seq<Seq<char>>)
    requires
        s.len() <= 26,
    ensures
        ({
            let m = text::joined(prompts::message_lines(state, q, s, layout, preamble), "\n"@);
            &&& text::holds(m, "STATE"@ + "\n"@ + state + "\n"@)
            &&& q.instructions@.len() > 0 ==> text::holds(m, "QUESTION"@ + "\n"@ + q.instructions@ + "\n"@)
            &&& q.qtype == QType::Boolean || q.qtype == QType::Noul ==> text::holds(
                m,
                "\n"@ + "Answer yes or no."@ + "\n"@,
            )
            &&& q.qtype == QType::Numeric ==> text::holds(
                m,
                "\n"@ + ("Pick the closest value in range ["@ + q.min->0.text@ + ", "@ + q.max->0.text@
                    + "], or below/above the range."@) + "\n"@,
            )
            &&& forall|i: int|
                0 <= i < s.len() ==> text::holds(
                    m,
                    "\n"@ + (seq!["ABCDEFGHIJKLMNOPQRSTUVWXYZ"@[i]] + ") "@ + (#[trigger] s[i]).text) + "\n"@,
                )
        }),
{
    let lines = prompts::message_lines(state, q, s, layout, preamble);
    let m = text::joined(lines, "\n"@);
    let b = block_at(layout, preamble);
    let blk = prompts::block(q, s);
    assert forall|k: int| 0 <= k < blk.len() implies #[trigger] lines[b + k] == blk[k] by {}
    let n = blk.len() as int;
    if layout == Layout::QuestionFirst {
        assert(lines[n + 1] == "STATE"@ && lines[n + 2] == state);
        lemma_two(lines, n + 1);
    } else if layout == Layout::Header {
        assert(lines[b - 3] == "STATE"@ && lines[b - 2] == state);
        lemma_two(lines, b - 3);
    } else {
        assert(lines[0] == "STATE"@ && lines[1] == state);
        lemma_two(lines, 0);
    }
    let one = prompts::unless_empty(q.instructions@).len() as int;
    let two = prompts::type_lines(q).len() as int;
    if q.instructions@.len() > 0 {
        assert(lines[b + 0] == blk[0] && lines[b + 1] == blk[1]);
        assert(blk[0] == "QUESTION"@ && blk[1] == q.instructions@);
        lemma_two(lines, b);
    }
    if two > 0 {
        assert(lines[b + (1 + one)] == blk[1 + one]);
        assert(blk[1 + one] == prompts::type_lines(q)[0]);
        lemma_one(lines, b + 1 + one);
    }
    assert forall|i: int| 0 <= i < s.len() implies text::holds(
        m,
        "\n"@ + (seq!["ABCDEFGHIJKLMNOPQRSTUVWXYZ"@[i]] + ") "@ + (#[trigger] s[i]).text) + "\n"@,
    ) by {
        law_letters(i);
        let at = 3 + one + two + i;
        assert(blk[at] == prompts::option_lines(s)[i]);
        assert(lines[b + at] == blk[at]);
        lemma_one(lines, b + at);
    }
}

/// Where the state comes first the message opens on it; where the question does,
/// on that; and where questions are listed before the state, every one is.
pub proof fn law_order(state: Seq<char>, q: Question, s: Seq<SlotView>, layout: Layout, preamble: Seq<Seq<char>>)
    ensures
        ({
            let m = text::joined(prompts::message_lines(state, q, s, layout, preamble), "\n"@);
            &&& layout == Layout::StateFirst ==> ("STATE"@ + "\n"@ + state + "\n"@).is_prefix_of(m)
            &&& layout == Layout::QuestionFirst ==> ("QUESTION"@ + "\n"@).is_prefix_of(m)
            &&& layout == Layout::Header ==> ("QUESTIONS"@ + "\n"@).is_prefix_of(m) && forall|i: int|
                0 <= i < preamble.len() ==> text::holds(m, "\n"@ + (#[trigger] preamble[i]) + "\n"@)
        }),
{
    let lines = prompts::message_lines(state, q, s, layout, preamble);
    let m = text::joined(lines, "\n"@);
    let nl = "\n"@;
    let h = if layout == Layout::StateFirst {
        2
    } else {
        1int
    };
    assert(lines =~= lines.take(h) + lines.skip(h));
    text::lemma_joined(lines.take(h), lines.skip(h), nl);
    assert(lines.take(1) =~= seq![lines[0]]);
    assert(text::joined(lines.take(1), nl) == lines[0]);
    assert(lines.take(2).drop_last() =~= lines.take(1));
    assert(text::joined(lines.take(2), nl) == lines[0] + nl + lines[1]);
    let head = text::joined(lines.take(h), nl) + nl;
    assert(m == head + text::joined(lines.skip(h), nl));
    assert(head =~= m.subrange(0, head.len() as int));
    if layout == Layout::QuestionFirst {
        assert(lines[0] == prompts::block(q, s)[0]);
    }
    if layout == Layout::Header {
        assert forall|i: int| 0 <= i < preamble.len() implies text::holds(m, "\n"@ + (#[trigger] preamble[i]) + "\n"@) by {
            assert(lines[2 + i] == preamble[i]);
            lemma_one(lines, 2 + i);
        }
    }
}

/// A message is the same text around its question's instructions, whatever
/// they are.
proof fn lemma_around_instructions(state: Seq<char>, q: Question, s: Seq<SlotView>, layout: Layout, preamble: Seq<Seq<char>>) -> (r: (Seq<char>, Seq<char>))
    ensures
        text::joined(prompts::message_lines(state, q, s, layout, preamble), "\n"@) == r.0 + (if q.instructions@.len() == 0 {
            Seq::empty()
        } else {
            q.instructions@ + "\n"@
        }) + r.1,
        r == around(state, q, s, layout, preamble),
{
    let nl = "\n"@;
    let (a, c) = sides(state, q, s, layout, preamble);
    let (x, z) = (text::joined(a, nl) + nl, text::joined(c, nl));
    let lines = prompts::message_lines(state, q, s, layout, preamble);
    let one = prompts::unless_empty(q.instructions@);
    assert(lines =~= a + one + c);
    if one.len() == 0 {
        assert(lines =~= a + c);
        text::lemma_joined(a, c, nl);
        assert(text::joined(lines, nl) =~= x + Seq::<char>::empty() + z);
    } else {
        assert(lines =~= a + (one + c));
        text::lemma_joined(one, c, nl);
        text::lemma_joined(a, one + c, nl);
        assert(text::joined(one, nl) == q.instructions@);
        assert(text::joined(lines, nl) =~= x + (q.instructions@ + nl) + z);
    }
    (x, z)
}

/// The lines before and after a question's instructions.
spec fn sides(state: Seq<char>, q: Question, s: Seq<SlotView>, layout: Layout, preamble: Seq<Seq<char>>) -> (Seq<Seq<char>>, Seq<Seq<char>>) {
    let rest = prompts::type_lines(q) + seq![Seq::empty(), "OPTIONS"@] + prompts::option_lines(s);
    let cue = seq![Seq::empty(), prompts::REPLY_CUE@];
    if layout == Layout::QuestionFirst {
        (seq!["QUESTION"@], rest + seq![Seq::empty(), "STATE"@, state] + cue)
    } else {
        (prompts::state_head(state, layout, preamble) + seq!["QUESTION"@], rest + cue)
    }
}

spec fn around(state: Seq<char>, q: Question, s: Seq<SlotView>, layout: Layout, preamble: Seq<Seq<char>>) -> (Seq<char>, Seq<char>) {
    let (a, c) = sides(state, q, s, layout, preamble);
    (text::joined(a, "\n"@) + "\n"@, text::joined(c, "\n"@))
}

/// Questions that differ in their instructions alone have different messages,
/// in every layout that asks them one by one.
pub proof fn law_instructions_count(
    state: Seq<char>,
    q: Question,
    p: Question,
    s: Seq<SlotView>,
    layout: Layout,
    preamble: Seq<Seq<char>>,
)
    requires
        q.qtype == p.qtype,
        schema::num_view(q.min) == schema::num_view(p.min),
        schema::num_view(q.max) == schema::num_view(p.max),
        prompts::has_options(q),
        prompts::has_options(p),
        q.instructions@ != p.instructions@,
    ensures
        text::joined(prompts::message_lines(state, q, s, layout, preamble), "\n"@) != text::joined(
            prompts::message_lines(state, p, s, layout, preamble),
            "\n"@,
        ),
{
    let nl = "\n"@;
    reveal_strlit("\n");
    let (x, z) = lemma_around_instructions(state, q, s, layout, preamble);
    let (u, w) = lemma_around_instructions(state, p, s, layout, preamble);
    assert(prompts::type_lines(q) == prompts::type_lines(p));
    assert(x == u && z == w);
    let (i, j) = (
        if q.instructions@.len() == 0 {
            Seq::empty()
        } else {
            q.instructions@ + nl
        },
        if p.instructions@.len() == 0 {
            Seq::empty()
        } else {
            p.instructions@ + nl
        },
    );
    let (t, v) = (x + i + z, x + j + z);
    if t == v {
        let n = x.len() as int;
        assert(i =~= t.subrange(n, t.len() - z.len()));
        assert(j =~= v.subrange(n, v.len() - z.len()));
        assert(i == j);
        assert(q.instructions@ =~= i.take(i.len() - 1) || i.len() == 0);
        assert(p.instructions@ =~= j.take(j.len() - 1) || j.len() == 0);
        assert(q.instructions@ =~= p.instructions@);
    }
}

/// Messages over different states differ, whatever the layout.
pub proof fn law_state_counts(a: Seq<char>, b: Seq<char>, q: Question, s: Seq<SlotView>, layout: Layout, preamble: Seq<Seq<char>>)
    requires
        a != b,
    ensures
        text::joined(prompts::message_lines(a, q, s, layout, preamble), "\n"@) != text::joined(
            prompts::message_lines(b, q, s, layout, preamble),
            "\n"@,
        ),
{
    let (x, y) = (
        prompts::message_lines(a, q, s, layout, preamble),
        prompts::message_lines(b, q, s, layout, preamble),
    );
    let i = if layout == Layout::QuestionFirst {
        prompts::block(q, s).len() as int + 2
    } else {
        block_at(layout, preamble) - 2
    };
    assert(x[i] == a && y[i] == b);
    assert(x.take(i) =~= y.take(i));
    assert(x.skip(i + 1) =~= y.skip(i + 1));
    if text::joined(x, "\n"@) == text::joined(y, "\n"@) {
        lemma_line_counts(x, y, i);
    }
}

/// Messages whose options differ in one text differ, whatever the layout.
pub proof fn law_option_counts(
    state: Seq<char>,
    q: Question,
    s: Seq<SlotView>,
    t: Seq<SlotView>,
    k: int,
    layout: Layout,
    preamble: Seq<Seq<char>>,
)
    requires
        s.len() == t.len(),
        0 <= k < s.len(),
        forall|i: int| 0 <= i < s.len() && i != k ==> #[trigger] s[i] == t[i],
        s[k].text != t[k].text,
    ensures
        text::joined(prompts::message_lines(state, q, s, layout, preamble), "\n"@) != text::joined(
            prompts::message_lines(state, q, t, layout, preamble),
            "\n"@,
        ),
{
    let (x, y) = (
        prompts::message_lines(state, q, s, layout, preamble),
        prompts::message_lines(state, q, t, layout, preamble),
    );
    let head = 3 + prompts::unless_empty(q.instructions@).len() + prompts::type_lines(q).len();
    let i = block_at(layout, preamble) + head + k;
    let (u, w) = (prompts::option_lines(s), prompts::option_lines(t));
    assert(x[i] == u[k]);
    assert(y[i] == w[k]);
    assert(u.take(k) =~= w.take(k));
    assert forall|j: int| 0 <= j < u.len() && j != k implies u[j] == w[j] by {
        assert(s[j] == t[j]);
    }
    assert(x.take(i) =~= y.take(i));
    assert(x.skip(i + 1) =~= y.skip(i + 1));
    if text::joined(x, "\n"@) == text::joined(y, "\n"@) {
        lemma_line_counts(x, y, i);
        let h = seq![prompts::letter(k)] + ") "@;
        assert(s[k].text =~= (h + s[k].text).skip(h.len() as int));
        assert(t[k].text =~= (h + t[k].text).skip(h.len() as int));
    }
}

/// Where the catalog of the first `n` items has the entry of item `j`.
proof fn lemma_entry(asks: Seq<Ask>, n: int, j: int) -> (t: int)
    requires
        0 <= j < n <= asks.len(),
    ensures
        ({
            let (cat, e) = (
                engine::catalog_of(asks, n),
                prompts::entry_lines(j, engine::untagged(asks[j].name@), asks[j].q),
            );
            &&& 0 <= t
            &&& t + e.len() <= cat.len()
            &&& forall|k: int| 0 <= k < e.len() ==> cat[t + k] == #[trigger] e[k]
        }),
    decreases n,
{
    let e = prompts::entry_lines(j, engine::untagged(asks[j].name@), asks[j].q);
    let cat = engine::catalog_of(asks, n);
    if j == n - 1 {
        let t = cat.len() - e.len();
        assert forall|k: int| 0 <= k < e.len() implies cat[t + k] == #[trigger] e[k] by {}
        t
    } else {
        let t = lemma_entry(asks, n - 1, j);
        let before = engine::catalog_of(asks, n - 1);
        assert forall|k: int| 0 <= k < e.len() implies cat[t + k] == #[trigger] e[k] by {
            assert(before[t + k] == e[k]);
        }
        t
    }
}

/// What the model reads in the catalog layout: every line of the catalog before
/// the state, the state, which question of the catalog is asked, and every
/// option behind its letter.
pub proof fn law_catalog(cat: Seq<Seq<char>>, state: Seq<char>, idx: int, name: Seq<char>, s: Seq<SlotView>)
    requires
        s.len() <= 26,
        0 <= idx,
    ensures
        ({
            let m = text::joined(prompts::catalog_lines(cat, state, idx, name, s), "\n"@);
            &&& text::holds(m, "STATE"@ + "\n"@ + state + "\n"@)
            &&& text::holds(m, "\n"@ + ("QUESTION "@ + text::digits((idx + 1) as nat) + " — "@ + name) + "\n"@)
            &&& forall|i: int| 0 <= i < cat.len() ==> text::holds(m, "\n"@ + (#[trigger] cat[i]) + "\n"@)
            &&& forall|i: int|
                0 <= i < s.len() ==> text::holds(
                    m,
                    "\n"@ + (seq!["ABCDEFGHIJKLMNOPQRSTUVWXYZ"@[i]] + ") "@ + (#[trigger] s[i]).text) + "\n"@,
                )
        }),
{
    let lines = prompts::catalog_lines(cat, state, idx, name, s);
    let m = text::joined(lines, "\n"@);
    let n = cat.len() as int;
    assert(lines[n + 3] == "STATE"@ && lines[n + 4] == state);
    lemma_two(lines, n + 3);
    assert(lines[n + 6] == "QUESTION "@ + text::digits((idx + 1) as nat) + " — "@ + name);
    lemma_one(lines, n + 6);
    assert forall|i: int| 0 <= i < n implies text::holds(m, "\n"@ + (#[trigger] cat[i]) + "\n"@) by {
        assert(lines[2 + i] == cat[i]);
        lemma_one(lines, 2 + i);
    }
    assert forall|i: int| 0 <= i < s.len() implies text::holds(
        m,
        "\n"@ + (seq!["ABCDEFGHIJKLMNOPQRSTUVWXYZ"@[i]] + ") "@ + (#[trigger] s[i]).text) + "\n"@,
    ) by {
        law_letters(i);
        assert(lines[n + 9 + i] == prompts::option_lines(s)[i]);
        lemma_one(lines, n + 9 + i);
    }
}

/// The message of every item of a request shows the state of the request, what
/// the item asks, and the options it may choose from, in every layout: the
/// instructions stand right at the question, or in the catalog under the number
/// that the question is asked by. Where questions are listed before the state,
/// each one of the request is.
pub proof fn law_compiled(req: DecideRequest, c: Compiled, i: int)
    requires
        engine::compiled(req, c),
        0 <= i < c.asks.asks@.len(),
    ensures
        ({
            let (m, a) = (c.msgs@[i]@, c.asks.asks@[i]);
            let told = a.q.instructions@.len() > 0;
            let name = engine::untagged(a.name@);
            &&& text::holds(m, "STATE"@ + "\n"@ + c.state@ + "\n"@)
            &&& c.layout != Layout::Catalog && told ==> text::holds(m, "QUESTION"@ + "\n"@ + a.q.instructions@ + "\n"@)
            &&& c.layout == Layout::Catalog ==> text::holds(
                m,
                "\n"@ + ("QUESTION "@ + text::digits((i + 1) as nat) + " — "@ + name) + "\n"@,
            )
            &&& c.layout == Layout::Catalog && told ==> text::holds(
                m,
                "\n"@ + (text::digits((i + 1) as nat) + ") "@ + (name + " — "@ + a.q.instructions@)) + "\n"@,
            )
            &&& c.layout == Layout::Header ==> forall|k: int|
                0 <= k < req.questions@.len() && (#[trigger] req.questions@[k]).1->Ok_0.instructions@.len() > 0
                    ==> text::holds(
                    m,
                    "\n"@ + (text::digits((k + 1) as nat) + ". "@ + (req.questions@[k].0@ + " — "@
                        + req.questions@[k].1->Ok_0.instructions@)) + "\n"@,
                )
            &&& c.slots@[i]@.len() <= 26
            &&& forall|y: int|
                0 <= y < c.slots@[i]@.len() ==> text::holds(
                    m,
                    "\n"@ + (seq!["ABCDEFGHIJKLMNOPQRSTUVWXYZ"@[y]] + ") "@ + (#[trigger] c.slots@[i]@[y]).text@)
                        + "\n"@,
                )
        }),
{
    let asks = c.asks.asks@;
    let (m, a, qs) = (c.msgs@[i]@, asks[i], req.questions@);
    let s = prompts::slots_of(a.q);
    assert(engine::askable(a.q));
    assert(m == engine::message_of(qs, asks, c.layout, c.state@, i));
    assert(prompts::slot_views(c.slots@[i]@) == s);
    assert(s.len() == c.slots@[i]@.len());
    let pre = if c.layout == Layout::Header {
        engine::preamble_of(qs)
    } else {
        Seq::empty()
    };
    let cat = engine::catalog_of(asks, asks.len() as int);
    if c.layout == Layout::Catalog {
        law_catalog(cat, c.state@, i, engine::untagged(a.name@), s);
        let t = lemma_entry(asks, asks.len() as int, i);
        let e = prompts::entry_lines(i, engine::untagged(a.name@), a.q);
        assert(cat[t + 0] == e[0]);
        assert(cat[t] == e[0]);
    } else {
        law_message(c.state@, a.q, s, c.layout, pre);
        law_order(c.state@, a.q, s, c.layout, pre);
    }
    if c.layout == Layout::Header {
        assert forall|k: int|
            0 <= k < qs.len() && (#[trigger] qs[k]).1->Ok_0.instructions@.len() > 0 implies text::holds(
            m,
            "\n"@ + (text::digits((k + 1) as nat) + ". "@ + (qs[k].0@ + " — "@ + qs[k].1->Ok_0.instructions@))
                + "\n"@,
        ) by {
            assert(text::holds(m, "\n"@ + pre[k] + "\n"@));
        }
    }
    assert forall|y: int| 0 <= y < c.slots@[i]@.len() implies text::holds(
        m,
        "\n"@ + (seq!["ABCDEFGHIJKLMNOPQRSTUVWXYZ"@[y]] + ") "@ + (#[trigger] c.slots@[i]@[y]).text@) + "\n"@,
    ) by {
        assert(s[y] == c.slots@[i]@[y]@);
    }
}

/// The options that a question offers: yes and no; the options of a choice by
/// their keys and descriptions; the levels of a score, numbered; the values of a
/// range between what lies below and above it. The way out comes last, where the
/// question allows it, and only there.
pub proof fn law_slots(q: Question)
    requires
        prompts::has_options(q),
    ensures
        ({
            let s = prompts::slots_of(q);
            let n = s.len() - schema::one_if(q.allow_abstain);
            &&& q.allow_abstain ==> s.last().key == ABSTAIN@ && s.last().special
            &&& q.qtype == QType::Boolean || q.qtype == QType::Noul ==> n == 2 && s[0].key == "yes"@ && s[0].text
                == "Yes"@ && s[1].key == "no"@ && s[1].text == "No"@
            &&& q.qtype != QType::Numeric ==> forall|i: int| 0 <= i < n ==> !(#[trigger] s[i]).special
            &&& q.qtype == QType::Choice ==> (q.criteria->0@ matches Json::Object(m) ==> n == m.len() && forall|i: int|
                0 <= i < n ==> (#[trigger] s[i]).key == m[i].0 && (m[i].1 matches Json::Str(d) ==> s[i].text == if d.len()
                    == 0 {
                    m[i].0
                } else {
                    d
                }))
            &&& q.qtype == QType::Choice ==> (q.criteria->0@ matches Json::Array(a) ==> n == a.len() && forall|i: int|
                0 <= i < n ==> ((#[trigger] a[i]) matches Json::Str(t) ==> s[i].key == t && s[i].text == t))
            &&& q.qtype == QType::Score ==> (q.criteria->0@ matches Json::Array(a) ==> n == a.len() && forall|i: int|
                0 <= i < n ==> s[i].key == text::digits(i as nat) && ((#[trigger] a[i]) matches Json::Str(t) ==> s[i].text
                    == t))
            &&& q.qtype == QType::Numeric ==> {
                &&& n == q.anchors@.len() + 2
                &&& s[0].key == BELOW@ && s[0].special && s[0].text == "Below "@ + q.min->0.text@
                &&& s[n - 1].key == ABOVE@ && s[n - 1].special && s[n - 1].text == "Above "@ + q.max->0.text@
                &&& forall|i: int|
                    0 <= i < q.anchors@.len() ==> s[i + 1].key == (#[trigger] q.anchors@[i])@ && s[i + 1].text
                        == q.anchors@[i]@ && !s[i + 1].special
            }
        }),
{
    let s = prompts::slots_of(q);
    if q.qtype == QType::Numeric {
        let v = text::views(q.anchors@);
        let o = prompts::numeric_slots(q.min->0.text@, q.max->0.text@, v);
        assert(o.len() == v.len() + 2);
        assert forall|i: int| 0 <= i < q.anchors@.len() implies s[i + 1].key == (#[trigger] q.anchors@[i])@ && s[i + 1].text
            == q.anchors@[i]@ && !s[i + 1].special by {
            assert(o[i + 1] == prompts::option(v[i], v[i]));
            assert(s[i + 1] == o[i + 1]);
        }
    }
}

/// A choice is asked as it is written where its options have letters, and
/// only there.
pub proof fn law_fits_the_letters(q: Question)
    requires
        prompts::has_options(q),
    ensures
        q.qtype == QType::Choice ==> (!expand::expands(q) <==> prompts::slots_of(q).len() <= 26),
        q.qtype != QType::Choice ==> !expand::expands(q),
{
}

/// The state is shown as it is, its JSON where it is no text, unless a compact
/// form is asked for.
pub proof fn law_state_text(req: DecideRequest)
    ensures
        req.state@ matches Json::Str(s) ==> engine::state_text(req) == s,
        !req.compact_state && !(req.state@ is Str) ==> engine::state_text(req) == value::json_text_of(req.state@),
        req.compact_state && !(req.state@ is Str) ==> engine::state_text(req) == text::trimmed_end(
            compact::lines_of(req.state@, 0),
        ),
{
}

/// The slots that a mean runs over are the levels of a score, or the values that
/// a range offers: neither abstention nor what lies out of range.
pub proof fn law_counts(q: Question, i: int)
    requires
        prompts::has_options(q),
        0 <= i < prompts::slots_of(q).len(),
    ensures
        q.qtype == QType::Score ==> (decisions::counts(q, prompts::slots_of(q)[i]) <==> i < prompts::slots_of(q).len()
            - schema::one_if(q.allow_abstain)),
        q.qtype == QType::Numeric && (forall|k: int|
            0 <= k < q.anchors@.len() ==> (#[trigger] q.anchors@[k])@ != BELOW@ && q.anchors@[k]@ != ABOVE@ && q.anchors@[k]@
                != ABSTAIN@) ==> (decisions::counts(q, prompts::slots_of(q)[i]) <==> 1 <= i <= q.anchors@.len()),
{
    law_slots(q);
    let s = prompts::slots_of(q);
    if q.qtype == QType::Numeric && 1 <= i <= q.anchors@.len() {
        assert(s[(i - 1) + 1].key == q.anchors@[i - 1]@);
    }
}

} // verus!
