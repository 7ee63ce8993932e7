//! From messages to tokens: the chat template's text around the user message,
//! the letters' tokens, and the prefixes worth keeping.
use vstd::prelude::*;
use vstd::slice::slice_subrange;

use crate::kv::Backend;
use crate::prefix;
use crate::prompts;
use crate::prompts::Slot;
use crate::schema::{Layout, Question};
use crate::text;

verus! {

/// Stands in for the user message when measuring the template head.
pub const HEAD_SENTINEL: &'static str = "\u{1}snap-head\u{1}";

/// Stands in for the state when measuring where a question's own text ends.
pub const STATE_SENTINEL: &'static str = "\u{1}snap-state\u{1}";

/// `full` around the first place where `mark` stands: before and after it.
pub fn split_once(full: &str, mark: &str) -> (r: Option<(String, String)>)
    ensures
        match r {
            Some((a, b)) => full@ == a@ + mark@ + b@ && forall|j: int|
                0 <= j < a@.len() ==> !#[trigger] text::stands_at(full@, mark@, j),
            None => !text::holds(full@, mark@),
        },
{
    let (f, m): (Vec<char>, Vec<char>) = (text::chars_of(full), text::chars_of(mark));
    match text::find(f.as_slice(), m.as_slice()) {
        Some(i) => {
            let all: usize = f.len();
            let a: &[char] = slice_subrange(f.as_slice(), 0, i);
            let b: &[char] = slice_subrange(f.as_slice(), i + m.len(), all);
            proof {
                assert(full@ =~= a@ + mark@ + b@) by {
                    assert forall|k: int| 0 <= k < mark@.len() implies full@[i + k] == mark@[k] by {
                        assert(full@.subrange(i as int, i + mark@.len())[k] == mark@[k]);
                    }
                }
            }
            Some((text::string_of(a), text::string_of(b)))
        },
        None => None,
    }
}

/// What stands between `pre` and `post` in `full`.
pub fn body_of(full: &str, pre: &str, post: &str) -> (r: Option<String>)
    ensures
        match r {
            Some(b) => full@ == pre@ + b@ + post@,
            None => forall|b: Seq<char>| full@ != #[trigger] (pre@ + b) + post@,
        },
{
    let (f, a, z): (Vec<char>, Vec<char>, Vec<char>) = (text::chars_of(full), text::chars_of(pre), text::chars_of(post));
    if !text::starts_with(f.as_slice(), a.as_slice()) {
        proof {
            assert forall|b: Seq<char>| full@ != #[trigger] (pre@ + b) + post@ by {
                if full@ == (pre@ + b) + post@ {
                    assert(pre@ =~= full@.subrange(0, pre@.len() as int));
                }
            }
        }
        return None;
    }
    let rest: &[char] = slice_subrange(f.as_slice(), a.len(), f.len());
    if !text::ends_with(rest, z.as_slice()) {
        proof {
            assert forall|b: Seq<char>| full@ != #[trigger] (pre@ + b) + post@ by {
                if full@ == (pre@ + b) + post@ {
                    assert(rest@ =~= b + post@);
                    assert(post@ =~= rest@.subrange(rest@.len() - post@.len(), rest@.len() as int));
                }
            }
        }
        return None;
    }
    let body: &[char] = slice_subrange(rest, 0, rest.len() - z.len());
    proof {
        assert(full@ =~= pre@ + body@ + post@) by {
            assert(pre@ == full@.subrange(0, pre@.len() as int));
            assert(post@ == rest@.subrange(rest@.len() - post@.len(), rest@.len() as int));
            assert(rest@ =~= body@ + post@);
            assert(full@ =~= pre@ + rest@);
        }
    }
    Some(text::string_of(body))
}

/// Three lists of tokens as one.
pub fn chain(a: &Vec<i32>, b: &Vec<i32>, c: &Vec<i32>) -> (r: Vec<i32>)
    ensures
        r@ == a@ + b@ + c@,
{
    let mut r: Vec<i32> = Vec::new();
    push_tokens(&mut r, a);
    push_tokens(&mut r, b);
    push_tokens(&mut r, c);
    proof {
        assert(r@ =~= a@ + b@ + c@);
    }
    r
}

fn push_tokens(r: &mut Vec<i32>, more: &Vec<i32>)
    ensures
        final(r)@ == old(r)@ + more@,
{
    let mut i: usize = 0;
    while i < more.len()
        invariant
            i <= more@.len(),
            r@ == old(r)@ + more@.take(i as int),
        decreases more@.len() - i,
    {
        r.push(more[i]);
        i += 1;
        proof {
            assert(r@ =~= old(r)@ + more@.take(i as int));
        }
    }
    proof {
        assert(more@.take(i as int) =~= more@);
    }
}

/// Why prompts could not be made.
pub enum FrameError {
    /// the chat template does not render the user message verbatim
    Template,
    Backend(String),
    /// this letter is not a single token
    Letter(char),
}

/// The tokens of a prompt: those of the template's own text, which alone may
/// be control tokens, around those of what it renders the message to.
pub open spec fn prompt_parts<B: Backend>(
    llm: &B,
    pre: Seq<char>,
    post: Seq<char>,
    user: Seq<char>,
    body: Seq<char>,
    a: Seq<i32>,
    b: Seq<i32>,
    c: Seq<i32>,
) -> bool {
    &&& llm.renders(prompts::SYSTEM@, user, pre + body + post)
    &&& llm.tokenizes(pre, true, a)
    &&& llm.tokenizes(body, false, b)
    &&& llm.tokenizes(post, true, c)
}

/// `toks` are the tokens of a prompt for the message `user`.
pub open spec fn prompt_of<B: Backend>(
    llm: &B,
    pre: Seq<char>,
    post: Seq<char>,
    user: Seq<char>,
    toks: Seq<i32>,
) -> bool {
    exists|body: Seq<char>, a: Seq<i32>, b: Seq<i32>, c: Seq<i32>| #[trigger]
        prompt_parts(llm, pre, post, user, body, a, b, c) && toks == a + b + c
}

/// The template renders the message to something other than its own text
/// around it.
pub open spec fn reworded<B: Backend>(llm: &B, pre: Seq<char>, post: Seq<char>, user: Seq<char>) -> bool {
    exists|full: Seq<char>| #[trigger]
        llm.renders(prompts::SYSTEM@, user, full) && forall|b: Seq<char>| full != #[trigger] (pre + b) + post
}

/// A call that makes up a prompt for the message failed, and said `why`.
pub open spec fn call_fails<B: Backend>(llm: &B, pre: Seq<char>, post: Seq<char>, user: Seq<char>, why: Seq<char>) -> bool {
    ||| llm.render_fails(prompts::SYSTEM@, user, why)
    ||| exists|body: Seq<char>| #[trigger]
        llm.renders(prompts::SYSTEM@, user, pre + body + post) && (llm.tokenize_fails(pre, true, why)
            || llm.tokenize_fails(body, false, why) || llm.tokenize_fails(post, true, why))
}

/// Why a message has no prompt.
pub open spec fn prompt_fails<B: Backend>(llm: &B, pre: Seq<char>, post: Seq<char>, user: Seq<char>, e: FrameError) -> bool {
    match e {
        FrameError::Template => reworded(llm, pre, post, user),
        FrameError::Backend(why) => call_fails(llm, pre, post, user, why@),
        FrameError::Letter(_) => false,
    }
}

/// The prompt's tokens. Only the template's own text may produce control
/// tokens: request content is tokenized as plain text, so that markup inside a
/// state stays characters instead of closing the turn.
pub fn prompt_tokens<B: Backend>(llm: &B, pre: &str, post: &str, user: &str) -> (r: Result<Vec<i32>, FrameError>)
    ensures
        match r {
            Ok(t) => prompt_of(llm, pre@, post@, user@, t@),
            Err(e) => prompt_fails(llm, pre@, post@, user@, e),
        },
{
    let full: String = match llm.render(prompts::SYSTEM, user) {
        Ok(t) => t,
        Err(e) => {
            return Err(FrameError::Backend(e));
        },
    };
    let body: String = match body_of(full.as_str(), pre, post) {
        Some(b) => b,
        None => {
            return Err(FrameError::Template);
        },
    };
    let a: Vec<i32> = match llm.tokenize(pre, true) {
        Ok(t) => t,
        Err(e) => {
            return Err(FrameError::Backend(e));
        },
    };
    let b: Vec<i32> = match llm.tokenize(body.as_str(), false) {
        Ok(t) => t,
        Err(e) => {
            return Err(FrameError::Backend(e));
        },
    };
    let c: Vec<i32> = match llm.tokenize(post, true) {
        Ok(t) => t,
        Err(e) => {
            return Err(FrameError::Backend(e));
        },
    };
    proof {
        assert(prompt_parts(llm, pre@, post@, user@, body@, a@, b@, c@));
    }
    Ok(chain(&a, &b, &c))
}

/// The token that a tokenization is, if it is a single one.
pub open spec fn single(t: Option<Vec<i32>>) -> Option<i32> {
    match t {
        Some(v) => if v@.len() == 1 {
            Some(v@[0])
        } else {
            None
        },
        None => None,
    }
}

/// The single tokens among tokenizations, each once, in order.
pub open spec fn singles(ts: Seq<Option<Vec<i32>>>) -> Seq<i32>
    decreases ts.len(),
{
    if ts.len() == 0 {
        Seq::empty()
    } else {
        let before = singles(ts.drop_last());
        match single(ts.last()) {
            Some(t) => if before.contains(t) {
                before
            } else {
                before.push(t)
            },
            None => before,
        }
    }
}

/// The single tokens among the tokenizations of a letter's forms; a form that
/// could not be tokenized is none.
pub fn pool(ts: &Vec<Option<Vec<i32>>>) -> (r: Vec<i32>)
    ensures
        r@ == singles(ts@),
{
    let mut r: Vec<i32> = Vec::new();
    let mut i: usize = 0;
    proof {
        assert(ts@.take(0) =~= Seq::empty());
    }
    while i < ts.len()
        invariant
            i <= ts@.len(),
            r@ == singles(ts@.take(i as int)),
        decreases ts@.len() - i,
    {
        proof {
            assert(ts@.take(i + 1).drop_last() =~= ts@.take(i as int));
            assert(ts@.take(i + 1).last() == ts@[i as int]);
        }
        if let Some(t) = &ts[i] {
            if t.len() == 1 && !crate::kv::contains(&r, t[0]) {
                r.push(t[0]);
            }
        }
        i += 1;
    }
    proof {
        assert(ts@.take(i as int) =~= ts@);
    }
    r
}

/// The forms a letter may take as a token: bare, after a space, after a line.
pub open spec fn letter_forms(c: char) -> Seq<Seq<char>> {
    seq![seq![c], seq![' ', c], seq!['\n', c]]
}

pub fn forms_of(c: char) -> (r: Vec<String>)
    ensures
        text::views(r@) == letter_forms(c),
        r@.len() == 3,
{
    let mut r: Vec<String> = Vec::new();
    let mut a: String = String::new();
    a.push(c);
    let mut b: String = String::new();
    b.push(' ');
    b.push(c);
    let mut d: String = String::new();
    d.push('\n');
    d.push(c);
    proof {
        assert(a@ =~= seq![c]);
        assert(b@ =~= seq![' ', c]);
        assert(d@ =~= seq!['\n', c]);
    }
    r.push(a);
    r.push(b);
    r.push(d);
    proof {
        assert(text::views(r@) =~= letter_forms(c));
    }
    r
}

/// What tokenizing a text as plain may give; none where it failed.
pub open spec fn plain_tokens<B: Backend>(llm: &B, form: Seq<char>, t: Option<Vec<i32>>) -> bool {
    match t {
        Some(v) => llm.tokenizes(form, false, v@),
        None => exists|why: Seq<char>| #[trigger] llm.tokenize_fails(form, false, why),
    }
}

/// What tokenizing the forms of a letter may give.
pub open spec fn tokenized<B: Backend>(llm: &B, forms: Seq<Seq<char>>, ts: Seq<Option<Vec<i32>>>) -> bool {
    &&& ts.len() == forms.len()
    &&& forall|k: int| 0 <= k < ts.len() ==> plain_tokens(llm, forms[k], #[trigger] ts[k])
}

/// The tokens that stand for a letter: the single ones among its forms.
pub open spec fn stands_for<B: Backend>(llm: &B, c: char, ids: Seq<i32>) -> bool {
    exists|ts: Seq<Option<Vec<i32>>>| #[trigger] tokenized(llm, letter_forms(c), ts) && ids == singles(ts)
}

fn tokenize_forms<B: Backend>(llm: &B, c: char) -> (ids: Vec<i32>)
    ensures
        stands_for(llm, c, ids@),
{
    let forms: Vec<String> = forms_of(c);
    let mut ts: Vec<Option<Vec<i32>>> = Vec::new();
    let mut k: usize = 0;
    while k < forms.len()
        invariant
            k <= forms@.len(),
            text::views(forms@) == letter_forms(c),
            tokenized(llm, letter_forms(c).take(k as int), ts@),
        decreases forms@.len() - k,
    {
        let t: Option<Vec<i32>> = match llm.tokenize(forms[k].as_str(), false) {
            Ok(t) => Some(t),
            Err(e) => {
                assert(llm.tokenize_fails(forms@[k as int]@, false, e@));
                None
            },
        };
        let ghost before = ts@;
        proof {
            assert(plain_tokens(llm, forms@[k as int]@, t));
            assert(text::views(forms@)[k as int] == forms@[k as int]@);
        }
        ts.push(t);
        proof {
            let now = letter_forms(c).take(k + 1);
            assert forall|j: int| 0 <= j < ts@.len() implies plain_tokens(llm, now[j], #[trigger] ts@[j]) by {
                if j < k {
                    assert(ts@[j] == before[j]);
                    assert(letter_forms(c).take(k as int)[j] == now[j]);
                }
            }
        }
        k += 1;
    }
    proof {
        assert(text::views(forms@).len() == forms@.len());
        assert(letter_forms(c).take(k as int) =~= letter_forms(c));
    }
    pool(&ts)
}

/// Token ids per letter, pooling bare and space/newline-prefixed variants.
pub fn letter_ids<B: Backend>(llm: &B) -> (r: Result<Vec<Vec<i32>>, FrameError>)
    ensures
        match r {
            Ok(v) => v@.len() == 26 && forall|i: int|
                0 <= i < 26 ==> (#[trigger] v@[i])@.len() > 0 && stands_for(llm, prompts::letter(i), v@[i]@),
            Err(FrameError::Letter(c)) => stands_for(llm, c, Seq::empty()) && exists|i: int|
                0 <= i < 26 && c == #[trigger] prompts::letter(i),
            Err(_) => false,
        },
{
    let mut r: Vec<Vec<i32>> = Vec::new();
    let mut i: usize = 0;
    while i < 26
        invariant
            i <= 26,
            r@.len() == i,
            forall|k: int|
                0 <= k < i ==> (#[trigger] r@[k])@.len() > 0 && stands_for(llm, prompts::letter(k), r@[k]@),
        decreases 26 - i,
    {
        let c: char = prompts::letter_of(i);
        let ids: Vec<i32> = tokenize_forms(llm, c);
        if ids.len() == 0 {
            assert(c == prompts::letter(i as int));
            assert(ids@ =~= Seq::empty());
            return Err(FrameError::Letter(c));
        }
        r.push(ids);
        i += 1;
    }
    Ok(r)
}

/// Where a message stops being the same for all questions, or for all states.
pub open spec fn stop_at(msg: Seq<char>, layout: Layout, q: Question, s: Seq<prompts::SlotView>) -> Option<int> {
    if layout == Layout::Catalog {
        first_at(msg, "\nSTATE\n"@)
    } else {
        last_at(msg, text::joined(prompts::block(q, s), "\n"@))
    }
}

/// The first place where `p` stands in `s`.
pub open spec fn first_at(s: Seq<char>, p: Seq<char>) -> Option<int> {
    if text::holds(s, p) {
        Some(choose|i: int| is_first(s, p, i))
    } else {
        None
    }
}

pub open spec fn is_first(s: Seq<char>, p: Seq<char>, i: int) -> bool {
    text::stands_at(s, p, i) && forall|j: int| 0 <= j < i ==> !#[trigger] text::stands_at(s, p, j)
}

/// The last place where `p` stands in `s`.
pub open spec fn last_at(s: Seq<char>, p: Seq<char>) -> Option<int> {
    if text::holds(s, p) {
        Some(choose|i: int| is_last(s, p, i))
    } else {
        None
    }
}

pub open spec fn is_last(s: Seq<char>, p: Seq<char>, i: int) -> bool {
    text::stands_at(s, p, i) && forall|j: int| i < j ==> !#[trigger] text::stands_at(s, p, j)
}

proof fn lemma_first(s: Seq<char>, p: Seq<char>, i: int)
    requires
        is_first(s, p, i),
    ensures
        first_at(s, p) == Some(i),
{
    let j = choose|j: int| is_first(s, p, j);
    if i < j {
        assert(!text::stands_at(s, p, i));
    } else if j < i {
        assert(!text::stands_at(s, p, j));
    }
}

proof fn lemma_last(s: Seq<char>, p: Seq<char>, i: int)
    requires
        is_last(s, p, i),
    ensures
        last_at(s, p) == Some(i),
{
    let j = choose|j: int| is_last(s, p, j);
    if i < j {
        assert(!text::stands_at(s, p, j));
    } else if j < i {
        assert(!text::stands_at(s, p, i));
    }
}

/// The part of a message that does not depend on the state (catalog) or on the
/// question (the state first): the message truncated at its marker.
pub fn cacheable(msg: &str, layout: Layout, q: &Question, slots: &Vec<Slot>) -> (r: Option<String>)
    requires
        prompts::has_options(*q),
        slots@.len() <= 26,
    ensures
        match r {
            Some(t) => stop_at(msg@, layout, *q, prompts::slot_views(slots@)) == Some(t@.len() as int) && t@
                == msg@.take(t@.len() as int),
            None => stop_at(msg@, layout, *q, prompts::slot_views(slots@)) is None,
        },
{
    let m: Vec<char> = text::chars_of(msg);
    let at: Option<usize> = if layout == Layout::Catalog {
        let p: Vec<char> = text::chars_of("\nSTATE\n");
        let at: Option<usize> = text::find(m.as_slice(), p.as_slice());
        proof {
            if let Some(i) = at {
                lemma_first(msg@, "\nSTATE\n"@, i as int);
            }
        }
        at
    } else {
        let b: String = text::join(&prompts::question_block(q, slots), "\n");
        let p: Vec<char> = text::chars_of(b.as_str());
        let at: Option<usize> = text::rfind(m.as_slice(), p.as_slice());
        proof {
            if let Some(i) = at {
                lemma_last(msg@, b@, i as int);
            }
        }
        at
    };
    match at {
        Some(i) => {
            let head: &[char] = slice_subrange(m.as_slice(), 0, i);
            proof {
                assert(head@ =~= msg@.take(i as int));
            }
            Some(text::string_of(head))
        },
        None => None,
    }
}

/// The prefix that the first prompt shares with every other.
pub open spec fn shared_by_all(toks: Seq<Vec<i32>>, n: int) -> nat
    decreases n,
{
    if n <= 1 {
        0
    } else {
        let l = prefix::lcp(toks[0]@, toks[n - 1]@);
        if n == 2 || l < shared_by_all(toks, n - 1) {
            l
        } else {
            shared_by_all(toks, n - 1)
        }
    }
}

/// The prefix that all prompts share; 0 for a lone one.
pub fn shared_prefix(toks: &Vec<Vec<i32>>) -> (r: usize)
    ensures
        r == shared_by_all(toks@, toks@.len() as int),
{
    if toks.len() == 0 {
        return 0;
    }
    let mut r: usize = 0;
    let mut i: usize = 1;
    while i < toks.len()
        invariant
            1 <= i <= toks@.len(),
            r == shared_by_all(toks@, i as int),
        decreases toks@.len() - i,
    {
        let l: usize = prefix::common(toks[0].as_slice(), toks[i].as_slice());
        if i == 1 || l < r {
            r = l;
        }
        i += 1;
    }
    r
}

/// The length worth keeping of every prompt, where `s` of the first is
/// cacheable and all share `plen`.
pub fn keep_len(s: usize, plen: usize) -> (r: usize)
    ensures
        r == if plen > 0 && plen < s {
            plen
        } else {
            s
        },
{
    if plen > 0 && plen < s {
        plen
    } else {
        s
    }
}

/// Every prompt strictly extends the head.
pub open spec fn extend_head(toks: Seq<Vec<i32>>, head: Seq<i32>) -> bool {
    forall|i: int| 0 <= i < toks.len() ==> (#[trigger] toks[i])@.len() > head.len() && head.is_prefix_of(toks[i]@)
}

/// Tokens of the head that every prompt reuses: all of them or none.
pub fn head_used(toks: &Vec<Vec<i32>>, head: &Vec<i32>) -> (r: usize)
    ensures
        r == if extend_head(toks@, head@) {
            head@.len()
        } else {
            0
        },
{
    let mut i: usize = 0;
    while i < toks.len()
        invariant
            i <= toks@.len(),
            forall|k: int| 0 <= k < i ==> (#[trigger] toks@[k])@.len() > head@.len() && head@.is_prefix_of(toks@[k]@),
        decreases toks@.len() - i,
    {
        if toks[i].len() <= head.len() || !prefix::starts_with(toks[i].as_slice(), head.as_slice()) {
            assert(!extend_head(toks@, head@));
            return 0;
        }
        i += 1;
    }
    head.len()
}

} // verus!
