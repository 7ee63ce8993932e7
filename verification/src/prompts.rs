//! Prompt compilation: state + typed question -> one user message ending on a
//! letter slot.
use vstd::prelude::*;

use crate::schema::{Layout, QType, Question};
use crate::text;
use crate::value;
use crate::value::{Json, Value};

verus! {

pub const ABSTAIN: &'static str = "__abstain__";

pub const BELOW: &'static str = "__below__";

pub const ABOVE: &'static str = "__above__";

/// Bump when the prompt format changes: calibration files bind to it.
pub const PROMPT_VERSION: u32 = 4;

pub const SYSTEM: &'static str = "You are a decision engine. Given a state and a question, you evaluate the options and reply with only the letter of the best option. Never explain.";

pub const ABSTAIN_TEXT: &'static str = "None of the above / insufficient information in the state";

/// What a letter stands for.
pub struct Slot {
    /// external identifier echoed back in the answer
    pub key: String,
    /// description shown next to the letter
    pub text: String,
    /// abstain / out-of-range marker, not a real option
    pub special: bool,
}

/// What a slot says.
pub struct SlotView {
    pub key: Seq<char>,
    pub text: Seq<char>,
    pub special: bool,
}

impl View for Slot {
    type V = SlotView;

    open spec fn view(&self) -> SlotView {
        SlotView { key: self.key@, text: self.text@, special: self.special }
    }
}

pub open spec fn slot_views(s: Seq<Slot>) -> Seq<SlotView> {
    s.map_values(|x: Slot| x@)
}

pub open spec fn option(key: Seq<char>, shown: Seq<char>) -> SlotView {
    SlotView { key, text: shown, special: false }
}

pub open spec fn marker(key: Seq<char>, shown: Seq<char>) -> SlotView {
    SlotView { key, text: shown, special: true }
}

impl Slot {
    pub fn new(key: &str, shown: &str) -> (r: Slot)
        ensures
            r@ == option(key@, shown@),
    {
        Slot { key: key.to_owned(), text: shown.to_owned(), special: false }
    }

    pub fn special(key: &str, shown: &str) -> (r: Slot)
        ensures
            r@ == marker(key@, shown@),
    {
        Slot { key: key.to_owned(), text: shown.to_owned(), special: true }
    }
}

/// Choice option label: the description alone, the key where that is empty.
pub open spec fn label(key: Seq<char>, desc: Seq<char>) -> Seq<char> {
    if desc.len() == 0 {
        key
    } else {
        desc
    }
}

pub fn option_label(key: &str, desc: &str) -> (r: String)
    ensures
        r@ == label(key@, desc@),
{
    if desc.is_empty() {
        key.to_owned()
    } else {
        desc.to_owned()
    }
}

/// The options that a choice's criteria list: (key, description).
pub open spec fn options_of(c: Json) -> Seq<(Seq<char>, Seq<char>)> {
    match c {
        Json::Object(m) => m.map_values(|e: (Seq<char>, Json)| (e.0, value::shown(e.1))),
        Json::Array(a) => a.map_values(|j: Json| (value::shown(j), value::shown(j))),
        _ => Seq::empty(),
    }
}

/// The slots of a choice.
pub open spec fn choice_slots(c: Json) -> Seq<SlotView> {
    match c {
        Json::Object(m) => options_of(c).map_values(|o: (Seq<char>, Seq<char>)| option(o.0, label(o.0, o.1))),
        _ => options_of(c).map_values(|o: (Seq<char>, Seq<char>)| option(o.0, o.1)),
    }
}

/// The slots of a score: levels numbered from 0.
pub open spec fn score_slots(c: Json) -> Seq<SlotView> {
    match c {
        Json::Array(a) => Seq::new(a.len(), |i: int| option(text::digits(i as nat), value::shown(a[i]))),
        _ => Seq::empty(),
    }
}

/// The slots of a numeric question: below, the values, above.
pub open spec fn numeric_slots(min: Seq<char>, max: Seq<char>, anchors: Seq<Seq<char>>) -> Seq<SlotView> {
    seq![marker(BELOW@, "Below "@ + min)] + anchors.map_values(|a: Seq<char>| option(a, a)) + seq![
        marker(ABOVE@, "Above "@ + max),
    ]
}

/// The ordered letter slots of a question.
pub open spec fn slots_of(q: Question) -> Seq<SlotView> {
    let opts = match q.qtype {
        QType::Boolean | QType::Noul => seq![option("yes"@, "Yes"@), option("no"@, "No"@)],
        QType::Choice => choice_slots(q.criteria->0@),
        QType::Score => score_slots(q.criteria->0@),
        QType::Numeric => numeric_slots(q.min->0.text@, q.max->0.text@, text::views(q.anchors@)),
    };
    if q.allow_abstain {
        opts.push(marker(ABSTAIN@, ABSTAIN_TEXT@))
    } else {
        opts
    }
}

/// The question holds what its slots are made of.
pub open spec fn has_options(q: Question) -> bool {
    match q.qtype {
        QType::Choice | QType::Score => q.criteria is Some,
        QType::Numeric => q.min is Some && q.max is Some,
        _ => true,
    }
}

/// The options that a choice's criteria list: (key, description).
pub fn list_options(c: &Value) -> (r: Vec<(String, String)>)
    ensures
        r@.len() == options_of(c@).len(),
        forall|i: int| 0 <= i < r@.len() ==> ((#[trigger] r@[i]).0@, r@[i].1@) == options_of(c@)[i],
{
    let mut r: Vec<(String, String)> = Vec::new();
    match c {
        Value::Object(m) => {
            proof {
                value::lemma_fields(m@);
            }
            let mut i: usize = 0;
            while i < m.len()
                invariant
                    i <= m@.len(),
                    c@ == Json::Object(value::fields(m@)),
                    value::fields(m@).len() == m@.len(),
                    forall|k: int| 0 <= k < m@.len() ==> #[trigger] value::fields(m@)[k] == (m@[k].0@, value::json(m@[k].1)),
                    r@.len() == i,
                    forall|k: int| 0 <= k < i ==> ((#[trigger] r@[k]).0@, r@[k].1@) == options_of(c@)[k],
                decreases m@.len() - i,
            {
                proof {
                    assert(value::fields(m@)[i as int] == (m@[i as int].0@, value::json(m@[i as int].1)));
                }
                r.push((m[i].0.clone(), value::value_text(&m[i].1)));
                i += 1;
            }
        },
        Value::Array(a) => {
            proof {
                value::lemma_jsons(a@);
            }
            let mut i: usize = 0;
            while i < a.len()
                invariant
                    i <= a@.len(),
                    c@ == Json::Array(value::jsons(a@)),
                    value::jsons(a@).len() == a@.len(),
                    forall|k: int| 0 <= k < a@.len() ==> #[trigger] value::jsons(a@)[k] == value::json(a@[k]),
                    r@.len() == i,
                    forall|k: int| 0 <= k < i ==> ((#[trigger] r@[k]).0@, r@[k].1@) == options_of(c@)[k],
                decreases a@.len() - i,
            {
                proof {
                    assert(value::jsons(a@)[i as int] == value::json(a@[i as int]));
                }
                let t: String = value::value_text(&a[i]);
                r.push((t.clone(), t));
                i += 1;
            }
        },
        _ => {},
    }
    r
}

fn choice_list(c: &Value) -> (r: Vec<Slot>)
    ensures
        slot_views(r@) == choice_slots(c@),
{
    let opts: Vec<(String, String)> = list_options(c);
    let keyed: bool = match c {
        Value::Object(_) => true,
        _ => false,
    };
    let mut r: Vec<Slot> = Vec::new();
    let mut i: usize = 0;
    while i < opts.len()
        invariant
            i <= opts@.len(),
            opts@.len() == options_of(c@).len(),
            forall|k: int| 0 <= k < opts@.len() ==> ((#[trigger] opts@[k]).0@, opts@[k].1@) == options_of(c@)[k],
            keyed == (c@ is Object),
            r@.len() == i,
            forall|k: int| 0 <= k < i ==> (#[trigger] r@[k])@ == choice_slots(c@)[k],
        decreases opts@.len() - i,
    {
        let o: &(String, String) = &opts[i];
        proof {
            assert((opts@[i as int].0@, opts@[i as int].1@) == options_of(c@)[i as int]);
        }
        if keyed {
            let l: String = option_label(o.0.as_str(), o.1.as_str());
            r.push(Slot::new(o.0.as_str(), l.as_str()));
        } else {
            r.push(Slot::new(o.0.as_str(), o.1.as_str()));
        }
        i += 1;
    }
    proof {
        assert(slot_views(r@) =~= choice_slots(c@));
    }
    r
}

fn score_list(c: &Value) -> (r: Vec<Slot>)
    ensures
        slot_views(r@) == score_slots(c@),
{
    let mut r: Vec<Slot> = Vec::new();
    match c {
        Value::Array(a) => {
            proof {
                value::lemma_jsons(a@);
            }
            let mut i: usize = 0;
            while i < a.len()
                invariant
                    i <= a@.len(),
                    c@ == Json::Array(value::jsons(a@)),
                    value::jsons(a@).len() == a@.len(),
                    forall|k: int| 0 <= k < a@.len() ==> #[trigger] value::jsons(a@)[k] == value::json(a@[k]),
                    r@.len() == i,
                    forall|k: int| 0 <= k < i ==> (#[trigger] r@[k])@ == score_slots(c@)[k],
                decreases a@.len() - i,
            {
                proof {
                    assert(value::jsons(a@)[i as int] == value::json(a@[i as int]));
                }
                r.push(Slot::new(text::decimal(i as u64).as_str(), value::value_text(&a[i]).as_str()));
                i += 1;
            }
        },
        _ => {},
    }
    proof {
        assert(slot_views(r@) =~= score_slots(c@));
    }
    r
}

fn numeric_list(min: &str, max: &str, anchors: &Vec<String>) -> (r: Vec<Slot>)
    ensures
        slot_views(r@) == numeric_slots(min@, max@, text::views(anchors@)),
{
    let mut r: Vec<Slot> = Vec::new();
    r.push(Slot::special(BELOW, "Below ".to_owned().concat(min).as_str()));
    let ghost all = numeric_slots(min@, max@, text::views(anchors@));
    let mut i: usize = 0;
    while i < anchors.len()
        invariant
            i <= anchors@.len(),
            all == numeric_slots(min@, max@, text::views(anchors@)),
            r@.len() == i + 1,
            forall|k: int| 0 <= k < i + 1 ==> (#[trigger] r@[k])@ == all[k],
        decreases anchors@.len() - i,
    {
        proof {
            assert(text::views(anchors@)[i as int] == anchors@[i as int]@);
        }
        r.push(Slot::new(anchors[i].as_str(), anchors[i].as_str()));
        i += 1;
    }
    r.push(Slot::special(ABOVE, "Above ".to_owned().concat(max).as_str()));
    proof {
        assert(slot_views(r@) =~= all);
    }
    r
}

/// Map a typed question to ordered letter slots.
pub fn slots_for(q: &Question) -> (r: Vec<Slot>)
    requires
        has_options(*q),
    ensures
        slot_views(r@) == slots_of(*q),
{
    let mut opts: Vec<Slot> = match q.qtype {
        QType::Boolean | QType::Noul => {
            let mut v: Vec<Slot> = Vec::new();
            v.push(Slot::new("yes", "Yes"));
            v.push(Slot::new("no", "No"));
            proof {
                assert(slot_views(v@) =~= seq![option("yes"@, "Yes"@), option("no"@, "No"@)]);
            }
            v
        },
        QType::Choice => match &q.criteria {
            Some(c) => choice_list(c),
            None => Vec::new(),
        },
        QType::Score => match &q.criteria {
            Some(c) => score_list(c),
            None => Vec::new(),
        },
        QType::Numeric => match (&q.min, &q.max) {
            (Some(a), Some(b)) => numeric_list(a.text.as_str(), b.text.as_str(), &q.anchors),
            _ => Vec::new(),
        },
    };
    if q.allow_abstain {
        let ghost before = opts@;
        opts.push(Slot::special(ABSTAIN, ABSTAIN_TEXT));
        proof {
            assert(slot_views(opts@) =~= slot_views(before).push(marker(ABSTAIN@, ABSTAIN_TEXT@)));
        }
    }
    opts
}

/// The letter of slot `i`.
pub open spec fn letter(i: int) -> char {
    ('A' as u32 + i) as char
}

pub fn letter_of(i: usize) -> (c: char)
    requires
        i < 26,
    ensures
        c == letter(i as int),
{
    (65 + i as u8) as char
}

/// The option line of slot `i`.
pub open spec fn option_line(i: int, s: SlotView) -> Seq<char> {
    seq![letter(i)] + ") "@ + s.text
}

/// The option lines of slots.
pub open spec fn option_lines(s: Seq<SlotView>) -> Seq<Seq<char>> {
    Seq::new(s.len(), |i: int| option_line(i, s[i]))
}

/// How a numeric question says what to pick.
pub open spec fn range_line(min: Seq<char>, max: Seq<char>) -> Seq<char> {
    "Pick the closest value in range ["@ + min + ", "@ + max + "], or below/above the range."@
}

/// What the question's type adds to its instructions.
pub open spec fn type_lines(q: Question) -> Seq<Seq<char>> {
    match q.qtype {
        QType::Boolean | QType::Noul => seq!["Answer yes or no."@],
        QType::Numeric => seq![range_line(q.min->0.text@, q.max->0.text@)],
        _ => Seq::empty(),
    }
}

/// One line, unless it is empty.
pub open spec fn unless_empty(s: Seq<char>) -> Seq<Seq<char>> {
    if s.len() == 0 {
        Seq::empty()
    } else {
        seq![s]
    }
}

/// The QUESTION and OPTIONS block shared by every layout.
pub open spec fn block(q: Question, s: Seq<SlotView>) -> Seq<Seq<char>> {
    seq!["QUESTION"@] + unless_empty(q.instructions@) + type_lines(q) + seq![Seq::empty(), "OPTIONS"@] + option_lines(s)
}

/// Add the option lines of slots.
fn push_options(lines: &mut Vec<String>, slots: &Vec<Slot>)
    requires
        slots@.len() <= 26,
    ensures
        text::views(final(lines)@) == text::views(old(lines)@) + option_lines(slot_views(slots@)),
{
    let ghost before = text::views(lines@);
    let ghost all = option_lines(slot_views(slots@));
    let mut i: usize = 0;
    proof {
        assert(before =~= before + all.take(0));
    }
    while i < slots.len()
        invariant
            i <= slots@.len() <= 26,
            all == option_lines(slot_views(slots@)),
            text::views(lines@) == before + all.take(i as int),
        decreases slots@.len() - i,
    {
        let mut l: String = String::new();
        l.push(letter_of(i));
        l.append(") ");
        l.append(slots[i].text.as_str());
        proof {
            assert(l@ =~= option_line(i as int, slot_views(slots@)[i as int]));
        }
        push_line(lines, l.as_str());
        i += 1;
        proof {
            assert(text::views(lines@) =~= before + all.take(i as int));
        }
    }
    proof {
        assert(all.take(i as int) =~= all);
    }
}

/// Add one line.
pub fn push_line(lines: &mut Vec<String>, l: &str)
    ensures
        text::views(final(lines)@) == text::views(old(lines)@).push(l@),
{
    let ghost before = lines@;
    lines.push(l.to_owned());
    proof {
        assert(text::views(lines@) =~= text::views(before).push(l@));
    }
}

/// Add copies of lines.
pub fn push_lines(lines: &mut Vec<String>, more: &Vec<String>)
    ensures
        text::views(final(lines)@) == text::views(old(lines)@) + text::views(more@),
{
    let ghost before = text::views(lines@);
    let ghost all = text::views(more@);
    let mut i: usize = 0;
    proof {
        assert(before =~= before + all.take(0));
    }
    while i < more.len()
        invariant
            i <= more@.len(),
            all == text::views(more@),
            text::views(lines@) == before + all.take(i as int),
        decreases more@.len() - i,
    {
        push_line(lines, more[i].as_str());
        i += 1;
        proof {
            assert(text::views(lines@) =~= before + all.take(i as int));
        }
    }
    proof {
        assert(all.take(i as int) =~= all);
    }
}

fn range_text(min: &str, max: &str) -> (r: String)
    ensures
        r@ == range_line(min@, max@),
{
    "Pick the closest value in range [".to_owned().concat(min).concat(", ").concat(max).concat(
        "], or below/above the range.",
    )
}

/// The QUESTION + OPTIONS block shared by every layout.
pub fn question_block(q: &Question, slots: &Vec<Slot>) -> (r: Vec<String>)
    requires
        has_options(*q),
        slots@.len() <= 26,
    ensures
        text::views(r@) == block(*q, slot_views(slots@)),
{
    let mut lines: Vec<String> = Vec::new();
    proof {
        assert(text::views(lines@) =~= Seq::empty());
    }
    push_line(&mut lines, "QUESTION");
    if !q.instructions.as_str().is_empty() {
        push_line(&mut lines, q.instructions.as_str());
    }
    match q.qtype {
        QType::Boolean | QType::Noul => {
            push_line(&mut lines, "Answer yes or no.");
        },
        QType::Numeric => {
            if let (Some(a), Some(b)) = (&q.min, &q.max) {
                push_line(&mut lines, range_text(a.text.as_str(), b.text.as_str()).as_str());
            }
        },
        _ => {},
    }
    let empty: String = String::new();
    push_line(&mut lines, empty.as_str());
    push_line(&mut lines, "OPTIONS");
    push_options(&mut lines, slots);
    proof {
        assert(text::views(lines@) =~= block(*q, slot_views(slots@)));
    }
    lines
}

/// How instructions follow a name.
pub open spec fn dashed(name: Seq<char>, instructions: Seq<char>) -> Seq<char> {
    if instructions.len() == 0 {
        name
    } else {
        name + " — "@ + instructions
    }
}

/// The catalog entry of question `i`: its number, name and instructions.
pub open spec fn entry_lines(i: int, name: Seq<char>, q: Question) -> Seq<Seq<char>> {
    let head = text::digits((i + 1) as nat) + ") "@ + dashed(name, q.instructions@);
    if q.qtype == QType::Numeric {
        seq![head, "   "@ + range_line(q.min->0.text@, q.max->0.text@)]
    } else {
        seq![head]
    }
}

/// One entry of the QUESTIONS catalog: the numbered question. Options live in
/// the item tail instead: letters read most reliably right next to the answer
/// position.
pub fn catalog_entry(i: usize, name: &str, q: &Question) -> (r: Vec<String>)
    requires
        has_options(*q),
        i < usize::MAX,
    ensures
        text::views(r@) == entry_lines(i as int, name@, *q),
{
    let mut head: String = text::decimal((i + 1) as u64);
    head.append(") ");
    head.append(name);
    if !q.instructions.as_str().is_empty() {
        head.append(" — ");
        head.append(q.instructions.as_str());
    }
    let mut lines: Vec<String> = Vec::new();
    proof {
        assert(text::views(lines@) =~= Seq::empty());
        assert(head@ =~= text::digits((i + 1) as nat) + ") "@ + dashed(name@, q.instructions@));
    }
    push_line(&mut lines, head.as_str());
    if q.qtype == QType::Numeric {
        if let (Some(a), Some(b)) = (&q.min, &q.max) {
            let l: String = "   ".to_owned().concat(range_text(a.text.as_str(), b.text.as_str()).as_str());
            push_line(&mut lines, l.as_str());
        }
    }
    proof {
        assert(text::views(lines@) =~= entry_lines(i as int, name@, *q));
    }
    lines
}

/// What the catalog asks of the model.
pub const CATALOG_CUE: &'static str = "You will be asked each of these questions about the state below, one at a time, by number. Read the state with all of them in mind.";

/// What the header asks of the model.
pub const HEADER_CUE: &'static str = "You will be asked each of these questions about the state below, one at a time. Read the state with all of them in mind.";

/// What every message ends on.
pub const REPLY_CUE: &'static str = "Reply with one letter only.";

/// Everything of a catalog message up to the state.
pub open spec fn catalog_head(cat: Seq<Seq<char>>) -> Seq<Seq<char>> {
    seq!["QUESTIONS"@, CATALOG_CUE@] + cat + seq![Seq::empty()]
}

/// What follows the state in a catalog message.
pub open spec fn catalog_tail(idx: int, name: Seq<char>, s: Seq<SlotView>) -> Seq<Seq<char>> {
    seq![
        Seq::empty(),
        "QUESTION "@ + text::digits((idx + 1) as nat) + " — "@ + name,
        Seq::empty(),
        "OPTIONS"@,
    ] + option_lines(s) + seq![Seq::empty(), REPLY_CUE@]
}

/// The lines of a catalog message.
pub open spec fn catalog_lines(cat: Seq<Seq<char>>, state: Seq<char>, idx: int, name: Seq<char>, s: Seq<SlotView>) -> Seq<Seq<char>> {
    catalog_head(cat) + seq!["STATE"@, state] + catalog_tail(idx, name, s)
}

/// Catalog layout: the question set sits before the state so the model reads
/// it with all questions in view; the tail carries the name pointer and the
/// OPTIONS block right at the answer position.
pub fn catalog_message(cat: &Vec<String>, state: &str, idx: usize, name: &str, slots: &Vec<Slot>) -> (r: String)
    requires
        slots@.len() <= 26,
        idx < usize::MAX,
    ensures
        r@ == text::joined(
            catalog_lines(text::views(cat@), state@, idx as int, name@, slot_views(slots@)),
            "\n"@,
        ),
{
    let empty: String = String::new();
    let mut lines: Vec<String> = Vec::new();
    proof {
        assert(text::views(lines@) =~= Seq::empty());
    }
    push_line(&mut lines, "QUESTIONS");
    push_line(&mut lines, CATALOG_CUE);
    push_lines(&mut lines, cat);
    push_line(&mut lines, empty.as_str());
    push_line(&mut lines, "STATE");
    push_line(&mut lines, state);
    push_line(&mut lines, empty.as_str());
    let at: String = "QUESTION ".to_owned().concat(text::decimal((idx + 1) as u64).as_str()).concat(" — ").concat(name);
    push_line(&mut lines, at.as_str());
    push_line(&mut lines, empty.as_str());
    push_line(&mut lines, "OPTIONS");
    push_options(&mut lines, slots);
    push_line(&mut lines, empty.as_str());
    push_line(&mut lines, REPLY_CUE);
    proof {
        assert(text::views(lines@) =~= catalog_lines(
            text::views(cat@),
            state@,
            idx as int,
            name@,
            slot_views(slots@),
        ));
    }
    text::join(&lines, "\n")
}

/// The lines of a message up to the question block, in the layouts that put
/// the state first.
pub open spec fn state_head(state: Seq<char>, layout: Layout, preamble: Seq<Seq<char>>) -> Seq<Seq<char>> {
    if layout == Layout::Header {
        seq!["QUESTIONS"@, HEADER_CUE@] + preamble + seq![Seq::empty(), "STATE"@, state, Seq::empty()]
    } else {
        seq!["STATE"@, state, Seq::empty()]
    }
}

/// The lines of a message in any layout but the catalog.
pub open spec fn message_lines(state: Seq<char>, q: Question, s: Seq<SlotView>, layout: Layout, preamble: Seq<Seq<char>>) -> Seq<Seq<char>> {
    let body = if layout == Layout::QuestionFirst {
        block(q, s) + seq![Seq::empty(), "STATE"@, state]
    } else {
        state_head(state, layout, preamble) + block(q, s)
    };
    body + seq![Seq::empty(), REPLY_CUE@]
}

/// `preamble` lists every question of the request as written and is only used by
/// `Layout::Header`: the state is then encoded with all of them in view while
/// staying a single shared prefix.
pub fn user_message(state: &str, q: &Question, slots: &Vec<Slot>, layout: Layout, preamble: &Vec<String>) -> (r: String)
    requires
        has_options(*q),
        slots@.len() <= 26,
    ensures
        r@ == text::joined(message_lines(state@, *q, slot_views(slots@), layout, text::views(preamble@)), "\n"@),
{
    let qblock: Vec<String> = question_block(q, slots);
    let empty: String = String::new();
    let mut lines: Vec<String> = Vec::new();
    proof {
        assert(text::views(lines@) =~= Seq::empty());
    }
    match layout {
        Layout::QuestionFirst => {
            push_lines(&mut lines, &qblock);
            push_line(&mut lines, empty.as_str());
            push_line(&mut lines, "STATE");
            push_line(&mut lines, state);
        },
        Layout::Header => {
            push_line(&mut lines, "QUESTIONS");
            push_line(&mut lines, HEADER_CUE);
            push_lines(&mut lines, preamble);
            push_line(&mut lines, empty.as_str());
            push_line(&mut lines, "STATE");
            push_line(&mut lines, state);
            push_line(&mut lines, empty.as_str());
            push_lines(&mut lines, &qblock);
        },
        _ => {
            push_line(&mut lines, "STATE");
            push_line(&mut lines, state);
            push_line(&mut lines, empty.as_str());
            push_lines(&mut lines, &qblock);
        },
    }
    push_line(&mut lines, empty.as_str());
    push_line(&mut lines, REPLY_CUE);
    proof {
        assert(text::views(lines@) =~= message_lines(
            state@,
            *q,
            slot_views(slots@),
            layout,
            text::views(preamble@),
        ));
    }
    text::join(&lines, "\n")
}

/// A message whose last line is the cue to reply.
pub open spec fn ends_on_cue(m: Seq<char>) -> bool {
    let cue = "\n"@ + REPLY_CUE@;
    cue.len() <= m.len() && m.skip(m.len() - cue.len()) == cue
}

pub proof fn lemma_cue(lines: Seq<Seq<char>>)
    requires
        lines.len() > 1,
        lines.last() == REPLY_CUE@,
    ensures
        ends_on_cue(text::joined(lines, "\n"@)),
{
    let (cue, d) = ("\n"@ + REPLY_CUE@, lines.drop_last());
    assert(lines =~= d + seq![REPLY_CUE@]);
    text::lemma_joined(d, seq![REPLY_CUE@], "\n"@);
    let m = text::joined(lines, "\n"@);
    assert(text::joined(seq![REPLY_CUE@], "\n"@) =~= REPLY_CUE@);
    assert(m =~= text::joined(d, "\n"@) + cue);
    assert(m.skip(m.len() - cue.len()) =~= cue);
}

pub proof fn lemma_message_cue(state: Seq<char>, q: Question, s: Seq<SlotView>, layout: Layout, preamble: Seq<Seq<char>>)
    ensures
        message_lines(state, q, s, layout, preamble).len() > 1,
        message_lines(state, q, s, layout, preamble).last() == REPLY_CUE@,
{
}

pub proof fn lemma_catalog_cue(cat: Seq<Seq<char>>, state: Seq<char>, idx: int, name: Seq<char>, s: Seq<SlotView>)
    ensures
        catalog_lines(cat, state, idx, name, s).len() > 1,
        catalog_lines(cat, state, idx, name, s).last() == REPLY_CUE@,
{
}

/// The text that a question's messages start with, whatever the state, where
/// the question comes first.
pub open spec fn question_head(q: Question, s: Seq<SlotView>) -> Seq<char> {
    text::joined(block(q, s) + seq![Seq::empty(), "STATE"@], "\n"@) + "\n"@
}

/// A question that comes first reads the same over every state.
pub proof fn law_question_is_shared(q: Question, s: Seq<SlotView>, state: Seq<char>)
    ensures
        question_head(q, s).is_prefix_of(
            text::joined(message_lines(state, q, s, Layout::QuestionFirst, Seq::empty()), "\n"@),
        ),
{
    let h = block(q, s) + seq![Seq::empty(), "STATE"@];
    let t = seq![state, Seq::empty(), REPLY_CUE@];
    text::lemma_joined(h, t, "\n"@);
    assert(h + t =~= message_lines(state, q, s, Layout::QuestionFirst, Seq::empty()));
    let m = text::joined(h + t, "\n"@);
    let p = question_head(q, s);
    assert(m =~= p + text::joined(t, "\n"@));
    assert(p =~= m.subrange(0, p.len() as int));
}

/// A catalog reads the same over every state and for every question of it.
pub proof fn law_catalog_is_shared(cat: Seq<Seq<char>>, state: Seq<char>, idx: int, name: Seq<char>, s: Seq<SlotView>)
    ensures
        (text::joined(catalog_head(cat), "\n"@) + "\n"@).is_prefix_of(
            text::joined(catalog_lines(cat, state, idx, name, s), "\n"@),
        ),
{
    let h = catalog_head(cat);
    let t = seq!["STATE"@, state] + catalog_tail(idx, name, s);
    text::lemma_joined(h, t, "\n"@);
    assert(h + t =~= catalog_lines(cat, state, idx, name, s));
    let m = text::joined(h + t, "\n"@);
    let p = text::joined(h, "\n"@) + "\n"@;
    assert(m =~= p + text::joined(t, "\n"@));
    assert(p =~= m.subrange(0, p.len() as int));
}

} // verus!
