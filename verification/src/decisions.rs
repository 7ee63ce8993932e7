//! Decoding: probabilities read at the letters -> typed answers.
//!
//! Probabilities and what is computed from them are numbers held by their bits
//! or by the text they print as; deciding what they mean is done here.
use vstd::prelude::*;

use crate::num;
use crate::prompts;
use crate::prompts::{Slot, SlotView, ABOVE, ABSTAIN, BELOW};
use crate::schema::{QType, Question};
use crate::text;
use crate::value;
use crate::value::{Json, Value};

verus! {

/// What was read at the letters of one question.
pub struct Reading {
    /// probability of every slot, as the bits of a number
    pub probs: Vec<u64>,
    /// the same, as they are reported
    pub shown: Vec<String>,
    /// the two best lie closer than the gap that decides
    pub close: bool,
    /// how far the best is above an even share, as it is reported
    pub confidence: String,
    /// the mean level, from 0 to 1, as it is reported
    pub score: String,
    /// the mean of the values offered, as it is reported; none where they have
    /// no mass
    pub value: Option<String>,
}

impl Reading {
    /// One probability for every slot.
    pub open spec fn covers(&self, slots: Seq<SlotView>) -> bool {
        self.probs@.len() == slots.len() && self.shown@.len() == slots.len() && slots.len() > 0
    }
}

/// The member `(k, j)`.
pub open spec fn pair(k: Seq<char>, j: Json) -> (Seq<char>, Json) {
    (k, j)
}

/// Which slots a map of probabilities lists.
pub enum Listed {
    /// options, and the abstain marker
    Options,
    /// options by their text
    Levels,
    /// out-of-range markers
    Bounds,
}

pub open spec fn listed(l: Listed, s: SlotView) -> bool {
    match l {
        Listed::Options => !s.special || s.key == ABSTAIN@,
        Listed::Levels => !s.special,
        Listed::Bounds => s.key == BELOW@ || s.key == ABOVE@,
    }
}

/// The name a slot is listed under.
pub open spec fn listed_as(l: Listed, s: SlotView) -> Seq<char> {
    match l {
        Listed::Levels => s.text,
        _ => s.key,
    }
}

/// `m` with the probabilities of the slots that are listed.
pub open spec fn masses(m: Seq<(Seq<char>, Json)>, l: Listed, s: Seq<SlotView>, shown: Seq<Seq<char>>) -> Seq<(Seq<char>, Json)>
    decreases s.len(),
{
    if s.len() == 0 {
        m
    } else {
        let before = masses(m, l, s.drop_last(), shown);
        if listed(l, s.last()) {
            value::with(before, listed_as(l, s.last()), Json::Number(shown[s.len() - 1]))
        } else {
            before
        }
    }
}

/// The status of an answer, by the slot that won.
pub open spec fn status_of(best: SlotView, close: bool) -> Seq<char> {
    if best.key == ABSTAIN@ {
        "abstained"@
    } else if best.key == BELOW@ || best.key == ABOVE@ {
        "out_of_bounds"@
    } else if close {
        "contested"@
    } else {
        "decided"@
    }
}

/// The probability of the slot named `k`, the last of them; 0 where there is
/// none.
pub open spec fn prob_of(s: Seq<SlotView>, probs: Seq<u64>, k: Seq<char>) -> u64
    decreases s.len(),
{
    if s.len() == 0 {
        0
    } else if s.last().key == k {
        probs[s.len() - 1]
    } else {
        prob_of(s.drop_last(), probs, k)
    }
}

/// The level that a slot's key numbers.
pub open spec fn level_of(best: SlotView) -> Json {
    if best.special {
        Json::Null
    } else {
        match text::integer(best.key) {
            Some(n) => if i64::MIN <= n <= i64::MAX {
                Json::Number(text::integer_text(n))
            } else {
                Json::Null
            },
            None => Json::Null,
        }
    }
}

/// The answer to a question.
pub open spec fn answer_of(q: Question, s: Seq<SlotView>, r: Reading) -> Json {
    let best = s[num::best_at(r.probs@)];
    let shown = text::views(r.shown@);
    let options = masses(Seq::empty(), Listed::Options, s, shown);
    let status = pair("status"@, Json::Str(status_of(best, r.close)));
    let confidence = pair("confidence"@, Json::Number(r.confidence@));
    match q.qtype {
        QType::Boolean | QType::Noul => {
            let yes = num::le(prob_of(s, r.probs@, "no"@), prob_of(s, r.probs@, "yes"@));
            Json::Object(
                seq![
                    status,
                    pair("probabilities"@, Json::Object(options)),
                    confidence,
                    pair("boolean"@, Json::Bool(yes)),
                    pair(
                        "choice"@,
                        Json::Str(
                            if yes {
                                "yes"@
                            } else {
                                "no"@
                            },
                        ),
                    ),
                ],
            )
        },
        QType::Choice => Json::Object(
            seq![
                status,
                pair("probabilities"@, Json::Object(options)),
                confidence,
                pair("choice"@, Json::Str(best.key)),
            ],
        ),
        QType::Score => Json::Object(
            seq![
                status,
                pair("probabilities"@, Json::Object(masses(Seq::empty(), Listed::Levels, s, shown))),
                confidence,
                pair("score"@, Json::Number(r.score@)),
                pair("level"@, level_of(best)),
            ],
        ),
        QType::Numeric => Json::Object(
            seq![
                status,
                pair("probabilities"@, Json::Object(masses(options, Listed::Bounds, s, shown))),
                confidence,
                pair(
                    "value"@,
                    match r.value {
                        Some(v) => Json::Number(v@),
                        None => Json::Null,
                    },
                ),
            ],
        ),
    }
}

/// Every answer states what it is worth, and is one of the things that were
/// asked for: an option of a choice, yes or no to a question that it agrees
/// with. It abstained just where that option won.
pub proof fn law_answer(q: Question, s: Seq<SlotView>, r: Reading)
    requires
        r.covers(s),
    ensures
        ({
            let a = answer_of(q, s, r);
            let best = s[num::best_at(r.probs@)];
            &&& s.contains(best)
            &&& value::index(a, "status"@) == Json::Str(status_of(best, r.close))
            &&& value::index(a, "confidence"@) == Json::Number(r.confidence@)
            &&& value::index(a, "status"@) == Json::Str("abstained"@) <==> best.key == ABSTAIN@
            &&& q.qtype == QType::Choice ==> value::index(a, "choice"@) == Json::Str(best.key)
            &&& q.qtype == QType::Boolean || q.qtype == QType::Noul ==> {
                ||| value::index(a, "boolean"@) == Json::Bool(true) && value::index(a, "choice"@) == Json::Str("yes"@)
                ||| value::index(a, "boolean"@) == Json::Bool(false) && value::index(a, "choice"@) == Json::Str("no"@)
            }
        }),
{
    let m = answer_of(q, s, r)->Object_0;
    let best = s[num::best_at(r.probs@)];
    num::law_best(r.probs@);
    assert(s[num::best_at(r.probs@)] == best);
    reveal_strlit("status");
    reveal_strlit("probabilities");
    reveal_strlit("confidence");
    reveal_strlit("boolean");
    reveal_strlit("choice");
    reveal_strlit("abstained");
    reveal_strlit("out_of_bounds");
    reveal_strlit("contested");
    reveal_strlit("decided");
    assert("status"@[0] == 's' && "probabilities"@[0] == 'p' && "confidence"@[0] == 'c' && "boolean"@[0] == 'b');
    assert("choice"@[0] == 'c' && "choice"@[1] == 'h' && "confidence"@[1] == 'o');
    assert("abstained"@[0] == 'a' && "out_of_bounds"@[0] == 'o' && "contested"@[0] == 'c' && "decided"@[0] == 'd');
    value::lemma_is_place(m, "status"@, 0);
    value::lemma_is_place(m, "confidence"@, 2);
    match q.qtype {
        QType::Choice => {
            value::lemma_is_place(m, "choice"@, 3);
        },
        QType::Boolean | QType::Noul => {
            value::lemma_is_place(m, "boolean"@, 3);
            value::lemma_is_place(m, "choice"@, 4);
        },
        _ => {},
    }
}

/// Setting the masses of slots keeps names distinct; the last slot of a name
/// that is listed has its mass there.
proof fn lemma_listed(m: Seq<(Seq<char>, Json)>, l: Listed, s: Seq<SlotView>, shown: Seq<Seq<char>>, y: int)
    requires
        value::distinct(m),
        0 <= y < s.len(),
        listed(l, s[y]),
        forall|j: int| y < j < s.len() && listed(l, #[trigger] s[j]) ==> listed_as(l, s[j]) != listed_as(l, s[y]),
    ensures
        value::distinct(masses(m, l, s, shown)),
        value::member(masses(m, l, s, shown), listed_as(l, s[y])) == Some(Json::Number(shown[y])),
    decreases s.len(),
{
    let d = s.drop_last();
    let before = masses(m, l, d, shown);
    if y == s.len() - 1 {
        lemma_unlisted(m, l, d, shown);
    } else {
        assert(d[y] == s[y]);
        lemma_listed(m, l, d, shown, y);
    }
    if listed(l, s.last()) {
        value::law_with(before, listed_as(l, s.last()), Json::Number(shown[s.len() - 1]));
    }
}

/// No name is listed but those of the slots to list.
proof fn lemma_unlisted(m: Seq<(Seq<char>, Json)>, l: Listed, s: Seq<SlotView>, shown: Seq<Seq<char>>)
    requires
        value::distinct(m),
    ensures
        value::distinct(masses(m, l, s, shown)),
        forall|k: Seq<char>|
            (forall|j: int| 0 <= j < s.len() && listed(l, #[trigger] s[j]) ==> listed_as(l, s[j]) != k)
                ==> #[trigger] value::member(masses(m, l, s, shown), k) == value::member(m, k),
    decreases s.len(),
{
    if s.len() > 0 {
        let d = s.drop_last();
        let before = masses(m, l, d, shown);
        lemma_unlisted(m, l, d, shown);
        if listed(l, s.last()) {
            value::law_with(before, listed_as(l, s.last()), Json::Number(shown[s.len() - 1]));
        }
        assert forall|k: Seq<char>|
            (forall|j: int| 0 <= j < s.len() && listed(l, #[trigger] s[j]) ==> listed_as(l, s[j]) != k) implies #[trigger] value::member(
            masses(m, l, s, shown),
            k,
        ) == value::member(m, k) by {
            assert forall|j: int| 0 <= j < d.len() && listed(l, #[trigger] d[j]) implies listed_as(l, d[j]) != k by {
                assert(d[j] == s[j]);
            }
            assert(value::member(before, k) == value::member(m, k));
            assert(s[s.len() - 1] == s.last());
        }
    }
}

/// The members of an answer, by the names that answers use.
proof fn lemma_members(q: Question, s: Seq<SlotView>, r: Reading)
    ensures
        ({
            let a = answer_of(q, s, r);
            let best = s[num::best_at(r.probs@)];
            let shown = text::views(r.shown@);
            let options = masses(Seq::empty(), Listed::Options, s, shown);
            &&& a is Object
            &&& value::distinct(a->Object_0)
            &&& value::member(a->Object_0, "coverage"@) is None
            &&& value::index(a, "probabilities"@) == Json::Object(
                match q.qtype {
                    QType::Score => masses(Seq::empty(), Listed::Levels, s, shown),
                    QType::Numeric => masses(options, Listed::Bounds, s, shown),
                    _ => options,
                },
            )
            &&& q.qtype == QType::Score ==> value::index(a, "score"@) == Json::Number(r.score@) && value::index(
                a,
                "level"@,
            ) == level_of(best)
            &&& q.qtype == QType::Numeric ==> value::index(a, "value"@) == match r.value {
                Some(v) => Json::Number(v@),
                None => Json::Null,
            }
            &&& q.qtype == QType::Boolean || q.qtype == QType::Noul ==> value::index(a, "boolean"@) == Json::Bool(
                num::le(prob_of(s, r.probs@, "no"@), prob_of(s, r.probs@, "yes"@)),
            )
        }),
{
    let m = answer_of(q, s, r)->Object_0;
    reveal_strlit("status");
    reveal_strlit("probabilities");
    reveal_strlit("confidence");
    reveal_strlit("boolean");
    reveal_strlit("choice");
    reveal_strlit("score");
    reveal_strlit("level");
    reveal_strlit("value");
    reveal_strlit("coverage");
    assert("status"@.len() == 6 && "probabilities"@.len() == 13 && "confidence"@.len() == 10 && "boolean"@.len() == 7);
    assert("choice"@.len() == 6 && "choice"@[0] == 'c' && "status"@[0] == 's');
    assert("score"@.len() == 5 && "level"@.len() == 5 && "value"@.len() == 5 && "coverage"@.len() == 8);
    assert("score"@[0] == 's' && "level"@[0] == 'l' && "value"@[0] == 'v');
    value::lemma_place(m, "coverage"@);
    value::lemma_is_place(m, "probabilities"@, 1);
    match q.qtype {
        QType::Score => {
            value::lemma_is_place(m, "score"@, 3);
            value::lemma_is_place(m, "level"@, 4);
        },
        QType::Numeric => {
            value::lemma_is_place(m, "value"@, 3);
        },
        QType::Boolean | QType::Noul => {
            value::lemma_is_place(m, "boolean"@, 3);
        },
        QType::Choice => {},
    }
}

/// What is reported of a slot's probability is what was read at that slot:
/// under its key, or under its text where it is a level. Options and abstention
/// are reported, and where a range is asked for, what lies out of it. Nothing
/// else is.
pub proof fn law_probabilities(q: Question, s: Seq<SlotView>, r: Reading, y: int)
    requires
        r.covers(s),
        0 <= y < s.len(),
        forall|j: int| y < j < s.len() ==> (#[trigger] s[j]).key != s[y].key,
        q.qtype == QType::Score ==> forall|j: int| y < j < s.len() ==> (#[trigger] s[j]).text != s[y].text,
    ensures
        ({
            let p = value::index(answer_of(q, s, r), "probabilities"@);
            let read = Json::Number(r.shown@[y]@);
            &&& q.qtype != QType::Score && !s[y].special ==> value::index(p, s[y].key) == read
            &&& q.qtype != QType::Score && s[y].key == ABSTAIN@ ==> value::index(p, s[y].key) == read
            &&& q.qtype == QType::Numeric && s[y].key == BELOW@ ==> value::index(p, s[y].key) == read
            &&& q.qtype == QType::Numeric && s[y].key == ABOVE@ ==> value::index(p, s[y].key) == read
            &&& q.qtype == QType::Score && !s[y].special ==> value::index(p, s[y].text) == read
            &&& forall|k: Seq<char>|
                value::index(p, k) != Json::Null ==> exists|j: int|
                    0 <= j < s.len() && ((#[trigger] s[j]).key == k || (q.qtype == QType::Score && s[j].text == k))
        }),
{
    let shown = text::views(r.shown@);
    let none = Seq::<(Seq<char>, Json)>::empty();
    let p = value::index(answer_of(q, s, r), "probabilities"@);
    lemma_members(q, s, r);
    assert(shown[y] == r.shown@[y]@);
    let options = masses(none, Listed::Options, s, shown);
    lemma_unlisted(none, Listed::Options, s, shown);
    lemma_unlisted(none, Listed::Levels, s, shown);
    lemma_unlisted(options, Listed::Bounds, s, shown);
    if q.qtype == QType::Score {
        if !s[y].special {
            lemma_listed(none, Listed::Levels, s, shown, y);
        }
    } else {
        if listed(Listed::Options, s[y]) {
            lemma_listed(none, Listed::Options, s, shown, y);
        }
        if q.qtype == QType::Numeric {
            if listed(Listed::Bounds, s[y]) {
                lemma_listed(options, Listed::Bounds, s, shown, y);
            } else {
                assert(value::member(masses(options, Listed::Bounds, s, shown), s[y].key) == value::member(
                    options,
                    s[y].key,
                ));
            }
        }
    }
    assert forall|k: Seq<char>| value::index(p, k) != Json::Null implies exists|j: int|
        0 <= j < s.len() && ((#[trigger] s[j]).key == k || (q.qtype == QType::Score && s[j].text == k)) by {
        if forall|j: int| 0 <= j < s.len() ==> !((#[trigger] s[j]).key == k || (q.qtype == QType::Score && s[j].text == k)) {
            assert(value::member(none, k) is None);
            assert(value::member(masses(none, Listed::Options, s, shown), k) == value::member(none, k));
            assert(q.qtype == QType::Score ==> value::member(masses(none, Listed::Levels, s, shown), k) == value::member(none, k));
            assert(value::member(masses(options, Listed::Bounds, s, shown), k) == value::member(options, k));
        }
    }
}

/// What an answer is worth, by the slot that won: that it abstained or ran out
/// of bounds is said before how close it was.
pub proof fn law_status(q: Question, s: Seq<SlotView>, r: Reading, i: int)
    requires
        r.covers(s),
        num::is_best(r.probs@, i),
    ensures
        ({
            let status = value::index(answer_of(q, s, r), "status"@);
            let marked = s[i].key == ABSTAIN@ || s[i].key == BELOW@ || s[i].key == ABOVE@;
            &&& s[i].key == ABSTAIN@ ==> status == Json::Str("abstained"@)
            &&& s[i].key == BELOW@ || s[i].key == ABOVE@ ==> status == Json::Str("out_of_bounds"@)
            &&& !marked && r.close ==> status == Json::Str("contested"@)
            &&& !marked && !r.close ==> status == Json::Str("decided"@)
        }),
{
    law_answer(q, s, r);
    num::law_best(r.probs@);
    reveal_strlit("__abstain__");
    reveal_strlit("__below__");
    reveal_strlit("__above__");
    assert("__abstain__"@.len() == 11 && "__below__"@.len() == 9 && "__above__"@.len() == 9);
}

/// Yes or no goes to whichever was read more probable, a tie to yes.
pub proof fn law_yes_or_no(q: Question, r: Reading)
    requires
        q.qtype == QType::Boolean || q.qtype == QType::Noul,
        r.covers(prompts::slots_of(q)),
        !num::nan(r.probs@[0]),
        !num::nan(r.probs@[1]),
    ensures
        ({
            let s = prompts::slots_of(q);
            let a = answer_of(q, s, r);
            &&& s[0].key == "yes"@ && s[1].key == "no"@
            &&& value::index(a, "boolean"@) == Json::Bool(num::rank(r.probs@[0]) >= num::rank(r.probs@[1]))
            &&& value::index(value::index(a, "probabilities"@), "yes"@) == Json::Number(r.shown@[0]@)
            &&& value::index(value::index(a, "probabilities"@), "no"@) == Json::Number(r.shown@[1]@)
        }),
{
    let s = prompts::slots_of(q);
    reveal_strlit("yes");
    reveal_strlit("no");
    reveal_strlit("__abstain__");
    assert("yes"@.len() == 3 && "no"@.len() == 2 && "__abstain__"@.len() == 11);
    lemma_members(q, s, r);
    let two = s.take(2);
    assert(two.drop_last() =~= s.take(1));
    assert(two.drop_last().drop_last() =~= Seq::empty());
    assert(two.last().key == "no"@);
    assert(s.take(1).last().key == "yes"@);
    assert(prob_of(two, r.probs@, "no"@) == r.probs@[1]);
    assert(prob_of(s.take(1), r.probs@, "yes"@) == r.probs@[0]);
    assert(prob_of(two, r.probs@, "yes"@) == r.probs@[0]);
    if s.len() == 3 {
        assert(s.drop_last() =~= two);
    } else {
        assert(s =~= two);
    }
    law_probabilities(q, s, r, 0);
    law_probabilities(q, s, r, 1);
}

/// A score is the mean level that was read, and its level the number of the
/// level that won; none where abstention won.
pub proof fn law_score(q: Question, r: Reading, i: int)
    requires
        q.qtype == QType::Score,
        q.criteria is Some,
        q.criteria->0@ is Array,
        r.covers(prompts::slots_of(q)),
        prompts::slots_of(q).len() <= 26,
        num::is_best(r.probs@, i),
    ensures
        ({
            let a = answer_of(q, prompts::slots_of(q), r);
            &&& value::index(a, "score"@) == Json::Number(r.score@)
            &&& value::index(a, "level"@) == if i < (q.criteria->0@->Array_0).len() {
                Json::Number(text::digits(i as nat))
            } else {
                Json::Null
            }
        }),
{
    let s = prompts::slots_of(q);
    lemma_members(q, s, r);
    num::law_best(r.probs@);
    if i < (q.criteria->0@->Array_0).len() {
        text::law_digits(i as nat);
        assert(s[i].key == text::digits(i as nat));
        assert(text::is_digit(s[i].key[0]));
        assert(text::integer(s[i].key) == Some(i));
    }
}

/// The value of a numeric answer is the mean of the values offered that was
/// read, null where they had no mass.
pub proof fn law_value(q: Question, s: Seq<SlotView>, r: Reading)
    requires
        q.qtype == QType::Numeric,
        r.covers(s),
    ensures
        r.value matches Some(v) ==> value::index(answer_of(q, s, r), "value"@) == Json::Number(v@),
        r.value is None ==> value::index(answer_of(q, s, r), "value"@) == Json::Null,
{
    lemma_members(q, s, r);
}

/// An answer's coverage is told beside it, and changes nothing else of it.
pub proof fn law_coverage(q: Question, s: Seq<SlotView>, r: Reading, coverage: Seq<char>)
    ensures
        ({
            let (a, b) = (answer_of(q, s, r), covered(answer_of(q, s, r), coverage));
            &&& value::index(b, "coverage"@) == Json::Number(coverage)
            &&& forall|k: Seq<char>| k != "coverage"@ ==> #[trigger] value::index(b, k) == value::index(a, k)
        }),
{
    lemma_members(q, s, r);
    value::law_with(answer_of(q, s, r)->Object_0, "coverage"@, Json::Number(coverage));
}

fn is_listed(l: &Listed, s: &Slot) -> (r: bool)
    ensures
        r == listed(*l, s@),
{
    match l {
        Listed::Options => !s.special || text::same(s.key.as_str(), ABSTAIN),
        Listed::Levels => !s.special,
        Listed::Bounds => text::same(s.key.as_str(), BELOW) || text::same(s.key.as_str(), ABOVE),
    }
}

/// Add the probabilities of the slots that are listed.
fn list_masses(m: &mut Vec<(String, Value)>, l: Listed, slots: &Vec<Slot>, shown: &Vec<String>)
    requires
        slots@.len() == shown@.len(),
    ensures
        value::fields(final(m)@) == masses(
            value::fields(old(m)@),
            l,
            prompts::slot_views(slots@),
            text::views(shown@),
        ),
{
    let ghost m0 = value::fields(m@);
    let ghost sv = prompts::slot_views(slots@);
    let ghost tv = text::views(shown@);
    let mut i: usize = 0;
    proof {
        assert(sv.take(0) =~= Seq::empty());
    }
    while i < slots.len()
        invariant
            i <= slots@.len(),
            slots@.len() == shown@.len(),
            sv == prompts::slot_views(slots@),
            tv == text::views(shown@),
            value::fields(m@) == masses(m0, l, sv.take(i as int), tv),
        decreases slots@.len() - i,
    {
        let s: &Slot = &slots[i];
        proof {
            assert(sv.take(i + 1).drop_last() =~= sv.take(i as int));
            assert(sv.take(i + 1).last() == s@);
            assert(tv[i as int] == shown@[i as int]@);
        }
        if is_listed(&l, s) {
            let v: Value = Value::Number(shown[i].clone());
            match l {
                Listed::Levels => value::put(m, s.text.as_str(), v),
                _ => value::put(m, s.key.as_str(), v),
            }
        }
        i += 1;
    }
    proof {
        assert(sv.take(i as int) =~= sv);
    }
}

fn prob_at(slots: &Vec<Slot>, probs: &Vec<u64>, k: &str) -> (r: u64)
    requires
        slots@.len() == probs@.len(),
    ensures
        r == prob_of(prompts::slot_views(slots@), probs@, k@),
{
    let ghost sv = prompts::slot_views(slots@);
    let mut r: u64 = 0;
    let mut i: usize = 0;
    proof {
        assert(sv.take(0) =~= Seq::empty());
    }
    while i < slots.len()
        invariant
            i <= slots@.len(),
            slots@.len() == probs@.len(),
            sv == prompts::slot_views(slots@),
            r == prob_of(sv.take(i as int), probs@, k@),
        decreases slots@.len() - i,
    {
        proof {
            assert(sv.take(i + 1).drop_last() =~= sv.take(i as int));
            assert(sv.take(i + 1).last() == slots@[i as int]@);
        }
        if text::same(slots[i].key.as_str(), k) {
            r = probs[i];
        }
        i += 1;
    }
    proof {
        assert(sv.take(i as int) =~= sv);
    }
    r
}

fn status_text(best: &Slot, close: bool) -> (r: &'static str)
    ensures
        r@ == status_of(best@, close),
{
    let k: &str = best.key.as_str();
    if text::same(k, ABSTAIN) {
        "abstained"
    } else if text::same(k, BELOW) || text::same(k, ABOVE) {
        "out_of_bounds"
    } else if close {
        "contested"
    } else {
        "decided"
    }
}

fn level_value(best: &Slot) -> (r: Value)
    ensures
        r@ == level_of(best@),
{
    if best.special {
        return Value::Null;
    }
    let cs: Vec<char> = text::chars_of(best.key.as_str());
    match text::parse_i64(cs.as_slice()) {
        Some(n) => Value::Number(text::decimal_i64(n)),
        None => Value::Null,
    }
}

/// `r.probs[i]` is the probability of `slots[i]`'s letter.
pub fn decode(q: &Question, slots: &Vec<Slot>, r: &Reading) -> (a: Value)
    requires
        r.covers(prompts::slot_views(slots@)),
    ensures
        a@ == answer_of(*q, prompts::slot_views(slots@), *r),
{
    let ghost sv = prompts::slot_views(slots@);
    let at: usize = num::best(&r.probs);
    let best: &Slot = &slots[at];
    proof {
        assert(sv[at as int] == best@);
    }
    let mut map: Vec<(String, Value)> = Vec::new();
    match q.qtype {
        QType::Score => list_masses(&mut map, Listed::Levels, slots, &r.shown),
        _ => list_masses(&mut map, Listed::Options, slots, &r.shown),
    }
    if q.qtype == QType::Numeric {
        list_masses(&mut map, Listed::Bounds, slots, &r.shown);
    }
    let mut out: Vec<(String, Value)> = Vec::new();
    value::push_field(&mut out, "status", Value::Str(status_text(best, r.close).to_owned()));
    value::push_field(&mut out, "probabilities", Value::Object(map));
    value::push_field(&mut out, "confidence", Value::Number(r.confidence.clone()));
    match q.qtype {
        QType::Boolean | QType::Noul => {
            let yes: bool = num::at_most(prob_at(slots, &r.probs, "no"), prob_at(slots, &r.probs, "yes"));
            value::push_field(&mut out, "boolean", Value::Bool(yes));
            value::push_field(
                &mut out,
                "choice",
                Value::Str(
                    if yes {
                        "yes".to_owned()
                    } else {
                        "no".to_owned()
                    },
                ),
            );
        },
        QType::Choice => {
            value::push_field(&mut out, "choice", Value::Str(best.key.clone()));
        },
        QType::Score => {
            value::push_field(&mut out, "score", Value::Number(r.score.clone()));
            value::push_field(&mut out, "level", level_value(best));
        },
        QType::Numeric => {
            let v: Value = match &r.value {
                Some(v) => Value::Number(v.clone()),
                None => Value::Null,
            };
            value::push_field(&mut out, "value", v);
        },
    }
    proof {
        let want = answer_of(*q, sv, *r);
        assert(value::fields(out@) =~= want->Object_0);
    }
    Value::Object(out)
}

/// Which slots a mean runs over.
pub open spec fn counts(q: Question, s: SlotView) -> bool {
    match q.qtype {
        QType::Score => !s.special,
        _ => s.key != BELOW@ && s.key != ABOVE@ && s.key != ABSTAIN@,
    }
}

/// The slots that the mean of a score or a numeric question runs over, in
/// order: levels, or the values offered.
pub fn counted(q: &Question, slots: &Vec<Slot>) -> (r: Vec<usize>)
    ensures
        forall|i: int, j: int| 0 <= i < j < r@.len() ==> #[trigger] r@[i] < #[trigger] r@[j],
        forall|i: int| 0 <= i < r@.len() ==> #[trigger] r@[i] < slots@.len() && counts(*q, slots@[r@[i] as int]@),
        forall|k: int| 0 <= k < slots@.len() && counts(*q, (#[trigger] slots@[k])@) ==> r@.contains(k as usize),
{
    let mut r: Vec<usize> = Vec::new();
    let mut k: usize = 0;
    while k < slots.len()
        invariant
            k <= slots@.len(),
            forall|i: int, j: int| 0 <= i < j < r@.len() ==> #[trigger] r@[i] < #[trigger] r@[j],
            forall|i: int| 0 <= i < r@.len() ==> #[trigger] r@[i] < k && counts(*q, slots@[r@[i] as int]@),
            forall|x: int| 0 <= x < k && counts(*q, (#[trigger] slots@[x])@) ==> r@.contains(x as usize),
        decreases slots@.len() - k,
    {
        let s: &Slot = &slots[k];
        let key: &str = s.key.as_str();
        let yes: bool = match q.qtype {
            QType::Score => !s.special,
            _ => !text::same(key, BELOW) && !text::same(key, ABOVE) && !text::same(key, ABSTAIN),
        };
        let ghost before = r@;
        if yes {
            r.push(k);
        }
        proof {
            assert forall|x: int| 0 <= x < k + 1 && counts(*q, (#[trigger] slots@[x])@) implies r@.contains(x as usize) by {
                if x < k {
                    assert(before.contains(x as usize));
                    let i = choose|i: int| 0 <= i < before.len() && before[i] == x as usize;
                    assert(r@[i] == x as usize);
                } else {
                    assert(r@[before.len() as int] == k);
                }
            }
        }
        k += 1;
    }
    r
}

/// Scores of a choice's options, each scored apart or on its own page.
pub struct Shares {
    /// what the options are ranked by, as the bits of numbers
    pub scores: Vec<u64>,
    /// their shares, as they are reported
    pub shown: Vec<String>,
    /// the two best lie closer than the gap that decides
    pub close: bool,
    /// how far the best share is above an even one, as it is reported
    pub confidence: String,
}

/// Options with their shares, in order.
pub open spec fn shares_map(keys: Seq<Seq<char>>, shown: Seq<Seq<char>>) -> Seq<(Seq<char>, Json)>
    decreases keys.len(),
{
    if keys.len() == 0 {
        Seq::empty()
    } else {
        value::with(shares_map(keys.drop_last(), shown), keys.last(), Json::Number(shown[keys.len() - 1]))
    }
}

/// Every option is listed once, in order, with its share.
pub proof fn law_every_share_listed(keys: Seq<Seq<char>>, shown: Seq<Seq<char>>)
    requires
        keys.no_duplicates(),
        keys.len() <= shown.len(),
    ensures
        shares_map(keys, shown).len() == keys.len(),
        forall|i: int| 0 <= i < keys.len() ==> #[trigger] shares_map(keys, shown)[i] == pair(
            keys[i],
            Json::Number(shown[i]),
        ),
    decreases keys.len(),
{
    if keys.len() > 0 {
        let d = keys.drop_last();
        assert forall|i: int, j: int| 0 <= i < d.len() && 0 <= j < d.len() && i != j implies d[i] != d[j] by {
            assert(keys[i] != keys[j]);
        }
        law_every_share_listed(d, shown);
        let m = shares_map(d, shown);
        value::lemma_place(m, keys.last());
        if let Some(i) = value::place(m, keys.last()) {
            assert(m[i] == pair(d[i], Json::Number(shown[i])));
            assert(keys[i] != keys[keys.len() - 1]);
        }
    }
}

/// One choice answer from the scores of its options.
pub open spec fn merged_answer(keys: Seq<Seq<char>>, sh: Shares, abstained: bool) -> Json {
    let best = num::best_at(sh.scores@);
    let status = if abstained {
        "abstained"@
    } else if sh.close {
        "contested"@
    } else {
        "decided"@
    };
    Json::Object(
        seq![
            pair("status"@, Json::Str(status)),
            pair("probabilities"@, Json::Object(shares_map(keys, text::views(sh.shown@)))),
            pair("confidence"@, Json::Number(sh.confidence@)),
            pair(
                "choice"@,
                Json::Str(
                    if best < keys.len() {
                        keys[best]
                    } else {
                        Seq::empty()
                    },
                ),
            ),
        ],
    )
}

/// The members of a merged answer: the option whose score nothing beats is
/// chosen, every option is reported with its own share, and abstention is said
/// before how close it was.
pub proof fn law_merged(keys: Seq<Seq<char>>, sh: Shares, abstained: bool, i: int)
    requires
        num::is_best(sh.scores@, i),
        sh.scores@.len() == keys.len(),
        sh.shown@.len() == keys.len(),
        keys.no_duplicates(),
    ensures
        ({
            let a = merged_answer(keys, sh, abstained);
            let p = value::index(a, "probabilities"@);
            &&& value::index(a, "choice"@) == Json::Str(keys[i])
            &&& value::index(a, "confidence"@) == Json::Number(sh.confidence@)
            &&& abstained ==> value::index(a, "status"@) == Json::Str("abstained"@)
            &&& !abstained && sh.close ==> value::index(a, "status"@) == Json::Str("contested"@)
            &&& !abstained && !sh.close ==> value::index(a, "status"@) == Json::Str("decided"@)
            &&& forall|k: int| 0 <= k < keys.len() ==> value::index(p, #[trigger] keys[k]) == Json::Number(sh.shown@[k]@)
        }),
{
    let m = merged_answer(keys, sh, abstained)->Object_0;
    reveal_strlit("status");
    reveal_strlit("probabilities");
    reveal_strlit("confidence");
    reveal_strlit("choice");
    assert("status"@.len() == 6 && "probabilities"@.len() == 13 && "confidence"@.len() == 10);
    assert("choice"@.len() == 6 && "choice"@[0] == 'c' && "status"@[0] == 's');
    value::lemma_is_place(m, "status"@, 0);
    value::lemma_is_place(m, "probabilities"@, 1);
    value::lemma_is_place(m, "confidence"@, 2);
    value::lemma_is_place(m, "choice"@, 3);
    num::law_best(sh.scores@);
    let shown = text::views(sh.shown@);
    let p = shares_map(keys, shown);
    law_every_share_listed(keys, shown);
    assert forall|k: int| 0 <= k < keys.len() implies value::index(Json::Object(p), #[trigger] keys[k]) == Json::Number(
        sh.shown@[k]@,
    ) by {
        assert(p[k] == pair(keys[k], Json::Number(shown[k])));
        assert forall|j: int| 0 <= j < k implies (#[trigger] p[j]).0 != keys[k] by {
            assert(p[j] == pair(keys[j], Json::Number(shown[j])));
        }
        value::lemma_is_place(p, keys[k], k);
    }
}

/// A question that may abstain does so just where every option's score is below
/// a half; any other never does.
pub proof fn law_unconvinced(q: Question, scores: Seq<u64>)
    requires
        forall|i: int| 0 <= i < scores.len() ==> !num::nan(#[trigger] scores[i]),
    ensures
        unconvinced(q, scores) <==> q.allow_abstain && forall|i: int|
            0 <= i < scores.len() ==> num::rank(#[trigger] scores[i]) < 0x3fe0_0000_0000_0000,
{
    if scores.len() > 0 {
        num::law_best(scores);
        let b = num::best_at(scores);
        assert(!num::nan(scores[b]));
        if num::lt(scores[b], num::HALF) {
            assert forall|i: int| 0 <= i < scores.len() implies num::rank(#[trigger] scores[i]) < 0x3fe0_0000_0000_0000 by {
                assert(num::rank(scores[i]) <= num::rank(scores[b]));
            }
        }
    }
}

fn merge(keys: &Vec<String>, sh: &Shares, abstained: bool) -> (a: Value)
    requires
        sh.shown@.len() == keys@.len(),
    ensures
        a@ == merged_answer(text::views(keys@), *sh, abstained),
{
    let ghost kv = text::views(keys@);
    let ghost tv = text::views(sh.shown@);
    let best: usize = num::best(&sh.scores);
    let status: &str = if abstained {
        "abstained"
    } else if sh.close {
        "contested"
    } else {
        "decided"
    };
    let mut map: Vec<(String, Value)> = Vec::new();
    let mut i: usize = 0;
    proof {
        assert(kv.take(0) =~= Seq::empty());
    }
    while i < keys.len()
        invariant
            i <= keys@.len(),
            sh.shown@.len() == keys@.len(),
            kv == text::views(keys@),
            tv == text::views(sh.shown@),
            value::fields(map@) == shares_map(kv.take(i as int), tv),
        decreases keys@.len() - i,
    {
        proof {
            assert(kv.take(i + 1).drop_last() =~= kv.take(i as int));
            assert(kv.take(i + 1).last() == keys@[i as int]@);
            assert(tv[i as int] == sh.shown@[i as int]@);
        }
        value::put(&mut map, keys[i].as_str(), Value::Number(sh.shown[i].clone()));
        i += 1;
    }
    proof {
        assert(kv.take(i as int) =~= kv);
    }
    let choice: String = if best < keys.len() {
        keys[best].clone()
    } else {
        String::new()
    };
    let mut out: Vec<(String, Value)> = Vec::new();
    value::push_field(&mut out, "status", Value::Str(status.to_owned()));
    value::push_field(&mut out, "probabilities", Value::Object(map));
    value::push_field(&mut out, "confidence", Value::Number(sh.confidence.clone()));
    value::push_field(&mut out, "choice", Value::Str(choice));
    proof {
        assert(value::fields(out@) =~= merged_answer(kv, *sh, abstained)->Object_0);
    }
    Value::Object(out)
}

/// No option of an abstaining question reaches a half.
pub open spec fn unconvinced(q: Question, scores: Seq<u64>) -> bool {
    let top = if scores.len() > 0 {
        scores[num::best_at(scores)]
    } else {
        0
    };
    q.allow_abstain && num::lt(top, num::HALF)
}

/// Merge independent per-option yes/no probabilities into one choice answer:
/// each option was scored on its own. With `allow_abstain`, no option reaching
/// 0.5 means the question abstains.
pub fn merge_scored(q: &Question, keys: &Vec<String>, sh: &Shares) -> (a: Value)
    requires
        sh.shown@.len() == keys@.len(),
    ensures
        a@ == merged_answer(text::views(keys@), *sh, unconvinced(*q, sh.scores@)),
{
    let best: usize = num::best(&sh.scores);
    let top: u64 = if sh.scores.len() > 0 {
        sh.scores[best]
    } else {
        0
    };
    merge(keys, sh, q.allow_abstain && num::less(top, num::HALF))
}

/// Merge paged choice answers: each page voted over its own candidates, and
/// `empty` says that they have no mass at all. Pages never abstain; answers
/// that are missing surface as abstained.
pub fn merge_paged(q: &Question, keys: &Vec<String>, sh: &Shares, empty: bool) -> (a: Value)
    requires
        sh.shown@.len() == keys@.len(),
    ensures
        a@ == merged_answer(text::views(keys@), *sh, empty && q.allow_abstain),
{
    merge(keys, sh, empty && q.allow_abstain)
}

/// The number that a page's answer gives option `k`.
pub open spec fn page_mass(page: Json, k: Seq<char>) -> Option<Seq<char>> {
    match page {
        Json::Object(m) => match value::member(m, "probabilities"@) {
            Some(Json::Object(p)) => match value::member(p, k) {
                Some(Json::Number(n)) => Some(n),
                _ => None,
            },
            _ => None,
        },
        _ => None,
    }
}

/// The number that a page's answer gives option `k`.
pub fn mass_on(page: &Value, k: &str) -> (r: Option<String>)
    ensures
        match r {
            Some(n) => page_mass(page@, k@) == Some(n@),
            None => page_mass(page@, k@) is None,
        },
{
    if let Value::Object(m) = page {
        if let Some(v) = value::get(m, "probabilities") {
            if let Value::Object(p) = v {
                if let Some(x) = value::get(p, k) {
                    if let Value::Number(n) = x {
                        return Some(n.clone());
                    }
                }
            }
        }
    }
    None
}

/// An answer with its coverage.
pub open spec fn covered(a: Json, coverage: Seq<char>) -> Json {
    match a {
        Json::Object(m) => Json::Object(value::with(m, "coverage"@, Json::Number(coverage))),
        _ => a,
    }
}

/// An answer with its coverage: how much of the raw next-token mass landed on
/// the allowed letters at all.
pub fn with_coverage(a: Value, coverage: &str) -> (r: Value)
    ensures
        r@ == covered(a@, coverage@),
{
    match a {
        Value::Object(mut m) => {
            value::put(&mut m, "coverage", Value::Number(coverage.to_owned()));
            Value::Object(m)
        },
        _ => a,
    }
}

} // verus!
