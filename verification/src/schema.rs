//! The decision request the engine consumes.
use vstd::prelude::*;

use crate::num;
use crate::num::Num;
use crate::text;
use crate::value;
use crate::value::Value;

verus! {

/// Letters A-Z; special slots share the budget.
pub const MAX_SLOTS: usize = 26;

/// Choice options past the letter budget are scored apart and merged; this
/// caps that expansion.
pub const MAX_OPTIONS: usize = 256;

pub const MAX_QUESTIONS: usize = 64;

/// Parts a question's name from the number of the item it expands into.
pub const TAG: char = '\u{1f}';

#[derive(Debug, Clone, Copy, PartialEq, Eq, Structural)]
pub enum QType {
    Boolean,
    Noul,
    Choice,
    Score,
    Numeric,
}

impl QType {
    pub open spec fn name(self) -> Seq<char> {
        match self {
            QType::Boolean => "boolean"@,
            QType::Noul => "noul"@,
            QType::Choice => "choice"@,
            QType::Score => "score"@,
            QType::Numeric => "numeric"@,
        }
    }

    pub fn as_str(self) -> (r: &'static str)
        ensures
            r@ == self.name(),
    {
        match self {
            QType::Boolean => "boolean",
            QType::Noul => "noul",
            QType::Choice => "choice",
            QType::Score => "score",
            QType::Numeric => "numeric",
        }
    }
}

/// How many values a numeric question offers unless it says.
pub fn default_granularity() -> (r: i64)
    ensures
        r == 8,
{
    8
}

#[derive(Debug, Clone, Copy, PartialEq, Eq, Structural)]
pub enum Mode {
    /// Evaluate the common state prefix once.
    Shared,
    /// Full prompt per question (verification/reference mode).
    Direct,
}

pub fn default_mode() -> (r: Mode)
    ensures
        r == Mode::Shared,
{
    Mode::Shared
}

/// Where the question sits relative to the state.
#[derive(Debug, Clone, Copy, PartialEq, Eq, Structural)]
pub enum Layout {
    Auto,
    StateFirst,
    QuestionFirst,
    Header,
    Catalog,
}

/// How a choice past the letter budget expands.
#[derive(Debug, Clone, Copy, PartialEq, Eq, Structural)]
pub enum Expand {
    Probes,
    Pages,
}

pub struct Question {
    pub qtype: QType,
    pub instructions: String,
    /// choice: object {key: description} or list of option strings;
    /// score: list of level descriptions ordered low -> high.
    pub criteria: Option<Value>,
    pub min: Option<Num>,
    pub max: Option<Num>,
    pub granularity: i64,
    /// the values a numeric question offers, as they print: `granularity` of
    /// them from min to max, unless a step sets another number
    pub anchors: Vec<String>,
    pub allow_abstain: bool,
}

pub enum SchemaError {
    CriteriaRequired(QType),
    ScoreList,
    TooFew(QType),
    ScoreLevels(usize),
    ChoiceOptions(usize),
    NumericRange,
    Granularity,
    GranularitySlots,
    QuestionCount,
    ReservedName(String),
    Malformed(String),
    Temperature,
}

/// How many options criteria list.
pub open spec fn options_in(c: Option<Value>) -> Option<nat> {
    match c {
        Some(Value::Object(m)) => Some(m@.len()),
        Some(Value::Array(a)) => Some(a@.len()),
        _ => None,
    }
}

pub open spec fn is_list(c: Option<Value>) -> bool {
    c matches Some(Value::Array(_))
}

pub open spec fn one_if(b: bool) -> int {
    if b {
        1
    } else {
        0
    }
}

impl Question {
    /// What is wrong with the options of a choice or score, the first that
    /// applies.
    pub open spec fn options_error(&self) -> Option<SchemaError> {
        let score = self.qtype == QType::Score;
        match options_in(self.criteria) {
            None => Some(SchemaError::CriteriaRequired(self.qtype)),
            Some(n) => if score && !is_list(self.criteria) {
                Some(SchemaError::ScoreList)
            } else if n < 2 {
                Some(SchemaError::TooFew(self.qtype))
            } else if score && n + one_if(self.allow_abstain) > MAX_SLOTS {
                Some(SchemaError::ScoreLevels(n as usize))
            } else if self.qtype == QType::Choice && n > MAX_OPTIONS {
                Some(SchemaError::ChoiceOptions(n as usize))
            } else {
                None
            },
        }
    }

    /// What is wrong with the range of a numeric question, the first that
    /// applies.
    pub open spec fn range_error(&self) -> Option<SchemaError> {
        if !(self.min is Some && self.max is Some && num::lt(self.min->0.bits, self.max->0.bits)) {
            Some(SchemaError::NumericRange)
        } else if !(2 <= self.granularity <= 24) {
            Some(SchemaError::Granularity)
        } else if self.granularity + 2 + one_if(self.allow_abstain) > MAX_SLOTS || self.anchors@.len() + 2 + one_if(
            self.allow_abstain,
        ) > MAX_SLOTS {
            Some(SchemaError::GranularitySlots)
        } else {
            None
        }
    }

    /// What is wrong with the question.
    pub open spec fn error(&self) -> Option<SchemaError> {
        match self.qtype {
            QType::Choice | QType::Score => self.options_error(),
            QType::Numeric => self.range_error(),
            _ => None,
        }
    }

    pub open spec fn valid(&self) -> bool {
        self.error() is None
    }

    pub fn validate(&self) -> (r: Result<(), SchemaError>)
        ensures
            match r {
                Ok(_) => self.valid(),
                Err(e) => self.error() == Some(e),
            },
    {
        match self.qtype {
            QType::Choice | QType::Score => {
                let score: bool = self.qtype == QType::Score;
                let n: usize = match &self.criteria {
                    Some(Value::Object(m)) => m.len(),
                    Some(Value::Array(a)) => a.len(),
                    _ => {
                        return Err(SchemaError::CriteriaRequired(self.qtype));
                    },
                };
                let list: bool = match &self.criteria {
                    Some(Value::Array(_)) => true,
                    _ => false,
                };
                if score && !list {
                    return Err(SchemaError::ScoreList);
                }
                if n < 2 {
                    return Err(SchemaError::TooFew(self.qtype));
                }
                let slots: usize = MAX_SLOTS - (if self.allow_abstain { 1 } else { 0 });
                if score && n > slots {
                    return Err(SchemaError::ScoreLevels(n));
                }
                if self.qtype == QType::Choice && n > MAX_OPTIONS {
                    return Err(SchemaError::ChoiceOptions(n));
                }
            },
            QType::Numeric => {
                let ok: bool = match (&self.min, &self.max) {
                    (Some(a), Some(b)) => num::less(a.bits, b.bits),
                    _ => false,
                };
                if !ok {
                    return Err(SchemaError::NumericRange);
                }
                if self.granularity < 2 || self.granularity > 24 {
                    return Err(SchemaError::Granularity);
                }
                let inner: usize = MAX_SLOTS - 2 - (if self.allow_abstain { 1 } else { 0 });
                if self.granularity > inner as i64 || self.anchors.len() > inner {
                    return Err(SchemaError::GranularitySlots);
                }
            },
            _ => {},
        }
        Ok(())
    }
}

/// Which questions are in order. Yes or no always is. A choice offers 2 to 256
/// options; a score lists at least two levels and has a letter for each, and for
/// abstention where it is allowed; a range goes up, offers 2 to 24 values, and
/// has a letter for each of them, for what lies out of it, and for abstention.
pub proof fn law_valid(q: Question)
    ensures
        q.qtype == QType::Boolean || q.qtype == QType::Noul ==> q.valid(),
        q.qtype == QType::Choice ==> (q.valid() <==> match q.criteria {
            Some(Value::Object(m)) => 2 <= m@.len() <= 256,
            Some(Value::Array(a)) => 2 <= a@.len() <= 256,
            _ => false,
        }),
        q.qtype == QType::Score ==> (q.valid() <==> match q.criteria {
            Some(Value::Array(a)) => 2 <= a@.len() && a@.len() + (if q.allow_abstain {
                1int
            } else {
                0
            }) <= 26,
            _ => false,
        }),
        q.qtype == QType::Numeric ==> (q.valid() <==> {
            &&& q.min is Some && q.max is Some
            &&& num::lt(q.min->0.bits, q.max->0.bits)
            &&& 2 <= q.granularity <= 24
            &&& q.granularity + (if q.allow_abstain {
                3int
            } else {
                2
            }) <= 26
            &&& q.anchors@.len() + (if q.allow_abstain {
                3int
            } else {
                2
            }) <= 26
        }),
{
}

/// What is wrong with options is said by the first thing that is: that there are
/// none, that levels are no list, that there are too few, that there are too
/// many.
pub proof fn law_options_error(q: Question)
    requires
        q.qtype == QType::Choice || q.qtype == QType::Score,
    ensures
        options_in(q.criteria) is None ==> q.error() == Some(SchemaError::CriteriaRequired(q.qtype)),
        q.qtype == QType::Score && (q.criteria matches Some(Value::Object(_))) ==> q.error() == Some(SchemaError::ScoreList),
        q.criteria matches Some(Value::Array(a)) ==> (a@.len() < 2 ==> q.error() == Some(SchemaError::TooFew(q.qtype))),
        q.qtype == QType::Score ==> (q.criteria matches Some(Value::Array(a)) ==> (a@.len() > 26 ==> q.error() == Some(
            SchemaError::ScoreLevels(a@.len() as usize),
        ))),
        q.qtype == QType::Choice ==> (q.criteria matches Some(Value::Array(a)) ==> (a@.len() > 256 ==> q.error() == Some(
            SchemaError::ChoiceOptions(a@.len() as usize),
        ))),
{
}

/// Every question type goes by a name of its own.
pub proof fn law_type_names(a: QType, b: QType)
    ensures
        a.name() == b.name() ==> a == b,
{
    reveal_strlit("boolean");
    reveal_strlit("noul");
    reveal_strlit("choice");
    reveal_strlit("score");
    reveal_strlit("numeric");
    assert("boolean"@[0] == 'b' && "noul"@.len() == 4 && "choice"@[0] == 'c' && "score"@[0] == 's');
    assert("numeric"@.len() == 7 && "numeric"@[0] == 'n');
}

/// A temperature is above zero and at most ten.
pub proof fn law_temperature(r: DecideRequest)
    ensures
        r.temperature_ok() <==> 0 < r.temperature <= 0x4024_0000_0000_0000,
        !r.count_ok() <==> r.questions@.len() == 0 || r.questions@.len() > 64,
{
}

/// A named question of a request, or what is wrong with how it was written.
pub type Asked = (String, Result<Question, String>);

pub struct DecideRequest {
    /// Accepted for client compatibility; the loaded model is always used.
    pub model: Option<String>,
    pub state: Value,
    pub questions: Vec<Asked>,
    /// divides the logits, as the bits of a number
    pub temperature: u64,
    pub mode: Mode,
    pub layout: Layout,
    pub expand: Expand,
    pub compact_state: bool,
}

/// Nothing is wrong with the question.
pub open spec fn asked_ok(a: Asked) -> bool {
    &&& !a.0@.contains(TAG)
    &&& a.1 is Ok
    &&& a.1->Ok_0.valid()
}

/// `e` says what is wrong with the question.
pub open spec fn asked_error(a: Asked, e: SchemaError) -> bool {
    if a.0@.contains(TAG) {
        e matches SchemaError::ReservedName(n) && n@ == a.0@
    } else {
        match a.1 {
            Err(m) => e matches SchemaError::Malformed(t) && t@ == m@,
            Ok(q) => q.error() == Some(e),
        }
    }
}

/// Whether the characters of `s` hold `c`.
fn has_char(s: &str, c: char) -> (r: bool)
    ensures
        r == s@.contains(c),
{
    let v: Vec<char> = text::chars_of(s);
    let mut i: usize = 0;
    while i < v.len()
        invariant
            i <= v@.len(),
            v@ == s@,
            forall|k: int| 0 <= k < i ==> v@[k] != c,
        decreases v@.len() - i,
    {
        if v[i] == c {
            return true;
        }
        i += 1;
    }
    false
}

impl DecideRequest {
    /// Between one and `MAX_QUESTIONS` of them.
    pub open spec fn count_ok(&self) -> bool {
        1 <= self.questions@.len() <= MAX_QUESTIONS
    }

    pub open spec fn questions_ok(&self) -> bool {
        self.count_ok() && forall|i: int| 0 <= i < self.questions@.len() ==> asked_ok(#[trigger] self.questions@[i])
    }

    /// `e` says what is wrong with the first question that is not in order.
    pub open spec fn questions_error(&self, e: SchemaError) -> bool {
        if !self.count_ok() {
            e == SchemaError::QuestionCount
        } else {
            exists|i: int|
                0 <= i < self.questions@.len() && !asked_ok(#[trigger] self.questions@[i]) && asked_error(
                    self.questions@[i],
                    e,
                ) && forall|j: int| 0 <= j < i ==> asked_ok(#[trigger] self.questions@[j])
        }
    }

    pub open spec fn temperature_ok(&self) -> bool {
        num::lt(0, self.temperature) && num::le(self.temperature, num::TEN)
    }

    /// The request's questions are in order: between one and `MAX_QUESTIONS`,
    /// none named with the reserved tag, each well written and valid.
    pub fn questions(&self) -> (r: Result<(), SchemaError>)
        ensures
            match r {
                Ok(_) => self.questions_ok(),
                Err(e) => !self.questions_ok() && self.questions_error(e),
            },
    {
        if self.questions.len() == 0 || self.questions.len() > MAX_QUESTIONS {
            return Err(SchemaError::QuestionCount);
        }
        let mut i: usize = 0;
        while i < self.questions.len()
            invariant
                i <= self.questions@.len(),
                self.count_ok(),
                forall|j: int| 0 <= j < i ==> asked_ok(#[trigger] self.questions@[j]),
            decreases self.questions@.len() - i,
        {
            let a: &Asked = &self.questions[i];
            if has_char(a.0.as_str(), TAG) {
                return Err(SchemaError::ReservedName(a.0.clone()));
            }
            match &a.1 {
                Err(m) => {
                    return Err(SchemaError::Malformed(m.clone()));
                },
                Ok(q) => {
                    match q.validate() {
                        Err(e) => {
                            return Err(e);
                        },
                        Ok(_) => {},
                    }
                },
            }
            assert(asked_ok(self.questions@[i as int]));
            i += 1;
        }
        Ok(())
    }

    pub fn validate(&self) -> (r: Result<(), SchemaError>)
        ensures
            match r {
                Ok(_) => self.temperature_ok() && self.questions_ok(),
                Err(e) => if self.temperature_ok() {
                    !self.questions_ok() && self.questions_error(e)
                } else {
                    e == SchemaError::Temperature
                },
            },
    {
        if !(num::less(0, self.temperature) && num::at_most(self.temperature, num::TEN)) {
            return Err(SchemaError::Temperature);
        }
        self.questions()
    }
}

/// What `{:?}` prints of a text.
pub uninterp spec fn debug_text(s: Seq<char>) -> Seq<char>;

/// `format!` with `{:?}` on a `str`: the text between quotation marks, escaped
/// as std's `Debug` does.
#[verifier::external_body]
pub(crate) fn debug_of(s: &str) -> (r: String)
    ensures
        r@ == debug_text(s@),
{
    format!("{s:?}")
}

/// What is said of a name, quoted so, that holds the reserved tag.
pub fn reserved(shown: &str) -> (r: String)
    ensures
        r@ == "question name "@ + shown@ + ": \\u001f is reserved"@,
{
    "question name ".to_owned().concat(shown).concat(": \\u001f is reserved")
}

/// What an error says.
pub open spec fn said(e: SchemaError) -> Seq<char> {
    match e {
        SchemaError::CriteriaRequired(t) => t.name() + ": criteria required"@,
        SchemaError::ScoreList => "score: criteria must be a list of level descriptions"@,
        SchemaError::TooFew(t) => t.name() + ": at least 2 options"@,
        SchemaError::ScoreLevels(n) => "score: "@ + text::digits(n as nat) + " levels exceed 26 letter slots"@,
        SchemaError::ChoiceOptions(n) => "choice: "@ + text::digits(n as nat) + " options exceed 256"@,
        SchemaError::NumericRange => "numeric: requires min < max"@,
        SchemaError::Granularity => "numeric: granularity must be in 2..=24"@,
        SchemaError::GranularitySlots => "numeric: granularity too high for letter slots"@,
        SchemaError::QuestionCount => "questions: need 1..=64"@,
        SchemaError::ReservedName(n) => "question name "@ + debug_text(n@) + ": \\u001f is reserved"@,
        SchemaError::Malformed(m) => m@,
        SchemaError::Temperature => "temperature must be in (0, 10]"@,
    }
}

impl SchemaError {
    /// What the error says.
    pub fn message(&self) -> (r: String)
        ensures
            r@ == said(*self),
    {
        match self {
            SchemaError::CriteriaRequired(t) => t.as_str().to_owned().concat(": criteria required"),
            SchemaError::ScoreList => "score: criteria must be a list of level descriptions".to_owned(),
            SchemaError::TooFew(t) => t.as_str().to_owned().concat(": at least 2 options"),
            SchemaError::ScoreLevels(n) => "score: ".to_owned().concat(text::decimal(*n as u64).as_str()).concat(
                " levels exceed 26 letter slots",
            ),
            SchemaError::ChoiceOptions(n) => "choice: ".to_owned().concat(text::decimal(*n as u64).as_str()).concat(
                " options exceed 256",
            ),
            SchemaError::NumericRange => "numeric: requires min < max".to_owned(),
            SchemaError::Granularity => "numeric: granularity must be in 2..=24".to_owned(),
            SchemaError::GranularitySlots => "numeric: granularity too high for letter slots".to_owned(),
            SchemaError::QuestionCount => "questions: need 1..=64".to_owned(),
            SchemaError::ReservedName(n) => reserved(debug_of(n.as_str()).as_str()),
            SchemaError::Malformed(m) => m.clone(),
            SchemaError::Temperature => "temperature must be in (0, 10]".to_owned(),
        }
    }
}

/// A copy of a question.
pub fn copy_question(q: &Question) -> (r: Question)
    ensures
        same_question(r, *q),
{
    Question {
        qtype: q.qtype,
        instructions: q.instructions.clone(),
        criteria: match &q.criteria {
            Some(c) => Some(value::copy(c)),
            None => None,
        },
        min: copy_num(&q.min),
        max: copy_num(&q.max),
        granularity: q.granularity,
        anchors: copy_strings(&q.anchors),
        allow_abstain: q.allow_abstain,
    }
}

/// Questions alike in everything they say.
pub open spec fn same_question(a: Question, b: Question) -> bool {
    &&& a.qtype == b.qtype
    &&& a.instructions@ == b.instructions@
    &&& criteria_view(a.criteria) == criteria_view(b.criteria)
    &&& num_view(a.min) == num_view(b.min)
    &&& num_view(a.max) == num_view(b.max)
    &&& a.granularity == b.granularity
    &&& text::views(a.anchors@) == text::views(b.anchors@)
    &&& a.allow_abstain == b.allow_abstain
}

pub open spec fn criteria_view(c: Option<Value>) -> Option<value::Json> {
    match c {
        Some(v) => Some(v@),
        None => None,
    }
}

pub open spec fn num_view(n: Option<Num>) -> Option<(u64, Seq<char>)> {
    match n {
        Some(n) => Some((n.bits, n.text@)),
        None => None,
    }
}

fn copy_num(n: &Option<Num>) -> (r: Option<Num>)
    ensures
        num_view(r) == num_view(*n),
{
    match n {
        Some(n) => Some(Num { bits: n.bits, text: n.text.clone() }),
        None => None,
    }
}

pub fn copy_strings(v: &Vec<String>) -> (r: Vec<String>)
    ensures
        text::views(r@) == text::views(v@),
        r@.len() == v@.len(),
{
    let mut r: Vec<String> = Vec::new();
    let mut i: usize = 0;
    while i < v.len()
        invariant
            i <= v@.len(),
            r@.len() == i,
            forall|k: int| 0 <= k < i ==> (#[trigger] r@[k])@ == v@[k]@,
        decreases v@.len() - i,
    {
        r.push(v[i].clone());
        i += 1;
    }
    proof {
        assert(text::views(r@) =~= text::views(v@));
    }
    r
}

} // verus!
