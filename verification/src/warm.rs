//! Warm-up: two requests that run the backend's hot paths before the first real
//! one, a batched decode of several questions and one of a single question.
use vstd::prelude::*;

use crate::decide;
use crate::decide::{Decided, Engine, EngineError};
use crate::engine;
use crate::kv::{Backend, Kv};
use crate::schema;
use crate::schema::{DecideRequest, Expand, Layout, Mode, QType, Question, TAG};
use crate::value;
use crate::value::{Json, Value};

verus! {

/// The bits of the number one.
pub const ONE: u64 = 0x3ff0_0000_0000_0000;

pub const NOTE: &'static str = "Synthetic ticket used to warm the inference pipelines at startup.";

/// The state that both requests are about.
pub open spec fn warm_state() -> Json {
    Json::Object(
        seq![
            ("order"@, Json::Str("warmup"@)),
            ("items"@, Json::Array(seq![Json::Str("latte"@), Json::Str("pane"@), Json::Str("pasta"@)])),
            ("note"@, Json::Str(NOTE@)),
        ],
    )
}

/// The items that one of the questions offers.
pub open spec fn warm_items() -> Json {
    Json::Object(seq![("c0"@, Json::Str("latte"@)), ("c1"@, Json::Str("pane"@))])
}

/// A question with nothing set but these; abstention is open.
pub open spec fn warm_question(a: schema::Asked, name: Seq<char>, qtype: QType, instructions: Seq<char>) -> bool {
    &&& a.0@ == name
    &&& a.1 matches Ok(q) && {
        &&& q.qtype == qtype
        &&& q.instructions@ == instructions
        &&& q.min is None
        &&& q.max is None
        &&& q.granularity == 8
        &&& q.anchors@.len() == 0
        &&& q.allow_abstain
    }
}

/// The request with several questions, or the one with a single question.
pub open spec fn warms(r: DecideRequest, single: bool) -> bool {
    &&& r.model is None
    &&& r.state@ == warm_state()
    &&& r.temperature == ONE
    &&& r.mode == Mode::Shared
    &&& r.layout == Layout::StateFirst
    &&& r.expand == Expand::Probes
    &&& !r.compact_state
    &&& if single {
        &&& r.questions@.len() == 1
        &&& warm_question(r.questions@[0], "vip"@, QType::Boolean, "Is the customer premium?"@)
        &&& r.questions@[0].1->Ok_0.criteria is None
    } else {
        &&& r.questions@.len() == 2
        &&& warm_question(r.questions@[0], "urgent"@, QType::Boolean, "Is the order urgent?"@)
        &&& r.questions@[0].1->Ok_0.criteria is None
        &&& warm_question(r.questions@[1], "item"@, QType::Choice, "Pick the first item."@)
        &&& r.questions@[1].1->Ok_0.criteria matches Some(c) && c@ == warm_items()
    }
}

fn text_value(s: &str) -> (r: Value)
    ensures
        r@ == Json::Str(s@),
{
    Value::Str(s.to_owned())
}

fn state() -> (r: Value)
    ensures
        r@ == warm_state(),
{
    let mut items: Vec<Value> = Vec::new();
    items.push(text_value("latte"));
    items.push(text_value("pane"));
    items.push(text_value("pasta"));
    proof {
        value::lemma_jsons(items@);
        assert(value::jsons(items@) =~= seq![Json::Str("latte"@), Json::Str("pane"@), Json::Str("pasta"@)]);
    }
    let mut m: Vec<(String, Value)> = Vec::new();
    value::push_field(&mut m, "order", text_value("warmup"));
    value::push_field(&mut m, "items", Value::Array(items));
    value::push_field(&mut m, "note", text_value(NOTE));
    proof {
        assert(value::fields(m@) =~= warm_state()->Object_0);
    }
    Value::Object(m)
}

fn ask(name: &str, qtype: QType, instructions: &str, criteria: Option<Value>) -> (r: schema::Asked)
    ensures
        warm_question(r, name@, qtype, instructions@),
        r.1->Ok_0.criteria == criteria,
{
    (
        name.to_owned(),
        Ok(
            Question {
                qtype,
                instructions: instructions.to_owned(),
                criteria,
                min: None,
                max: None,
                granularity: schema::default_granularity(),
                anchors: Vec::new(),
                allow_abstain: true,
            },
        ),
    )
}

/// One of the two requests.
pub fn warmup_request(single: bool) -> (r: DecideRequest)
    ensures
        warms(r, single),
{
    let mut questions: Vec<schema::Asked> = Vec::new();
    if single {
        questions.push(ask("vip", QType::Boolean, "Is the customer premium?", None));
    } else {
        questions.push(ask("urgent", QType::Boolean, "Is the order urgent?", None));
        let mut m: Vec<(String, Value)> = Vec::new();
        value::push_field(&mut m, "c0", text_value("latte"));
        value::push_field(&mut m, "c1", text_value("pane"));
        proof {
            assert(value::fields(m@) =~= warm_items()->Object_0);
        }
        questions.push(ask("item", QType::Choice, "Pick the first item.", Some(Value::Object(m))));
    }
    DecideRequest {
        model: None,
        state: state(),
        questions,
        temperature: ONE,
        mode: Mode::Shared,
        layout: Layout::StateFirst,
        expand: Expand::Probes,
        compact_state: false,
    }
}

/// Both requests are in order, so nothing but the backend can fail a warm-up.
pub proof fn law_warmup_is_valid(r: DecideRequest, single: bool)
    requires
        warms(r, single),
    ensures
        r.questions_ok(),
        r.temperature_ok(),
{
    reveal_strlit("vip");
    reveal_strlit("urgent");
    reveal_strlit("item");
    assert forall|i: int| 0 <= i < r.questions@.len() implies schema::asked_ok(#[trigger] r.questions@[i]) by {
        let name = r.questions@[i].0@;
        assert forall|k: int| 0 <= k < name.len() implies name[k] != TAG by {}
        if !single && i == 1 {
            let c = r.questions@[1].1->Ok_0.criteria->0;
            assert(value::json(c) == warm_items());
            if let Value::Object(m) = c {
                value::lemma_fields(m@);
            }
        }
    }
}

/// A request of a warm-up was decided, which left `f` of the engine `o`.
pub open spec fn warmed<B: Backend>(o: Engine<B>, f: Engine<B>, single: bool, d: Decided) -> bool {
    exists|r: DecideRequest| #[trigger] warms(r, single) && decide::decided(o, f, r, d)
}

/// A request of a warm-up was not decided for `e`, which left `f` of the engine `o`.
pub open spec fn stayed_cold<B: Backend>(o: Engine<B>, f: Engine<B>, single: bool, e: EngineError) -> bool {
    exists|r: DecideRequest| #[trigger] warms(r, single) && decide::undecided(o, f, r, e)
}

impl<B: Backend> Engine<B> {
    /// Run the hot paths once: the request with several questions, then the
    /// one with a single question.
    pub fn warmup(&mut self) -> (r: Result<(), EngineError>)
        requires
            old(self).kv.wf(),
            decide::MAX_ITEMS * old(self).kv.n_ctx <= usize::MAX,
        ensures
            final(self).kv.wf(),
            final(self).kv.n_seq == old(self).kv.n_seq,
            final(self).kv.n_ctx == old(self).kv.n_ctx,
            final(self).letter_ids == old(self).letter_ids,
            final(self).frame == old(self).frame,
            final(self).head == old(self).head,
            final(self).model_id == old(self).model_id,
            r is Ok ==> exists|mid: Engine<B>, d: Decided, e: Decided| #[trigger]
                warmed(*old(self), mid, false, d) && #[trigger] warmed(mid, *final(self), true, e),
            r matches Err(e) ==> {
                &&& !(e is Schema)
                &&& stayed_cold(*old(self), *final(self), false, e) || exists|mid: Engine<B>, d: Decided| #[trigger]
                    warmed(*old(self), mid, false, d) && stayed_cold(mid, *final(self), true, e)
            },
    {
        let several: DecideRequest = warmup_request(false);
        let one: DecideRequest = warmup_request(true);
        proof {
            law_warmup_is_valid(several, false);
            law_warmup_is_valid(one, true);
        }
        let ghost o = *self;
        let first: Result<Decided, EngineError> = self.decide(&several);
        let ghost mid = *self;
        match first {
            Ok(d) => {
                proof {
                    assert(warms(several, false));
                    assert(warmed(o, mid, false, d));
                }
            },
            Err(e) => {
                proof {
                    assert(warms(several, false));
                    assert(stayed_cold(o, mid, false, e));
                }
                return Err(e);
            },
        }
        match self.decide(&one) {
            Ok(d) => {
                proof {
                    assert(warms(one, true));
                    assert(warmed(mid, *self, true, d));
                }
                Ok(())
            },
            Err(e) => {
                proof {
                    assert(warms(one, true));
                    assert(stayed_cold(mid, *self, true, e));
                }
                Err(e)
            },
        }
    }
}

} // verus!
