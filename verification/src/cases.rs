//! What cases promise: how a case and its variants become requests, and what of
//! an answer a report shows.
use vstd::prelude::*;

use crate::engine;
use crate::evaluate;
use crate::evaluate::CaseRequest;
use crate::schema::{Expand, Layout};
use crate::text;
use crate::value;
use crate::value::Json;

verus! {

/// Names in this library that part by their lengths or first letters.
proof fn lemma_names()
    ensures
        "state"@ != "question"@,
        "state"@ != "criteria"@,
        "question"@ != "criteria"@,
{
    reveal_strlit("state");
    reveal_strlit("question");
    reveal_strlit("criteria");
    assert("state"@.len() == 5 && "question"@.len() == 8 && "criteria"@.len() == 8);
    assert("question"@[0] == 'q' && "criteria"@[0] == 'c');
}

proof fn lemma_only(k: Seq<char>, j: Json)
    ensures
        value::lookup(evaluate::only(k, j), k) == Some(j),
        forall|x: Seq<char>| x != k ==> #[trigger] value::lookup(evaluate::only(k, j), x) is None,
{
    let m = seq![(k, j)];
    value::lemma_is_place(m, k, 0);
    assert forall|x: Seq<char>| x != k implies #[trigger] value::lookup(evaluate::only(k, j), x) is None by {
        value::lemma_place(m, x);
    }
}

/// The members of an answer in a report, for the names asked for.
proof fn lemma_brief(ans: Json, ks: Seq<Seq<char>>)
    ensures
        value::distinct(evaluate::brief_of(ans, ks)),
        forall|k: Seq<char>|
            #[trigger] value::member(evaluate::brief_of(ans, ks), k) == (if ks.contains(k) {
                value::lookup(ans, k)
            } else {
                None
            }),
    decreases ks.len(),
{
    let b = evaluate::brief_of(ans, ks);
    if ks.len() == 0 {
        assert forall|k: Seq<char>| #[trigger] value::member(b, k) == (if ks.contains(k) {
            value::lookup(ans, k)
        } else {
            None
        }) by {
            value::lemma_place(b, k);
        }
    } else {
        let d = ks.drop_last();
        lemma_brief(ans, d);
        let m = evaluate::brief_of(ans, d);
        if let Some(v) = value::lookup(ans, ks.last()) {
            value::law_with(m, ks.last(), v);
        }
        assert forall|k: Seq<char>| #[trigger] value::member(b, k) == (if ks.contains(k) {
            value::lookup(ans, k)
        } else {
            None
        }) by {
            assert(value::member(m, k) == (if d.contains(k) {
                value::lookup(ans, k)
            } else {
                None
            }));
            if ks.contains(k) && k != ks.last() {
                let i = choose|i: int| 0 <= i < ks.len() && ks[i] == k;
                assert(d[i] == k);
            }
            if d.contains(k) {
                let i = choose|i: int| 0 <= i < d.len() && d[i] == k;
                assert(ks[i] == k);
            }
            assert(ks[ks.len() - 1] == ks.last());
        }
    }
}

/// What a report shows of an answer is the answer's own choice, boolean, level,
/// score, value and status, as far as it has them, and nothing more.
pub proof fn law_brief(ans: Json, k: Seq<char>)
    ensures
        ({
            let b = Json::Object(evaluate::brief_of(ans, evaluate::answer_keys()));
            if k == "choice"@ || k == "boolean"@ || k == "level"@ || k == "score"@ || k == "value"@ || k == "status"@ {
                value::lookup(b, k) == value::lookup(ans, k)
            } else {
                value::lookup(b, k) is None
            }
        }),
{
    let ks = evaluate::answer_keys();
    lemma_brief(ans, ks);
    assert(ks[0] == "choice"@ && ks[1] == "boolean"@ && ks[2] == "level"@);
    assert(ks[3] == "score"@ && ks[4] == "value"@ && ks[5] == "status"@);
}

/// The pick of an answer is its choice; failing that its boolean, then its
/// level; failing all three its score, then its value, as numbers.
pub proof fn law_pick(ans: Json)
    ensures
        ({
            let set = evaluate::first_set(ans, seq!["choice"@, "boolean"@, "level"@]);
            let num = evaluate::first_number(ans, seq!["score"@, "value"@]);
            let (c, b, l) = (
                value::index(ans, "choice"@),
                value::index(ans, "boolean"@),
                value::index(ans, "level"@),
            );
            &&& c != Json::Null ==> set == Some(c)
            &&& c == Json::Null && b != Json::Null ==> set == Some(b)
            &&& c == Json::Null && b == Json::Null && l != Json::Null ==> set == Some(l)
            &&& c == Json::Null && b == Json::Null && l == Json::Null ==> set is None
            &&& value::index(ans, "score"@) matches Json::Number(t) ==> num == Some(t)
            &&& !(value::index(ans, "score"@) is Number) ==> (value::index(ans, "value"@) matches Json::Number(t) ==> num
                == Some(t))
            &&& !(value::index(ans, "score"@) is Number) && !(value::index(ans, "value"@) is Number) ==> num is None
        }),
{
    let ks = seq!["choice"@, "boolean"@, "level"@];
    assert(ks.skip(1) =~= seq!["boolean"@, "level"@]);
    assert(seq!["boolean"@, "level"@].skip(1) =~= seq!["level"@]);
    assert(seq!["level"@].skip(1) =~= Seq::empty());
    assert(seq!["score"@, "value"@].skip(1) =~= seq!["value"@]);
    assert(seq!["value"@].skip(1) =~= Seq::empty());
    reveal_with_fuel(evaluate::first_set, 4);
    reveal_with_fuel(evaluate::first_number, 3);
}

proof fn lemma_overlaid(dst: Seq<(Seq<char>, Json)>, src: Seq<(Seq<char>, Json)>)
    requires
        value::distinct(dst),
        value::distinct(src),
    ensures
        value::distinct(evaluate::overlaid(dst, src)),
        forall|k: Seq<char>|
            #[trigger] value::member(evaluate::overlaid(dst, src), k) == (match value::member(src, k) {
                Some(v) => Some(v),
                None => value::member(dst, k),
            }),
    decreases src.len(),
{
    let o = evaluate::overlaid(dst, src);
    if src.len() > 0 {
        let d = src.drop_last();
        assert(value::distinct(d)) by {
            assert forall|i: int, j: int| 0 <= i < j < d.len() implies (#[trigger] d[i]).0 != (#[trigger] d[j]).0 by {
                assert(src[i].0 != src[j].0);
            }
        }
        lemma_overlaid(dst, d);
        let last = src.last();
        value::law_with(evaluate::overlaid(dst, d), last.0, last.1);
        assert forall|k: Seq<char>| #[trigger] value::member(o, k) == (match value::member(src, k) {
            Some(v) => Some(v),
            None => value::member(dst, k),
        }) by {
            value::lemma_place(src, k);
            value::lemma_place(d, k);
            assert(value::member(evaluate::overlaid(dst, d), k) == (match value::member(d, k) {
                Some(v) => Some(v),
                None => value::member(dst, k),
            }));
            if k == last.0 {
                value::lemma_nth(src, src.len() - 1);
            } else {
                assert(value::place(src, k) == value::place(d, k));
                if let Some(i) = value::place(d, k) {
                    assert(d[i] == src[i]);
                }
            }
        }
    } else {
        assert forall|k: Seq<char>| #[trigger] value::member(o, k) == (match value::member(src, k) {
            Some(v) => Some(v),
            None => value::member(dst, k),
        }) by {
            value::lemma_place(src, k);
        }
    }
}

/// A variant is its case with the variant's own state and the fields of its own
/// question in their places; everything that the variant does not name is the
/// case's.
pub proof fn law_merged(case: Seq<(Seq<char>, Json)>, var: Json, k: Seq<char>)
    requires
        value::distinct(case),
        value::index(Json::Object(case), "question"@) matches Json::Object(q) && value::distinct(q),
        value::index(var, "question"@) matches Json::Object(q) ==> value::distinct(q),
    ensures
        ({
            let (c, m) = (Json::Object(case), evaluate::merged(Json::Object(case), var));
            let (q, vq) = (value::index(m, "question"@), value::index(var, "question"@));
            &&& value::lookup(var, "state"@) matches Some(s) ==> value::lookup(m, "state"@) == Some(s)
            &&& value::lookup(var, "state"@) is None ==> value::lookup(m, "state"@) == value::lookup(c, "state"@)
            &&& k != "state"@ && k != "question"@ ==> value::lookup(m, k) == value::lookup(c, k)
            &&& value::lookup(vq, k) matches Some(v) ==> value::lookup(q, k) == Some(v)
            &&& value::lookup(vq, k) is None ==> value::lookup(q, k) == value::lookup(
                value::index(c, "question"@),
                k,
            )
        }),
{
    lemma_names();
    let c = Json::Object(case);
    let a = match value::lookup(var, "state"@) {
        Some(s) => {
            value::law_with(case, "state"@, s);
            evaluate::set_in(c, "state"@, s)
        },
        None => c,
    };
    assert(value::distinct(a->Object_0));
    assert(value::index(a, "question"@) == value::index(c, "question"@));
    let cq = value::index(c, "question"@);
    match value::lookup(var, "question"@) {
        Some(vq) => {
            let q = evaluate::reworded(cq, vq);
            value::law_with(a->Object_0, "question"@, q);
            if let Json::Object(src) = vq {
                lemma_overlaid(cq->Object_0, src);
                assert(value::member(evaluate::overlaid(cq->Object_0, src), k) == (match value::member(src, k) {
                    Some(v) => Some(v),
                    None => value::member(cq->Object_0, k),
                }));
            }
        },
        None => {},
    }
}

/// The generated variants of a case: a choice with the same options in the
/// reverse order, the same instructions behind a preface, and the same state
/// with a note that has nothing to do with it. Each changes that and nothing
/// else.
pub proof fn law_probes(case: Json)
    ensures
        ({
            let q = value::index(case, "question"@);
            let (r, w, n) = (
                evaluate::reversal(q),
                evaluate::rewording(q),
                evaluate::noise(value::index(case, "state"@)),
            );
            &&& evaluate::probes_of(case) == r + w + n
            &&& r.len() <= 1 && w.len() <= 1 && n.len() <= 1
            &&& value::index(q, "type"@) == Json::Str("choice"@) ==> match value::index(q, "criteria"@) {
                Json::Object(m) => r.len() == 1 && r[0].0 == "option_reversal"@ && value::lookup(r[0].1, "state"@) is None
                    && (value::index(value::index(r[0].1, "question"@), "criteria"@) matches Json::Object(x) && x.len()
                    == m.len() && forall|i: int| 0 <= i < m.len() ==> #[trigger] x[i] == m[m.len() - 1 - i]),
                Json::Array(a) => r.len() == 1 && r[0].0 == "option_reversal"@ && value::lookup(r[0].1, "state"@) is None
                    && (value::index(value::index(r[0].1, "question"@), "criteria"@) matches Json::Array(x) && x.len()
                    == a.len() && forall|i: int| 0 <= i < a.len() ==> #[trigger] x[i] == a[a.len() - 1 - i]),
                _ => r.len() == 0,
            }
            &&& value::index(q, "type"@) != Json::Str("choice"@) ==> r.len() == 0
            &&& value::index(q, "instructions"@) matches Json::Str(s) ==> (s.len() > 0 ==> {
                &&& w.len() == 1
                &&& w[0].0 == "criterion_wrapper"@
                &&& value::lookup(w[0].1, "state"@) is None
                &&& (value::index(value::index(w[0].1, "question"@), "instructions"@) matches Json::Str(t)
                    && s.is_suffix_of(t) && t.len() > s.len())
            })
            &&& value::index(case, "state"@) matches Json::Str(s) ==> {
                &&& n.len() == 1
                &&& n[0].0 == "irrelevant_context"@
                &&& value::lookup(n[0].1, "question"@) is None
                &&& (value::index(n[0].1, "state"@) matches Json::Str(t) && s.is_prefix_of(t) && text::holds(
                    t,
                    evaluate::IRRELEVANT_NOTE@,
                ))
            }
            &&& value::index(case, "state"@) matches Json::Object(m) ==> {
                &&& n.len() == 1
                &&& n[0].0 == "irrelevant_context"@
                &&& value::lookup(n[0].1, "question"@) is None
                &&& value::index(n[0].1, "state"@) is Object
                &&& value::distinct(m) ==> value::lookup(value::index(n[0].1, "state"@), "unrelated_note"@) == Some(
                    Json::Str(evaluate::IRRELEVANT_NOTE@),
                )
                &&& value::distinct(m) ==> forall|k: Seq<char>|
                    k != "unrelated_note"@ ==> #[trigger] value::lookup(value::index(n[0].1, "state"@), k)
                        == value::lookup(Json::Object(m), k)
            }
        }),
{
    lemma_names();
    let q = value::index(case, "question"@);
    match value::index(q, "criteria"@) {
        Json::Object(m) => {
            let x = Json::Object(m.reverse());
            lemma_only("criteria"@, x);
            lemma_only("question"@, evaluate::only("criteria"@, x));
        },
        Json::Array(a) => {
            let x = Json::Array(a.reverse());
            lemma_only("criteria"@, x);
            lemma_only("question"@, evaluate::only("criteria"@, x));
        },
        _ => {},
    }
    if let Json::Str(s) = value::index(q, "instructions"@) {
        let t = evaluate::WRAPPER@ + s;
        lemma_only("instructions"@, Json::Str(t));
        lemma_only("question"@, evaluate::only("instructions"@, Json::Str(t)));
        assert(s =~= t.subrange(t.len() - s.len(), t.len() as int));
        reveal_strlit("Using only the supplied evidence, decide: ");
    }
    match value::index(case, "state"@) {
        Json::Str(s) => {
            let t = s + "\n\n"@ + evaluate::IRRELEVANT_NOTE@;
            lemma_only("state"@, Json::Str(t));
            assert(s =~= t.subrange(0, s.len() as int));
            assert(t =~= s + "\n\n"@ + evaluate::IRRELEVANT_NOTE@ + Seq::empty());
            text::lemma_holds(s + "\n\n"@, evaluate::IRRELEVANT_NOTE@, Seq::empty());
        },
        Json::Object(m) => {
            let w = value::with(m, "unrelated_note"@, Json::Str(evaluate::IRRELEVANT_NOTE@));
            lemma_only("state"@, Json::Object(w));
            if value::distinct(m) {
                value::law_with(m, "unrelated_note"@, Json::Str(evaluate::IRRELEVANT_NOTE@));
                assert forall|k: Seq<char>| k != "unrelated_note"@ implies #[trigger] value::lookup(Json::Object(w), k)
                    == value::lookup(Json::Object(m), k) by {
                    assert(value::member(w, k) == value::member(m, k));
                }
            }
        },
        _ => {},
    }
}

/// The request of a case asks its own question over its own state. A layout that
/// is given wins over the one that the case names; abstention is switched off
/// where asked, and nothing else of the question changes.
pub proof fn law_request(r: CaseRequest, case: Json, no_abstain: bool, layout: Option<Layout>)
    requires
        evaluate::asks(r, case, no_abstain, layout),
    ensures
        r.state@ == value::index(case, "state"@),
        !no_abstain ==> r.question@ == value::index(case, "question"@),
        value::index(case, "question"@) matches Json::Object(m) ==> (value::distinct(m) && no_abstain ==> {
            &&& value::lookup(r.question@, "allow_abstain"@) == Some(Json::Bool(false))
            &&& forall|k: Seq<char>|
                k != "allow_abstain"@ ==> #[trigger] value::lookup(r.question@, k) == value::lookup(Json::Object(m), k)
        }),
        layout matches Some(l) ==> r.layout == l,
        layout is None ==> (value::index(case, "layout"@) matches Json::Str(s) ==> forall|l: Layout|
            s == #[trigger] engine::layout_name(l) ==> r.layout == l),
        layout is None && value::index(case, "layout"@) == Json::Null ==> r.layout == Layout::Auto,
        value::index(case, "expand"@) == Json::Str("pages"@) ==> r.expand == Expand::Pages,
        value::index(case, "expand"@) == Json::Null ==> r.expand == Expand::Probes,
        value::index(case, "compact_state"@) == Json::Bool(true) ==> r.compact_state,
        !(value::index(case, "compact_state"@) is Bool) ==> !r.compact_state,
        value::index(case, "compact_state"@) == Json::Bool(false) ==> !r.compact_state,
{
    if let Json::Object(m) = value::index(case, "question"@) {
        if value::distinct(m) && no_abstain {
            value::law_with(m, "allow_abstain"@, Json::Bool(false));
            let w = value::with(m, "allow_abstain"@, Json::Bool(false));
            assert forall|k: Seq<char>| k != "allow_abstain"@ implies #[trigger] value::lookup(r.question@, k)
                == value::lookup(Json::Object(m), k) by {
                assert(value::member(w, k) == value::member(m, k));
            }
        }
    }
    assert forall|l: Layout| true implies evaluate::layout_named(Some(#[trigger] engine::layout_name(l))) == Some(l) by {
        law_layout_names(l);
    }
}

/// Every layout is found by its own name.
pub proof fn law_layout_names(l: Layout)
    ensures
        evaluate::layout_named(Some(engine::layout_name(l))) == Some(l),
{
    reveal_strlit("auto");
    reveal_strlit("state_first");
    reveal_strlit("question_first");
    reveal_strlit("header");
    reveal_strlit("catalog");
    assert("auto"@.len() == 4 && "state_first"@.len() == 11 && "question_first"@.len() == 14);
    assert("header"@.len() == 6 && "catalog"@.len() == 7);
}

/// A trimmed text is empty just where it is white space throughout.
pub proof fn law_blank(s: Seq<char>)
    ensures
        text::trimmed(s).len() == 0 <==> forall|i: int| 0 <= i < s.len() ==> text::space(#[trigger] s[i]),
{
    lemma_start(s);
    let t = text::trimmed_start(s);
    if t.len() > 0 {
        lemma_end(t);
        let n = s.len() - t.len();
        assert(t[0] == s[n]);
        assert(!text::space(s[n]));
    }
}

proof fn lemma_start(s: Seq<char>)
    ensures
        ({
            let t = text::trimmed_start(s);
            &&& t.len() <= s.len()
            &&& t == s.skip(s.len() - t.len())
            &&& t.len() > 0 ==> !text::space(t[0])
            &&& forall|i: int| 0 <= i < s.len() - t.len() ==> text::space(#[trigger] s[i])
        }),
    decreases s.len(),
{
    if s.len() > 0 && text::space(s[0]) {
        let r = s.skip(1);
        lemma_start(r);
        let t = text::trimmed_start(r);
        assert(t =~= s.skip(s.len() - t.len()));
        assert forall|i: int| 0 <= i < s.len() - t.len() implies text::space(#[trigger] s[i]) by {
            if i > 0 {
                assert(text::space(r[i - 1]));
            }
        }
    } else {
        assert(s.skip(0) =~= s);
    }
}

proof fn lemma_end(s: Seq<char>)
    requires
        s.len() > 0,
        !text::space(s[0]),
    ensures
        text::trimmed_end(s).len() > 0,
    decreases s.len(),
{
    if text::space(s.last()) {
        assert(s.len() > 1);
        assert(s.drop_last()[0] == s[0]);
        lemma_end(s.drop_last());
    }
}

/// The lines of a file that hold cases are those that are neither white space
/// throughout nor start with a `#`: every one of them, in order, and no other.
pub proof fn law_case_lines(ls: Seq<Seq<char>>)
    ensures
        evaluate::kept_lines(ls) == ls.filter(
            |l: Seq<char>| l.len() > 0 && l[0] != '#' && !(forall|i: int| 0 <= i < l.len() ==> text::space(#[trigger] l[i])),
        ),
    decreases ls.len(),
{
    reveal(Seq::filter);
    if ls.len() > 0 {
        law_case_lines(ls.drop_last());
        law_blank(ls.last());
    }
}

/// A row of a report names its case and its question's type, and holds the
/// verdict, the answer, how sure it was and how long it took, each under its
/// own name.
pub proof fn law_row(case: Json, ok: Json, confidence: Json, ms: Json, answer: Json)
    ensures
        ({
            let r = evaluate::row_of(case, ok, confidence, ms, answer);
            &&& value::index(r, "id"@) == value::index(case, "id"@)
            &&& value::index(r, "type"@) == value::index(value::index(case, "question"@), "type"@)
            &&& value::index(r, "ok"@) == ok
            &&& value::index(r, "confidence"@) == confidence
            &&& value::index(r, "ms"@) == ms
            &&& value::index(r, "answer"@) == answer
        }),
        value::index(evaluate::skip_row(case), "ok"@) == Json::Null,
{
    let r = evaluate::row_of(case, ok, confidence, ms, answer)->Object_0;
    let k = evaluate::skip_row(case)->Object_0;
    reveal_strlit("id");
    reveal_strlit("type");
    reveal_strlit("ok");
    reveal_strlit("confidence");
    reveal_strlit("ms");
    reveal_strlit("answer");
    assert("id"@.len() == 2 && "type"@.len() == 4 && "ok"@.len() == 2 && "confidence"@.len() == 10);
    assert("ms"@.len() == 2 && "answer"@.len() == 6);
    assert("id"@[0] == 'i' && "ok"@[0] == 'o' && "ms"@[0] == 'm');
    assert(value::distinct(r));
    assert(value::distinct(k));
    value::lemma_nth(r, 0);
    value::lemma_nth(r, 1);
    value::lemma_nth(r, 2);
    value::lemma_nth(r, 3);
    value::lemma_nth(r, 4);
    value::lemma_nth(r, 5);
    value::lemma_nth(k, 2);
}

/// A case is left out just where abstention is switched off and the case cannot
/// be answered without it.
pub proof fn law_skipped(case: Json, no_abstain: bool)
    ensures
        !no_abstain ==> !evaluate::skipped(case, no_abstain),
        value::lookup(case, "requires_abstain"@) == Some(Json::Bool(true)) && no_abstain ==> evaluate::skipped(
            case,
            no_abstain,
        ),
        value::lookup(case, "requires_abstain"@) != Some(Json::Bool(true)) ==> !evaluate::skipped(case, no_abstain),
{
}

/// What goes to a server is the case's request: its state, its question under
/// the one name, and how to ask it.
pub proof fn law_payload(r: CaseRequest)
    ensures
        ({
            let p = evaluate::payload_of(r);
            &&& value::index(p, "state"@) == r.state@
            &&& value::index(value::index(p, "questions"@), "q"@) == r.question@
            &&& value::index(p, "layout"@) == Json::Str(engine::layout_name(r.layout))
            &&& value::index(p, "expand"@) == Json::Str("pages"@) <==> r.expand == Expand::Pages
            &&& value::index(p, "expand"@) == Json::Str("probes"@) <==> r.expand == Expand::Probes
            &&& value::index(p, "compact_state"@) == Json::Bool(r.compact_state)
        }),
{
    let m = evaluate::payload_of(r)->Object_0;
    reveal_strlit("state");
    reveal_strlit("questions");
    reveal_strlit("temperature");
    reveal_strlit("mode");
    reveal_strlit("layout");
    reveal_strlit("expand");
    reveal_strlit("compact_state");
    reveal_strlit("pages");
    reveal_strlit("probes");
    assert("state"@.len() == 5 && "questions"@.len() == 9 && "temperature"@.len() == 11 && "mode"@.len() == 4);
    assert("layout"@.len() == 6 && "expand"@.len() == 6 && "compact_state"@.len() == 13);
    assert("layout"@[0] == 'l' && "expand"@[0] == 'e');
    assert("pages"@.len() == 5 && "probes"@.len() == 6);
    assert(value::distinct(m));
    value::lemma_nth(m, 0);
    value::lemma_nth(m, 1);
    value::lemma_nth(m, 4);
    value::lemma_nth(m, 5);
    value::lemma_nth(m, 6);
    lemma_only("q"@, r.question@);
}

/// A file is read line by line: what stands before a line's end is a line of its
/// own, without a carriage return, and what follows is read the same way.
pub proof fn law_lines(a: Seq<char>, b: Seq<char>)
    requires
        forall|i: int| 0 <= i < a.len() ==> #[trigger] a[i] != '\n',
    ensures
        text::lines_in(a.push('\n') + b) == seq![text::strip_cr(a)] + text::lines_in(b),
        a.len() > 0 ==> text::lines_in(a) == seq![a],
        text::lines_in(Seq::empty()) == Seq::<Seq<char>>::empty(),
        a.len() > 0 && a.last() != '\r' ==> text::strip_cr(a) == a,
        text::strip_cr(a.push('\r')) == a,
{
    let s = a.push('\n') + b;
    let n = a.len() as int;
    text::lemma_line_end(s, n);
    assert(s.take(n) =~= a);
    assert(s.skip(n + 1) =~= b);
    text::lemma_line_end(a, n);
    assert(a.push('\r').drop_last() =~= a);
}

} // verus!
