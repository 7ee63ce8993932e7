//! JSON values as the library holds them: numbers keep the text they print as,
//! objects keep the order of their keys.
use vstd::prelude::*;

use crate::text;

verus! {

#[derive(Debug, PartialEq)]
pub enum Value {
    Null,
    Bool(bool),
    Number(String),
    Str(String),
    Array(Vec<Value>),
    Object(Vec<(String, Value)>),
}

/// The value that a `Value` stands for.
pub enum Json {
    Null,
    Bool(bool),
    Number(Seq<char>),
    Str(Seq<char>),
    Array(Seq<Json>),
    Object(Seq<(Seq<char>, Json)>),
}

pub open spec fn json(v: Value) -> Json
    decreases v,
{
    match v {
        Value::Null => Json::Null,
        Value::Bool(b) => Json::Bool(b),
        Value::Number(s) => Json::Number(s@),
        Value::Str(s) => Json::Str(s@),
        Value::Array(a) => Json::Array(jsons(a@)),
        Value::Object(m) => Json::Object(fields(m@)),
    }
}

pub open spec fn jsons(a: Seq<Value>) -> Seq<Json>
    decreases a,
{
    if a.len() == 0 {
        Seq::empty()
    } else {
        jsons(a.drop_last()).push(json(a.last()))
    }
}

pub open spec fn fields(m: Seq<(String, Value)>) -> Seq<(Seq<char>, Json)>
    decreases m,
{
    if m.len() == 0 {
        Seq::empty()
    } else {
        fields(m.drop_last()).push((m.last().0@, json(m.last().1)))
    }
}

impl View for Value {
    type V = Json;

    open spec fn view(&self) -> Json {
        json(*self)
    }
}

pub proof fn lemma_jsons(a: Seq<Value>)
    ensures
        jsons(a).len() == a.len(),
        forall|i: int| 0 <= i < a.len() ==> #[trigger] jsons(a)[i] == json(a[i]),
    decreases a.len(),
{
    if a.len() > 0 {
        lemma_jsons(a.drop_last());
    }
}

pub proof fn lemma_fields(m: Seq<(String, Value)>)
    ensures
        fields(m).len() == m.len(),
        forall|i: int| 0 <= i < m.len() ==> #[trigger] fields(m)[i] == (m[i].0@, json(m[i].1)),
    decreases m.len(),
{
    if m.len() > 0 {
        lemma_fields(m.drop_last());
    }
}

/// An array is larger than its elements.
pub proof fn lemma_element(v: &Value, a: Seq<Value>, i: int)
    requires
        *v is Array,
        v->Array_0@ == a,
        0 <= i < a.len(),
    ensures
        decreases_to!(v => a[i]),
{
    assert(decreases_to!(v => v->Array_0));
    assert(decreases_to!(v->Array_0 => v->Array_0@));
    assert(decreases_to!(a => a[i]));
}

/// An object is larger than its members.
pub proof fn lemma_field(v: &Value, m: Seq<(String, Value)>, i: int)
    requires
        *v is Object,
        v->Object_0@ == m,
        0 <= i < m.len(),
    ensures
        decreases_to!(v => m[i].1),
{
    assert(decreases_to!(v => v->Object_0));
    assert(decreases_to!(v->Object_0 => v->Object_0@));
    assert(decreases_to!(m => m[i]));
    assert(decreases_to!(m[i] => m[i].1));
}

/// A hexadecimal digit below 16.
pub open spec fn hex(d: int) -> char {
    if d < 10 {
        ('0' as u32 + d) as char
    } else {
        ('a' as u32 + d - 10) as char
    }
}

/// A character as a JSON string holds it.
pub open spec fn escaped(c: char) -> Seq<char> {
    let n = c as u32;
    if c == '"' {
        seq!['\\', '"']
    } else if c == '\\' {
        seq!['\\', '\\']
    } else if n == 0x8 {
        seq!['\\', 'b']
    } else if n == 0x9 {
        seq!['\\', 't']
    } else if n == 0xa {
        seq!['\\', 'n']
    } else if n == 0xc {
        seq!['\\', 'f']
    } else if n == 0xd {
        seq!['\\', 'r']
    } else if n < 0x20 {
        seq!['\\', 'u', '0', '0', hex(n as int / 16), hex(n as int % 16)]
    } else {
        seq![c]
    }
}

pub open spec fn all_escaped(s: Seq<char>) -> Seq<char>
    decreases s.len(),
{
    if s.len() == 0 {
        Seq::empty()
    } else {
        all_escaped(s.drop_last()) + escaped(s.last())
    }
}

/// `s` as a JSON string.
pub open spec fn quoted(s: Seq<char>) -> Seq<char> {
    seq!['"'] + all_escaped(s) + seq!['"']
}

/// `serde_json::to_string` on a `str`: the text between quotation marks, with
/// quotation marks, backslashes and control characters escaped, those without
/// a short form as `\u00` and two lower-case hexadecimal digits. It cannot
/// fail on a `str`.
#[verifier::external_body]
pub(crate) fn quote(s: &str) -> (r: String)
    ensures
        r@ == quoted(s@),
{
    serde_json::to_string(s).unwrap_or_default()
}

/// The compact JSON text of a value.
pub open spec fn json_text_of(j: Json) -> Seq<char>
    decreases j,
{
    match j {
        Json::Null => "null"@,
        Json::Bool(b) => if b {
            "true"@
        } else {
            "false"@
        },
        Json::Number(s) => s,
        Json::Str(s) => quoted(s),
        Json::Array(a) => "["@ + elements_text(a) + "]"@,
        Json::Object(m) => "{"@ + members_text(m) + "}"@,
    }
}

pub open spec fn elements_text(a: Seq<Json>) -> Seq<char>
    decreases a,
{
    if a.len() == 0 {
        Seq::empty()
    } else if a.len() == 1 {
        json_text_of(a.last())
    } else {
        elements_text(a.drop_last()) + ","@ + json_text_of(a.last())
    }
}

pub open spec fn members_text(m: Seq<(Seq<char>, Json)>) -> Seq<char>
    decreases m,
{
    if m.len() == 0 {
        Seq::empty()
    } else {
        let one = quoted(m.last().0) + ":"@ + json_text_of(m.last().1);
        if m.len() == 1 {
            one
        } else {
            members_text(m.drop_last()) + ","@ + one
        }
    }
}

/// The compact JSON text of a value.
pub fn json_text(v: &Value) -> (r: String)
    ensures
        r@ == json_text_of(v@),
    decreases v,
{
    match v {
        Value::Null => "null".to_owned(),
        Value::Bool(b) => if *b {
            "true".to_owned()
        } else {
            "false".to_owned()
        },
        Value::Number(s) => s.clone(),
        Value::Str(s) => quote(s.as_str()),
        Value::Array(a) => {
            let mut r: String = "[".to_owned();
            let mut i: usize = 0;
            proof {
                lemma_jsons(a@);
                assert(jsons(a@).take(0) =~= Seq::empty());
            }
            while i < a.len()
                invariant
                    i <= a@.len(),
                    *v == Value::Array(*a),
                    jsons(a@).len() == a@.len(),
                    forall|k: int| 0 <= k < a@.len() ==> #[trigger] jsons(a@)[k] == json(a@[k]),
                    r@ == "["@ + elements_text(jsons(a@).take(i as int)),
                decreases a@.len() - i,
            {
                let e: &Value = &a[i];
                proof {
                    lemma_element(v, a@, i as int);
                    let t = jsons(a@).take(i + 1);
                    assert(t.drop_last() =~= jsons(a@).take(i as int));
                    assert(t.last() == json(a@[i as int]));
                }
                if i > 0 {
                    r.append(",");
                }
                let one: String = json_text(e);
                r.append(one.as_str());
                i += 1;
                proof {
                    assert(r@ =~= "["@ + elements_text(jsons(a@).take(i as int)));
                }
            }
            r.append("]");
            proof {
                assert(jsons(a@).take(i as int) =~= jsons(a@));
            }
            r
        },
        Value::Object(m) => {
            let mut r: String = "{".to_owned();
            let mut i: usize = 0;
            proof {
                lemma_fields(m@);
                assert(fields(m@).take(0) =~= Seq::empty());
            }
            while i < m.len()
                invariant
                    i <= m@.len(),
                    *v == Value::Object(*m),
                    fields(m@).len() == m@.len(),
                    forall|k: int| 0 <= k < m@.len() ==> #[trigger] fields(m@)[k] == (m@[k].0@, json(m@[k].1)),
                    r@ == "{"@ + members_text(fields(m@).take(i as int)),
                decreases m@.len() - i,
            {
                let e: &(String, Value) = &m[i];
                proof {
                    lemma_field(v, m@, i as int);
                    let t = fields(m@).take(i + 1);
                    assert(t.drop_last() =~= fields(m@).take(i as int));
                    assert(t.last() == (m@[i as int].0@, json(m@[i as int].1)));
                }
                if i > 0 {
                    r.append(",");
                }
                let key: String = quote(e.0.as_str());
                r.append(key.as_str());
                r.append(":");
                let one: String = json_text(&e.1);
                r.append(one.as_str());
                i += 1;
                proof {
                    assert(r@ =~= "{"@ + members_text(fields(m@).take(i as int)));
                }
            }
            r.append("}");
            proof {
                assert(fields(m@).take(i as int) =~= fields(m@));
            }
            r
        },
    }
}

/// A string's own text, any other value's JSON.
pub open spec fn shown(j: Json) -> Seq<char> {
    match j {
        Json::Str(s) => s,
        _ => json_text_of(j),
    }
}

pub fn value_text(v: &Value) -> (r: String)
    ensures
        r@ == shown(v@),
{
    match v {
        Value::Str(s) => s.clone(),
        _ => json_text(v),
    }
}

/// Neither an array nor an object.
pub open spec fn scalar(j: Json) -> bool {
    !(j is Array) && !(j is Object)
}

pub fn is_scalar(v: &Value) -> (r: bool)
    ensures
        r == scalar(v@),
{
    match v {
        Value::Array(_) => false,
        Value::Object(_) => false,
        _ => true,
    }
}

/// Place of the first member named `k`.
pub open spec fn place(m: Seq<(Seq<char>, Json)>, k: Seq<char>) -> Option<int>
    decreases m.len(),
{
    if m.len() == 0 {
        None
    } else {
        match place(m.drop_last(), k) {
            Some(i) => Some(i),
            None => if m.last().0 == k {
                Some(m.len() - 1)
            } else {
                None
            },
        }
    }
}

pub proof fn lemma_place(m: Seq<(Seq<char>, Json)>, k: Seq<char>)
    ensures
        match place(m, k) {
            Some(i) => 0 <= i < m.len() && m[i].0 == k && forall|j: int| 0 <= j < i ==> (#[trigger] m[j]).0 != k,
            None => forall|j: int| 0 <= j < m.len() ==> (#[trigger] m[j]).0 != k,
        },
    decreases m.len(),
{
    if m.len() > 0 {
        lemma_place(m.drop_last(), k);
        assert forall|j: int| 0 <= j < m.len() - 1 implies m.drop_last()[j] == m[j] by {}
    }
}

/// The first place that names `k` is its place.
pub proof fn lemma_is_place(m: Seq<(Seq<char>, Json)>, k: Seq<char>, i: int)
    requires
        0 <= i < m.len(),
        m[i].0 == k,
        forall|j: int| 0 <= j < i ==> (#[trigger] m[j]).0 != k,
    ensures
        place(m, k) == Some(i),
{
    lemma_place(m, k);
}

/// The member named `k`.
pub open spec fn member(m: Seq<(Seq<char>, Json)>, k: Seq<char>) -> Option<Json> {
    match place(m, k) {
        Some(i) => Some(m[i].1),
        None => None,
    }
}

/// The place of member `k`.
pub fn place_of(m: &Vec<(String, Value)>, k: &str) -> (r: Option<usize>)
    ensures
        match r {
            Some(i) => i < m@.len() && place(fields(m@), k@) == Some(i as int),
            None => place(fields(m@), k@) is None,
        },
{
    proof {
        lemma_fields(m@);
        lemma_place(fields(m@), k@);
    }
    let mut i: usize = 0;
    while i < m.len()
        invariant
            i <= m@.len(),
            fields(m@).len() == m@.len(),
            forall|j: int| 0 <= j < m@.len() ==> #[trigger] fields(m@)[j] == (m@[j].0@, json(m@[j].1)),
            forall|j: int| 0 <= j < i ==> (#[trigger] fields(m@)[j]).0 != k@,
        decreases m@.len() - i,
    {
        if text::same(m[i].0.as_str(), k) {
            proof {
                assert(fields(m@)[i as int].0 == k@);
                lemma_is_place(fields(m@), k@, i as int);
            }
            return Some(i);
        }
        i += 1;
    }
    None
}

/// The member named `k`.
pub fn get<'a>(m: &'a Vec<(String, Value)>, k: &str) -> (r: Option<&'a Value>)
    ensures
        match r {
            Some(v) => member(fields(m@), k@) == Some(v@),
            None => member(fields(m@), k@) is None,
        },
{
    proof {
        lemma_fields(m@);
    }
    match place_of(m, k) {
        Some(i) => Some(&m[i].1),
        None => None,
    }
}

/// Add a member at the end.
pub fn push_field(m: &mut Vec<(String, Value)>, k: &str, v: Value)
    ensures
        fields(final(m)@) == fields(old(m)@).push((k@, v@)),
{
    let ghost o = m@;
    m.push((k.to_owned(), v));
    proof {
        assert(m@.drop_last() =~= o);
    }
}

/// `m` with `k` set to `j`: in its place where it has one, else at the end.
pub open spec fn with(m: Seq<(Seq<char>, Json)>, k: Seq<char>, j: Json) -> Seq<(Seq<char>, Json)> {
    match place(m, k) {
        Some(i) => m.update(i, (k, j)),
        None => m.push((k, j)),
    }
}

/// Set member `k`.
pub fn put(m: &mut Vec<(String, Value)>, k: &str, v: Value)
    ensures
        fields(final(m)@) == with(fields(old(m)@), k@, v@),
{
    proof {
        lemma_fields(m@);
        lemma_place(fields(m@), k@);
    }
    match place_of(m, k) {
        Some(i) => {
            m[i].1 = v;
        },
        None => {
            m.push((k.to_owned(), v));
        },
    }
    proof {
        lemma_fields(m@);
        assert(fields(m@) =~= with(fields(old(m)@), k@, v@));
    }
}

/// A copy of a value.
pub fn copy(v: &Value) -> (r: Value)
    ensures
        r@ == v@,
    decreases v,
{
    match v {
        Value::Null => Value::Null,
        Value::Bool(b) => Value::Bool(*b),
        Value::Number(s) => Value::Number(s.clone()),
        Value::Str(s) => Value::Str(s.clone()),
        Value::Array(a) => {
            let mut r: Vec<Value> = Vec::new();
            let mut i: usize = 0;
            while i < a.len()
                invariant
                    i <= a@.len(),
                    *v == Value::Array(*a),
                    r@.len() == i,
                    forall|k: int| 0 <= k < i ==> (#[trigger] r@[k])@ == a@[k]@,
                decreases a@.len() - i,
            {
                proof {
                    lemma_element(v, a@, i as int);
                }
                r.push(copy(&a[i]));
                i += 1;
            }
            proof {
                lemma_jsons(a@);
                lemma_jsons(r@);
                assert forall|k: int| 0 <= k < a@.len() implies jsons(r@)[k] == jsons(a@)[k] by {
                    assert(r@[k]@ == a@[k]@);
                }
                assert(jsons(r@) =~= jsons(a@));
            }
            Value::Array(r)
        },
        Value::Object(m) => {
            let mut r: Vec<(String, Value)> = Vec::new();
            let mut i: usize = 0;
            while i < m.len()
                invariant
                    i <= m@.len(),
                    *v == Value::Object(*m),
                    r@.len() == i,
                    forall|k: int| 0 <= k < i ==> (#[trigger] r@[k]).0@ == m@[k].0@ && r@[k].1@ == m@[k].1@,
                decreases m@.len() - i,
            {
                proof {
                    lemma_field(v, m@, i as int);
                }
                r.push((m[i].0.clone(), copy(&m[i].1)));
                i += 1;
            }
            proof {
                lemma_fields(m@);
                lemma_fields(r@);
                assert forall|k: int| 0 <= k < m@.len() implies fields(r@)[k] == fields(m@)[k] by {
                    assert(r@[k].0@ == m@[k].0@);
                }
                assert(fields(r@) =~= fields(m@));
            }
            Value::Object(r)
        },
    }
}

/// `m` without member `k`, the last member in its place.
pub open spec fn without(m: Seq<(Seq<char>, Json)>, k: Seq<char>) -> Seq<(Seq<char>, Json)> {
    match place(m, k) {
        Some(i) => m.update(i, m.last()).drop_last(),
        None => m,
    }
}

/// Remove member `k`, the last member taking its place.
pub fn take(m: &mut Vec<(String, Value)>, k: &str)
    ensures
        fields(final(m)@) == without(fields(old(m)@), k@),
{
    proof {
        lemma_fields(m@);
        lemma_place(fields(m@), k@);
    }
    if let Some(i) = place_of(m, k) {
        let e: (String, Value) = m.swap_remove(i);
    }
    proof {
        lemma_fields(m@);
        assert(fields(m@) =~= without(fields(old(m)@), k@));
    }
}

/// No two members have one name.
pub open spec fn distinct(m: Seq<(Seq<char>, Json)>) -> bool {
    forall|i: int, j: int| 0 <= i < j < m.len() ==> (#[trigger] m[i]).0 != (#[trigger] m[j]).0
}

/// Where names are distinct, every member is found under its own.
pub proof fn lemma_nth(m: Seq<(Seq<char>, Json)>, i: int)
    requires
        distinct(m),
        0 <= i < m.len(),
    ensures
        member(m, m[i].0) == Some(m[i].1),
{
    lemma_is_place(m, m[i].0, i);
}

/// Setting a member sets that one and no other.
pub proof fn law_with(m: Seq<(Seq<char>, Json)>, k: Seq<char>, j: Json)
    requires
        distinct(m),
    ensures
        distinct(with(m, k, j)),
        member(with(m, k, j), k) == Some(j),
        forall|x: Seq<char>| x != k ==> #[trigger] member(with(m, k, j), x) == member(m, x),
{
    let w = with(m, k, j);
    lemma_place(m, k);
    lemma_place(w, k);
    let at = match place(m, k) {
        Some(i) => i,
        None => m.len() as int,
    };
    lemma_is_place(w, k, at);
    assert forall|x: Seq<char>| x != k implies #[trigger] member(w, x) == member(m, x) by {
        lemma_place(m, x);
        lemma_place(w, x);
        match place(m, x) {
            Some(i) => {
                assert(w[i] == m[i]);
                lemma_is_place(w, x, i);
            },
            None => {
                if let Some(i) = place(w, x) {
                    if i < m.len() {
                        assert(m[i].0 != x);
                    }
                }
            },
        }
    }
}

/// Removing a member removes that one and no other.
pub proof fn law_without(m: Seq<(Seq<char>, Json)>, k: Seq<char>)
    requires
        distinct(m),
    ensures
        distinct(without(m, k)),
        member(without(m, k), k) is None,
        forall|x: Seq<char>| x != k ==> #[trigger] member(without(m, k), x) == member(m, x),
{
    let w = without(m, k);
    lemma_place(m, k);
    lemma_place(w, k);
    if let Some(at) = place(m, k) {
        let n = m.len() as int;
        assert forall|i: int| 0 <= i < w.len() implies (#[trigger] w[i]) == (if i == at { m[n - 1] } else { m[i] }) by {}
        assert forall|i: int, j: int| 0 <= i < j < w.len() implies (#[trigger] w[i]).0 != (#[trigger] w[j]).0 by {
            let (a, b) = (if i == at { n - 1 } else { i }, if j == at { n - 1 } else { j });
            if a < b {
                assert(m[a].0 != m[b].0);
            } else {
                assert(m[b].0 != m[a].0);
            }
        }
        assert(place(w, k) is None) by {
            if let Some(i) = place(w, k) {
                let a = if i == at {
                    n - 1
                } else {
                    i
                };
                if a < at {
                    assert(m[a].0 != m[at].0);
                } else {
                    assert(m[at].0 != m[a].0);
                }
            }
        }
        assert forall|x: Seq<char>| x != k implies #[trigger] member(w, x) == member(m, x) by {
            lemma_place(m, x);
            lemma_place(w, x);
            match place(m, x) {
                Some(i) => {
                    let a = if i == n - 1 {
                        at
                    } else {
                        i
                    };
                    assert(w[a] == m[i]);
                    if let Some(b) = place(w, x) {
                        if a < b {
                            assert(w[a].0 != w[b].0);
                        } else if b < a {
                            assert(w[b].0 != w[a].0);
                        }
                    } else {
                        assert(w[a].0 != x);
                    }
                },
                None => {
                    if let Some(i) = place(w, x) {
                        let a = if i == at {
                            n - 1
                        } else {
                            i
                        };
                        assert(m[a].0 != x);
                    }
                },
            }
        }
    }
}

/// The member of an object named `k`; none where there is none, or no object.
pub open spec fn lookup(j: Json, k: Seq<char>) -> Option<Json> {
    match j {
        Json::Object(m) => member(m, k),
        _ => None,
    }
}

/// As `lookup`, null for none.
pub open spec fn index(j: Json, k: Seq<char>) -> Json {
    match lookup(j, k) {
        Some(x) => x,
        None => Json::Null,
    }
}

/// The member of an object named `k`.
pub fn look<'a>(v: &'a Value, k: &str) -> (r: Option<&'a Value>)
    ensures
        match r {
            Some(x) => lookup(v@, k@) == Some(x@),
            None => lookup(v@, k@) is None,
        },
{
    match v {
        Value::Object(m) => get(m, k),
        _ => None,
    }
}

/// A copy of the member of an object named `k`; null for none.
pub fn copy_at(v: &Value, k: &str) -> (r: Value)
    ensures
        r@ == index(v@, k@),
{
    match look(v, k) {
        Some(x) => copy(x),
        None => Value::Null,
    }
}

/// The text of a string.
pub open spec fn text_in(j: Json) -> Option<Seq<char>> {
    match j {
        Json::Str(s) => Some(s),
        _ => None,
    }
}

/// The text of the string member named `k`.
pub fn str_at<'a>(v: &'a Value, k: &str) -> (r: Option<&'a str>)
    ensures
        match r {
            Some(t) => text_in(index(v@, k@)) == Some(t@),
            None => text_in(index(v@, k@)) is None,
        },
{
    match look(v, k) {
        Some(x) => match x {
            Value::Str(s) => Some(s.as_str()),
            _ => None,
        },
        None => None,
    }
}

/// The number member named `k`, as it prints.
pub open spec fn number_in(j: Json) -> Option<Seq<char>> {
    match j {
        Json::Number(s) => Some(s),
        _ => None,
    }
}

pub fn number_at(v: &Value, k: &str) -> (r: Option<String>)
    ensures
        match r {
            Some(t) => number_in(index(v@, k@)) == Some(t@),
            None => number_in(index(v@, k@)) is None,
        },
{
    match look(v, k) {
        Some(x) => match x {
            Value::Number(s) => Some(s.clone()),
            _ => None,
        },
        None => None,
    }
}

/// An unsigned number of 64 bits, written in digits alone.
pub open spec fn unsigned_in(j: Json) -> Option<int> {
    match j {
        Json::Number(t) => if t.len() > 0 && text::all_digits(t) && text::number(t) <= u64::MAX {
            Some(text::number(t) as int)
        } else {
            None
        },
        _ => None,
    }
}

/// The unsigned number member named `k`.
pub fn unsigned_at(v: &Value, k: &str) -> (r: Option<u64>)
    ensures
        match r {
            Some(n) => unsigned_in(index(v@, k@)) == Some(n as int),
            None => unsigned_in(index(v@, k@)) is None,
        },
{
    match number_at(v, k) {
        Some(t) => text::parse_digits(text::chars_of(t.as_str()).as_slice(), u64::MAX),
        None => None,
    }
}

/// Whether the member named `k` is true.
pub fn true_at(v: &Value, k: &str) -> (r: bool)
    ensures
        r == (index(v@, k@) == Json::Bool(true)),
{
    match look(v, k) {
        Some(x) => match x {
            Value::Bool(b) => *b,
            _ => false,
        },
        None => false,
    }
}

/// A zero that is no integer: it prints with a sign or without one.
pub open spec fn is_zero(t: Seq<char>) -> bool {
    t == "0.0"@ || t == "-0.0"@
}

/// Equal numbers: printed alike, but for the sign of a zero.
pub open spec fn same_number(x: Seq<char>, y: Seq<char>) -> bool {
    x == y || (is_zero(x) && is_zero(y))
}

fn zero(t: &str) -> (r: bool)
    ensures
        r == is_zero(t@),
{
    text::same(t, "0.0") || text::same(t, "-0.0")
}

/// Equal values: objects with equal members, whatever their order.
pub open spec fn alike(a: Json, b: Json) -> bool
    decreases a,
{
    match (a, b) {
        (Json::Null, Json::Null) => true,
        (Json::Bool(x), Json::Bool(y)) => x == y,
        (Json::Number(x), Json::Number(y)) => same_number(x, y),
        (Json::Str(x), Json::Str(y)) => x == y,
        (Json::Array(x), Json::Array(y)) => x.len() == y.len() && all_alike(x, y),
        (Json::Object(x), Json::Object(y)) => x.len() == y.len() && all_held(x, y),
        _ => false,
    }
}

/// Elements of `x` are alike those of `y` in the same places.
pub open spec fn all_alike(x: Seq<Json>, y: Seq<Json>) -> bool
    decreases x,
{
    x.len() == 0 || (all_alike(x.drop_last(), y) && alike(x.last(), y[x.len() - 1]))
}

/// Members of `x` are alike those of the same name in `y`.
pub open spec fn all_held(x: Seq<(Seq<char>, Json)>, y: Seq<(Seq<char>, Json)>) -> bool
    decreases x,
{
    x.len() == 0 || (all_held(x.drop_last(), y) && member(y, x.last().0) is Some && alike(
        x.last().1,
        member(y, x.last().0)->0,
    ))
}

proof fn lemma_all_alike(x: Seq<Json>, y: Seq<Json>, n: int)
    requires
        0 <= n <= x.len(),
        all_alike(x, y),
    ensures
        all_alike(x.take(n), y),
    decreases x.len(),
{
    if n < x.len() {
        lemma_all_alike(x.drop_last(), y, n);
        assert(x.drop_last().take(n) =~= x.take(n));
    } else {
        assert(x.take(n) =~= x);
    }
}

proof fn lemma_all_held(x: Seq<(Seq<char>, Json)>, y: Seq<(Seq<char>, Json)>, n: int)
    requires
        0 <= n <= x.len(),
        all_held(x, y),
    ensures
        all_held(x.take(n), y),
    decreases x.len(),
{
    if n < x.len() {
        lemma_all_held(x.drop_last(), y, n);
        assert(x.drop_last().take(n) =~= x.take(n));
    } else {
        assert(x.take(n) =~= x);
    }
}

proof fn lemma_all_alike_at(x: Seq<Json>, y: Seq<Json>)
    requires
        x.len() <= y.len(),
    ensures
        all_alike(x, y) <==> forall|i: int| 0 <= i < x.len() ==> alike(#[trigger] x[i], y[i]),
    decreases x.len(),
{
    if x.len() > 0 {
        let d = x.drop_last();
        lemma_all_alike_at(d, y);
        if all_alike(x, y) {
            assert forall|i: int| 0 <= i < x.len() implies alike(#[trigger] x[i], y[i]) by {
                if i < d.len() {
                    assert(alike(d[i], y[i]));
                }
            }
        }
        if forall|i: int| 0 <= i < x.len() ==> alike(#[trigger] x[i], y[i]) {
            assert forall|i: int| 0 <= i < d.len() implies alike(#[trigger] d[i], y[i]) by {
                assert(alike(x[i], y[i]));
            }
            assert(alike(x[x.len() - 1], y[x.len() - 1]));
        }
    }
}

/// Member `i` of `x` is alike that of the same name in `y`.
pub open spec fn held_at(x: Seq<(Seq<char>, Json)>, y: Seq<(Seq<char>, Json)>, i: int) -> bool {
    member(y, x[i].0) matches Some(v) && alike(x[i].1, v)
}

proof fn lemma_all_held_at(x: Seq<(Seq<char>, Json)>, y: Seq<(Seq<char>, Json)>)
    ensures
        all_held(x, y) <==> forall|i: int| 0 <= i < x.len() ==> #[trigger] held_at(x, y, i),
    decreases x.len(),
{
    if x.len() > 0 {
        let d = x.drop_last();
        lemma_all_held_at(d, y);
        if all_held(x, y) {
            assert forall|i: int| 0 <= i < x.len() implies #[trigger] held_at(x, y, i) by {
                if i < d.len() {
                    assert(held_at(d, y, i));
                }
            }
        }
        if forall|i: int| 0 <= i < x.len() ==> #[trigger] held_at(x, y, i) {
            assert forall|i: int| 0 <= i < d.len() implies #[trigger] held_at(d, y, i) by {
                assert(held_at(x, y, i));
            }
            assert(held_at(x, y, x.len() - 1));
        }
    }
}

/// Values are alike just where they are of one kind and hold the same: texts,
/// truth values and numbers their own, lists element by element, objects member
/// by member.
pub proof fn law_alike(a: Json, b: Json)
    ensures
        alike(a, b) ==> (a is Null <==> b is Null) && (a is Bool <==> b is Bool) && (a is Number <==> b is Number) && (
        a is Str <==> b is Str) && (a is Array <==> b is Array) && (a is Object <==> b is Object),
        a is Null || a is Bool || a is Str ==> (alike(a, b) <==> a == b),
        b is Null || b is Bool || b is Str ==> (alike(a, b) <==> a == b),
        a == b && a is Number ==> alike(a, b),
        a matches Json::Number(x) ==> (b matches Json::Number(y) ==> (alike(a, b) ==> x == y || ((x == "0.0"@ || x
            == "-0.0"@) && (y == "0.0"@ || y == "-0.0"@)))),
        a matches Json::Array(x) ==> (b matches Json::Array(y) ==> (alike(a, b) <==> x.len() == y.len() && forall|i: int|
            0 <= i < x.len() ==> alike(#[trigger] x[i], y[i]))),
        a matches Json::Object(x) ==> (b matches Json::Object(y) ==> (alike(a, b) <==> x.len() == y.len() && forall|i: int|
            0 <= i < x.len() ==> #[trigger] held_at(x, y, i))),
{
    match (a, b) {
        (Json::Array(x), Json::Array(y)) => {
            if x.len() == y.len() {
                lemma_all_alike_at(x, y);
            }
        },
        (Json::Object(x), Json::Object(y)) => {
            lemma_all_held_at(x, y);
        },
        _ => {},
    }
}

/// Whether two values are equal, whatever the order of their members.
pub fn same_value(a: &Value, b: &Value) -> (r: bool)
    ensures
        r == alike(a@, b@),
    decreases a,
{
    match (a, b) {
        (Value::Null, Value::Null) => true,
        (Value::Bool(x), Value::Bool(y)) => *x == *y,
        (Value::Number(x), Value::Number(y)) => text::same(x.as_str(), y.as_str()) || (zero(x.as_str()) && zero(
            y.as_str(),
        )),
        (Value::Str(x), Value::Str(y)) => text::same(x.as_str(), y.as_str()),
        (Value::Array(x), Value::Array(y)) => {
            let ghost (p, q) = (jsons(x@), jsons(y@));
            proof {
                lemma_jsons(x@);
                lemma_jsons(y@);
                assert(p.take(0) =~= Seq::empty());
            }
            if x.len() != y.len() {
                return false;
            }
            let mut i: usize = 0;
            while i < x.len()
                invariant
                    i <= x@.len(),
                    *a == Value::Array(*x),
                    *b == Value::Array(*y),
                    x@.len() == y@.len(),
                    p == jsons(x@),
                    q == jsons(y@),
                    p.len() == x@.len(),
                    q.len() == y@.len(),
                    forall|k: int| 0 <= k < x@.len() ==> #[trigger] p[k] == json(x@[k]),
                    forall|k: int| 0 <= k < y@.len() ==> #[trigger] q[k] == json(y@[k]),
                    all_alike(p.take(i as int), q),
                decreases x@.len() - i,
            {
                proof {
                    lemma_element(a, x@, i as int);
                    assert(p.take(i + 1).drop_last() =~= p.take(i as int));
                    assert(p.take(i + 1).last() == p[i as int]);
                    assert(q[i as int] == json(y@[i as int]));
                }
                if !same_value(&x[i], &y[i]) {
                    proof {
                        if all_alike(p, q) {
                            lemma_all_alike(p, q, i + 1);
                        }
                    }
                    return false;
                }
                i += 1;
            }
            proof {
                assert(p.take(i as int) =~= p);
            }
            true
        },
        (Value::Object(x), Value::Object(y)) => {
            let ghost (p, q) = (fields(x@), fields(y@));
            proof {
                lemma_fields(x@);
                lemma_fields(y@);
                assert(p.take(0) =~= Seq::empty());
            }
            if x.len() != y.len() {
                return false;
            }
            let mut i: usize = 0;
            while i < x.len()
                invariant
                    i <= x@.len(),
                    *a == Value::Object(*x),
                    *b == Value::Object(*y),
                    q.len() == p.len(),
                    p == fields(x@),
                    q == fields(y@),
                    p.len() == x@.len(),
                    forall|k: int| 0 <= k < x@.len() ==> #[trigger] p[k] == (x@[k].0@, json(x@[k].1)),
                    all_held(p.take(i as int), q),
                decreases x@.len() - i,
            {
                proof {
                    lemma_field(a, x@, i as int);
                    assert(p.take(i + 1).drop_last() =~= p.take(i as int));
                    assert(p.take(i + 1).last() == p[i as int]);
                }
                let same: bool = match get(y, x[i].0.as_str()) {
                    Some(v) => same_value(&x[i].1, v),
                    None => false,
                };
                if !same {
                    proof {
                        if all_held(p, q) {
                            lemma_all_held(p, q, i + 1);
                        }
                    }
                    return false;
                }
                i += 1;
            }
            proof {
                assert(p.take(i as int) =~= p);
            }
            true
        },
        _ => false,
    }
}

} // verus!
