//! What rendering keeps: JSON texts tell their values apart, and the compact
//! form of a state loses none of its data.
use vstd::prelude::*;

use crate::compact;
use crate::text;
use crate::value;
use crate::value::Json;

verus! {

/// A character of a number.
pub open spec fn numeric(c: char) -> bool {
    text::is_digit(c) || c == '-' || c == '+' || c == '.' || c == 'e' || c == 'E'
}

/// A number as JSON writes one.
pub open spec fn number_text(s: Seq<char>) -> bool {
    &&& s.len() > 0
    &&& text::is_digit(s[0]) || s[0] == '-'
    &&& compact::number_form(s)
    &&& forall|i: int| 0 <= i < s.len() ==> numeric(#[trigger] s[i])
}

/// A value that JSON can hold: its numbers are written as numbers, and no object
/// names a member twice.
pub open spec fn sound(j: Json) -> bool
    decreases j,
{
    match j {
        Json::Number(s) => number_text(s),
        Json::Array(a) => all_sound(a),
        Json::Object(m) => value::distinct(m) && members_sound(m),
        _ => true,
    }
}

pub open spec fn all_sound(a: Seq<Json>) -> bool
    decreases a,
{
    a.len() == 0 || (all_sound(a.drop_last()) && sound(a.last()))
}

pub open spec fn members_sound(m: Seq<(Seq<char>, Json)>) -> bool
    decreases m,
{
    m.len() == 0 || (members_sound(m.drop_last()) && sound(m.last().1))
}

pub proof fn lemma_all_sound(a: Seq<Json>, i: int)
    requires
        all_sound(a),
        0 <= i < a.len(),
    ensures
        sound(a[i]),
        all_sound(a.skip(1)),
    decreases a.len(),
{
    let d = a.drop_last();
    if i < d.len() {
        lemma_all_sound(d, i);
        assert(d[i] == a[i]);
    }
    if d.len() > 0 {
        lemma_all_sound(d, 0);
        assert(a.skip(1).drop_last() =~= d.skip(1));
        assert(a.skip(1).last() == a.last());
    } else {
        assert(a.skip(1).len() == 0);
    }
}

pub proof fn lemma_members_sound(m: Seq<(Seq<char>, Json)>, i: int)
    requires
        members_sound(m),
        0 <= i < m.len(),
    ensures
        sound(m[i].1),
        members_sound(m.skip(1)),
    decreases m.len(),
{
    let d = m.drop_last();
    if i < d.len() {
        lemma_members_sound(d, i);
        assert(d[i] == m[i]);
    }
    if d.len() > 0 {
        lemma_members_sound(d, 0);
        assert(m.skip(1).drop_last() =~= d.skip(1));
        assert(m.skip(1).last() == m.last());
    } else {
        assert(m.skip(1).len() == 0);
    }
}

/// Nothing, or what can follow a value.
spec fn ends_value(x: Seq<char>) -> bool {
    x.len() == 0 || x[0] == ',' || x[0] == ']' || x[0] == '}' || x[0] == '\n'
}

proof fn lemma_first_escaped(c: char, s: Seq<char>)
    ensures
        value::all_escaped(seq![c] + s) == value::escaped(c) + value::all_escaped(s),
    decreases s.len(),
{
    let t = seq![c] + s;
    if s.len() == 0 {
        assert(t.drop_last() =~= Seq::empty());
        assert(value::all_escaped(t.drop_last()) =~= Seq::empty());
        assert(t.last() == c);
        assert(value::all_escaped(t) =~= value::escaped(c) + value::all_escaped(s));
    } else {
        assert(t.drop_last() =~= seq![c] + s.drop_last());
        assert(t.last() == s.last());
        lemma_first_escaped(c, s.drop_last());
        assert(value::all_escaped(t) =~= value::escaped(c) + value::all_escaped(s));
    }
}

/// Two characters that a text may start with, as they are escaped.
proof fn lemma_escaped_differ(c: char, d: char, x: Seq<char>, y: Seq<char>)
    requires
        value::escaped(c) + x == value::escaped(d) + y,
    ensures
        c == d,
        x == y,
{
    let (p, q) = (value::escaped(c), value::escaped(d));
    let (s, t) = (p + x, q + y);
    assert(s[0] == p[0] && t[0] == q[0]);
    if p.len() > 1 {
        assert(p[0] == '\\');
        assert(q.len() > 1);
        assert(s[1] == p[1] && t[1] == q[1]);
        if p.len() > 2 {
            assert(p[1] == 'u');
            assert(q.len() == 6);
            assert(s[4] == p[4] && s[5] == p[5] && t[4] == q[4] && t[5] == q[5]);
            let (n, m) = (c as u32 as int, d as u32 as int);
            assert(value::hex(n / 16) == value::hex(m / 16));
            assert(value::hex(n % 16) == value::hex(m % 16));
            assert(n == m);
        } else {
            assert(q.len() == 2);
        }
    } else {
        assert(q.len() == 1);
    }
    assert(c == d);
    assert(x =~= s.skip(p.len() as int));
    assert(y =~= t.skip(q.len() as int));
}

proof fn lemma_escaped_ends(s: Seq<char>, t: Seq<char>, x: Seq<char>, y: Seq<char>)
    requires
        value::all_escaped(s) + seq!['"'] + x == value::all_escaped(t) + seq!['"'] + y,
    ensures
        s == t,
        x == y,
    decreases s.len(),
{
    let (p, q) = (value::all_escaped(s) + seq!['"'] + x, value::all_escaped(t) + seq!['"'] + y);
    if s.len() > 0 {
        let r = s.skip(1);
        assert(s =~= seq![s[0]] + r);
        lemma_first_escaped(s[0], r);
        assert(p[0] == value::escaped(s[0])[0]);
    }
    if t.len() > 0 {
        let r = t.skip(1);
        assert(t =~= seq![t[0]] + r);
        lemma_first_escaped(t[0], r);
        assert(q[0] == value::escaped(t[0])[0]);
    }
    if s.len() == 0 {
        assert(p[0] == '"');
        assert(t.len() == 0);
        assert(x =~= p.skip(1));
        assert(y =~= q.skip(1));
        assert(s =~= t);
    } else {
        if t.len() == 0 {
            assert(q[0] == '"');
        }
        let (a, b) = (s.skip(1), t.skip(1));
        let (u, v) = (value::all_escaped(a) + seq!['"'] + x, value::all_escaped(b) + seq!['"'] + y);
        assert(p =~= value::escaped(s[0]) + u);
        assert(q =~= value::escaped(t[0]) + v);
        lemma_escaped_differ(s[0], t[0], u, v);
        lemma_escaped_ends(a, b, x, y);
        assert(s =~= t);
    }
}

proof fn lemma_quoted_ends(s: Seq<char>, t: Seq<char>, x: Seq<char>, y: Seq<char>)
    requires
        value::quoted(s) + x == value::quoted(t) + y,
    ensures
        s == t,
        x == y,
{
    let (p, q) = (value::quoted(s) + x, value::quoted(t) + y);
    assert(p.skip(1) =~= value::all_escaped(s) + seq!['"'] + x);
    assert(q.skip(1) =~= value::all_escaped(t) + seq!['"'] + y);
    lemma_escaped_ends(s, t, x, y);
}

proof fn lemma_literals()
    ensures
        "null"@ =~= seq!['n', 'u', 'l', 'l'],
        "true"@ =~= seq!['t', 'r', 'u', 'e'],
        "false"@ =~= seq!['f', 'a', 'l', 's', 'e'],
        "["@ =~= seq!['['],
        "]"@ =~= seq![']'],
        "{"@ =~= seq!['{'],
        "}"@ =~= seq!['}'],
        ","@ =~= seq![','],
        ":"@ =~= seq![':'],
{
    reveal_strlit("null");
    reveal_strlit("true");
    reveal_strlit("false");
    reveal_strlit("[");
    reveal_strlit("]");
    reveal_strlit("{");
    reveal_strlit("}");
    reveal_strlit(",");
    reveal_strlit(":");
}

/// What the text of a value starts with.
pub proof fn lemma_starts(j: Json)
    requires
        sound(j),
    ensures
        ({
            let t = value::json_text_of(j);
            &&& t.len() > 0
            &&& match j {
                Json::Null => t[0] == 'n',
                Json::Bool(b) => t[0] == if b {
                    't'
                } else {
                    'f'
                },
                Json::Number(s) => text::is_digit(t[0]) || t[0] == '-',
                Json::Str(s) => t[0] == '"',
                Json::Array(a) => t[0] == '[',
                Json::Object(m) => t[0] == '{',
            }
        }),
{
    lemma_literals();
}

proof fn lemma_first_element(e: Json, a: Seq<Json>)
    ensures
        value::elements_text(seq![e] + a) == value::json_text_of(e) + (if a.len() == 0 {
            Seq::empty()
        } else {
            ","@ + value::elements_text(a)
        }),
    decreases a.len(),
{
    let t = seq![e] + a;
    if a.len() == 0 {
        assert(t.last() == e);
        assert(value::elements_text(t) =~= value::json_text_of(e) + Seq::<char>::empty());
    } else {
        let d = a.drop_last();
        assert(t.drop_last() =~= seq![e] + d);
        assert(t.last() == a.last());
        lemma_first_element(e, d);
        assert(value::elements_text(t) =~= value::json_text_of(e) + (","@ + value::elements_text(a)));
    }
}

/// One member as JSON writes it.
spec fn member_text(e: (Seq<char>, Json)) -> Seq<char> {
    value::quoted(e.0) + ":"@ + value::json_text_of(e.1)
}

proof fn lemma_first_member(e: (Seq<char>, Json), m: Seq<(Seq<char>, Json)>)
    ensures
        value::members_text(seq![e] + m) == member_text(e) + (if m.len() == 0 {
            Seq::empty()
        } else {
            ","@ + value::members_text(m)
        }),
    decreases m.len(),
{
    let t = seq![e] + m;
    if m.len() == 0 {
        assert(t.last() == e);
        assert(value::members_text(t) =~= member_text(e) + Seq::<char>::empty());
    } else {
        let d = m.drop_last();
        assert(t.drop_last() =~= seq![e] + d);
        assert(t.last() == m.last());
        lemma_first_member(e, d);
        assert(value::members_text(t) =~= member_text(e) + (","@ + value::members_text(m)));
    }
}

/// The text of a value tells where it ends and what the value is.
proof fn lemma_text_ends(a: Json, b: Json, x: Seq<char>, y: Seq<char>)
    requires
        sound(a),
        sound(b),
        ends_value(x),
        ends_value(y),
        value::json_text_of(a) + x == value::json_text_of(b) + y,
    ensures
        a == b,
        x == y,
    decreases a,
{
    let (s, t) = (value::json_text_of(a), value::json_text_of(b));
    lemma_starts(a);
    lemma_starts(b);
    lemma_literals();
    assert((s + x)[0] == s[0] && (t + y)[0] == t[0]);
    match (a, b) {
        (Json::Number(u), Json::Number(v)) => {
            if u.len() < v.len() {
                assert((t + y)[u.len() as int] == v[u.len() as int]);
                assert((s + x)[u.len() as int] == x[0]);
                assert(numeric(v[u.len() as int]));
            } else if v.len() < u.len() {
                assert((s + x)[v.len() as int] == u[v.len() as int]);
                assert((t + y)[v.len() as int] == y[0]);
                assert(numeric(u[v.len() as int]));
            }
            assert(u =~= (s + x).take(u.len() as int));
            assert(v =~= (t + y).take(v.len() as int));
        },
        (Json::Str(u), Json::Str(v)) => {
            lemma_quoted_ends(u, v, x, y);
        },
        (Json::Array(u), Json::Array(v)) => {
            assert((s + x).skip(1) =~= value::elements_text(u) + (seq![']'] + x));
            assert((t + y).skip(1) =~= value::elements_text(v) + (seq![']'] + y));
            lemma_elements_end(u, v, x, y);
        },
        (Json::Object(u), Json::Object(v)) => {
            assert((s + x).skip(1) =~= value::members_text(u) + (seq!['}'] + x));
            assert((t + y).skip(1) =~= value::members_text(v) + (seq!['}'] + y));
            lemma_members_end(u, v, x, y);
        },
        _ => {},
    }
    assert(s == t);
    assert(x =~= (s + x).skip(s.len() as int));
    assert(y =~= (t + y).skip(t.len() as int));
}

/// What follows the first of several elements or members.
spec fn after_first(n: nat, rest: Seq<char>, close: char, x: Seq<char>) -> Seq<char> {
    if n == 0 {
        seq![close] + x
    } else {
        seq![','] + rest + (seq![close] + x)
    }
}

proof fn lemma_elements_end(a: Seq<Json>, b: Seq<Json>, x: Seq<char>, y: Seq<char>)
    requires
        all_sound(a),
        all_sound(b),
        value::elements_text(a) + (seq![']'] + x) == value::elements_text(b) + (seq![']'] + y),
    ensures
        a == b,
        x == y,
    decreases a,
{
    lemma_literals();
    let (s, t) = (
        value::elements_text(a) + (seq![']'] + x),
        value::elements_text(b) + (seq![']'] + y),
    );
    if a.len() > 0 {
        let r = a.skip(1);
        lemma_all_sound(a, 0);
        lemma_starts(a[0]);
        assert(a =~= seq![a[0]] + r);
        lemma_first_element(a[0], r);
        assert(s =~= value::json_text_of(a[0]) + after_first(r.len(), value::elements_text(r), ']', x));
        assert(s[0] == value::json_text_of(a[0])[0]);
    } else {
        assert(s =~= seq![']'] + x);
        assert(s[0] == ']');
    }
    if b.len() > 0 {
        let r = b.skip(1);
        lemma_all_sound(b, 0);
        lemma_starts(b[0]);
        assert(b =~= seq![b[0]] + r);
        lemma_first_element(b[0], r);
        assert(t =~= value::json_text_of(b[0]) + after_first(r.len(), value::elements_text(r), ']', y));
        assert(t[0] == value::json_text_of(b[0])[0]);
    } else {
        assert(t =~= seq![']'] + y);
        assert(t[0] == ']');
    }
    if a.len() == 0 || b.len() == 0 {
        assert(a.len() == 0 && b.len() == 0);
        assert(x =~= s.skip(1));
        assert(y =~= t.skip(1));
        assert(a =~= b);
    } else {
        let (p, q) = (a.skip(1), b.skip(1));
        let (u, v) = (
            after_first(p.len(), value::elements_text(p), ']', x),
            after_first(q.len(), value::elements_text(q), ']', y),
        );
        lemma_text_ends(a[0], b[0], u, v);
        assert(u[0] == v[0]);
        if p.len() == 0 {
            assert(q.len() == 0);
            assert(x =~= u.skip(1));
            assert(y =~= v.skip(1));
            assert(p =~= q);
        } else {
            assert(q.len() > 0);
            assert(u.skip(1) =~= value::elements_text(p) + (seq![']'] + x));
            assert(v.skip(1) =~= value::elements_text(q) + (seq![']'] + y));
            lemma_elements_end(p, q, x, y);
        }
        assert(a =~= b);
    }
}

/// The members of an object up to its end, from the first.
proof fn lemma_members_open(a: Seq<(Seq<char>, Json)>, x: Seq<char>)
    requires
        members_sound(a),
    ensures
        ({
            let s = value::members_text(a) + (seq!['}'] + x);
            let r = a.skip(1);
            &&& s.len() > 0
            &&& a.len() == 0 ==> s == seq!['}'] + x
            &&& a.len() > 0 ==> s[0] == '"' && sound(a[0].1) && members_sound(r) && a == seq![a[0]] + r && s
                == value::quoted(a[0].0) + (seq![':'] + (value::json_text_of(a[0].1) + after_first(
                r.len(),
                value::members_text(r),
                '}',
                x,
            )))
        }),
{
    lemma_literals();
    let s = value::members_text(a) + (seq!['}'] + x);
    if a.len() > 0 {
        let r = a.skip(1);
        lemma_members_sound(a, 0);
        assert(a =~= seq![a[0]] + r);
        lemma_first_member(a[0], r);
        let u = after_first(r.len(), value::members_text(r), '}', x);
        assert(s =~= member_text(a[0]) + u);
        assert(s =~= value::quoted(a[0].0) + (seq![':'] + (value::json_text_of(a[0].1) + u)));
    } else {
        assert(s =~= seq!['}'] + x);
    }
}

/// What follows the first member tells whether more follow.
proof fn lemma_after_first(n: nat, m: nat, p: Seq<char>, q: Seq<char>, close: char, x: Seq<char>, y: Seq<char>)
    requires
        close != ',',
        after_first(n, p, close, x) == after_first(m, q, close, y),
    ensures
        n == 0 <==> m == 0,
        n == 0 ==> x == y,
        n > 0 ==> p + (seq![close] + x) == q + (seq![close] + y),
{
    let (u, v) = (after_first(n, p, close, x), after_first(m, q, close, y));
    assert(u[0] == v[0]);
    if n == 0 {
        assert(x =~= u.skip(1));
        assert(y =~= v.skip(1));
    } else {
        assert(u.skip(1) =~= p + (seq![close] + x));
        assert(v.skip(1) =~= q + (seq![close] + y));
    }
}

proof fn lemma_members_end(a: Seq<(Seq<char>, Json)>, b: Seq<(Seq<char>, Json)>, x: Seq<char>, y: Seq<char>)
    requires
        members_sound(a),
        members_sound(b),
        value::members_text(a) + (seq!['}'] + x) == value::members_text(b) + (seq!['}'] + y),
    ensures
        a == b,
        x == y,
    decreases a,
{
    lemma_members_open(a, x);
    lemma_members_open(b, y);
    if a.len() == 0 || b.len() == 0 {
        assert((seq!['}'] + x)[0] == '}');
        assert((seq!['}'] + y)[0] == '}');
        assert(a.len() == 0 && b.len() == 0);
        assert(x =~= (seq!['}'] + x).skip(1));
        assert(y =~= (seq!['}'] + y).skip(1));
        assert(a =~= b);
    } else {
        let (p, q) = (a.skip(1), b.skip(1));
        let (u, v) = (
            after_first(p.len(), value::members_text(p), '}', x),
            after_first(q.len(), value::members_text(q), '}', y),
        );
        let (e, f) = (value::json_text_of(a[0].1) + u, value::json_text_of(b[0].1) + v);
        lemma_quoted_ends(a[0].0, b[0].0, seq![':'] + e, seq![':'] + f);
        assert(e =~= (seq![':'] + e).skip(1));
        assert(f =~= (seq![':'] + f).skip(1));
        assert(decreases_to!(a => a[0]));
        assert(ends_value(u) && ends_value(v));
        lemma_text_ends(a[0].1, b[0].1, u, v);
        lemma_after_first(p.len(), q.len(), value::members_text(p), value::members_text(q), '}', x, y);
        if p.len() == 0 {
            assert(p =~= q);
        } else {
            lemma_members_end(p, q, x, y);
        }
        assert(a[0] == b[0]);
    }
}

/// JSON texts tell values apart: no two values have one text.
pub proof fn law_json_text(a: Json, b: Json)
    requires
        sound(a),
        sound(b),
        a != b,
    ensures
        value::json_text_of(a) != value::json_text_of(b),
{
    if value::json_text_of(a) == value::json_text_of(b) {
        let e = Seq::<char>::empty();
        assert(value::json_text_of(a) + e =~= value::json_text_of(b) + e);
        lemma_text_ends(a, b, e, e);
    }
}

/// States that are rendered as they are differ where they do, unless one is the
/// bare text of the other.
pub proof fn law_shown(a: Json, b: Json)
    requires
        sound(a),
        sound(b),
        a is Str <==> b is Str,
        a != b,
    ensures
        value::shown(a) != value::shown(b),
{
    if !(a is Str) {
        law_json_text(a, b);
    }
}

/// No line ends within `s`.
pub open spec fn one_line(s: Seq<char>) -> bool {
    forall|i: int| 0 <= i < s.len() ==> #[trigger] s[i] != '\n'
}

proof fn lemma_escaped_line(s: Seq<char>)
    ensures
        one_line(value::all_escaped(s)),
    decreases s.len(),
{
    if s.len() > 0 {
        lemma_escaped_line(s.drop_last());
        let c = s.last();
        assert(one_line(value::escaped(c)));
    }
}

pub proof fn lemma_json_line(j: Json)
    requires
        sound(j),
    ensures
        one_line(value::json_text_of(j)),
    decreases j,
{
    lemma_literals();
    match j {
        Json::Str(s) => {
            lemma_escaped_line(s);
        },
        Json::Array(a) => {
            lemma_elements_line(a);
        },
        Json::Object(m) => {
            lemma_members_line(m);
        },
        Json::Number(s) => {
            assert forall|i: int| 0 <= i < s.len() implies #[trigger] s[i] != '\n' by {
                assert(numeric(s[i]));
            }
        },
        _ => {},
    }
}

proof fn lemma_elements_line(a: Seq<Json>)
    requires
        all_sound(a),
    ensures
        one_line(value::elements_text(a)),
    decreases a,
{
    if a.len() > 0 {
        lemma_literals();
        lemma_elements_line(a.drop_last());
        lemma_json_line(a.last());
    }
}

proof fn lemma_members_line(m: Seq<(Seq<char>, Json)>)
    requires
        members_sound(m),
    ensures
        one_line(value::members_text(m)),
    decreases m,
{
    if m.len() > 0 {
        lemma_literals();
        lemma_members_line(m.drop_last());
        assert(decreases_to!(m => m.last()));
        lemma_json_line(m.last().1);
        lemma_escaped_line(m.last().0);
    }
}

/// A value on one line is a line of its own that ends on it.
pub proof fn lemma_inline(j: Json)
    requires
        sound(j),
    ensures
        ({
            let t = compact::inline_text(j);
            &&& t.len() > 0
            &&& one_line(t)
            &&& !text::space(t.last())
        }),
{
    lemma_literals();
    lemma_json_line(j);
    lemma_starts(j);
    if let Json::Str(s) = j {
        if compact::bare(s) {
            assert forall|i: int| 0 <= i < s.len() implies #[trigger] s[i] != '\n' by {}
        }
    }
    if let Json::Number(s) = j {
        assert(numeric(s[s.len() - 1]));
    }
    let t = value::json_text_of(j);
    match j {
        Json::Str(s) => assert(t.last() == '"'),
        Json::Array(a) => assert(t.last() == ']'),
        Json::Object(m) => assert(t.last() == '}'),
        _ => {},
    }
}

/// What a bare text does not start with.
proof fn lemma_openers()
    ensures
        compact::opener('-'),
        compact::opener('['),
        compact::opener('{'),
        compact::opener('"'),
        compact::opener(','),
{
    reveal_strlit("-[]{}\"'#,!?&*|>@`%");
    let o = "-[]{}\"'#,!?&*|>@`%"@;
    assert(o[0] == '-' && o[1] == '[' && o[3] == '{' && o[5] == '"' && o[8] == ',');
}

/// A bare text is no other value's JSON.
proof fn lemma_bare_is_text(s: Seq<char>, j: Json)
    requires
        compact::bare(s),
        sound(j),
    ensures
        s != value::json_text_of(j),
{
    lemma_openers();
    lemma_starts(j);
}

/// Values on one line differ where they do.
proof fn lemma_inline_differ(a: Json, b: Json)
    requires
        sound(a),
        sound(b),
        compact::inline_text(a) == compact::inline_text(b),
    ensures
        a == b,
{
    if value::json_text_of(a) == value::json_text_of(b) && a != b {
        law_json_text(a, b);
    }
    if let Json::Str(s) = a {
        if compact::bare(s) {
            lemma_bare_is_text(s, b);
        }
    }
    if let Json::Str(s) = b {
        if compact::bare(s) {
            lemma_bare_is_text(s, a);
        }
    }
}

/// Lines one below the other.
pub open spec fn stacked(ls: Seq<Seq<char>>) -> Seq<char>
    decreases ls.len(),
{
    if ls.len() == 0 {
        Seq::empty()
    } else {
        stacked(ls.drop_last()) + ls.last() + seq!['\n']
    }
}

proof fn lemma_stacked_end(ls: Seq<Seq<char>>)
    ensures
        ls.len() > 0 ==> stacked(ls).len() > 0 && stacked(ls).last() == '\n',
{
}

/// Stacked lines tell what each line is.
proof fn lemma_stacked(a: Seq<Seq<char>>, b: Seq<Seq<char>>)
    requires
        forall|i: int| 0 <= i < a.len() ==> one_line(#[trigger] a[i]),
        forall|i: int| 0 <= i < b.len() ==> one_line(#[trigger] b[i]),
        stacked(a) == stacked(b),
    ensures
        a == b,
    decreases a.len(),
{
    lemma_stacked_end(a);
    lemma_stacked_end(b);
    if a.len() == 0 || b.len() == 0 {
        assert(a =~= b);
    } else {
        let (p, q) = (stacked(a.drop_last()), stacked(b.drop_last()));
        let (u, v) = (a.last(), b.last());
        lemma_stacked_end(a.drop_last());
        lemma_stacked_end(b.drop_last());
        let t = stacked(a);
        assert(t =~= p + u + seq!['\n']);
        assert(t =~= q + v + seq!['\n']);
        assert(one_line(a[a.len() - 1]) && one_line(b[b.len() - 1]));
        if p.len() > q.len() {
            assert(t[p.len() - 1] == p.last());
            assert(t[p.len() - 1] == v[p.len() - 1 - q.len()]);
        } else if q.len() > p.len() {
            assert(t[q.len() - 1] == q.last());
            assert(t[q.len() - 1] == u[q.len() - 1 - p.len()]);
        }
        assert(p =~= t.take(p.len() as int));
        assert(q =~= t.take(q.len() as int));
        assert(u =~= t.subrange(p.len() as int, t.len() - 1));
        assert(v =~= t.subrange(q.len() as int, t.len() - 1));
        let (d, e) = (a.drop_last(), b.drop_last());
        assert forall|i: int| 0 <= i < d.len() implies one_line(#[trigger] d[i]) by {
            assert(one_line(a[i]));
        }
        assert forall|i: int| 0 <= i < e.len() implies one_line(#[trigger] e[i]) by {
            assert(one_line(b[i]));
        }
        lemma_stacked(d, e);
        assert(a =~= d.push(u));
        assert(b =~= e.push(v));
    }
}

/// The lines of a list's items.
spec fn item_lines(a: Seq<Json>, pad: Seq<char>) -> Seq<Seq<char>> {
    a.map_values(|j: Json| pad + "- "@ + compact::inline_text(j))
}

proof fn lemma_item_lines(a: Seq<Json>, pad: Seq<char>)
    ensures
        compact::items_text(a, pad) == stacked(item_lines(a, pad)),
    decreases a.len(),
{
    reveal_strlit("\n");
    assert("\n"@ =~= seq!['\n']);
    if a.len() > 0 {
        let d = a.drop_last();
        lemma_item_lines(d, pad);
        assert(item_lines(a, pad).drop_last() =~= item_lines(d, pad));
        assert(compact::items_text(a, pad) =~= stacked(item_lines(a, pad)));
    }
}

/// The lines of a table's rows.
spec fn row_lines(a: Seq<Json>, cols: Seq<Seq<char>>, pad: Seq<char>) -> Seq<Seq<char>> {
    a.map_values(|j: Json| pad + text::joined(compact::cells_of(j, cols), ", "@))
}

proof fn lemma_row_lines(a: Seq<Json>, cols: Seq<Seq<char>>, pad: Seq<char>)
    ensures
        compact::rows_text(a, cols, pad) == stacked(row_lines(a, cols, pad)),
    decreases a.len(),
{
    reveal_strlit("\n");
    assert("\n"@ =~= seq!['\n']);
    if a.len() > 0 {
        let d = a.drop_last();
        lemma_row_lines(d, cols, pad);
        assert(row_lines(a, cols, pad).drop_last() =~= row_lines(d, cols, pad));
        assert(compact::rows_text(a, cols, pad) =~= stacked(row_lines(a, cols, pad)));
    }
}

/// A list whose elements are neither all scalars nor rows of one table gives
/// each element a line with the element's own text: two such lists differ where
/// they do.
pub proof fn law_items_kept(a: Seq<Json>, b: Seq<Json>, pad: Seq<char>)
    requires
        all_sound(a),
        all_sound(b),
        one_line(pad),
        compact::columns(a) is None && !compact::all_scalar(a),
        compact::columns(b) is None && !compact::all_scalar(b),
        a != b,
    ensures
        compact::array_text(a, pad) != compact::array_text(b, pad),
{
    if compact::array_text(a, pad) == compact::array_text(b, pad) {
        lemma_item_lines(a, pad);
        lemma_item_lines(b, pad);
        let (u, v) = (item_lines(a, pad), item_lines(b, pad));
        lemma_items_one_line(a, pad);
        lemma_items_one_line(b, pad);
        lemma_stacked(u, v);
        assert forall|i: int| 0 <= i < a.len() implies a[i] == b[i] by {
            lemma_all_sound(a, i);
            lemma_all_sound(b, i);
            let h = pad + "- "@;
            assert(u[i] == v[i]);
            assert(u[i] == h + compact::inline_text(a[i]));
            assert(v[i] == h + compact::inline_text(b[i]));
            assert(compact::inline_text(a[i]) =~= u[i].skip(h.len() as int));
            assert(compact::inline_text(b[i]) =~= v[i].skip(h.len() as int));
            lemma_inline_differ(a[i], b[i]);
        }
        assert(u.len() == a.len() && v.len() == b.len());
        assert(a =~= b);
    }
}

proof fn lemma_items_one_line(a: Seq<Json>, pad: Seq<char>)
    requires
        all_sound(a),
        one_line(pad),
    ensures
        forall|i: int| 0 <= i < a.len() ==> one_line(#[trigger] item_lines(a, pad)[i]),
{
    reveal_strlit("- ");
    assert forall|i: int| 0 <= i < a.len() implies one_line(#[trigger] item_lines(a, pad)[i]) by {
        lemma_all_sound(a, i);
        lemma_inline(a[i]);
    }
}

/// Nothing, or a separator and more.
spec fn ends_cell(x: Seq<char>) -> bool {
    x.len() == 0 || (x.len() >= 2 && x[0] == ',' && x[1] == ' ')
}

/// A scalar that is not between quotation marks holds no separator.
proof fn lemma_no_separator(j: Json)
    requires
        sound(j),
        value::scalar(j),
        j matches Json::Str(s) ==> compact::bare(s),
    ensures
        ({
            let t = compact::inline_text(j);
            &&& t.len() > 0
            &&& t[0] != '"'
            &&& forall|i: int| 0 <= i && i + 1 < t.len() ==> !(#[trigger] t[i] == ',' && t[i + 1] == ' ')
        }),
{
    lemma_literals();
    lemma_openers();
    lemma_starts(j);
    let t = compact::inline_text(j);
    assert forall|i: int| 0 <= i && i + 1 < t.len() implies !(#[trigger] t[i] == ',' && t[i + 1] == ' ') by {
        match j {
            Json::Str(s) => {
                if s[i] == ',' && s[i + 1] == ' ' {
                    reveal_strlit(", ");
                    assert(s.subrange(i, i + 2) =~= ", "@);
                    assert(text::stands_at(s, ", "@, i));
                }
            },
            Json::Number(s) => {
                assert(numeric(s[i]));
            },
            _ => {},
        }
    }
}

/// A scalar among others in a row tells where it ends and what it is.
proof fn lemma_cell_ends(a: Json, b: Json, x: Seq<char>, y: Seq<char>)
    requires
        sound(a),
        sound(b),
        value::scalar(a),
        value::scalar(b),
        ends_cell(x),
        ends_cell(y),
        compact::inline_text(a) + x == compact::inline_text(b) + y,
    ensures
        a == b,
        x == y,
{
    let (u, v) = (compact::inline_text(a), compact::inline_text(b));
    let t = u + x;
    let (q, r) = (
        a is Str && !compact::bare(a->Str_0),
        b is Str && !compact::bare(b->Str_0),
    );
    if q && r {
        lemma_quoted_ends(a->Str_0, b->Str_0, x, y);
    } else if q {
        lemma_no_separator(b);
        assert(t[0] == '"');
        assert((v + y)[0] == v[0]);
    } else if r {
        lemma_no_separator(a);
        assert((v + y)[0] == '"');
        assert(t[0] == u[0]);
    } else {
        lemma_no_separator(a);
        lemma_no_separator(b);
        let (n, m) = (u.len() as int, v.len() as int);
        lemma_cell_longer(u, v, x, y);
        lemma_cell_longer(v, u, y, x);
        assert(u =~= t.take(n));
        assert(v =~= (v + y).take(m));
        assert(x =~= t.skip(n));
        assert(y =~= (v + y).skip(m));
        lemma_inline_differ(a, b);
    }
}

proof fn lemma_cell_longer(u: Seq<char>, v: Seq<char>, x: Seq<char>, y: Seq<char>)
    requires
        ends_cell(x),
        ends_cell(y),
        u + x == v + y,
        forall|i: int| 0 <= i && i + 1 < v.len() ==> !(#[trigger] v[i] == ',' && v[i + 1] == ' '),
    ensures
        v.len() <= u.len(),
{
    let (n, m) = (u.len() as int, v.len() as int);
    let t = u + x;
    assert(t == v + y);
    if n < m {
        assert(t[n] == x[0] && t[n + 1] == x[1]);
        if n + 1 < m {
            assert(t[n] == v[n] && t[n + 1] == v[n + 1]);
        } else {
            assert(t[m] == y[0]);
        }
    }
}

/// Scalars in a row.
spec fn row_text(a: Seq<Json>) -> Seq<char> {
    text::joined(a.map_values(|j: Json| compact::inline_text(j)), ", "@)
}

spec fn more_cells(a: Seq<Json>) -> Seq<char> {
    if a.len() == 0 {
        Seq::empty()
    } else {
        ", "@ + row_text(a)
    }
}

proof fn lemma_row_open(a: Seq<Json>)
    requires
        a.len() > 0,
    ensures
        row_text(a) == compact::inline_text(a[0]) + more_cells(a.skip(1)),
        ends_cell(more_cells(a.skip(1))),
{
    reveal_strlit(", ");
    let f = |j: Json| compact::inline_text(j);
    let (s, r) = (a.map_values(f), a.skip(1));
    let one = seq![compact::inline_text(a[0])];
    assert(text::joined(one, ", "@) == one[0]);
    if r.len() > 0 {
        assert(s =~= one + r.map_values(f));
        text::lemma_joined(one, r.map_values(f), ", "@);
        assert(row_text(a) =~= compact::inline_text(a[0]) + more_cells(r));
    } else {
        assert(s =~= one);
        assert(row_text(a) =~= compact::inline_text(a[0]) + more_cells(r));
    }
}

proof fn lemma_rows_differ(a: Seq<Json>, b: Seq<Json>)
    requires
        all_sound(a),
        all_sound(b),
        compact::all_scalar(a),
        compact::all_scalar(b),
        row_text(a) == row_text(b),
    ensures
        a == b,
    decreases a.len(),
{
    if a.len() > 0 {
        lemma_row_open(a);
        lemma_all_sound(a, 0);
        lemma_inline(a[0]);
        assert(value::scalar(a[0]));
    }
    if b.len() > 0 {
        lemma_row_open(b);
        lemma_all_sound(b, 0);
        lemma_inline(b[0]);
        assert(value::scalar(b[0]));
    }
    if a.len() == 0 || b.len() == 0 {
        let f = |j: Json| compact::inline_text(j);
        assert(a.map_values(f).len() == a.len() && b.map_values(f).len() == b.len());
        assert(a.len() == 0 ==> row_text(a).len() == 0);
        assert(b.len() == 0 ==> row_text(b).len() == 0);
        assert(a =~= b);
    } else {
        let (p, q) = (a.skip(1), b.skip(1));
        lemma_cell_ends(a[0], b[0], more_cells(p), more_cells(q));
        reveal_strlit(", ");
        if p.len() == 0 || q.len() == 0 {
            assert(more_cells(p).len() == 0 || more_cells(q).len() == 0);
            assert(p =~= q);
        } else {
            assert(row_text(p) =~= more_cells(p).skip(2));
            assert(row_text(q) =~= more_cells(q).skip(2));
            assert forall|i: int| 0 <= i < p.len() implies value::scalar(#[trigger] p[i]) by {
                assert(value::scalar(a[i + 1]));
            }
            assert forall|i: int| 0 <= i < q.len() implies value::scalar(#[trigger] q[i]) by {
                assert(value::scalar(b[i + 1]));
            }
            lemma_rows_differ(p, q);
        }
        assert(a =~= seq![a[0]] + p);
        assert(b =~= seq![b[0]] + q);
    }
}

/// A list of scalars stands on one line: two such lists differ where they do.
pub proof fn law_scalars_kept(a: Seq<Json>, b: Seq<Json>, pad: Seq<char>)
    requires
        all_sound(a),
        all_sound(b),
        compact::all_scalar(a),
        compact::all_scalar(b),
        a != b,
    ensures
        compact::array_text(a, pad) != compact::array_text(b, pad),
{
    lemma_no_table(a);
    lemma_no_table(b);
    let (u, v) = (compact::array_text(a, pad), compact::array_text(b, pad));
    if u == v {
        assert(u == pad + row_text(a) + "\n"@);
        assert(v == pad + row_text(b) + "\n"@);
        assert(row_text(a) =~= u.subrange(pad.len() as int, u.len() - "\n"@.len()));
        assert(row_text(b) =~= v.subrange(pad.len() as int, v.len() - "\n"@.len()));
        lemma_rows_differ(a, b);
    }
}

proof fn lemma_no_table(a: Seq<Json>)
    requires
        compact::all_scalar(a),
    ensures
        compact::columns(a) is None,
{
    if a.len() > 0 {
        assert(value::scalar(a[0]));
    }
}

/// The values of a row, in the order of the columns.
pub open spec fn row_values(j: Json, cols: Seq<Seq<char>>) -> Seq<Json> {
    cols.map_values(|k: Seq<char>| value::index(j, k))
}

proof fn lemma_row_values(j: Json, cols: Seq<Seq<char>>)
    requires
        sound(j),
        compact::is_row(j, cols),
    ensures
        all_sound(row_values(j, cols)),
        compact::all_scalar(row_values(j, cols)),
        text::joined(compact::cells_of(j, cols), ", "@) == row_text(row_values(j, cols)),
        one_line(row_text(row_values(j, cols))),
{
    let v = row_values(j, cols);
    let m = j->Object_0;
    assert forall|i: int| 0 <= i < v.len() implies sound(#[trigger] v[i]) && value::scalar(v[i]) by {
        assert(value::member(m, cols[i]) is Some);
        value::lemma_place(m, cols[i]);
        lemma_members_sound(m, value::place(m, cols[i])->0);
    }
    lemma_sound_all(v);
    assert(compact::cells_of(j, cols) =~= v.map_values(|x: Json| compact::inline_text(x)));
    lemma_row_line(v);
}

proof fn lemma_sound_all(v: Seq<Json>)
    requires
        forall|i: int| 0 <= i < v.len() ==> sound(#[trigger] v[i]),
    ensures
        all_sound(v),
    decreases v.len(),
{
    if v.len() > 0 {
        let d = v.drop_last();
        assert forall|i: int| 0 <= i < d.len() implies sound(#[trigger] d[i]) by {
            assert(sound(v[i]));
        }
        lemma_sound_all(d);
        assert(sound(v[v.len() - 1]));
    }
}

proof fn lemma_row_line(a: Seq<Json>)
    requires
        all_sound(a),
    ensures
        one_line(row_text(a)),
    decreases a.len(),
{
    reveal_strlit(", ");
    if a.len() > 0 {
        lemma_row_open(a);
        lemma_all_sound(a, 0);
        lemma_inline(a[0]);
        lemma_row_line(a.skip(1));
    }
}

/// A table gives every row a line of its own under the names of its columns:
/// two tables with the same columns differ where a value does.
pub proof fn law_table_kept(a: Seq<Json>, b: Seq<Json>, cols: Seq<Seq<char>>, pad: Seq<char>)
    requires
        all_sound(a),
        all_sound(b),
        one_line(pad),
        compact::columns(a) == Some(cols),
        compact::columns(b) == Some(cols),
        compact::array_text(a, pad) == compact::array_text(b, pad),
    ensures
        a.len() == b.len(),
        forall|i: int, c: int|
            0 <= i < a.len() && 0 <= c < cols.len() ==> value::index(#[trigger] a[i], #[trigger] cols[c]) == value::index(
                b[i],
                cols[c],
            ),
{
    let h = pad + "("@ + text::joined(cols, ", "@) + ")\n"@;
    let (u, v) = (compact::array_text(a, pad), compact::array_text(b, pad));
    assert(u =~= h + compact::rows_text(a, cols, pad));
    assert(v =~= h + compact::rows_text(b, cols, pad));
    assert(compact::rows_text(a, cols, pad) =~= u.skip(h.len() as int));
    assert(compact::rows_text(b, cols, pad) =~= v.skip(h.len() as int));
    lemma_row_lines(a, cols, pad);
    lemma_row_lines(b, cols, pad);
    lemma_table_lines(a, cols, pad);
    lemma_table_lines(b, cols, pad);
    let (x, y) = (row_lines(a, cols, pad), row_lines(b, cols, pad));
    lemma_stacked(x, y);
    assert(x.len() == a.len() && y.len() == b.len());
    assert forall|i: int, c: int| 0 <= i < a.len() && 0 <= c < cols.len() implies value::index(
        #[trigger] a[i],
        #[trigger] cols[c],
    ) == value::index(b[i], cols[c]) by {
        assert(x[i] == y[i]);
        let (p, q) = (row_values(a[i], cols), row_values(b[i], cols));
        assert(x[i] == pad + row_text(p));
        assert(y[i] == pad + row_text(q));
        assert(row_text(p) =~= x[i].skip(pad.len() as int));
        assert(row_text(q) =~= y[i].skip(pad.len() as int));
        lemma_all_sound(a, i);
        lemma_all_sound(b, i);
        assert(compact::is_row(a[i], cols) && compact::is_row(b[i], cols));
        lemma_row_values(a[i], cols);
        lemma_row_values(b[i], cols);
        lemma_rows_differ(p, q);
        assert(p[c] == q[c]);
    }
}

proof fn lemma_table_lines(a: Seq<Json>, cols: Seq<Seq<char>>, pad: Seq<char>)
    requires
        all_sound(a),
        one_line(pad),
        compact::columns(a) == Some(cols),
    ensures
        forall|i: int|
            0 <= i < a.len() ==> one_line(#[trigger] row_lines(a, cols, pad)[i]) && row_lines(a, cols, pad)[i] == pad
                + row_text(row_values(a[i], cols)),
{
    assert forall|i: int| 0 <= i < a.len() implies one_line(#[trigger] row_lines(a, cols, pad)[i]) && row_lines(
        a,
        cols,
        pad,
    )[i] == pad + row_text(row_values(a[i], cols)) by {
        lemma_all_sound(a, i);
        assert(compact::is_row(a[i], cols));
        lemma_row_values(a[i], cols);
    }
}

} // verus!
