//! Nothing of a state is lost in its compact form: every value that it holds,
//! however deep, stands in the text.
use vstd::prelude::*;

use crate::compact;
use crate::rendered;
use crate::rendered::{all_sound, members_sound, sound};
use crate::text;
use crate::value;
use crate::value::Json;

verus! {

/// `x` is a value in `j`, at any depth, that holds no other.
pub open spec fn leaf(j: Json, x: Json) -> bool
    decreases j,
{
    match j {
        Json::Array(a) => leaf_of_some(a, x),
        Json::Object(m) => leaf_of_member(m, x),
        _ => x == j,
    }
}

pub open spec fn leaf_of_some(a: Seq<Json>, x: Json) -> bool
    decreases a,
{
    a.len() > 0 && (leaf(a.last(), x) || leaf_of_some(a.drop_last(), x))
}

pub open spec fn leaf_of_member(m: Seq<(Seq<char>, Json)>, x: Json) -> bool
    decreases m,
{
    m.len() > 0 && (leaf(m.last().1, x) || leaf_of_member(m.drop_last(), x))
}

/// `t` tells `x`: it holds its JSON text, or itself where it is a text that can
/// stand bare.
pub open spec fn tells(t: Seq<char>, x: Json) -> bool {
    ||| text::holds(t, value::json_text_of(x))
    ||| (x matches Json::Str(s) && compact::bare(s) && text::holds(t, s))
}

proof fn lemma_tells_in(a: Seq<char>, s: Seq<char>, b: Seq<char>, x: Json)
    requires
        tells(s, x),
    ensures
        tells(a + s + b, x),
{
    if text::holds(s, value::json_text_of(x)) {
        text::lemma_holds_in(a, s, b, value::json_text_of(x));
    } else if let Json::Str(p) = x {
        text::lemma_holds_in(a, s, b, p);
    }
}

proof fn lemma_tells_itself(x: Json)
    ensures
        tells(compact::inline_text(x), x),
        tells(value::json_text_of(x), x),
{
    let e = Seq::<char>::empty();
    let (s, t) = (compact::inline_text(x), value::json_text_of(x));
    text::lemma_holds(e, s, e);
    assert(e + s + e =~= s);
    text::lemma_holds(e, t, e);
    assert(e + t + e =~= t);
}

proof fn lemma_some(a: Seq<Json>, x: Json) -> (i: int)
    requires
        leaf_of_some(a, x),
    ensures
        0 <= i < a.len(),
        leaf(a[i], x),
    decreases a.len(),
{
    if leaf(a.last(), x) {
        a.len() - 1
    } else {
        let i = lemma_some(a.drop_last(), x);
        assert(a.drop_last()[i] == a[i]);
        i
    }
}

proof fn lemma_member(m: Seq<(Seq<char>, Json)>, x: Json) -> (i: int)
    requires
        leaf_of_member(m, x),
    ensures
        0 <= i < m.len(),
        leaf(m[i].1, x),
    decreases m.len(),
{
    if leaf(m.last().1, x) {
        m.len() - 1
    } else {
        let i = lemma_member(m.drop_last(), x);
        assert(m.drop_last()[i] == m[i]);
        i
    }
}

/// A leaf holds nothing else, and is sound where what holds it is.
proof fn lemma_leaf(j: Json, x: Json)
    requires
        leaf(j, x),
        sound(j),
    ensures
        value::scalar(x),
        sound(x),
    decreases j,
{
    match j {
        Json::Array(a) => {
            let i = lemma_some(a, x);
            rendered::lemma_all_sound(a, i);
            assert(decreases_to!(a => a[i]));
            lemma_leaf(a[i], x);
        },
        Json::Object(m) => {
            let i = lemma_member(m, x);
            rendered::lemma_members_sound(m, i);
            assert(decreases_to!(m => m[i]));
            lemma_leaf(m[i].1, x);
        },
        _ => {},
    }
}

/// The JSON text of a value tells its leaves.
proof fn lemma_json_tells(j: Json, x: Json)
    requires
        leaf(j, x),
    ensures
        tells(value::json_text_of(j), x),
    decreases j,
{
    match j {
        Json::Array(a) => {
            lemma_elements_tell(a, x);
            lemma_tells_in("["@, value::elements_text(a), "]"@, x);
        },
        Json::Object(m) => {
            lemma_members_tell(m, x);
            lemma_tells_in("{"@, value::members_text(m), "}"@, x);
        },
        _ => {
            lemma_tells_itself(x);
        },
    }
}

proof fn lemma_elements_tell(a: Seq<Json>, x: Json)
    requires
        leaf_of_some(a, x),
    ensures
        tells(value::elements_text(a), x),
    decreases a,
{
    let (d, e) = (a.drop_last(), Seq::<char>::empty());
    let last = value::json_text_of(a.last());
    assert(d.len() == 0 ==> !leaf_of_some(d, x));
    if a.len() == 1 {
        lemma_json_tells(a.last(), x);
    } else if leaf(a.last(), x) {
        lemma_json_tells(a.last(), x);
        lemma_tells_in(value::elements_text(d) + ","@, last, e, x);
        assert(value::elements_text(a) =~= value::elements_text(d) + ","@ + last + e);
    } else {
        lemma_elements_tell(d, x);
        lemma_tells_in(e, value::elements_text(d), ","@ + last, x);
        assert(value::elements_text(a) =~= e + value::elements_text(d) + (","@ + last));
    }
}

proof fn lemma_members_tell(m: Seq<(Seq<char>, Json)>, x: Json)
    requires
        leaf_of_member(m, x),
    ensures
        tells(value::members_text(m), x),
    decreases m,
{
    let (d, e) = (m.drop_last(), Seq::<char>::empty());
    let (k, last) = (value::quoted(m.last().0) + ":"@, value::json_text_of(m.last().1));
    assert(decreases_to!(m => m.last()));
    let before = if m.len() == 1 {
        e
    } else {
        value::members_text(d) + ","@
    };
    assert(value::members_text(m) =~= before + k + last + e);
    if leaf(m.last().1, x) {
        lemma_json_tells(m.last().1, x);
        lemma_tells_in(before + k, last, e, x);
    } else {
        assert(d.len() == 0 ==> !leaf_of_member(d, x));
        lemma_members_tell(d, x);
        lemma_tells_in(e, value::members_text(d), ","@ + k + last, x);
        assert(value::members_text(m) =~= e + value::members_text(d) + (","@ + k + last));
    }
}

/// A value on one line tells its leaves.
proof fn lemma_inline_tells(j: Json, x: Json)
    requires
        leaf(j, x),
    ensures
        tells(compact::inline_text(j), x),
{
    if j is Str {
        lemma_tells_itself(x);
    } else {
        lemma_json_tells(j, x);
    }
}

/// A piece stands in what is joined of it.
pub proof fn lemma_joined_holds(v: Seq<Seq<char>>, sep: Seq<char>, i: int) -> (r: (Seq<char>, Seq<char>))
    requires
        0 <= i < v.len(),
    ensures
        text::joined(v, sep) == r.0 + v[i] + r.1,
    decreases v.len(),
{
    let e = Seq::<char>::empty();
    let d = v.drop_last();
    if v.len() == 1 {
        assert(text::joined(v, sep) =~= e + v[i] + e);
        (e, e)
    } else if i == v.len() - 1 {
        assert(text::joined(v, sep) =~= text::joined(d, sep) + sep + v[i] + e);
        (text::joined(d, sep) + sep, e)
    } else {
        let (a, b) = lemma_joined_holds(d, sep, i);
        assert(d[i] == v[i]);
        assert(text::joined(v, sep) =~= a + v[i] + (b + sep + v.last()));
        (a, b + sep + v.last())
    }
}

proof fn lemma_items_tell(a: Seq<Json>, pad: Seq<char>, i: int, x: Json)
    requires
        0 <= i < a.len(),
        leaf(a[i], x),
    ensures
        tells(compact::items_text(a, pad), x),
    decreases a.len(),
{
    let (d, e) = (a.drop_last(), Seq::<char>::empty());
    let before = compact::items_text(d, pad);
    let last = compact::inline_text(a.last());
    if i == a.len() - 1 {
        lemma_inline_tells(a.last(), x);
        lemma_tells_in(before + pad + "- "@, last, "\n"@, x);
    } else {
        assert(d[i] == a[i]);
        lemma_items_tell(d, pad, i, x);
        lemma_tells_in(e, before, pad + "- "@ + last + "\n"@, x);
        assert(compact::items_text(a, pad) =~= e + before + (pad + "- "@ + last + "\n"@));
    }
}

proof fn lemma_rows_tell(a: Seq<Json>, cols: Seq<Seq<char>>, pad: Seq<char>, i: int, x: Json)
    requires
        0 <= i < a.len(),
        tells(text::joined(compact::cells_of(a[i], cols), ", "@), x),
    ensures
        tells(compact::rows_text(a, cols, pad), x),
    decreases a.len(),
{
    let (d, e) = (a.drop_last(), Seq::<char>::empty());
    let before = compact::rows_text(d, cols, pad);
    let last = text::joined(compact::cells_of(a.last(), cols), ", "@);
    if i == a.len() - 1 {
        lemma_tells_in(before + pad, last, "\n"@, x);
    } else {
        assert(d[i] == a[i]);
        lemma_rows_tell(d, cols, pad, i, x);
        lemma_tells_in(e, before, pad + last + "\n"@, x);
        assert(compact::rows_text(a, cols, pad) =~= e + before + (pad + last + "\n"@));
    }
}

/// Every member of a row stands in some column.
proof fn lemma_column(m: Seq<(Seq<char>, Json)>, cols: Seq<Seq<char>>, q: int) -> (c: int)
    requires
        value::distinct(m),
        cols.no_duplicates(),
        m.len() == cols.len(),
        forall|i: int| 0 <= i < cols.len() ==> value::member(m, #[trigger] cols[i]) is Some,
        0 <= q < m.len(),
    ensures
        0 <= c < cols.len(),
        cols[c] == m[q].0,
        value::member(m, cols[c]) == Some(m[q].1),
{
    let ns = compact::names(m);
    assert(ns.no_duplicates()) by {
        assert forall|i: int, j: int| 0 <= i < ns.len() && 0 <= j < ns.len() && i != j implies ns[i] != ns[j] by {
            if i < j {
                assert(m[i].0 != m[j].0);
            } else {
                assert(m[j].0 != m[i].0);
            }
        }
    }
    ns.unique_seq_to_set();
    cols.unique_seq_to_set();
    vstd::seq_lib::seq_to_set_is_finite(ns);
    vstd::seq_lib::seq_to_set_is_finite(cols);
    assert forall|k: Seq<char>| cols.to_set().contains(k) implies ns.to_set().contains(k) by {
        let i = choose|i: int| 0 <= i < cols.len() && cols[i] == k;
        assert(value::member(m, cols[i]) is Some);
        value::lemma_place(m, k);
        assert(ns[value::place(m, k)->0] == k);
    }
    vstd::set_lib::lemma_subset_equality(cols.to_set(), ns.to_set());
    assert(ns[q] == m[q].0);
    assert(ns.to_set().contains(m[q].0));
    assert(cols.to_set().contains(m[q].0));
    let c = choose|c: int| 0 <= c < cols.len() && cols[c] == m[q].0;
    assert forall|j: int| 0 <= j < q implies (#[trigger] m[j]).0 != m[q].0 by {}
    value::lemma_is_place(m, m[q].0, q);
    c
}

proof fn lemma_array_tells(a: Seq<Json>, pad: Seq<char>, x: Json)
    requires
        all_sound(a),
        leaf_of_some(a, x),
    ensures
        tells(compact::array_text(a, pad), x),
{
    let i = lemma_some(a, x);
    rendered::lemma_all_sound(a, i);
    rendered::lemma_all_sound(a, 0);
    match compact::columns(a) {
        Some(cols) => {
            let head = pad + "("@ + text::joined(cols, ", "@) + ")\n"@;
            assert(compact::is_row(a[i], cols));
            let (m, m0) = (a[i]->Object_0, a[0]->Object_0);
            let q = lemma_member(m, x);
            assert(cols.no_duplicates()) by {
                assert forall|u: int, v: int| 0 <= u < cols.len() && 0 <= v < cols.len() && u != v implies cols[u]
                    != cols[v] by {
                    if u < v {
                        assert(m0[u].0 != m0[v].0);
                    } else {
                        assert(m0[v].0 != m0[u].0);
                    }
                }
            }
            let c = lemma_column(m, cols, q);
            assert(value::scalar(m[q].1));
            lemma_tells_itself(x);
            let cells = compact::cells_of(a[i], cols);
            assert(cells[c] == compact::inline_text(x));
            let (l, r) = lemma_joined_holds(cells, ", "@, c);
            lemma_tells_in(l, cells[c], r, x);
            lemma_rows_tell(a, cols, pad, i, x);
            let e = Seq::<char>::empty();
            lemma_tells_in(head, compact::rows_text(a, cols, pad), e, x);
            assert(compact::array_text(a, pad) =~= head + compact::rows_text(a, cols, pad) + e);
        },
        None => {
            if compact::all_scalar(a) {
                let cells = a.map_values(|j: Json| compact::inline_text(j));
                assert(cells[i] == compact::inline_text(a[i]));
                lemma_inline_tells(a[i], x);
                let (l, r) = lemma_joined_holds(cells, ", "@, i);
                lemma_tells_in(l, cells[i], r, x);
                lemma_tells_in(pad, text::joined(cells, ", "@), "\n"@, x);
            } else {
                lemma_items_tell(a, pad, i, x);
            }
        },
    }
}

proof fn lemma_lines_tell(j: Json, ind: nat, x: Json)
    requires
        sound(j),
        leaf(j, x),
    ensures
        tells(compact::lines_of(j, ind), x),
    decreases j,
{
    match j {
        Json::Object(m) => {
            lemma_member_lines_tell(m, ind, x);
        },
        Json::Array(a) => {
            lemma_array_tells(a, compact::padding(ind), x);
        },
        _ => {
            lemma_tells_itself(x);
            lemma_tells_in(compact::padding(ind), compact::inline_text(j), "\n"@, x);
        },
    }
}

proof fn lemma_member_lines_tell(m: Seq<(Seq<char>, Json)>, ind: nat, x: Json)
    requires
        members_sound(m),
        leaf_of_member(m, x),
    ensures
        tells(compact::members_lines(m, ind), x),
    decreases m,
{
    let (d, e) = (m.drop_last(), Seq::<char>::empty());
    let (k, j) = m.last();
    assert(decreases_to!(m => m.last()));
    let before = compact::members_lines(d, ind);
    let head = before + compact::padding(ind) + k;
    let t = compact::members_lines(m, ind);
    if leaf(j, x) {
        if value::scalar(j) {
            lemma_tells_itself(x);
            lemma_tells_in(head + ": "@, compact::inline_text(j), "\n"@, x);
            assert(t =~= head + ": "@ + compact::inline_text(j) + "\n"@);
        } else {
            lemma_lines_tell(j, ind + 1, x);
            lemma_tells_in(head + ":\n"@, compact::lines_of(j, ind + 1), e, x);
            assert(t =~= head + ":\n"@ + compact::lines_of(j, ind + 1) + e);
        }
    } else {
        lemma_member_lines_tell(d, ind, x);
        let rest = if value::scalar(j) {
            ": "@ + compact::inline_text(j) + "\n"@
        } else {
            ":\n"@ + compact::lines_of(j, ind + 1)
        };
        lemma_tells_in(e, before, compact::padding(ind) + k + rest, x);
        assert(t =~= e + before + (compact::padding(ind) + k + rest));
    }
}

/// Trimming white space keeps what does not end on it.
proof fn lemma_trimmed_holds(s: Seq<char>, p: Seq<char>)
    requires
        text::holds(s, p),
        p.len() > 0,
        !text::space(p.last()),
    ensures
        text::holds(text::trimmed_end(s), p),
    decreases s.len(),
{
    let i = choose|i: int| text::stands_at(s, p, i);
    assert(s.subrange(i, i + p.len())[p.len() - 1] == p.last());
    if text::space(s.last()) {
        let d = s.drop_last();
        assert(i + p.len() < s.len());
        assert(d.subrange(i, i + p.len()) =~= s.subrange(i, i + p.len()));
        assert(text::stands_at(d, p, i));
        lemma_trimmed_holds(d, p);
    }
}

/// A state rendered compactly loses nothing: every value in it that holds no
/// other, however deep, stands in the text.
pub proof fn law_nothing_lost(j: Json, x: Json)
    requires
        sound(j),
        leaf(j, x),
    ensures
        j is Str || tells(compact::compacted(j), x),
        j matches Json::Str(s) ==> compact::compacted(j) == s,
{
    if !(j is Str) {
        let t = compact::lines_of(j, 0);
        lemma_lines_tell(j, 0, x);
        lemma_leaf(j, x);
        rendered::lemma_inline(x);
        rendered::lemma_starts(x);
        if text::holds(t, value::json_text_of(x)) {
            assert(value::json_text_of(x).last() == compact::inline_text(x).last() || x is Str);
            if x is Str {
                assert(value::json_text_of(x).last() == '"');
            }
            lemma_trimmed_holds(t, value::json_text_of(x));
        } else if let Json::Str(s) = x {
            lemma_trimmed_holds(t, s);
        }
    }
}

/// Where a member of an object stands among its lines.
proof fn lemma_member_line(m: Seq<(Seq<char>, Json)>, ind: nat, i: int) -> (r: (Seq<char>, Seq<char>))
    requires
        0 <= i < m.len(),
    ensures
        compact::members_lines(m, ind) == r.0 + (compact::padding(ind) + m[i].0 + (if value::scalar(m[i].1) {
            ": "@ + compact::inline_text(m[i].1) + "\n"@
        } else {
            ":\n"@ + compact::lines_of(m[i].1, ind + 1)
        })) + r.1,
    decreases m.len(),
{
    let d = m.drop_last();
    let (k, j) = m.last();
    let before = compact::members_lines(d, ind);
    let rest = if value::scalar(j) {
        ": "@ + compact::inline_text(j) + "\n"@
    } else {
        ":\n"@ + compact::lines_of(j, ind + 1)
    };
    let t = compact::members_lines(m, ind);
    let e = Seq::<char>::empty();
    if i == m.len() - 1 {
        assert(t =~= before + (compact::padding(ind) + k + rest) + e);
        (before, e)
    } else {
        assert(d[i] == m[i]);
        let (a, b) = lemma_member_line(d, ind, i);
        let mine = compact::padding(ind) + m[i].0 + (if value::scalar(m[i].1) {
            ": "@ + compact::inline_text(m[i].1) + "\n"@
        } else {
            ":\n"@ + compact::lines_of(m[i].1, ind + 1)
        });
        assert(t =~= a + mine + (b + (compact::padding(ind) + k + rest)));
        (a, b + (compact::padding(ind) + k + rest))
    }
}

/// Every member of an object stands behind its own name: a scalar on the same
/// line, anything else two spaces further in on the lines below it.
pub proof fn law_members_named(m: Seq<(Seq<char>, Json)>, i: int)
    requires
        sound(Json::Object(m)),
        0 <= i < m.len(),
    ensures
        ({
            let t = compact::compacted(Json::Object(m));
            let (k, j) = m[i];
            &&& j matches Json::Number(s) ==> text::holds(t, k + ": "@ + s)
            &&& j matches Json::Bool(b) ==> text::holds(
                t,
                k + ": "@ + if b {
                    "true"@
                } else {
                    "false"@
                },
            )
            &&& j is Null ==> text::holds(t, k + ": "@ + "null"@)
            &&& j matches Json::Str(s) ==> text::holds(
                t,
                k + ": "@ + if compact::bare(s) {
                    s
                } else {
                    value::quoted(s)
                },
            )
            &&& !value::scalar(j) ==> text::holds(t, k + ":"@)
            &&& !value::scalar(j) ==> text::holds(
                compact::lines_of(Json::Object(m), 0),
                k + ":\n"@ + compact::lines_of(j, 1),
            )
        }),
{
    let s = compact::lines_of(Json::Object(m), 0);
    let (k, j) = m[i];
    let (a, b) = lemma_member_line(m, 0, i);
    rendered::lemma_members_sound(m, i);
    assert(compact::padding(0) =~= Seq::empty());
    if value::scalar(j) {
        let p = k + ": "@ + compact::inline_text(j);
        rendered::lemma_inline(j);
        assert(s =~= a + p + ("\n"@ + b));
        text::lemma_holds(a, p, "\n"@ + b);
        assert(p.last() == compact::inline_text(j).last());
        lemma_trimmed_holds(s, p);
    } else {
        let p = k + ":\n"@ + compact::lines_of(j, 1);
        assert(s =~= a + p + b);
        text::lemma_holds(a, p, b);
        reveal_strlit(":\n");
        reveal_strlit(":");
        let c = k + ":"@;
        assert(s =~= a + c + (seq!['\n'] + compact::lines_of(j, 1) + b));
        text::lemma_holds(a, c, seq!['\n'] + compact::lines_of(j, 1) + b);
        assert(c.last() == ':');
        lemma_trimmed_holds(s, c);
    }
}

/// A list that is rendered on its own is trimmed of its last line's end alone.
proof fn lemma_list_trimmed(a: Seq<Json>)
    requires
        all_sound(a),
        a.len() > 0,
    ensures
        compact::array_text(a, Seq::empty()) == compact::compacted(Json::Array(a)) + "\n"@,
{
    let t = compact::array_text(a, Seq::empty());
    reveal_strlit("\n");
    let n = a.len() - 1;
    rendered::lemma_all_sound(a, n);
    rendered::lemma_inline(a[n]);
    let last = match compact::columns(a) {
        Some(cols) => {
            assert(compact::is_row(a[n], cols));
            let cells = compact::cells_of(a[n], cols);
            let (m, c) = (a[n]->Object_0, cols.len() - 1);
            assert(value::member(m, cols[c]) is Some);
            value::lemma_place(m, cols[c]);
            let q = value::place(m, cols[c])->0;
            rendered::lemma_members_sound(m, q);
            rendered::lemma_inline(m[q].1);
            assert(cells[c] == compact::inline_text(m[q].1));
            assert(text::joined(cells, ", "@).last() == cells[c].last());
            text::joined(cells, ", "@)
        },
        None => {
            if compact::all_scalar(a) {
                let cells = a.map_values(|j: Json| compact::inline_text(j));
                assert(cells[n] == compact::inline_text(a[n]));
                assert(text::joined(cells, ", "@).last() == cells[n].last());
                text::joined(cells, ", "@)
            } else {
                compact::inline_text(a[n])
            }
        },
    };
    let d = t.drop_last();
    assert(t.last() == '\n');
    assert(d.len() >= last.len() && last.len() > 0);
    assert(d.last() == last.last());
    assert(text::space('\n'));
    assert(compact::padding(0) =~= Seq::empty());
    assert(text::trimmed_end(d) == d);
    assert(text::trimmed_end(t) == d);
    assert(t =~= d + "\n"@);
}

/// A list that is the whole state keeps its data: lists of scalars, and lists
/// whose elements stand on lines of their own, differ where they do, and tables
/// with the same columns where a value does.
pub proof fn law_list_kept(a: Seq<Json>, b: Seq<Json>)
    requires
        all_sound(a),
        all_sound(b),
        a.len() > 0,
        b.len() > 0,
        compact::compacted(Json::Array(a)) == compact::compacted(Json::Array(b)),
    ensures
        compact::all_scalar(a) && compact::all_scalar(b) ==> a == b,
        compact::columns(a) is None && !compact::all_scalar(a) && compact::columns(b) is None && !compact::all_scalar(b)
            ==> a == b,
        compact::columns(a) matches Some(cols) ==> (compact::columns(b) == Some(cols) ==> a.len() == b.len() && forall|i: int, c: int|
            0 <= i < a.len() && 0 <= c < cols.len() ==> value::index(#[trigger] a[i], #[trigger] cols[c])
                == value::index(b[i], cols[c])),
{
    let e = Seq::<char>::empty();
    lemma_list_trimmed(a);
    lemma_list_trimmed(b);
    if a != b {
        if compact::all_scalar(a) && compact::all_scalar(b) {
            rendered::law_scalars_kept(a, b, e);
        }
        if compact::columns(a) is None && !compact::all_scalar(a) && compact::columns(b) is None && !compact::all_scalar(b) {
            rendered::law_items_kept(a, b, e);
        }
    }
    if let Some(cols) = compact::columns(a) {
        if compact::columns(b) == Some(cols) {
            rendered::law_table_kept(a, b, cols, e);
        }
    }
}

/// A letter among A-Z and a-z.
pub open spec fn letter(c: char) -> bool {
    'a' <= c <= 'z' || 'A' <= c <= 'Z'
}

/// Letters hold no number.
proof fn lemma_no_mantissa(s: Seq<char>)
    requires
        forall|i: int| 0 <= i < s.len() ==> letter(#[trigger] s[i]),
    ensures
        !compact::mantissa(s),
{
    if s.len() > 0 {
        assert(letter(s[0]));
        assert(!text::is_digit(s[0]));
        if exists|i: int|
            0 <= i < s.len() && s.len() > 1 && #[trigger] s[i] == '.' && text::all_digits(s.take(i)) && text::all_digits(
                s.skip(i + 1),
            ) {
            let i = choose|i: int|
                0 <= i < s.len() && s.len() > 1 && #[trigger] s[i] == '.' && text::all_digits(s.take(i))
                    && text::all_digits(s.skip(i + 1));
            assert(letter(s[i]));
        }
    }
}

/// A word is quoted only where it could be misread: one of letters alone stands
/// as it is, unless it names a value or reads as no number or infinity.
pub proof fn law_words_stand_bare(s: Seq<char>)
    requires
        s.len() > 0,
        forall|i: int| 0 <= i < s.len() ==> letter(#[trigger] s[i]),
        !compact::reserved_word(s),
        compact::lowered(s) != "inf"@,
        compact::lowered(s) != "infinity"@,
        compact::lowered(s) != "nan"@,
    ensures
        compact::bare(s),
        compact::inline_text(Json::Str(s)) == s,
{
    assert(letter(s[0]) && letter(s[s.len() - 1]));
    reveal_strlit("-[]{}\"'#,!?&*|>@`%");
    assert(!compact::opener(s[0]));
    reveal_strlit(": ");
    reveal_strlit(", ");
    if text::holds(s, ": "@) {
        let i = choose|i: int| text::stands_at(s, ": "@, i);
        assert(s.subrange(i, i + 2)[0] == ':');
        assert(letter(s[i]));
    }
    if text::holds(s, ", "@) {
        let i = choose|i: int| text::stands_at(s, ", "@, i);
        assert(s.subrange(i, i + 2)[0] == ',');
        assert(letter(s[i]));
    }
    if s.contains('\n') {
        let i = choose|i: int| 0 <= i < s.len() && s[i] == '\n';
        assert(letter(s[i]));
    }
    assert(compact::unsigned(s) == s);
    lemma_no_mantissa(s);
    assert forall|i: int| 0 <= i < s.len() implies !compact::mantissa(#[trigger] s.take(i)) by {
        let t = s.take(i);
        assert forall|k: int| 0 <= k < t.len() implies letter(#[trigger] t[k]) by {
            assert(letter(s[k]));
        }
        lemma_no_mantissa(t);
    }
    if compact::decimal_form(s) {
        let i = choose|i: int|
            0 <= i < s.len() && compact::lower(#[trigger] s[i]) == 'e' && compact::mantissa(s.take(i)) && compact::exponent(
                s.skip(i + 1),
            );
        assert(!compact::mantissa(s.take(i)));
    }
}

/// A text that is written as a number is quoted, so that it is not read as one.
pub proof fn law_numbers_quoted(a: Seq<char>, b: Seq<char>)
    requires
        a.len() > 0,
        text::all_digits(a),
        text::all_digits(b),
    ensures
        !compact::bare(a),
        !compact::bare(a.push('.') + b),
        !compact::bare(seq!['-'] + a),
        compact::inline_text(Json::Str(a)) == value::quoted(a),
        compact::number_form(a),
        compact::number_form(a.push('.') + b),
        compact::number_form(seq!['-'] + a),
{
    assert(text::is_digit(a[0]));
    assert(compact::unsigned(a) == a);
    assert(compact::mantissa(a));
    let t = a.push('.') + b;
    assert(t[0] == a[0]);
    assert(compact::unsigned(t) == t);
    let n = a.len() as int;
    assert(t[n] == '.');
    assert(t.take(n) =~= a);
    assert(t.skip(n + 1) =~= b);
    assert(compact::mantissa(t));
    let m = seq!['-'] + a;
    assert(m.skip(1) =~= a);
    assert(compact::unsigned(m) == a);
}

/// Every level in is two spaces more.
pub proof fn law_padding(ind: nat)
    ensures
        compact::padding(ind).len() == 2 * ind,
        forall|i: int| 0 <= i < 2 * ind ==> #[trigger] compact::padding(ind)[i] == ' ',
    decreases ind,
{
    reveal_strlit("  ");
    if ind > 0 {
        law_padding((ind - 1) as nat);
    }
}

/// A list of objects that have the same names for scalars, and nothing else, is
/// a table: its names stand once, before its rows.
pub proof fn law_table(a: Seq<Json>, cols: Seq<Seq<char>>, pad: Seq<char>)
    requires
        a.len() > 0,
        cols.len() > 0,
        forall|i: int|
            0 <= i < a.len() ==> (#[trigger] a[i] matches Json::Object(m) && value::distinct(m) && compact::names(m) == cols
                && forall|c: int| 0 <= c < m.len() ==> value::scalar((#[trigger] m[c]).1)),
    ensures
        compact::columns(a) == Some(cols),
        (pad + "("@ + text::joined(cols, ", "@) + ")\n"@).is_prefix_of(compact::array_text(a, pad)),
{
    assert forall|i: int| 0 <= i < a.len() implies compact::is_row(#[trigger] a[i], cols) by {
        let m = a[i]->Object_0;
        assert(compact::names(m).len() == m.len());
        assert forall|c: int| 0 <= c < cols.len() implies value::member(m, #[trigger] cols[c]) is Some && value::scalar(
            value::member(m, cols[c])->0,
        ) by {
            assert(compact::names(m)[c] == m[c].0);
            value::lemma_nth(m, c);
            assert(value::scalar(m[c].1));
        }
    }
    assert(a[0] is Object);
    assert(compact::names(a[0]->Object_0).len() == (a[0]->Object_0).len());
    let h = pad + "("@ + text::joined(cols, ", "@) + ")\n"@;
    let t = compact::array_text(a, pad);
    assert(h =~= t.subrange(0, h.len() as int));
}

/// What is no table: an empty list, and a list with an element that is no
/// object, has fewer or more members than the first, or holds something that is
/// not a scalar under a name of the first.
pub proof fn law_no_table(a: Seq<Json>, i: int)
    ensures
        a.len() == 0 ==> compact::columns(a) is None,
        0 <= i < a.len() && !(a[i] is Object) ==> compact::columns(a) is None,
        0 <= i < a.len() ==> (a[0] matches Json::Object(f) ==> (a[i] matches Json::Object(m) ==> (m.len() != f.len()
            ==> compact::columns(a) is None))),
        0 <= i < a.len() ==> (a[0] matches Json::Object(f) ==> (a[i] matches Json::Object(m) ==> forall|c: int|
            0 <= c < f.len() && !(value::member(m, (#[trigger] f[c]).0) matches Some(x) && value::scalar(x))
                ==> compact::columns(a) is None)),
{
    if 0 <= i < a.len() {
        if let Json::Object(f) = a[0] {
            if compact::columns(a) is Some {
                assert(compact::is_row(a[i], compact::names(f)));
                assert(compact::names(f).len() == f.len());
                if let Json::Object(m) = a[i] {
                    assert forall|c: int| 0 <= c < f.len() implies (value::member(m, (#[trigger] f[c]).0) matches Some(
                        x,
                    ) && value::scalar(x)) by {
                        assert(compact::names(f)[c] == f[c].0);
                    }
                }
            }
        }
    }
}

} // verus!
