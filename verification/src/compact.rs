//! State rendering: JSON as it is, or the same data without its punctuation:
//! "key: value" lines, `- item` lists, scalars quoted only when ambiguous.
use vstd::prelude::*;
use vstd::slice::slice_subrange;

use crate::text;
use crate::value;
use crate::value::{Json, Value};

verus! {

/// A string's own text, any other value's JSON.
pub fn render_state(state: &Value) -> (r: String)
    ensures
        r@ == value::shown(state@),
{
    value::value_text(state)
}

/// The same letter, upper or lower case, among A-Z.
pub open spec fn lower(c: char) -> char {
    if 'A' <= c <= 'Z' {
        (c as u32 + 32) as char
    } else {
        c
    }
}

pub open spec fn lowered(s: Seq<char>) -> Seq<char> {
    s.map_values(|c: char| lower(c))
}

/// Digits with at most one point among them and at least one digit.
pub open spec fn mantissa(s: Seq<char>) -> bool {
    ||| s.len() > 0 && text::all_digits(s)
    ||| exists|i: int|
        0 <= i < s.len() && s.len() > 1 && #[trigger] s[i] == '.' && text::all_digits(s.take(i)) && text::all_digits(
            s.skip(i + 1),
        )
}

/// Digits after at most one sign.
pub open spec fn exponent(s: Seq<char>) -> bool {
    let d = unsigned(s);
    d.len() > 0 && text::all_digits(d)
}

/// `s` without one sign at its start.
pub open spec fn unsigned(s: Seq<char>) -> Seq<char> {
    if s.len() > 0 && (s[0] == '+' || s[0] == '-') {
        s.skip(1)
    } else {
        s
    }
}

/// A number written out: digits, perhaps a point, perhaps an exponent.
pub open spec fn decimal_form(s: Seq<char>) -> bool {
    ||| mantissa(s)
    ||| exists|i: int|
        0 <= i < s.len() && lower(#[trigger] s[i]) == 'e' && mantissa(s.take(i)) && exponent(s.skip(i + 1))
}

/// A text that reads as a floating-point number.
pub open spec fn number_form(s: Seq<char>) -> bool {
    let u = unsigned(s);
    ||| lowered(u) == "inf"@
    ||| lowered(u) == "infinity"@
    ||| lowered(u) == "nan"@
    ||| decimal_form(u)
}

fn to_lower(c: char) -> (r: char)
    ensures
        r == lower(c),
{
    if 'A' <= c && c <= 'Z' {
        (c as u8 + 32) as char
    } else {
        c
    }
}

/// Whether `s` is `w` but for the case of its letters.
fn same_lowered(s: &[char], w: &str) -> (r: bool)
    ensures
        r <==> lowered(s@) == w@,
{
    let v: Vec<char> = text::chars_of(w);
    if s.len() != v.len() {
        return false;
    }
    let mut i: usize = 0;
    while i < s.len()
        invariant
            i <= s@.len(),
            v@ == w@,
            s@.len() == v@.len(),
            forall|k: int| 0 <= k < i ==> lower(s@[k]) == v@[k],
        decreases s@.len() - i,
    {
        if to_lower(s[i]) != v[i] {
            assert(lowered(s@)[i as int] != w@[i as int]);
            return false;
        }
        i += 1;
    }
    proof {
        assert(lowered(s@) =~= w@);
    }
    true
}

/// Digits up to the first character that is none.
fn digit_run(s: &[char], from: usize) -> (end: usize)
    requires
        from <= s@.len(),
    ensures
        from <= end <= s@.len(),
        forall|k: int| from <= k < end ==> text::is_digit(#[trigger] s@[k]),
        end < s@.len() ==> !text::is_digit(s@[end as int]),
{
    let mut i: usize = from;
    while i < s.len() && '0' <= s[i] && s[i] <= '9'
        invariant
            from <= i <= s@.len(),
            forall|k: int| from <= k < i ==> text::is_digit(#[trigger] s@[k]),
        decreases s@.len() - i,
    {
        i += 1;
    }
    i
}

fn is_digits(s: &[char]) -> (r: bool)
    ensures
        r == text::all_digits(s@),
{
    digit_run(s, 0) == s.len()
}

fn is_mantissa(s: &[char]) -> (r: bool)
    ensures
        r == mantissa(s@),
{
    let end: usize = digit_run(s, 0);
    if end == s.len() {
        proof {
            if s@.len() == 0 {
                assert(!mantissa(s@));
            }
        }
        return s.len() > 0;
    }
    proof {
        assert(!text::all_digits(s@)) by {
            assert(!text::is_digit(s@[end as int]));
        }
    }
    if s[end] != '.' || s.len() == 1 {
        proof {
            if mantissa(s@) {
                let i = choose|i: int|
                    0 <= i < s@.len() && s@.len() > 1 && #[trigger] s@[i] == '.' && text::all_digits(s@.take(i))
                        && text::all_digits(s@.skip(i + 1));
                if i < end {
                    assert(text::is_digit(s@[i]));
                } else if i > end {
                    assert(s@.take(i)[end as int] == s@[end as int]);
                }
            }
        }
        return false;
    }
    let tail: &[char] = slice_subrange(s, end + 1, s.len());
    let r: bool = is_digits(tail);
    proof {
        assert(tail@ =~= s@.skip(end + 1));
        assert(text::all_digits(s@.take(end as int))) by {
            assert forall|k: int| 0 <= k < end implies text::is_digit(#[trigger] s@.take(end as int)[k]) by {
                assert(text::is_digit(s@[k]));
            }
        }
        if mantissa(s@) && !r {
            let i = choose|i: int|
                0 <= i < s@.len() && s@.len() > 1 && #[trigger] s@[i] == '.' && text::all_digits(s@.take(i))
                    && text::all_digits(s@.skip(i + 1));
            if i < end {
                assert(text::is_digit(s@[i]));
            } else if i > end {
                assert(s@.take(i)[end as int] == s@[end as int]);
            }
        }
    }
    r
}

fn skip_sign(s: &[char]) -> (r: &[char])
    ensures
        r@ == unsigned(s@),
{
    if s.len() > 0 && (s[0] == '+' || s[0] == '-') {
        let r: &[char] = slice_subrange(s, 1, s.len());
        proof {
            assert(r@ =~= s@.skip(1));
        }
        r
    } else {
        s
    }
}

fn is_decimal_form(s: &[char]) -> (r: bool)
    ensures
        r == decimal_form(s@),
{
    if is_mantissa(s) {
        return true;
    }
    let mut i: usize = 0;
    while i < s.len()
        invariant
            i <= s@.len(),
            !mantissa(s@),
            forall|k: int|
                0 <= k < i && lower(#[trigger] s@[k]) == 'e' ==> !(mantissa(s@.take(k)) && exponent(s@.skip(k + 1))),
        decreases s@.len() - i,
    {
        if to_lower(s[i]) == 'e' {
            let (m, e): (&[char], &[char]) = (slice_subrange(s, 0, i), slice_subrange(s, i + 1, s.len()));
            let d: &[char] = skip_sign(e);
            proof {
                assert(m@ =~= s@.take(i as int));
                assert(e@ =~= s@.skip(i + 1));
            }
            if is_mantissa(m) && d.len() > 0 && is_digits(d) {
                assert(lower(s@[i as int]) == 'e');
                return true;
            }
        }
        i += 1;
    }
    false
}

/// Whether `s` reads as a floating-point number.
pub fn is_number_form(s: &[char]) -> (r: bool)
    ensures
        r == number_form(s@),
{
    let u: &[char] = skip_sign(s);
    same_lowered(u, "inf") || same_lowered(u, "infinity") || same_lowered(u, "nan") || is_decimal_form(u)
}

/// Characters that open some other form.
pub open spec fn opener(c: char) -> bool {
    "-[]{}\"'#,!?&*|>@`%"@.contains(c)
}

/// Words that read as another type.
pub open spec fn reserved_word(s: Seq<char>) -> bool {
    s == "true"@ || s == "false"@ || s == "null"@ || s == "~"@ || s == "yes"@ || s == "no"@ || s == "on"@ || s == "off"@
}

/// A text that can stand bare: it can't be misread as another type or eat the
/// "key: " and ", " structure.
pub open spec fn bare(s: Seq<char>) -> bool {
    &&& s.len() > 0
    &&& !s.contains('\n')
    &&& !text::holds(s, ": "@)
    &&& !text::holds(s, ", "@)
    &&& s.last() != ':'
    &&& !opener(s[0])
    &&& !text::space(s[0])
    &&& !text::space(s.last())
    &&& !number_form(s)
    &&& !reserved_word(s)
}

/// Whether `w` is among the characters of `v`.
fn among(v: &[char], w: char) -> (r: bool)
    ensures
        r == v@.contains(w),
{
    let mut i: usize = 0;
    while i < v.len()
        invariant
            i <= v@.len(),
            forall|k: int| 0 <= k < i ==> v@[k] != w,
        decreases v@.len() - i,
    {
        if v[i] == w {
            return true;
        }
        i += 1;
    }
    false
}

/// Bare scalars: safe only when the text can't be misread; anything else falls
/// back to JSON quoting.
pub fn bare_scalar(s: &str) -> (r: bool)
    ensures
        r == bare(s@),
{
    let v: Vec<char> = text::chars_of(s);
    if v.len() == 0 {
        return false;
    }
    let (a, z): (char, char) = (v[0], v[v.len() - 1]);
    let (c1, c2): (Vec<char>, Vec<char>) = (text::chars_of(": "), text::chars_of(", "));
    let open: Vec<char> = text::chars_of("-[]{}\"'#,!?&*|>@`%");
    if among(v.as_slice(), '\n') || z == ':' || text::is_space(a) || text::is_space(z) || among(open.as_slice(), a) {
        return false;
    }
    if text::find(v.as_slice(), c1.as_slice()).is_some() {
        return false;
    }
    if text::find(v.as_slice(), c2.as_slice()).is_some() {
        return false;
    }
    if is_number_form(v.as_slice()) {
        return false;
    }
    !(text::same(s, "true") || text::same(s, "false") || text::same(s, "null") || text::same(s, "~") || text::same(
        s,
        "yes",
    ) || text::same(s, "no") || text::same(s, "on") || text::same(s, "off"))
}

/// A value on one line: bare where it may be, else its JSON.
pub open spec fn inline_text(j: Json) -> Seq<char> {
    match j {
        Json::Str(s) => if bare(s) {
            s
        } else {
            value::json_text_of(j)
        },
        _ => value::json_text_of(j),
    }
}

pub fn compact_scalar(v: &Value) -> (r: String)
    ensures
        r@ == inline_text(v@),
{
    match v {
        Value::Str(s) => if bare_scalar(s.as_str()) {
            s.clone()
        } else {
            value::json_text(v)
        },
        _ => value::json_text(v),
    }
}

/// Two spaces for every level.
pub open spec fn padding(ind: nat) -> Seq<char>
    decreases ind,
{
    if ind == 0 {
        Seq::empty()
    } else {
        padding((ind - 1) as nat) + "  "@
    }
}

/// The names of members.
pub open spec fn names(m: Seq<(Seq<char>, Json)>) -> Seq<Seq<char>> {
    m.map_values(|e: (Seq<char>, Json)| e.0)
}

/// `j` is an object with exactly these columns, all of them scalars.
pub open spec fn is_row(j: Json, cols: Seq<Seq<char>>) -> bool {
    match j {
        Json::Object(m) => m.len() == cols.len() && forall|i: int|
            0 <= i < cols.len() ==> value::member(m, #[trigger] cols[i]) is Some && value::scalar(
                value::member(m, cols[i])->0,
            ),
        _ => false,
    }
}

/// The columns of a table: all elements are objects that share the same
/// scalar-valued keys.
pub open spec fn columns(a: Seq<Json>) -> Option<Seq<Seq<char>>> {
    if a.len() == 0 {
        None
    } else {
        match a[0] {
            Json::Object(m) => if m.len() > 0 && forall|i: int| 0 <= i < a.len() ==> is_row(#[trigger] a[i], names(m)) {
                Some(names(m))
            } else {
                None
            },
            _ => None,
        }
    }
}

/// The cells of a row.
pub open spec fn cells_of(j: Json, cols: Seq<Seq<char>>) -> Seq<Seq<char>> {
    cols.map_values(|k: Seq<char>| inline_text(value::member(j->Object_0, k)->0))
}

pub open spec fn rows_text(a: Seq<Json>, cols: Seq<Seq<char>>, pad: Seq<char>) -> Seq<char>
    decreases a.len(),
{
    if a.len() == 0 {
        Seq::empty()
    } else {
        rows_text(a.drop_last(), cols, pad) + pad + text::joined(cells_of(a.last(), cols), ", "@) + "\n"@
    }
}

pub open spec fn items_text(a: Seq<Json>, pad: Seq<char>) -> Seq<char>
    decreases a.len(),
{
    if a.len() == 0 {
        Seq::empty()
    } else {
        items_text(a.drop_last(), pad) + pad + "- "@ + inline_text(a.last()) + "\n"@
    }
}

pub open spec fn all_scalar(a: Seq<Json>) -> bool {
    forall|i: int| 0 <= i < a.len() ==> value::scalar(#[trigger] a[i])
}

pub open spec fn array_text(a: Seq<Json>, pad: Seq<char>) -> Seq<char> {
    match columns(a) {
        // uniform objects: column header once, then bare rows
        Some(cols) => pad + "("@ + text::joined(cols, ", "@) + ")\n"@ + rows_text(a, cols, pad),
        None => if all_scalar(a) {
            pad + text::joined(a.map_values(|j: Json| inline_text(j)), ", "@) + "\n"@
        } else {
            items_text(a, pad)
        },
    }
}

/// The lines of a value, `ind` levels in.
pub open spec fn lines_of(j: Json, ind: nat) -> Seq<char>
    decreases j,
{
    match j {
        Json::Object(m) => members_lines(m, ind),
        Json::Array(a) => array_text(a, padding(ind)),
        _ => padding(ind) + inline_text(j) + "\n"@,
    }
}

pub open spec fn members_lines(m: Seq<(Seq<char>, Json)>, ind: nat) -> Seq<char>
    decreases m,
{
    if m.len() == 0 {
        Seq::empty()
    } else {
        let (k, j) = m.last();
        members_lines(m.drop_last(), ind) + padding(ind) + k + if value::scalar(j) {
            ": "@ + inline_text(j) + "\n"@
        } else {
            ":\n"@ + lines_of(j, ind + 1)
        }
    }
}

/// A state rendered compactly.
pub open spec fn compacted(j: Json) -> Seq<char> {
    match j {
        Json::Str(s) => s,
        _ => text::trimmed_end(lines_of(j, 0)),
    }
}

/// Object-array table detection. Returns the columns.
pub fn table_keys(a: &Vec<Value>) -> (r: Option<Vec<String>>)
    ensures
        match r {
            Some(cols) => columns(value::jsons(a@)) == Some(text::views(cols@)),
            None => columns(value::jsons(a@)) is None,
        },
{
    let ghost js = value::jsons(a@);
    proof {
        value::lemma_jsons(a@);
    }
    if a.len() == 0 {
        return None;
    }
    let first: &Vec<(String, Value)> = match &a[0] {
        Value::Object(m) => m,
        _ => {
            return None;
        },
    };
    proof {
        assert(js[0] == value::json(a@[0]));
        value::lemma_fields(first@);
    }
    if first.len() == 0 {
        return None;
    }
    let mut cols: Vec<String> = Vec::new();
    let mut i: usize = 0;
    while i < first.len()
        invariant
            i <= first@.len(),
            cols@.len() == i,
            forall|k: int| 0 <= k < i ==> (#[trigger] cols@[k])@ == first@[k].0@,
        decreases first@.len() - i,
    {
        cols.push(first[i].0.clone());
        i += 1;
    }
    let ghost fm = value::fields(first@);
    proof {
        assert(text::views(cols@) =~= names(fm));
    }
    let mut n: usize = 0;
    while n < a.len()
        invariant
            n <= a@.len(),
            js == value::jsons(a@),
            js.len() == a@.len(),
            forall|k: int| 0 <= k < a@.len() ==> #[trigger] js[k] == value::json(a@[k]),
            text::views(cols@) == names(fm),
            a@.len() > 0,
            js[0] == Json::Object(fm),
            forall|k: int| 0 <= k < n ==> is_row(#[trigger] js[k], names(fm)),
        decreases a@.len() - n,
    {
        if !row_has(&a[n], &cols) {
            assert(!is_row(js[n as int], names(fm)));
            return None;
        }
        n += 1;
    }
    Some(cols)
}

/// Whether `v` is an object with exactly these columns, all scalars.
fn row_has(v: &Value, cols: &Vec<String>) -> (r: bool)
    ensures
        r == is_row(v@, text::views(cols@)),
{
    match v {
        Value::Object(m) => {
            proof {
                value::lemma_fields(m@);
            }
            if m.len() != cols.len() {
                return false;
            }
            let mut i: usize = 0;
            while i < cols.len()
                invariant
                    i <= cols@.len(),
                    v@ == Json::Object(value::fields(m@)),
                    value::fields(m@).len() == cols@.len(),
                    forall|k: int|
                        0 <= k < i ==> value::member(value::fields(m@), #[trigger] text::views(cols@)[k]) is Some
                            && value::scalar(value::member(value::fields(m@), text::views(cols@)[k])->0),
                decreases cols@.len() - i,
            {
                let ok: bool = match value::get(m, cols[i].as_str()) {
                    Some(x) => value::is_scalar(x),
                    None => false,
                };
                proof {
                    assert(text::views(cols@)[i as int] == cols@[i as int]@);
                }
                if !ok {
                    return false;
                }
                i += 1;
            }
            true
        },
        _ => false,
    }
}

/// One row of a table.
fn row_text(v: &Value, cols: &Vec<String>) -> (r: String)
    requires
        is_row(v@, text::views(cols@)),
    ensures
        r@ == text::joined(cells_of(v@, text::views(cols@)), ", "@),
{
    let mut cells: Vec<String> = Vec::new();
    if let Value::Object(m) = v {
        let mut i: usize = 0;
        while i < cols.len()
            invariant
                i <= cols@.len(),
                cells@.len() == i,
                v@ == Json::Object(value::fields(m@)),
                is_row(v@, text::views(cols@)),
                forall|k: int|
                    0 <= k < i ==> (#[trigger] cells@[k])@ == cells_of(v@, text::views(cols@))[k],
            decreases cols@.len() - i,
        {
            proof {
                assert(text::views(cols@)[i as int] == cols@[i as int]@);
            }
            match value::get(m, cols[i].as_str()) {
                Some(x) => {
                    cells.push(compact_scalar(x));
                },
                None => {
                    assert(false);
                },
            }
            i += 1;
        }
    }
    proof {
        assert(text::views(cells@) =~= cells_of(v@, text::views(cols@)));
    }
    text::join(&cells, ", ")
}

/// The lines of an array.
fn array_lines(a: &Vec<Value>, pad: &str, out: &mut String)
    ensures
        final(out)@ == old(out)@ + array_text(value::jsons(a@), pad@),
{
    let ghost js = value::jsons(a@);
    let ghost out0 = out@;
    proof {
        value::lemma_jsons(a@);
    }
    if let Some(cols) = table_keys(a) {
        let ghost cv = text::views(cols@);
        out.append(pad);
        out.append("(");
        out.append(text::join(&cols, ", ").as_str());
        out.append(")\n");
        let ghost head = out@;
        let mut i: usize = 0;
        proof {
            assert(js.take(0) =~= Seq::empty());
            assert(head =~= head + rows_text(js.take(0), cv, pad@));
        }
        while i < a.len()
            invariant
                i <= a@.len(),
                js == value::jsons(a@),
                js.len() == a@.len(),
                forall|k: int| 0 <= k < a@.len() ==> #[trigger] js[k] == value::json(a@[k]),
                columns(js) == Some(cv),
                cv == text::views(cols@),
                out@ == head + rows_text(js.take(i as int), cv, pad@),
            decreases a@.len() - i,
        {
            proof {
                assert(is_row(js[i as int], cv));
                assert(js.take(i + 1).drop_last() =~= js.take(i as int));
                assert(js.take(i + 1).last() == js[i as int]);
            }
            out.append(pad);
            out.append(row_text(&a[i], &cols).as_str());
            out.append("\n");
            i += 1;
            proof {
                assert(out@ =~= head + rows_text(js.take(i as int), cv, pad@));
            }
        }
        proof {
            assert(js.take(i as int) =~= js);
            assert(out@ =~= out0 + array_text(js, pad@));
        }
        return;
    }
    let mut flat: bool = true;
    let mut row: Vec<String> = Vec::new();
    let mut i: usize = 0;
    while i < a.len()
        invariant
            i <= a@.len(),
            js == value::jsons(a@),
            js.len() == a@.len(),
            forall|k: int| 0 <= k < a@.len() ==> #[trigger] js[k] == value::json(a@[k]),
            flat ==> forall|k: int| 0 <= k < i ==> value::scalar(#[trigger] js[k]),
            !flat ==> !all_scalar(js),
            row@.len() == i,
            forall|k: int| 0 <= k < i ==> (#[trigger] row@[k])@ == inline_text(js[k]),
        decreases a@.len() - i,
    {
        if !value::is_scalar(&a[i]) {
            assert(!value::scalar(js[i as int]));
            flat = false;
        }
        row.push(compact_scalar(&a[i]));
        i += 1;
    }
    proof {
        assert(text::views(row@) =~= js.map_values(|j: Json| inline_text(j)));
    }
    if flat {
        out.append(pad);
        out.append(text::join(&row, ", ").as_str());
        out.append("\n");
        proof {
            assert(out@ =~= out0 + array_text(js, pad@));
        }
        return;
    }
    let mut n: usize = 0;
    proof {
        assert(js.take(0) =~= Seq::empty());
        assert(out@ =~= out0 + items_text(js.take(0), pad@));
    }
    while n < row.len()
        invariant
            n <= row@.len(),
            row@.len() == js.len(),
            forall|k: int| 0 <= k < row@.len() ==> (#[trigger] row@[k])@ == inline_text(js[k]),
            out@ == out0 + items_text(js.take(n as int), pad@),
        decreases row@.len() - n,
    {
        proof {
            assert(js.take(n + 1).drop_last() =~= js.take(n as int));
            assert(js.take(n + 1).last() == js[n as int]);
        }
        out.append(pad);
        out.append("- ");
        out.append(row[n].as_str());
        out.append("\n");
        n += 1;
        proof {
            assert(out@ =~= out0 + items_text(js.take(n as int), pad@));
        }
    }
    proof {
        assert(js.take(n as int) =~= js);
    }
}

/// The lines of a value, `ind` levels in, each behind `pad`.
fn compact_lines(v: &Value, pad: &str, out: &mut String, Ghost(ind): Ghost<nat>)
    requires
        pad@ == padding(ind),
    ensures
        final(out)@ == old(out)@ + lines_of(v@, ind),
    decreases v,
{
    let ghost out0 = out@;
    match v {
        Value::Object(m) => {
            let ghost fs = value::fields(m@);
            let mut i: usize = 0;
            proof {
                value::lemma_fields(m@);
                assert(fs.take(0) =~= Seq::empty());
                assert(out@ =~= out0 + members_lines(fs.take(0), ind));
            }
            while i < m.len()
                invariant
                    i <= m@.len(),
                    *v == Value::Object(*m),
                    fs == value::fields(m@),
                    fs.len() == m@.len(),
                    forall|k: int| 0 <= k < m@.len() ==> #[trigger] fs[k] == (m@[k].0@, value::json(m@[k].1)),
                    pad@ == padding(ind),
                    out@ == out0 + members_lines(fs.take(i as int), ind),
                decreases m@.len() - i,
            {
                let e: &(String, Value) = &m[i];
                proof {
                    value::lemma_field(v, m@, i as int);
                    assert(fs.take(i + 1).drop_last() =~= fs.take(i as int));
                    assert(fs.take(i + 1).last() == fs[i as int]);
                }
                out.append(pad);
                out.append(e.0.as_str());
                if value::is_scalar(&e.1) {
                    out.append(": ");
                    out.append(compact_scalar(&e.1).as_str());
                    out.append("\n");
                } else {
                    out.append(":\n");
                    let deeper: String = pad.to_owned().concat("  ");
                    compact_lines(&e.1, deeper.as_str(), out, Ghost(ind + 1));
                }
                i += 1;
                proof {
                    assert(out@ =~= out0 + members_lines(fs.take(i as int), ind));
                }
            }
            proof {
                assert(fs.take(i as int) =~= fs);
            }
        },
        Value::Array(a) => {
            array_lines(a, pad, out);
        },
        _ => {
            out.append(pad);
            out.append(compact_scalar(v).as_str());
            out.append("\n");
            proof {
                assert(out@ =~= out0 + lines_of(v@, ind));
            }
        },
    }
}

/// Compact state rendering: same data without the JSON punctuation noise.
pub fn render_state_compact(v: &Value) -> (r: String)
    ensures
        r@ == compacted(v@),
{
    match v {
        Value::Str(s) => s.clone(),
        _ => {
            let mut s: String = String::new();
            let pad: String = String::new();
            compact_lines(v, pad.as_str(), &mut s, Ghost(0));
            let cs: Vec<char> = text::chars_of(s.as_str());
            proof {
                assert(s@ =~= lines_of(v@, 0));
            }
            text::string_of(text::trim_end(cs.as_slice()))
        },
    }
}

} // verus!
