//! Lines to print: text, and numbers with a fixed count of decimals.
use vstd::prelude::*;

use crate::text;
use crate::value;
use crate::value::{Json, Value};

verus! {

/// How a number is scaled before it is printed.
#[derive(Debug, Clone, Copy, PartialEq, Eq, Structural)]
pub enum Scale {
    Once,
    Percent,
    Thousandth,
}

/// A piece of a line: text, or a number (as it prints in full) to be shown
/// scaled, with `digits` decimals, at least `width` characters wide.
pub enum Piece {
    Text(String),
    Number { text: String, scale: Scale, digits: u8, width: u8 },
}

/// The piece that a `Piece` stands for.
pub enum Shown {
    Text(Seq<char>),
    Number { text: Seq<char>, scale: Scale, digits: u8, width: u8 },
}

impl View for Piece {
    type V = Shown;

    open spec fn view(&self) -> Shown {
        match *self {
            Piece::Text(s) => Shown::Text(s@),
            Piece::Number { text, scale, digits, width } => Shown::Number { text: text@, scale, digits, width },
        }
    }
}

/// The pieces of a line.
pub open spec fn shown(l: Seq<Piece>) -> Seq<Shown> {
    l.map_values(|p: Piece| p@)
}

/// The pieces of lines.
pub open spec fn all_shown(ls: Seq<Vec<Piece>>) -> Seq<Seq<Shown>> {
    ls.map_values(|l: Vec<Piece>| shown(l@))
}

/// Spaces that fill a text up to a width.
pub open spec fn fill(s: Seq<char>, width: int) -> Seq<char> {
    Seq::new(
        if s.len() < width {
            (width - s.len()) as nat
        } else {
            0
        },
        |i: int| ' ',
    )
}

/// The text, spaces after it up to a width.
pub fn pad_right(s: &str, width: usize) -> (r: String)
    ensures
        r@ == s@ + fill(s@, width as int),
{
    let n: usize = text::chars_of(s).len();
    let mut r: String = s.to_owned();
    let mut i: usize = n;
    proof {
        assert(s@ + Seq::new(0, |i: int| ' ') =~= s@);
    }
    while i < width
        invariant
            n == s@.len(),
            n <= i,
            i <= n || i <= width,
            r@ == s@ + Seq::new((i - n) as nat, |i: int| ' '),
        decreases width - i,
    {
        r.push(' ');
        i += 1;
        proof {
            assert(r@ =~= s@ + Seq::new((i - n) as nat, |i: int| ' '));
        }
    }
    r
}

/// A piece of text.
pub open spec fn say(s: Seq<char>) -> Shown {
    Shown::Text(s)
}

/// The member `k` as a number, zero for none.
pub open spec fn amount(j: Json, k: Seq<char>, scale: Scale, digits: u8, width: u8) -> Shown {
    Shown::Number {
        text: match value::number_in(value::index(j, k)) {
            Some(t) => t,
            None => "0.0"@,
        },
        scale,
        digits,
        width,
    }
}

/// The member `k` as JSON.
pub open spec fn member_text(j: Json, k: Seq<char>) -> Shown {
    Shown::Text(value::json_text_of(value::index(j, k)))
}

/// The string member `k`, a question mark for none.
pub open spec fn name_or(j: Json, k: Seq<char>) -> Seq<char> {
    match value::text_in(value::index(j, k)) {
        Some(t) => t,
        None => "?"@,
    }
}

pub fn put_text(l: &mut Vec<Piece>, s: &str)
    ensures
        shown(final(l)@) == shown(old(l)@).push(say(s@)),
{
    let ghost o = l@;
    l.push(Piece::Text(s.to_owned()));
    proof {
        assert(shown(l@) =~= shown(o).push(say(s@)));
    }
}

pub fn put_amount(l: &mut Vec<Piece>, v: &Value, k: &str, scale: Scale, digits: u8, width: u8)
    ensures
        shown(final(l)@) == shown(old(l)@).push(amount(v@, k@, scale, digits, width)),
{
    let ghost o = l@;
    let text: String = match value::number_at(v, k) {
        Some(t) => t,
        None => "0.0".to_owned(),
    };
    l.push(Piece::Number { text, scale, digits, width });
    proof {
        assert(shown(l@) =~= shown(o).push(amount(v@, k@, scale, digits, width)));
    }
}

pub fn put_member(l: &mut Vec<Piece>, v: &Value, k: &str)
    ensures
        shown(final(l)@) == shown(old(l)@).push(member_text(v@, k@)),
{
    let ghost o = l@;
    l.push(Piece::Text(value::json_text(&value::copy_at(v, k))));
    proof {
        assert(shown(l@) =~= shown(o).push(member_text(v@, k@)));
    }
}

pub fn name_of(v: &Value, k: &str) -> (r: String)
    ensures
        r@ == name_or(v@, k@),
{
    match value::str_at(v, k) {
        Some(t) => t.to_owned(),
        None => "?".to_owned(),
    }
}

pub fn put_line(ls: &mut Vec<Vec<Piece>>, l: Vec<Piece>)
    ensures
        all_shown(final(ls)@) == all_shown(old(ls)@).push(shown(l@)),
{
    let ghost o = ls@;
    ls.push(l);
    proof {
        assert(all_shown(ls@) =~= all_shown(o).push(shown(l@)));
    }
}

} // verus!
