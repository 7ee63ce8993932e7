//! Update nag: once a day ask for the latest release and mention it. Strictly
//! best-effort: what is asked, cached and said is decided here, the asking is
//! done elsewhere.
use vstd::prelude::*;
use vstd::slice::slice_subrange;

use crate::text;
use crate::value;
use crate::value::{Json, Value};

verus! {

pub const RELEASES_API: &'static str = "https://api.github.com/repos/emnlmn/snap/releases/latest";

pub const RELEASES_PAGE: &'static str = "https://github.com/emnlmn/snap/releases/latest";

/// How long a cached answer is good for, in seconds.
pub const TTL_S: u64 = 86400;

/// The name of the cache file.
pub const CACHE: &'static str = "version.check";

/// The place of the first of two characters, or the end.
pub open spec fn cut_at(s: Seq<char>, a: char, b: char) -> int
    decreases s.len(),
{
    if s.len() == 0 || s[0] == a || s[0] == b {
        0
    } else {
        1 + cut_at(s.skip(1), a, b)
    }
}

/// `s` without the `v`s at its start.
pub open spec fn bare(s: Seq<char>) -> Seq<char>
    decreases s.len(),
{
    if s.len() > 0 && (s[0] == 'v' || s[0] == 'V') {
        bare(s.skip(1))
    } else {
        s
    }
}

/// A version without its `v` and what follows its numbers.
pub open spec fn core_of(tag: Seq<char>) -> Seq<char> {
    let v = bare(text::trimmed(tag));
    v.take(cut_at(v, '-', '+'))
}

/// The number of a part: digits after at most one plus, within 32 bits; else 0.
pub open spec fn part_number(p: Seq<char>) -> int {
    let d = if p.len() > 0 && p[0] == '+' {
        p.skip(1)
    } else {
        p
    };
    if d.len() > 0 && text::all_digits(d) && text::number(d) <= u32::MAX {
        text::number(d) as int
    } else {
        0
    }
}

/// The `i`-th number of a dotted version; 0 where there is none.
pub open spec fn number_at(v: Seq<char>, i: nat) -> int
    decreases i,
{
    let n = cut_at(v, '.', '.');
    if i == 0 {
        part_number(v.take(n))
    } else if 0 <= n < v.len() {
        number_at(v.skip(n + 1), (i - 1) as nat)
    } else {
        0
    }
}

pub proof fn lemma_cut(s: Seq<char>, a: char, b: char, i: int)
    requires
        0 <= i <= s.len(),
        forall|k: int| 0 <= k < i ==> (#[trigger] s[k]) != a && s[k] != b,
        i < s.len() ==> s[i] == a || s[i] == b,
    ensures
        cut_at(s, a, b) == i,
    decreases s.len(),
{
    if i > 0 {
        assert(s[0] != a && s[0] != b);
        lemma_cut(s.skip(1), a, b, i - 1);
    }
}

fn cut(s: &[char], a: char, b: char) -> (r: usize)
    ensures
        r == cut_at(s@, a, b),
        r <= s@.len(),
{
    let mut i: usize = 0;
    while i < s.len() && s[i] != a && s[i] != b
        invariant
            i <= s@.len(),
            forall|k: int| 0 <= k < i ==> (#[trigger] s@[k]) != a && s@[k] != b,
        decreases s@.len() - i,
    {
        i += 1;
    }
    proof {
        lemma_cut(s@, a, b, i as int);
    }
    i
}

fn parse_part(p: &[char]) -> (r: u32)
    ensures
        r == part_number(p@),
{
    let d: &[char] = if p.len() > 0 && p[0] == '+' {
        let d: &[char] = slice_subrange(p, 1, p.len());
        proof {
            assert(d@ =~= p@.skip(1));
        }
        d
    } else {
        p
    };
    match text::parse_digits(d, u32::MAX as u64) {
        Some(n) => n as u32,
        None => 0,
    }
}

/// The number of a version's next part, and what follows it.
fn next_part<'a>(v: Option<&'a [char]>) -> (r: (u32, Option<&'a [char]>))
    ensures
        v is None ==> r.0 == 0 && r.1 is None,
        v matches Some(s) ==> {
            let n = cut_at(s@, '.', '.');
            &&& r.0 == part_number(s@.take(n))
            &&& 0 <= n < s@.len() ==> r.1 is Some && r.1->0@ == s@.skip(n + 1)
            &&& !(0 <= n < s@.len()) ==> r.1 is None
        },
{
    match v {
        Some(s) => {
            let n: usize = cut(s, '.', '.');
            let p: &[char] = slice_subrange(s, 0, n);
            proof {
                assert(p@ =~= s@.take(n as int));
            }
            if n < s.len() {
                let rest: &[char] = slice_subrange(s, n + 1, s.len());
                proof {
                    assert(rest@ =~= s@.skip(n + 1));
                }
                (parse_part(p), Some(rest))
            } else {
                (parse_part(p), None)
            }
        },
        None => (0, None),
    }
}

/// "v0.2.0-rc1" -> (0, 2, 0); unparseable parts count as 0
pub fn tuple(tag: &str) -> (r: (u32, u32, u32))
    ensures
        r.0 == number_at(core_of(tag@), 0),
        r.1 == number_at(core_of(tag@), 1),
        r.2 == number_at(core_of(tag@), 2),
{
    let cs: Vec<char> = text::chars_of(tag);
    let t: &[char] = text::trim_end(text::trim_start(cs.as_slice()));
    let mut i: usize = 0;
    proof {
        assert(t@.skip(0) =~= t@);
    }
    while i < t.len() && (t[i] == 'v' || t[i] == 'V')
        invariant
            i <= t@.len(),
            bare(t@.skip(i as int)) == bare(t@),
        decreases t@.len() - i,
    {
        proof {
            assert(t@.skip(i as int).skip(1) =~= t@.skip(i + 1));
        }
        i += 1;
    }
    let v: &[char] = slice_subrange(t, i, t.len());
    proof {
        assert(v@ =~= t@.skip(i as int));
        assert(v@ == bare(t@));
    }
    let n: usize = cut(v, '-', '+');
    let c: &[char] = slice_subrange(v, 0, n);
    proof {
        assert(c@ =~= core_of(tag@));
        reveal_with_fuel(number_at, 3);
    }
    let (a, rest): (u32, Option<&[char]>) = next_part(Some(c));
    let (b, rest): (u32, Option<&[char]>) = next_part(rest);
    let (d, _): (u32, Option<&[char]>) = next_part(rest);
    (a, b, d)
}

/// The numbers of a version.
pub open spec fn numbers(tag: Seq<char>) -> (int, int, int) {
    (number_at(core_of(tag), 0), number_at(core_of(tag), 1), number_at(core_of(tag), 2))
}

/// `a` comes after `b`: by the first number in which they differ.
pub open spec fn after(a: (int, int, int), b: (int, int, int)) -> bool {
    a.0 > b.0 || (a.0 == b.0 && (a.1 > b.1 || (a.1 == b.1 && a.2 > b.2)))
}

pub fn is_newer(tag: &str, current: &str) -> (r: bool)
    ensures
        r == after(numbers(tag@), numbers(current@)),
{
    let (a, b): ((u32, u32, u32), (u32, u32, u32)) = (tuple(tag), tuple(current));
    a.0 > b.0 || (a.0 == b.0 && (a.1 > b.1 || (a.1 == b.1 && a.2 > b.2)))
}

/// Three numbers with dots between them.
pub open spec fn dotted(a: u32, b: u32, c: u32) -> Seq<char> {
    text::digits(a as nat).push('.') + text::digits(b as nat).push('.') + text::digits(c as nat)
}

/// Nothing but white space.
pub open spec fn blank(s: Seq<char>) -> bool {
    forall|i: int| 0 <= i < s.len() ==> text::space(#[trigger] s[i])
}

/// Nothing but `v`s.
pub open spec fn all_vs(s: Seq<char>) -> bool {
    forall|i: int| 0 <= i < s.len() ==> (#[trigger] s[i]) == 'v' || s[i] == 'V'
}

/// What may follow the three numbers of a version: a mark, and anything after it.
pub open spec fn is_tail(s: Seq<char>) -> bool {
    s.len() == 0 || s[0] == '-' || s[0] == '+' || s[0] == '.'
}

proof fn lemma_skip_blank(s: Seq<char>, t: Seq<char>)
    requires
        blank(s),
        t.len() > 0,
        !text::space(t[0]),
    ensures
        text::trimmed_start(s + t) == t,
    decreases s.len(),
{
    if s.len() == 0 {
        assert(s + t =~= t);
    } else {
        assert(text::space(s[0]));
        assert forall|i: int| 0 <= i < s.skip(1).len() implies text::space(#[trigger] s.skip(1)[i]) by {
            assert(text::space(s[i + 1]));
        }
        lemma_skip_blank(s.skip(1), t);
        assert((s + t).skip(1) =~= s.skip(1) + t);
    }
}

/// Trimming the end stops at what is no white space, and leaves a start of the rest.
proof fn lemma_trim_rest(x: Seq<char>, t: Seq<char>) -> (n: int)
    requires
        x.len() > 0,
        !text::space(x.last()),
    ensures
        0 <= n <= t.len(),
        text::trimmed_end(x + t) == x + t.take(n),
        n < t.len() ==> blank(t.skip(n)),
        n > 0 ==> !text::space(t[n - 1]),
    decreases t.len(),
{
    let all = x + t;
    if t.len() == 0 {
        assert(all =~= x);
        assert(t.take(0) =~= t);
        assert(x + t =~= x);
        0
    } else if text::space(t.last()) {
        let d = t.drop_last();
        assert(all.drop_last() =~= x + d);
        assert(all.last() == t.last());
        let n = lemma_trim_rest(x, d);
        assert(d.take(n) =~= t.take(n));
        assert forall|i: int| 0 <= i < t.skip(n).len() implies text::space(#[trigger] t.skip(n)[i]) by {
            if n + i < d.len() {
                assert(d.skip(n)[i] == t[n + i]);
            }
        }
        n
    } else {
        assert(all.last() == t.last());
        assert(t.take(t.len() as int) =~= t);
        t.len() as int
    }
}

proof fn lemma_bare(s: Seq<char>, t: Seq<char>)
    requires
        all_vs(s),
        t.len() > 0,
        t[0] != 'v' && t[0] != 'V',
    ensures
        bare(s + t) == t,
    decreases s.len(),
{
    if s.len() == 0 {
        assert(s + t =~= t);
    } else {
        assert(s[0] == 'v' || s[0] == 'V');
        assert forall|i: int| 0 <= i < s.skip(1).len() implies (#[trigger] s.skip(1)[i]) == 'v' || s.skip(1)[i] == 'V' by {
            assert(s[i + 1] == 'v' || s[i + 1] == 'V');
        }
        lemma_bare(s.skip(1), t);
        assert((s + t).skip(1) =~= s.skip(1) + t);
    }
}

/// Digits are no marks.
proof fn lemma_cut_past(x: Seq<char>, t: Seq<char>, a: char, b: char)
    requires
        forall|i: int| 0 <= i < x.len() ==> (#[trigger] x[i]) != a && x[i] != b,
    ensures
        cut_at(x + t, a, b) == x.len() + cut_at(t, a, b),
        0 <= cut_at(t, a, b) <= t.len(),
    decreases x.len() + t.len(),
{
    if x.len() > 0 {
        assert(x[0] != a && x[0] != b);
        assert forall|i: int| 0 <= i < x.skip(1).len() implies (#[trigger] x.skip(1)[i]) != a && x.skip(1)[i] != b by {
            assert(x[i + 1] != a && x[i + 1] != b);
        }
        lemma_cut_past(x.skip(1), t, a, b);
        assert((x + t).skip(1) =~= x.skip(1) + t);
    } else {
        assert(x + t =~= t);
        if t.len() > 0 && t[0] != a && t[0] != b {
            lemma_cut_past(x, t.skip(1), a, b);
            assert(x + t.skip(1) =~= t.skip(1));
        }
    }
}

/// The first part of a version that starts with a number, and what follows it.
proof fn lemma_first_part(n: u32, t: Seq<char>)
    requires
        t.len() == 0 || t[0] == '.',
    ensures
        number_at(text::digits(n as nat) + t, 0) == n,
        t.len() > 0 ==> forall|i: nat| #[trigger] number_at(text::digits(n as nat) + t, i + 1) == number_at(t.skip(1), i),
{
    let d = text::digits(n as nat);
    text::law_digits(n as nat);
    assert forall|i: int| 0 <= i < d.len() implies (#[trigger] d[i]) != '.' by {
        assert(text::is_digit(d[i]));
    }
    lemma_cut_past(d, t, '.', '.');
    assert((d + t).take(d.len() as int) =~= d);
    assert(text::is_digit(d[0]));
    if t.len() > 0 {
        assert((d + t).skip(d.len() as int + 1) =~= t.skip(1));
    }
}

/// A version is read back as the three numbers it was written with: under any `v`s,
/// with white space around it, and whatever follows after a dash, a plus or one
/// more dot.
pub proof fn law_numbers_read_back(a: u32, b: u32, c: u32, left: Seq<char>, vs: Seq<char>, tail: Seq<char>, right: Seq<char>)
    requires
        blank(left),
        all_vs(vs),
        is_tail(tail),
        blank(right),
    ensures
        numbers(left + vs + dotted(a, b, c) + tail + right) == (a as int, b as int, c as int),
{
    let (x, y, z) = (text::digits(a as nat), text::digits(b as nat), text::digits(c as nat));
    let d = dotted(a, b, c);
    text::law_digits(a as nat);
    text::law_digits(b as nat);
    text::law_digits(c as nat);
    assert forall|i: int| 0 <= i < d.len() implies text::is_digit(#[trigger] d[i]) || d[i] == '.' by {
        if i < x.len() {
            assert(d[i] == x[i]);
        } else if x.len() < i <= x.len() + y.len() {
            assert(d[i] == y[i - x.len() - 1]);
        } else if i > x.len() + y.len() + 1 {
            assert(d[i] == z[i - x.len() - y.len() - 2]);
        }
    }
    assert(d[0] == x[0] && text::is_digit(x[0]));
    assert(d.last() == z.last() && text::is_digit(z[z.len() - 1]));
    let tag = left + vs + d + tail + right;
    let body = vs + d;
    let rest = tail + right;
    assert(tag =~= left + (body + rest));
    assert((body + rest)[0] == if vs.len() > 0 {
        vs[0]
    } else {
        d[0]
    });
    lemma_skip_blank(left, body + rest);
    assert(body.last() == d.last());
    let n = lemma_trim_rest(body, rest);
    let kept = rest.take(n);
    assert(is_tail(kept)) by {
        if tail.len() == 0 && n > 0 {
            assert(rest =~= right);
            assert(text::space(right[n - 1]));
        }
    }
    assert(text::trimmed(tag) == body + kept);
    assert(body + kept =~= vs + (d + kept));
    lemma_bare(vs, d + kept);
    lemma_cut_past(d, kept, '-', '+');
    let m = cut_at(kept, '-', '+');
    let more = kept.take(m);
    assert((d + kept).take(d.len() + m) =~= d + more);
    assert(core_of(tag) == d + more);
    assert(more.len() == 0 || more[0] == '.');
    let last = z + more;
    let mid = y + (seq!['.'] + last);
    let core = x + (seq!['.'] + mid);
    assert(core =~= d + more);
    lemma_first_part(a, seq!['.'] + mid);
    lemma_first_part(b, seq!['.'] + last);
    lemma_first_part(c, more);
    assert((seq!['.'] + mid).skip(1) =~= mid);
    assert((seq!['.'] + last).skip(1) =~= last);
    assert(number_at(core, 0 + 1) == number_at(mid, 0));
    assert(number_at(core, 1 + 1) == number_at(mid, 1));
    assert(number_at(mid, 0 + 1) == number_at(last, 0));
}

/// Newer is an order: no version is newer than itself, of two that differ in
/// a number one is newer, and what is newer than a newer one is newer.
pub proof fn law_newer(a: (int, int, int), b: (int, int, int), c: (int, int, int))
    ensures
        !after(a, a),
        !(after(a, b) && after(b, a)),
        a != b ==> after(a, b) || after(b, a),
        after(a, b) && after(b, c) ==> after(a, c),
{
}

/// A version is newer by its first number, whatever follows; by its second
/// where the first is the same, and by its third where both are.
pub proof fn law_newer_by(a: (int, int, int), b: (int, int, int))
    ensures
        a.0 > b.0 ==> after(a, b),
        a.0 == b.0 && a.1 > b.1 ==> after(a, b),
        a.0 == b.0 && a.1 == b.1 && a.2 > b.2 ==> after(a, b),
        after((a.0 + 1, 0, 0), a),
        after((a.0, a.1 + 1, 0), a),
        after((a.0, a.1, a.2 + 1), a),
{
}

/// An answer of `fetched` still stands at `now`.
pub open spec fn stands(now: int, fetched: int) -> bool {
    now < fetched + TTL_S
}

/// An answer stands for a day and no longer, and once it does not it never does
/// again.
pub proof fn law_stands(now: int, later: int, fetched: int)
    requires
        now <= later,
    ensures
        stands(fetched, fetched),
        stands(later, fetched) ==> stands(now, fetched),
        stands(fetched + 24 * 60 * 60 - 1, fetched),
        !stands(fetched + 24 * 60 * 60, fetched),
{
}

/// Whether a cached answer is still good.
pub fn is_fresh(now: u64, fetched: u64) -> (r: bool)
    ensures
        r == stands(now as int, fetched as int),
        r == (now - fetched < TTL_S),
{
    if now < fetched {
        true
    } else {
        now - fetched < TTL_S
    }
}

/// What a cache file holds: when it was written, and the tag of then; no tag
/// after a failure, which limits retries exactly like a success.
pub fn read_cache(v: &Value) -> (r: Option<(u64, Option<String>)>)
    ensures
        match r {
            Some((at, tag)) => {
                &&& value::unsigned_in(value::index(v@, "fetched"@)) == Some(at as int)
                &&& match tag {
                    Some(t) => value::text_in(value::index(v@, "tag"@)) == Some(t@),
                    None => value::text_in(value::index(v@, "tag"@)) is None,
                }
            },
            None => value::unsigned_in(value::index(v@, "fetched"@)) is None,
        },
{
    match value::unsigned_at(v, "fetched") {
        Some(at) => {
            let tag: Option<String> = match value::str_at(v, "tag") {
                Some(t) => Some(t.to_owned()),
                None => None,
            };
            Some((at, tag))
        },
        None => None,
    }
}

/// What a cache file is to hold.
pub open spec fn cache_of(now: u64, tag: Option<Seq<char>>) -> Json {
    Json::Object(
        seq![
            ("fetched"@, Json::Number(text::digits(now as nat))),
            (
                "tag"@,
                match tag {
                    Some(t) => Json::Str(t),
                    None => Json::Null,
                },
            ),
        ],
    )
}

/// What a cache file is to hold.
pub fn cache(now: u64, tag: Option<&str>) -> (r: Value)
    ensures
        r@ == cache_of(
            now,
            match tag {
                Some(t) => Some(t@),
                None => None,
            },
        ),
{
    let mut m: Vec<(String, Value)> = Vec::new();
    value::push_field(&mut m, "fetched", Value::Number(text::decimal(now)));
    let t: Value = match tag {
        Some(t) => Value::Str(t.to_owned()),
        None => Value::Null,
    };
    value::push_field(&mut m, "tag", t);
    proof {
        let w = cache_of(
            now,
            match tag {
                Some(t) => Some(t@),
                None => None,
            },
        )->Object_0;
        assert(value::fields(m@) =~= w);
    }
    Value::Object(m)
}

/// A cache reads back as it was written.
pub proof fn law_cache_reads_back(now: u64, tag: Option<Seq<char>>)
    ensures
        value::unsigned_in(value::index(cache_of(now, tag), "fetched"@)) == Some(now as int),
        value::text_in(value::index(cache_of(now, tag), "tag"@)) == tag,
{
    let m = cache_of(now, tag)->Object_0;
    reveal_strlit("fetched");
    reveal_strlit("tag");
    assert("fetched"@[0] == 'f' && "tag"@[0] == 't');
    value::lemma_is_place(m, "fetched"@, 0);
    value::lemma_is_place(m, "tag"@, 1);
    text::law_digits(now as nat);
}

/// The tag of a release.
pub fn release_tag(v: &Value) -> (r: Option<String>)
    ensures
        match r {
            Some(t) => value::text_in(value::index(v@, "tag_name"@)) == Some(t@),
            None => value::text_in(value::index(v@, "tag_name"@)) is None,
        },
{
    match value::str_at(v, "tag_name") {
        Some(t) => Some(t.to_owned()),
        None => None,
    }
}

/// The install channel decides the upgrade words.
pub open spec fn hint_for(exe: Seq<char>) -> Seq<char> {
    if text::holds(exe, "/Cellar/"@) || text::holds(exe, "/linuxbrew/"@) {
        "brew upgrade emnlmn/snap/snap"@
    } else {
        RELEASES_PAGE@
    }
}

/// An executable that a package manager installed is upgraded by it, any other
/// from the page of releases.
pub proof fn law_hint(dir: Seq<char>, rest: Seq<char>, exe: Seq<char>)
    ensures
        text::holds(hint_for(dir + "/Cellar/"@ + rest), "brew upgrade"@),
        text::holds(hint_for(dir + "/linuxbrew/"@ + rest), "brew upgrade"@),
        !exe.contains('/') ==> hint_for(exe) == RELEASES_PAGE@,
{
    text::lemma_holds(dir, "/Cellar/"@, rest);
    text::lemma_holds(dir, "/linuxbrew/"@, rest);
    reveal_strlit("brew upgrade");
    reveal_strlit("brew upgrade emnlmn/snap/snap");
    let t = "brew upgrade emnlmn/snap/snap"@;
    let e = Seq::<char>::empty();
    assert(t =~= e + "brew upgrade"@ + t.skip(12));
    text::lemma_holds(e, "brew upgrade"@, t.skip(12));
    reveal_strlit("/Cellar/");
    reveal_strlit("/linuxbrew/");
    if !exe.contains('/') {
        if text::holds(exe, "/Cellar/"@) {
            let i = choose|i: int| text::stands_at(exe, "/Cellar/"@, i);
            assert(exe.subrange(i, i + "/Cellar/"@.len())[0] == '/');
            assert(exe[i] == '/');
        }
        if text::holds(exe, "/linuxbrew/"@) {
            let i = choose|i: int| text::stands_at(exe, "/linuxbrew/"@, i);
            assert(exe.subrange(i, i + "/linuxbrew/"@.len())[0] == '/');
            assert(exe[i] == '/');
        }
    }
}

/// The upgrade words for an executable at a path.
pub fn upgrade_hint(exe: &str) -> (r: &'static str)
    ensures
        r@ == hint_for(exe@),
{
    let e: Vec<char> = text::chars_of(exe);
    let cellar: Vec<char> = text::chars_of("/Cellar/");
    let brew: Vec<char> = text::chars_of("/linuxbrew/");
    if text::find(e.as_slice(), cellar.as_slice()).is_some() || text::find(e.as_slice(), brew.as_slice()).is_some() {
        "brew upgrade emnlmn/snap/snap"
    } else {
        RELEASES_PAGE
    }
}

/// What to mention of a release: nothing unless it is newer than what runs.
pub fn nag(tag: &str, current: &str, exe: &str) -> (r: Option<String>)
    ensures
        match r {
            Some(m) => after(numbers(tag@), numbers(current@)) && m@ == "snap "@ + tag@ + " is out (you have "@ + current@
                + ") — "@ + hint_for(exe@),
            None => !after(numbers(tag@), numbers(current@)),
        },
{
    if is_newer(tag, current) {
        Some(
            "snap ".to_owned().concat(tag).concat(" is out (you have ").concat(current).concat(") — ").concat(
                upgrade_hint(exe),
            ),
        )
    } else {
        None
    }
}

} // verus!
