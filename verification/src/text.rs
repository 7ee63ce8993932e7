//! Text: pieces, decimal numbers, and the forms text may take.
use vstd::prelude::*;
use vstd::slice::slice_subrange;

verus! {

/// `String::push` appends one character.
pub assume_specification[ String::push ](s: &mut String, c: char)
    ensures
        final(s)@ == old(s)@.push(c),
;

/// The texts of strings.
pub open spec fn views(v: Seq<String>) -> Seq<Seq<char>> {
    v.map_values(|s: String| s@)
}

/// The characters of a text.
pub fn chars_of(s: &str) -> (r: Vec<char>)
    ensures
        r@ == s@,
{
    let mut r: Vec<char> = Vec::new();
    for c in it: s.chars()
        invariant
            r@ == it.seq().take(it.index() as int),
            it.seq() == s@,
    {
        r.push(c);
        proof {
            assert(r@ =~= it.seq().take(it.index() + 1));
        }
    }
    proof {
        assert(s@.take(s@.len() as int) =~= s@);
    }
    r
}

/// The text of characters.
pub fn string_of(cs: &[char]) -> (r: String)
    ensures
        r@ == cs@,
{
    let mut r: String = String::new();
    let mut i: usize = 0;
    while i < cs.len()
        invariant
            i <= cs@.len(),
            r@ == cs@.take(i as int),
        decreases cs@.len() - i,
    {
        r.push(cs[i]);
        i += 1;
        proof {
            assert(r@ =~= cs@.take(i as int));
        }
    }
    proof {
        assert(cs@.take(i as int) =~= cs@);
    }
    r
}

/// Whether two character sequences are equal.
pub fn same_chars(a: &[char], b: &[char]) -> (r: bool)
    ensures
        r <==> a@ == b@,
{
    if a.len() != b.len() {
        return false;
    }
    let mut i: usize = 0;
    while i < a.len()
        invariant
            i <= a@.len(),
            a@.len() == b@.len(),
            forall|k: int| 0 <= k < i ==> a@[k] == b@[k],
        decreases a@.len() - i,
    {
        if a[i] != b[i] {
            return false;
        }
        i += 1;
    }
    proof {
        assert(a@ =~= b@);
    }
    true
}

/// Whether two texts are equal.
pub fn same(a: &str, b: &str) -> (r: bool)
    ensures
        r <==> a@ == b@,
{
    let (x, y): (Vec<char>, Vec<char>) = (chars_of(a), chars_of(b));
    same_chars(x.as_slice(), y.as_slice())
}

/// The decimal digits of `n`.
pub open spec fn digits(n: nat) -> Seq<char>
    decreases n,
{
    if n < 10 {
        seq![digit(n)]
    } else {
        digits(n / 10).push(digit(n % 10))
    }
}

/// The character of a digit below 10.
pub open spec fn digit(d: nat) -> char {
    ('0' as u32 + d) as char
}

fn digit_char(d: u64) -> (c: char)
    requires
        d < 10,
    ensures
        c == digit(d as nat),
{
    match d {
        0 => '0',
        1 => '1',
        2 => '2',
        3 => '3',
        4 => '4',
        5 => '5',
        6 => '6',
        7 => '7',
        8 => '8',
        _ => '9',
    }
}

/// `n` in decimal.
pub fn decimal(n: u64) -> (r: String)
    ensures
        r@ == digits(n as nat),
    decreases n,
{
    if n < 10 {
        let mut r: String = String::new();
        r.push(digit_char(n));
        proof {
            assert(r@ =~= seq![digit(n as nat)]);
        }
        r
    } else {
        let mut r: String = decimal(n / 10);
        r.push(digit_char(n % 10));
        r
    }
}

/// Pieces joined by `sep`.
pub open spec fn joined(v: Seq<Seq<char>>, sep: Seq<char>) -> Seq<char>
    decreases v.len(),
{
    if v.len() == 0 {
        Seq::empty()
    } else if v.len() == 1 {
        v[0]
    } else {
        joined(v.drop_last(), sep) + sep + v.last()
    }
}

pub fn join(v: &Vec<String>, sep: &str) -> (r: String)
    ensures
        r@ == joined(views(v@), sep@),
{
    let mut r: String = String::new();
    let mut i: usize = 0;
    while i < v.len()
        invariant
            i <= v@.len(),
            r@ == joined(views(v@).take(i as int), sep@),
        decreases v@.len() - i,
    {
        proof {
            let t = views(v@).take(i + 1);
            assert(t.drop_last() =~= views(v@).take(i as int));
            assert(t.last() == v@[i as int]@);
        }
        if i > 0 {
            r.append(sep);
        }
        r.append(v[i].as_str());
        i += 1;
        proof {
            if i == 1 {
                assert(r@ =~= v@[0]@);
            }
        }
    }
    proof {
        assert(views(v@).take(i as int) =~= views(v@));
    }
    r
}

/// `p` starts `s`.
pub fn starts_with(s: &[char], p: &[char]) -> (r: bool)
    ensures
        r <==> p@.is_prefix_of(s@),
{
    if s.len() < p.len() {
        return false;
    }
    let head: &[char] = slice_subrange(s, 0, p.len());
    same_chars(head, p)
}

/// `p` ends `s`.
pub fn ends_with(s: &[char], p: &[char]) -> (r: bool)
    ensures
        r <==> p@.is_suffix_of(s@),
{
    if s.len() < p.len() {
        return false;
    }
    let tail: &[char] = slice_subrange(s, s.len() - p.len(), s.len());
    same_chars(tail, p)
}

/// `p` stands at position `i` of `s`.
pub open spec fn stands_at(s: Seq<char>, p: Seq<char>, i: int) -> bool {
    0 <= i && i + p.len() <= s.len() && s.subrange(i, i + p.len()) == p
}

/// `s` holds `p` somewhere.
pub open spec fn holds(s: Seq<char>, p: Seq<char>) -> bool {
    exists|i: int| stands_at(s, p, i)
}

/// The first place where `p` stands in `s`.
pub fn find(s: &[char], p: &[char]) -> (r: Option<usize>)
    ensures
        match r {
            Some(i) => stands_at(s@, p@, i as int) && forall|j: int| 0 <= j < i ==> !#[trigger] stands_at(s@, p@, j),
            None => !holds(s@, p@),
        },
{
    if s.len() < p.len() {
        return None;
    }
    let mut i: usize = 0;
    let all: usize = s.len();
    let end: usize = all - p.len();
    while i <= end
        invariant
            i <= end + 1,
            all == s@.len(),
            end + p@.len() == all,
            forall|j: int| 0 <= j < i ==> !#[trigger] stands_at(s@, p@, j),
        decreases end + 1 - i,
    {
        if same_chars(slice_subrange(s, i, i + p.len()), p) {
            return Some(i);
        }
        if i == end {
            proof {
                assert forall|j: int| !stands_at(s@, p@, j) by {}
            }
            return None;
        }
        i += 1;
    }
    None
}

/// The last place where `p` stands in `s`.
pub fn rfind(s: &[char], p: &[char]) -> (r: Option<usize>)
    ensures
        match r {
            Some(i) => stands_at(s@, p@, i as int) && forall|j: int| i < j ==> !#[trigger] stands_at(s@, p@, j),
            None => !holds(s@, p@),
        },
{
    if s.len() < p.len() {
        return None;
    }
    let all: usize = s.len();
    let mut i: usize = all - p.len();
    loop
        invariant
            all == s@.len(),
            i + p@.len() <= all,
            forall|j: int| i < j ==> !#[trigger] stands_at(s@, p@, j),
        decreases i,
    {
        if same_chars(slice_subrange(s, i, i + p.len()), p) {
            return Some(i);
        }
        if i == 0 {
            proof {
                assert forall|j: int| !stands_at(s@, p@, j) by {
                    if j > 0 {
                        assert(!stands_at(s@, p@, j));
                    }
                }
            }
            return None;
        }
        i -= 1;
    }
}

/// Unicode white space.
pub open spec fn space(c: char) -> bool {
    let n = c as u32;
    0x9 <= n <= 0xd || n == 0x20 || n == 0x85 || n == 0xa0 || n == 0x1680 || 0x2000 <= n <= 0x200a || n == 0x2028 || n
        == 0x2029 || n == 0x202f || n == 0x205f || n == 0x3000
}

pub fn is_space(c: char) -> (r: bool)
    ensures
        r == space(c),
{
    let n: u32 = c as u32;
    (0x9 <= n && n <= 0xd) || n == 0x20 || n == 0x85 || n == 0xa0 || n == 0x1680 || (0x2000 <= n && n <= 0x200a) || n
        == 0x2028 || n == 0x2029 || n == 0x202f || n == 0x205f || n == 0x3000
}

/// `s` without the white space at its end.
pub open spec fn trimmed_end(s: Seq<char>) -> Seq<char>
    decreases s.len(),
{
    if s.len() > 0 && space(s.last()) {
        trimmed_end(s.drop_last())
    } else {
        s
    }
}

/// `s` without the white space at its start.
pub open spec fn trimmed_start(s: Seq<char>) -> Seq<char>
    decreases s.len(),
{
    if s.len() > 0 && space(s[0]) {
        trimmed_start(s.skip(1))
    } else {
        s
    }
}

/// `s` without the white space around it.
pub open spec fn trimmed(s: Seq<char>) -> Seq<char> {
    trimmed_end(trimmed_start(s))
}

pub fn trim_end(s: &[char]) -> (r: &[char])
    ensures
        r@ == trimmed_end(s@),
{
    let mut n: usize = s.len();
    proof {
        assert(s@.take(n as int) =~= s@);
    }
    while n > 0 && is_space(s[n - 1])
        invariant
            n <= s@.len(),
            trimmed_end(s@.take(n as int)) == trimmed_end(s@),
        decreases n,
    {
        proof {
            assert(s@.take(n as int).drop_last() =~= s@.take(n - 1));
        }
        n -= 1;
    }
    slice_subrange(s, 0, n)
}

pub fn trim_start(s: &[char]) -> (r: &[char])
    ensures
        r@ == trimmed_start(s@),
{
    let mut n: usize = 0;
    proof {
        assert(s@.skip(0) =~= s@);
    }
    while n < s.len() && is_space(s[n])
        invariant
            n <= s@.len(),
            trimmed_start(s@.skip(n as int)) == trimmed_start(s@),
        decreases s@.len() - n,
    {
        proof {
            assert(s@.skip(n as int).skip(1) =~= s@.skip(n + 1));
        }
        n += 1;
    }
    let r: &[char] = slice_subrange(s, n, s.len());
    proof {
        assert(r@ =~= s@.skip(n as int));
    }
    r
}

/// A decimal digit.
pub open spec fn is_digit(c: char) -> bool {
    '0' <= c <= '9'
}

pub open spec fn all_digits(s: Seq<char>) -> bool {
    forall|i: int| 0 <= i < s.len() ==> is_digit(#[trigger] s[i])
}

/// The number that digits write.
pub open spec fn number(s: Seq<char>) -> nat
    decreases s.len(),
{
    if s.len() == 0 {
        0
    } else {
        number(s.drop_last()) * 10 + (s.last() as u32 - '0' as u32) as nat
    }
}

/// The unsigned number that `s` writes in digits, if it is at most `max`.
pub fn parse_digits(s: &[char], max: u64) -> (r: Option<u64>)
    ensures
        match r {
            Some(n) => s@.len() > 0 && all_digits(s@) && n == number(s@) && n <= max,
            None => s@.len() == 0 || !all_digits(s@) || number(s@) > max,
        },
{
    if s.len() == 0 {
        return None;
    }
    let mut n: u64 = 0;
    let mut i: usize = 0;
    let mut big: bool = false;
    while i < s.len()
        invariant
            i <= s@.len(),
            forall|k: int| 0 <= k < i ==> is_digit(#[trigger] s@[k]),
            !big ==> n == number(s@.take(i as int)) && n <= max,
            big ==> number(s@.take(i as int)) > max,
        decreases s@.len() - i,
    {
        let c: char = s[i];
        if c < '0' || c > '9' {
            assert(!is_digit(s@[i as int]));
            return None;
        }
        let d: u64 = (c as u32 - '0' as u32) as u64;
        proof {
            assert(s@.take(i + 1).drop_last() =~= s@.take(i as int));
            assert(number(s@.take(i + 1)) == number(s@.take(i as int)) * 10 + d);
        }
        if !big {
            if n > (max - (if d <= max { d } else { max })) / 10 || d > max {
                big = true;
            } else {
                n = n * 10 + d;
            }
        }
        i += 1;
    }
    proof {
        assert(s@.take(i as int) =~= s@);
    }
    if big {
        None
    } else {
        Some(n)
    }
}

/// The integer that `s` writes: digits after at most one sign.
pub open spec fn integer(s: Seq<char>) -> Option<int> {
    let signed = s.len() > 0 && (s[0] == '+' || s[0] == '-');
    let d = if signed {
        s.skip(1)
    } else {
        s
    };
    if d.len() == 0 || !all_digits(d) {
        None
    } else if signed && s[0] == '-' {
        Some(-number(d))
    } else {
        Some(number(d) as int)
    }
}

/// An integer in decimal.
pub open spec fn integer_text(n: int) -> Seq<char> {
    if n < 0 {
        seq!['-'] + digits((-n) as nat)
    } else {
        digits(n as nat)
    }
}

/// The integer of 64 bits that `s` writes.
pub fn parse_i64(s: &[char]) -> (r: Option<i64>)
    ensures
        match r {
            Some(n) => integer(s@) == Some(n as int),
            None => integer(s@) is None || integer(s@)->0 < i64::MIN || integer(s@)->0 > i64::MAX,
        },
{
    let signed: bool = s.len() > 0 && (s[0] == '+' || s[0] == '-');
    let minus: bool = signed && s[0] == '-';
    let d: &[char] = if signed {
        slice_subrange(s, 1, s.len())
    } else {
        s
    };
    proof {
        if signed {
            assert(d@ =~= s@.skip(1));
        }
    }
    if minus {
        match parse_digits(d, 0x8000_0000_0000_0000) {
            Some(n) => if n == 0x8000_0000_0000_0000 {
                Some(i64::MIN)
            } else {
                Some(-(n as i64))
            },
            None => None,
        }
    } else {
        match parse_digits(d, 0x7fff_ffff_ffff_ffff) {
            Some(n) => Some(n as i64),
            None => None,
        }
    }
}

pub fn decimal_i64(n: i64) -> (r: String)
    ensures
        r@ == integer_text(n as int),
{
    if n < 0 {
        let m: u64 = if n == i64::MIN {
            0x8000_0000_0000_0000
        } else {
            (-n) as u64
        };
        let mut r: String = "-".to_owned();
        r.append(decimal(m).as_str());
        proof {
            reveal_strlit("-");
            assert("-"@ =~= seq!['-']);
        }
        r
    } else {
        decimal(n as u64)
    }
}

/// Pieces joined in two parts.
pub proof fn lemma_joined(a: Seq<Seq<char>>, b: Seq<Seq<char>>, sep: Seq<char>)
    requires
        a.len() > 0,
        b.len() > 0,
    ensures
        joined(a + b, sep) == joined(a, sep) + sep + joined(b, sep),
    decreases b.len(),
{
    let c = a + b;
    if b.len() == 1 {
        assert(c.drop_last() =~= a);
        assert(c.last() == b[0]);
        assert(joined(b, sep) == b[0]);
    } else {
        assert(c.drop_last() =~= a + b.drop_last());
        assert(c.last() == b.last());
        lemma_joined(a, b.drop_last(), sep);
        assert(joined(c, sep) =~= joined(a, sep) + sep + joined(b, sep));
    }
}

/// Digits write the number they were made of, so that no two numbers have the
/// same ones.
pub proof fn law_digits(n: nat)
    ensures
        number(digits(n)) == n,
        all_digits(digits(n)),
        digits(n).len() > 0,
    decreases n,
{
    if n < 10 {
        let s = digits(n);
        assert(s.drop_last() =~= Seq::empty());
        assert(number(s.drop_last()) == 0);
        assert(s.last() == digit(n));
    } else {
        law_digits(n / 10);
        let s = digits(n);
        assert(s.drop_last() =~= digits(n / 10));
        assert(s.last() == digit(n % 10));
        assert forall|i: int| 0 <= i < s.len() implies is_digit(#[trigger] s[i]) by {
            if i < s.len() - 1 {
                assert(is_digit(digits(n / 10)[i]));
            }
        }
    }
}

/// A part of a text stands in it.
pub proof fn lemma_holds(a: Seq<char>, p: Seq<char>, b: Seq<char>)
    ensures
        holds(a + p + b, p),
{
    let s = a + p + b;
    assert(s.subrange(a.len() as int, (a.len() + p.len()) as int) =~= p);
    assert(stands_at(s, p, a.len() as int));
}

/// What stands in a part of a text stands in the text.
pub proof fn lemma_holds_in(a: Seq<char>, s: Seq<char>, b: Seq<char>, p: Seq<char>)
    requires
        holds(s, p),
    ensures
        holds(a + s + b, p),
{
    let i = choose|i: int| stands_at(s, p, i);
    let t = a + s + b;
    assert(t.subrange(a.len() + i, a.len() + i + p.len()) =~= s.subrange(i, i + p.len()));
    assert(stands_at(t, p, a.len() + i));
}

/// What stands in a text that stands in another stands in that one.
pub proof fn lemma_holds_through(t: Seq<char>, s: Seq<char>, p: Seq<char>)
    requires
        holds(t, s),
        holds(s, p),
    ensures
        holds(t, p),
{
    let i = choose|i: int| stands_at(t, s, i);
    assert(t =~= t.take(i) + s + t.skip(i + s.len()));
    lemma_holds_in(t.take(i), s, t.skip(i + s.len()), p);
}

/// Integers read back from what they print as.
pub proof fn law_integer(n: int)
    ensures
        integer(integer_text(n)) == Some(n),
{
    if n < 0 {
        let m = (-n) as nat;
        law_digits(m);
        let s = integer_text(n);
        assert(s[0] == '-');
        assert(s.skip(1) =~= digits(m));
    } else {
        law_digits(n as nat);
        assert(is_digit(digits(n as nat)[0]));
    }
}

/// Where the first line of `s` ends: at its first line feed, or with it.
pub open spec fn line_end(s: Seq<char>) -> int
    decreases s.len(),
{
    if s.len() == 0 || s[0] == '\n' {
        0
    } else {
        1 + line_end(s.skip(1))
    }
}

/// A line without the carriage return before its line feed.
pub open spec fn strip_cr(s: Seq<char>) -> Seq<char> {
    if s.len() > 0 && s.last() == '\r' {
        s.drop_last()
    } else {
        s
    }
}

/// The lines of a text: split at line feeds, a carriage return before one
/// dropped, the last line ending optional.
pub open spec fn lines_in(s: Seq<char>) -> Seq<Seq<char>>
    decreases s.len(),
{
    if s.len() == 0 {
        Seq::empty()
    } else {
        let i = line_end(s);
        if 0 <= i < s.len() {
            seq![strip_cr(s.take(i))] + lines_in(s.skip(i + 1))
        } else {
            seq![s]
        }
    }
}

pub proof fn lemma_line_end(s: Seq<char>, i: int)
    requires
        0 <= i <= s.len(),
        forall|k: int| 0 <= k < i ==> s[k] != '\n',
        i < s.len() ==> s[i] == '\n',
    ensures
        line_end(s) == i,
    decreases s.len(),
{
    if i > 0 {
        assert(s[0] != '\n');
        lemma_line_end(s.skip(1), i - 1);
    }
}

/// The lines of a text.
pub fn lines(s: &str) -> (r: Vec<String>)
    ensures
        views(r@) == lines_in(s@),
{
    let v: Vec<char> = chars_of(s);
    let n: usize = v.len();
    let mut r: Vec<String> = Vec::new();
    let mut at: usize = 0;
    proof {
        assert(v@.skip(0) =~= v@);
        assert(views(r@) + lines_in(v@) =~= lines_in(v@));
    }
    while at < n
        invariant
            at <= n,
            n == v@.len(),
            v@ == s@,
            views(r@) + lines_in(v@.skip(at as int)) == lines_in(v@),
        decreases n - at,
    {
        let mut end: usize = at;
        while end < n && v[end] != '\n'
            invariant
                at <= end <= n,
                n == v@.len(),
                forall|k: int| at <= k < end ==> v@[k] != '\n',
            decreases n - end,
        {
            end += 1;
        }
        let ghost rest = v@.skip(at as int);
        let ghost r0 = views(r@);
        proof {
            lemma_line_end(rest, end - at);
        }
        if end < n {
            let mut stop: usize = end;
            if stop > at && v[stop - 1] == '\r' {
                stop -= 1;
            }
            let l: &[char] = slice_subrange(v.as_slice(), at, stop);
            proof {
                assert(l@ =~= strip_cr(rest.take(end - at)));
                assert(rest.skip(end - at + 1) =~= v@.skip(end + 1));
            }
            r.push(string_of(l));
            proof {
                assert(views(r@) =~= r0.push(l@));
                assert(r0.push(l@) + lines_in(v@.skip(end + 1)) =~= r0 + (seq![l@] + lines_in(v@.skip(end + 1))));
            }
            at = end + 1;
        } else {
            let l: &[char] = slice_subrange(v.as_slice(), at, n);
            proof {
                assert(l@ =~= rest);
            }
            r.push(string_of(l));
            proof {
                assert(views(r@) =~= r0.push(l@));
                assert(v@.skip(n as int) =~= Seq::empty());
                assert(r0.push(l@) + lines_in(v@.skip(n as int)) =~= r0 + seq![l@]);
            }
            at = n;
        }
    }
    proof {
        assert(v@.skip(at as int) =~= Seq::empty());
        assert(views(r@) + lines_in(v@.skip(at as int)) =~= views(r@));
    }
    r
}

/// `a` sorts before `b` or equals it, character by character.
pub open spec fn text_le(a: Seq<char>, b: Seq<char>) -> bool
    decreases a.len(),
{
    a.len() == 0 || (b.len() > 0 && (a[0] < b[0] || (a[0] == b[0] && text_le(a.skip(1), b.skip(1)))))
}

pub fn sorts_before(a: &[char], b: &[char]) -> (r: bool)
    ensures
        r == text_le(a@, b@),
    decreases a@.len(),
{
    if a.len() == 0 {
        return true;
    }
    if b.len() == 0 {
        return false;
    }
    if a[0] != b[0] {
        return a[0] < b[0];
    }
    let (x, y): (&[char], &[char]) = (slice_subrange(a, 1, a.len()), slice_subrange(b, 1, b.len()));
    proof {
        assert(x@ =~= a@.skip(1));
        assert(y@ =~= b@.skip(1));
    }
    sorts_before(x, y)
}

pub proof fn lemma_text_le(a: Seq<char>, b: Seq<char>, c: Seq<char>)
    ensures
        text_le(a, a),
        text_le(a, b) || text_le(b, a),
        text_le(a, b) && text_le(b, a) ==> a == b,
        text_le(a, b) && text_le(b, c) ==> text_le(a, c),
    decreases a.len(),
{
    if a.len() > 0 && b.len() > 0 && c.len() > 0 {
        lemma_text_le(a.skip(1), b.skip(1), c.skip(1));
        if a[0] == b[0] && a.skip(1) == b.skip(1) {
            assert(a =~= seq![a[0]] + a.skip(1));
            assert(b =~= seq![b[0]] + b.skip(1));
        }
    } else if a.len() > 0 && b.len() > 0 {
        lemma_text_le(a.skip(1), b.skip(1), c);
        if a[0] == b[0] && a.skip(1) == b.skip(1) {
            assert(a =~= seq![a[0]] + a.skip(1));
            assert(b =~= seq![b[0]] + b.skip(1));
        }
    } else if a.len() > 0 {
        lemma_text_le(a.skip(1), b, c);
    } else if b.len() == 0 {
        assert(a =~= b);
    }
}

/// In order, none twice.
pub open spec fn ordered(v: Seq<Seq<char>>) -> bool {
    forall|i: int, j: int| 0 <= i < j < v.len() ==> text_le(#[trigger] v[i], #[trigger] v[j]) && v[i] != v[j]
}

/// Add a text to an ordered list, unless it stands there.
pub fn insert(v: &mut Vec<String>, k: &str)
    requires
        ordered(views(old(v)@)),
    ensures
        ordered(views(final(v)@)),
        forall|t: Seq<char>| #[trigger] views(final(v)@).contains(t) <==> views(old(v)@).contains(t) || t == k@,
{
    let ghost o = views(v@);
    let kc: Vec<char> = chars_of(k);
    let mut i: usize = 0;
    while i < v.len()
        invariant
            i <= v@.len(),
            o == views(v@),
            ordered(o),
            kc@ == k@,
            forall|j: int| 0 <= j < i ==> text_le(#[trigger] o[j], k@) && o[j] != k@,
        ensures
            i < v@.len() ==> !text_le(o[i as int], k@),
        decreases v@.len() - i,
    {
        proof {
            assert(o[i as int] == v@[i as int]@);
        }
        if same(v[i].as_str(), k) {
            proof {
                assert(o.contains(k@));
            }
            return;
        }
        let c: Vec<char> = chars_of(v[i].as_str());
        if !sorts_before(c.as_slice(), kc.as_slice()) {
            break;
        }
        proof {
            assert(text_le(o[i as int], k@));
            assert(o[i as int] != k@);
        }
        i += 1;
    }
    insert_at(v, i, k);
}

fn insert_at(v: &mut Vec<String>, i: usize, k: &str)
    requires
        ordered(views(old(v)@)),
        i <= old(v)@.len(),
        forall|j: int| 0 <= j < i ==> text_le(#[trigger] views(old(v)@)[j], k@) && views(old(v)@)[j] != k@,
        i < old(v)@.len() ==> !text_le(views(old(v)@)[i as int], k@),
    ensures
        ordered(views(final(v)@)),
        forall|t: Seq<char>| #[trigger] views(final(v)@).contains(t) <==> views(old(v)@).contains(t) || t == k@,
{
    let ghost o = views(v@);
    v.insert(i, k.to_owned());
    proof {
        let n = views(v@);
        assert(n =~= o.insert(i as int, k@));
        assert forall|a: int, b: int| 0 <= a < b < n.len() implies text_le(#[trigger] n[a], #[trigger] n[b]) && n[a] != n[b] by {
            if a < i && b < i {
                assert(text_le(o[a], o[b]));
            } else if a < i && b > i {
                assert(text_le(o[a], o[b - 1]));
            } else if a < i {
                assert(text_le(o[a], k@));
            } else if a == i {
                if b - 1 > i {
                    assert(text_le(o[i as int], o[b - 1]));
                }
                lemma_text_le(k@, o[i as int], o[b - 1]);
                lemma_text_le(o[i as int], o[b - 1], k@);
            } else {
                assert(text_le(o[a - 1], o[b - 1]));
            }
        }
        assert forall|t: Seq<char>| #[trigger] n.contains(t) <==> o.contains(t) || t == k@ by {
            if n.contains(t) {
                let j = choose|j: int| 0 <= j < n.len() && n[j] == t;
                if j < i {
                    assert(o[j] == t);
                } else if j > i {
                    assert(o[j - 1] == t);
                }
            }
            if o.contains(t) {
                let j = choose|j: int| 0 <= j < o.len() && o[j] == t;
                if j < i {
                    assert(n[j] == t);
                } else {
                    assert(n[j + 1] == t);
                }
            }
            assert(n[i as int] == k@);
        }
    }
}

/// Two ordered lists of the same texts are one.
pub proof fn law_ordered(a: Seq<Seq<char>>, b: Seq<Seq<char>>)
    requires
        ordered(a),
        ordered(b),
        forall|t: Seq<char>| a.contains(t) <==> b.contains(t),
    ensures
        a == b,
    decreases a.len(),
{
    if a.len() == 0 {
        if b.len() > 0 {
            assert(b.contains(b[0]));
        }
    } else if b.len() == 0 {
        assert(a.contains(a[0]));
    } else {
        let (x, y) = (a.last(), b.last());
        assert(a.contains(x) && b.contains(y));
        let i = choose|i: int| 0 <= i < b.len() && b[i] == x;
        let j = choose|j: int| 0 <= j < a.len() && a[j] == y;
        if i < b.len() - 1 {
            assert(text_le(b[i], b[b.len() - 1]));
            if j < a.len() - 1 {
                assert(text_le(a[j], a[a.len() - 1]));
                lemma_text_le(x, y, x);
            }
        }
        assert(x == y);
        let (p, q) = (a.drop_last(), b.drop_last());
        assert forall|t: Seq<char>| p.contains(t) implies q.contains(t) by {
            let k = choose|k: int| 0 <= k < p.len() && p[k] == t;
            assert(a[k] == t);
            assert(text_le(a[k], a[a.len() - 1]));
            assert(b.contains(t));
            let m = choose|m: int| 0 <= m < b.len() && b[m] == t;
            assert(q[m] == t);
        }
        assert forall|t: Seq<char>| q.contains(t) implies p.contains(t) by {
            let k = choose|k: int| 0 <= k < q.len() && q[k] == t;
            assert(b[k] == t);
            assert(text_le(b[k], b[b.len() - 1]));
            assert(a.contains(t));
            let m = choose|m: int| 0 <= m < a.len() && a[m] == t;
            assert(p[m] == t);
        }
        assert forall|k: int, m: int| 0 <= k < m < p.len() implies text_le(#[trigger] p[k], #[trigger] p[m]) && p[k] != p[m] by {
            assert(text_le(a[k], a[m]));
        }
        assert forall|k: int, m: int| 0 <= k < m < q.len() implies text_le(#[trigger] q[k], #[trigger] q[m]) && q[k] != q[m] by {
            assert(text_le(b[k], b[m]));
        }
        law_ordered(p, q);
        assert(a =~= p.push(x));
        assert(b =~= q.push(y));
    }
}

} // verus!
