//! Batches for the model runtime: tokens of decode groups in order, at most so
//! many at a time, and how the runtime is set up.
use vstd::prelude::*;
use vstd::slice::slice_subrange;

use crate::kv::Dec;
use crate::text;

verus! {

/// Seq capacity: seq 0 keeps the resident prompt head, the rest hold cache
/// entries and per-item work seqs.
pub const MAX_SEQS: i32 = 65;

/// Seq capacity on hybrid/recurrent archs: every seq pins a full
/// recurrent-state row, so the full count would take gigabytes.
pub const HYBRID_SEQS: i32 = 17;

/// A token of a group.
#[derive(Clone, Copy)]
pub struct Place {
    pub group: usize,
    pub at: usize,
}

/// The tokens of one group.
pub open spec fn own(g: int, n: int) -> Seq<Place> {
    Seq::new(
        if n > 0 {
            n as nat
        } else {
            0
        },
        |i: int| Place { group: g as usize, at: i as usize },
    )
}

/// The tokens of groups of these lengths, in order.
pub open spec fn flat(lens: Seq<int>) -> Seq<Place>
    decreases lens.len(),
{
    if lens.len() == 0 {
        Seq::empty()
    } else {
        flat(lens.drop_last()) + own(lens.len() - 1, lens.last())
    }
}

/// Every token of every group stands in the flat list, and none twice.
pub proof fn law_every_token_once(lens: Seq<int>)
    requires
        lens.len() <= usize::MAX,
        forall|g: int| 0 <= g < lens.len() ==> 0 <= (#[trigger] lens[g]) <= usize::MAX,
    ensures
        forall|p: Place|
            #[trigger] flat(lens).contains(p) <==> (p.group as int) < lens.len() && (p.at as int) < lens[p.group as int],
        flat(lens).no_duplicates(),
    decreases lens.len(),
{
    if lens.len() > 0 {
        let d = lens.drop_last();
        law_every_token_once(d);
        let (a, b, all) = (flat(d), own(lens.len() - 1, lens.last()), flat(lens));
        assert forall|p: Place| #[trigger] all.contains(p) <==> (p.group as int) < lens.len() && (p.at as int) < lens[
            p.group as int] by {
            assert(a.contains(p) <==> (p.group as int) < d.len() && (p.at as int) < d[p.group as int]);
            if all.contains(p) {
                let i = choose|i: int| 0 <= i < all.len() && all[i] == p;
                if i < a.len() {
                    assert(a[i] == p);
                } else {
                    assert(b[i - a.len()] == p);
                }
            }
            if a.contains(p) {
                let i = choose|i: int| 0 <= i < a.len() && a[i] == p;
                assert(all[i] == p);
            } else if p.group == lens.len() - 1 && (p.at as int) < lens.last() {
                assert(b[p.at as int] == p);
                assert(all[a.len() + p.at] == p);
            }
        }
        assert forall|i: int, j: int| 0 <= i < all.len() && 0 <= j < all.len() && i != j implies all[i] != all[j] by {
            if i < a.len() {
                assert(a.contains(a[i]));
            }
            if j < a.len() {
                assert(a.contains(a[j]));
            }
        }
    }
}

/// How many tokens each group has.
pub open spec fn lengths(groups: Seq<Dec>) -> Seq<int> {
    groups.map_values(|d: Dec| d.toks@.len() as int)
}

/// A list in pieces of `n`, the last one shorter.
pub open spec fn chunked<T>(s: Seq<T>, n: int) -> Seq<Seq<T>>
    decreases s.len(),
    when n > 0
{
    if s.len() == 0 {
        Seq::empty()
    } else if s.len() <= n {
        seq![s]
    } else {
        seq![s.take(n)] + chunked(s.skip(n), n)
    }
}

/// The pieces put together again.
pub open spec fn rejoined<T>(cs: Seq<Seq<T>>) -> Seq<T>
    decreases cs.len(),
{
    if cs.len() == 0 {
        Seq::empty()
    } else {
        cs[0] + rejoined(cs.skip(1))
    }
}

/// Pieces lose nothing, repeat nothing, and none is empty or too long.
pub proof fn law_chunks<T>(s: Seq<T>, n: int)
    requires
        n > 0,
    ensures
        rejoined(chunked(s, n)) == s,
        forall|i: int| 0 <= i < chunked(s, n).len() ==> 0 < (#[trigger] chunked(s, n)[i]).len() <= n,
    decreases s.len(),
{
    let cs = chunked(s, n);
    if s.len() == 0 {
    } else if s.len() <= n {
        assert(cs.skip(1) =~= Seq::empty());
        assert(rejoined(cs.skip(1)) =~= Seq::empty());
        assert(rejoined(cs) =~= s);
    } else {
        law_chunks(s.skip(n), n);
        assert(cs.skip(1) =~= chunked(s.skip(n), n));
        assert(rejoined(cs) =~= s);
        assert forall|i: int| 0 <= i < cs.len() implies 0 < (#[trigger] cs[i]).len() <= n by {
            if i > 0 {
                assert(cs[i] == chunked(s.skip(n), n)[i - 1]);
            }
        }
    }
}

/// The tokens of groups, in order.
pub fn flatten(groups: &Vec<Dec>) -> (r: Vec<Place>)
    ensures
        r@ == flat(lengths(groups@)),
{
    let ghost ls = lengths(groups@);
    let mut r: Vec<Place> = Vec::new();
    let mut g: usize = 0;
    proof {
        assert(ls.take(0) =~= Seq::empty());
    }
    while g < groups.len()
        invariant
            g <= groups@.len(),
            ls == lengths(groups@),
            r@ == flat(ls.take(g as int)),
        decreases groups@.len() - g,
    {
        let n: usize = groups[g].toks.len();
        let ghost r0 = r@;
        let mut t: usize = 0;
        proof {
            assert(r0 + own(g as int, 0) =~= r0);
        }
        while t < n
            invariant
                t <= n,
                r@ == r0 + own(g as int, t as int),
            decreases n - t,
        {
            r.push(Place { group: g, at: t });
            t += 1;
            proof {
                assert(r@ =~= r0 + own(g as int, t as int));
            }
        }
        proof {
            assert(ls.take(g + 1).drop_last() =~= ls.take(g as int));
            assert(ls.take(g + 1).last() == n);
        }
        g += 1;
    }
    proof {
        assert(ls.take(g as int) =~= ls);
    }
    r
}

/// The pieces as sequences.
pub open spec fn pieces(v: Seq<Vec<Place>>) -> Seq<Seq<Place>> {
    v.map_values(|c: Vec<Place>| c@)
}

/// Groups flattened, in batches of at most `n_batch` tokens.
pub fn batches(groups: &Vec<Dec>, n_batch: usize) -> (r: Vec<Vec<Place>>)
    requires
        n_batch > 0,
    ensures
        pieces(r@) == chunked(flat(lengths(groups@)), n_batch as int),
{
    let all: Vec<Place> = flatten(groups);
    let mut r: Vec<Vec<Place>> = Vec::new();
    let mut at: usize = 0;
    proof {
        assert(all@.skip(0) =~= all@);
        assert(pieces(r@) + chunked(all@, n_batch as int) =~= chunked(all@, n_batch as int));
    }
    while at < all.len()
        invariant
            at <= all@.len(),
            n_batch > 0,
            pieces(r@) + chunked(all@.skip(at as int), n_batch as int) == chunked(all@, n_batch as int),
        decreases all@.len() - at,
    {
        let ghost rest = all@.skip(at as int);
        let end: usize = if all.len() - at <= n_batch {
            all.len()
        } else {
            at + n_batch
        };
        let c: Vec<Place> = vstd::slice::slice_to_vec(slice_subrange(all.as_slice(), at, end));
        let ghost (r0, cv) = (pieces(r@), c@);
        r.push(c);
        proof {
            assert(pieces(r@) =~= r0.push(cv));
            if rest.len() <= n_batch {
                assert(cv =~= rest);
                assert(all@.skip(end as int) =~= Seq::empty());
                assert(r0 + seq![rest] =~= r0.push(cv) + Seq::empty());
            } else {
                assert(cv =~= rest.take(n_batch as int));
                assert(all@.skip(end as int) =~= rest.skip(n_batch as int));
                assert(r0 + (seq![cv] + chunked(rest.skip(n_batch as int), n_batch as int)) =~= r0.push(cv) + chunked(
                    rest.skip(n_batch as int),
                    n_batch as int,
                ));
            }
        }
        at = end;
    }
    proof {
        assert(all@.skip(at as int) =~= Seq::empty());
        assert(pieces(r@) + chunked(all@.skip(at as int), n_batch as int) =~= pieces(r@));
    }
    r
}

/// Whether the token's logits are wanted: the last of a group that wants them.
pub open spec fn wanted(d: Dec, at: int) -> bool {
    d.logits && at + 1 == d.toks@.len()
}

pub fn wants(d: &Dec, at: usize) -> (r: bool)
    requires
        at < d.toks@.len(),
    ensures
        r == wanted(*d, at as int),
{
    let n: usize = d.toks.len();
    d.logits && at == n - 1
}

/// The seqs to ask the runtime for first.
pub fn seq_capacity(hybrid: bool) -> (r: i32)
    ensures
        r == if hybrid { HYBRID_SEQS } else { MAX_SEQS },
{
    if hybrid {
        HYBRID_SEQS
    } else {
        MAX_SEQS
    }
}

/// The seqs to ask for after the runtime refused `n`: fewer is slower, never
/// wrong. None where there is nothing left to give up.
pub fn fewer_seqs(n: i32) -> (r: Option<i32>)
    ensures
        n <= 2 ==> r is None,
        n > 2 ==> r == Some((n / 2 + 1) as i32) && 2 <= r->0 < n,
{
    if n <= 2 {
        None
    } else {
        Some(n / 2 + 1)
    }
}

/// Threads to run with: those asked for, else those there are, else 4.
pub fn threads(asked: i32, available: Option<i32>) -> (r: i32)
    ensures
        asked > 0 ==> r == asked,
        asked <= 0 ==> r == match available {
            Some(n) => n,
            None => 4,
        },
{
    if asked > 0 {
        asked
    } else {
        match available {
            Some(n) => n,
            None => 4,
        }
    }
}

/// The lines that a text completes, their ends trimmed.
pub open spec fn complete_lines(s: Seq<char>) -> Seq<Seq<char>>
    decreases s.len(),
{
    let i = text::line_end(s);
    if 0 <= i < s.len() {
        seq![text::trimmed_end(s.take(i + 1))] + complete_lines(s.skip(i + 1))
    } else {
        Seq::empty()
    }
}

/// What a text leaves after its last complete line.
pub open spec fn pending_in(s: Seq<char>) -> Seq<char>
    decreases s.len(),
{
    let i = text::line_end(s);
    if 0 <= i < s.len() {
        pending_in(s.skip(i + 1))
    } else {
        s
    }
}

/// Messages arrive in pieces: hold a piece back until a line feed completes it.
pub fn take_lines(pending: &str, piece: &str) -> (r: (Vec<String>, String))
    ensures
        text::views(r.0@) == complete_lines(pending@ + piece@),
        r.1@ == pending_in(pending@ + piece@),
{
    let all: String = pending.to_owned().concat(piece);
    let v: Vec<char> = text::chars_of(all.as_str());
    let n: usize = v.len();
    let mut r: Vec<String> = Vec::new();
    let mut at: usize = 0;
    let mut end: usize = 0;
    proof {
        assert(v@.skip(0) =~= v@);
        assert(text::views(r@) + complete_lines(v@) =~= complete_lines(v@));
    }
    while end < n
        invariant
            at <= end <= n,
            n == v@.len(),
            forall|k: int| at <= k < end ==> v@[k] != '\n',
            text::views(r@) + complete_lines(v@.skip(at as int)) == complete_lines(v@),
            pending_in(v@.skip(at as int)) == pending_in(v@),
        decreases n - end,
    {
        if v[end] == '\n' {
            let ghost rest = v@.skip(at as int);
            let ghost r0 = text::views(r@);
            let l: &[char] = slice_subrange(v.as_slice(), at, end + 1);
            let t: String = text::string_of(text::trim_end(l));
            proof {
                text::lemma_line_end(rest, end - at);
                assert(l@ =~= rest.take(end - at + 1));
                assert(rest.skip(end - at + 1) =~= v@.skip(end + 1));
            }
            let ghost tv = t@;
            r.push(t);
            proof {
                assert(text::views(r@) =~= r0.push(tv));
                assert(r0.push(tv) + complete_lines(v@.skip(end + 1)) =~= r0 + (seq![tv] + complete_lines(
                    v@.skip(end + 1),
                )));
            }
            at = end + 1;
        }
        end += 1;
    }
    let l: &[char] = slice_subrange(v.as_slice(), at, n);
    proof {
        let rest = v@.skip(at as int);
        text::lemma_line_end(rest, n - at);
        assert(l@ =~= rest);
        assert(text::views(r@) + complete_lines(rest) =~= text::views(r@));
    }
    (r, text::string_of(l))
}

} // verus!
