//! The groups of one wave: a prefix trie per base, decoded one after another.
use vstd::prelude::*;

use crate::kv::{Dec, Job};
use crate::memory;
use crate::plan;
use crate::plan::{Item, Span};
use crate::prefix;
use crate::trie;
use crate::trie::{Edge, Leaf, Tag};
use crate::wave;

verus! {

/// A wave about to decode: its items, the spans it caches, and the sequences
/// given out to them.
pub struct Seats<'a> {
    pub n: usize,
    pub shared: bool,
    pub spans: Vec<Span<'a>>,
    pub seq_of: Vec<i32>,
    pub span_seqs: Vec<i32>,
    pub free: Vec<i32>,
}

impl<'a> Seats<'a> {
    pub open spec fn ok(&self, items: Seq<Item>) -> bool {
        &&& wave::seated(
            items,
            self.shared,
            self.n as int,
            self.spans@.len() as int,
            self.free@,
            self.seq_of@,
            self.span_seqs@,
        )
        &&& plan::spans_ok(items, self.shared, self.n as int, self.spans@)
    }

    /// The sequences given out.
    pub open spec fn seqs(&self) -> Set<i32> {
        Set::new(|s: i32| self.seq_of@.contains(s) || self.span_seqs@.contains(s))
    }

    /// Every sequence holds what its prompt or span forks off.
    pub open spec fn seeded(&self, m: memory::Memory, items: Seq<Item>) -> bool {
        &&& forall|k: int| 0 <= k < self.n ==> m[#[trigger] self.seq_of@[k]] == wave::stem(items[k])
        &&& forall|t: int|
            0 <= t < self.spans@.len() ==> m[#[trigger] self.span_seqs@[t]] == self.spans@[t].toks@.take(
                self.spans@[t].blen as int,
            )
    }

    /// Items before `lo` are decoded from `m0`, and the spans of their bases;
    /// nothing else has changed.
    pub open spec fn woven(&self, m0: memory::Memory, m: memory::Memory, items: Seq<Item>, lo: int) -> bool {
        &&& forall|k: int|
            0 <= k < self.n ==> m[#[trigger] self.seq_of@[k]] == if k < lo {
                items[k].toks@
            } else {
                m0[self.seq_of@[k]]
            }
        &&& forall|t: int|
            0 <= t < self.spans@.len() ==> m[#[trigger] self.span_seqs@[t]] == if based(
                items,
                lo,
                self.spans@[t].base,
            ) {
                self.spans@[t].toks@
            } else {
                m0[self.span_seqs@[t]]
            }
        &&& forall|s: i32| !self.seqs().contains(s) ==> #[trigger] m[s] == m0[s]
    }
}

/// One of the first `lo` items has this base.
pub open spec fn based(items: Seq<Item>, lo: int, base: i32) -> bool {
    exists|k: int| 0 <= k < lo && (#[trigger] items[k]).base == base
}

/// Items `lo..hi` decode as one trie: in shared mode all that have one base,
/// else a single one.
pub open spec fn is_part(items: Seq<Item>, shared: bool, n: int, lo: int, hi: int) -> bool {
    &&& 0 <= lo < hi <= n <= items.len()
    &&& !plan::grouped(items, shared, lo)
    &&& hi < n ==> !plan::grouped(items, shared, hi)
    &&& forall|k: int| lo < k < hi ==> #[trigger] plan::grouped(items, shared, k)
}

/// The items of a part have its base, and in shared mode no others of the
/// wave do.
proof fn lemma_part(items: Seq<Item>, shared: bool, n: int, lo: int, hi: int)
    requires
        plan::in_order(items),
        is_part(items, shared, n, lo, hi),
    ensures
        forall|k: int| lo <= k < hi ==> (#[trigger] items[k]).base == items[lo].base,
        shared ==> forall|k: int| 0 <= k < n && (#[trigger] items[k]).base == items[lo].base ==> lo <= k < hi,
        !shared ==> hi == lo + 1,
    decreases hi - lo,
{
    lemma_part_base(items, shared, lo, hi);
    if shared {
        assert forall|k: int| 0 <= k < n && (#[trigger] items[k]).base == items[lo].base implies lo <= k < hi by {
            if k < lo {
                assert(plan::item_le(items[k], items[lo - 1]));
                assert(plan::item_le(items[lo - 1], items[lo]));
                assert(plan::grouped(items, shared, lo));
            }
            if k >= hi {
                assert(items[hi - 1].base == items[lo].base);
                assert(plan::item_le(items[hi - 1], items[hi]));
                assert(plan::item_le(items[hi], items[k]));
                assert(plan::grouped(items, shared, hi));
            }
        }
    } else if hi > lo + 1 {
        assert(plan::grouped(items, shared, lo + 1));
    }
}

proof fn lemma_part_base(items: Seq<Item>, shared: bool, lo: int, hi: int)
    requires
        lo < hi,
        forall|k: int| lo < k < hi ==> #[trigger] plan::grouped(items, shared, k),
    ensures
        forall|k: int| lo <= k < hi ==> (#[trigger] items[k]).base == items[lo].base,
    decreases hi - lo,
{
    if hi > lo + 1 {
        lemma_part_base(items, shared, lo, hi - 1);
        assert(plan::grouped(items, shared, hi - 1));
        assert(items[hi - 2].base == items[lo].base);
    }
}

/// The leaves of a part.
pub open spec fn part_leaves(items: Seq<Item>, seq_of: Seq<i32>, lo: int, hi: int, ls: Seq<Leaf>) -> bool {
    &&& ls.len() == hi - lo
    &&& forall|i: int|
        0 <= i < ls.len() ==> (#[trigger] ls[i]).job == items[lo + i].job && ls[i].toks@ == items[lo + i].toks@
            && ls[i].seq == seq_of[lo + i]
}

/// The spans with base `base`: tag `x` is span `from[x]`.
pub open spec fn part_tags(spans: Seq<Span>, span_seqs: Seq<i32>, base: i32, upto: int, from: Seq<int>, ts: Seq<Tag>) -> bool {
    &&& from.len() == ts.len()
    &&& forall|x: int, y: int| 0 <= x < y < from.len() ==> #[trigger] from[x] < #[trigger] from[y]
    &&& forall|x: int|
        0 <= x < ts.len() ==> 0 <= #[trigger] from[x] < upto && ts[x].toks@ == spans[from[x]].toks@ && ts[x].seq
            == span_seqs[from[x]] && spans[from[x]].base == base
    &&& forall|t: int| 0 <= t < upto && (#[trigger] spans[t]).base == base ==> from.contains(t)
}

/// Within a part, two leaves share a sequence exactly when their prompts are
/// equal.
proof fn lemma_part_seqs(items: Seq<Item>, st: &Seats, lo: int, hi: int, ls: Seq<Leaf>, from: Seq<int>, ts: Seq<Tag>)
    requires
        plan::in_order(items),
        st.ok(items),
        is_part(items, st.shared, st.n as int, lo, hi),
        part_leaves(items, st.seq_of@, lo, hi, ls),
        part_tags(st.spans@, st.span_seqs@, items[lo].base, st.spans@.len() as int, from, ts),
    ensures
        trie::own_seqs(ls, ts),
        trie::sorted_leaves(ls),
{
    let (shared, n) = (st.shared, st.n as int);
    lemma_part(items, shared, n, lo, hi);
    wave::lemma_seated(items, shared, n, st.spans@.len() as int, st.free@, st.seq_of@, st.span_seqs@);
    assert forall|i: int, j: int| 0 <= i <= j < ls.len() implies prefix::lex_le((#[trigger] ls[i]).toks@, (#[trigger] ls[j]).toks@) && (
    ls[i].seq == ls[j].seq <==> ls[i].toks@ == ls[j].toks@) by {
        let (x, y) = (lo + i, lo + j);
        assert(plan::item_le(items[x], items[y]));
        assert(items[x].base == items[lo].base && items[y].base == items[lo].base);
        wave::lemma_works_monotone(items, shared, x + 1, y + 1);
        assert(st.seq_of@[x] == st.seq_of@[y] <==> plan::works(items, shared, x + 1) == plan::works(items, shared, y + 1));
        if items[x].toks@ == items[y].toks@ {
            assert forall|k: int| x + 1 <= k < y + 1 implies #[trigger] plan::repeats(items, shared, k) by {
                assert(plan::grouped(items, shared, k));
                assert(items[k].base == items[lo].base && items[k - 1].base == items[lo].base);
                assert(plan::item_le(items[x], items[k - 1]) && plan::item_le(items[k - 1], items[y]));
                assert(plan::item_le(items[x], items[k]) && plan::item_le(items[k], items[y]));
                prefix::lemma_lex_antisymmetric(items[x].toks@, items[k].toks@);
                prefix::lemma_lex_antisymmetric(items[x].toks@, items[k - 1].toks@);
            }
        }
        if plan::works(items, shared, x + 1) == plan::works(items, shared, y + 1) {
            lemma_repeats_equal(items, shared, x, y);
        }
    }
    assert forall|i: int, j: int| 0 <= i < ts.len() && 0 <= j < ts.len() && (#[trigger] ts[i]).seq == (#[trigger] ts[j]).seq implies i
        == j by {
        let (a, b) = (from[i], from[j]);
        if i < j {
            assert(from[i] < from[j]);
            assert(st.span_seqs@[a] != st.span_seqs@[b]);
        } else if j < i {
            assert(from[j] < from[i]);
            assert(st.span_seqs@[b] != st.span_seqs@[a]);
        }
    }
    assert forall|i: int, j: int| 0 <= i < ls.len() && 0 <= j < ts.len() implies (#[trigger] ls[i]).seq != (#[trigger] ts[j]).seq by {
        let t = from[j];
        assert(st.seq_of@[lo + i] != st.span_seqs@[t]);
    }
}

proof fn lemma_repeats_equal(items: Seq<Item>, shared: bool, x: int, y: int)
    requires
        0 <= x <= y < items.len(),
        forall|k: int| x + 1 <= k < y + 1 ==> #[trigger] plan::repeats(items, shared, k),
    ensures
        items[x].toks@ == items[y].toks@,
    decreases y - x,
{
    if x < y {
        lemma_repeats_equal(items, shared, x, y - 1);
        assert(plan::repeats(items, shared, y));
    }
}

/// A part is ready to decode: its leaves and spans all extend what their base
/// holds.
proof fn lemma_part_ready(
    items: Seq<Item>,
    st: &Seats,
    lo: int,
    hi: int,
    ls: Seq<Leaf>,
    from: Seq<int>,
    ts: Seq<Tag>,
    m0: memory::Memory,
    m: memory::Memory,
)
    requires
        plan::in_order(items),
        plan::forked(items),
        plan::same_base(items),
        wave::one_stem(items),
        st.ok(items),
        is_part(items, st.shared, st.n as int, lo, hi),
        part_leaves(items, st.seq_of@, lo, hi, ls),
        part_tags(st.spans@, st.span_seqs@, items[lo].base, st.spans@.len() as int, from, ts),
        st.seeded(m0, items),
        st.woven(m0, m, items, lo),
    ensures
        trie::under(ls, ts, 0, hi - lo, wave::stem(items[lo])),
        trie::ready(m, ls, ts, 0, hi - lo, wave::stem(items[lo])),
        trie::all_seqs(ls, ts, st.seqs()),
        forall|x: int| 0 <= x < ts.len() ==> trie::extends((#[trigger] ts[x]).toks@, wave::stem(items[lo])),
        wave::stem(items[lo]).len() == items[lo].blen,
{
    let (shared, n) = (st.shared, st.n as int);
    let p = wave::stem(items[lo]);
    lemma_part(items, shared, n, lo, hi);
    assert forall|i: int| 0 <= i < ls.len() implies trie::extends((#[trigger] ls[i]).toks@, p) && m[ls[i].seq] == p
        && st.seqs().contains(ls[i].seq) by {
        let x = lo + i;
        assert(items[x].base == items[lo].base);
        assert(wave::stem(items[x]) == p && items[x].blen == items[lo].blen);
        assert(items[x].blen < items[x].toks@.len());
        assert(m[st.seq_of@[x]] == m0[st.seq_of@[x]]);
        assert(st.seq_of@.contains(st.seq_of@[x]));
    }
    assert forall|t: int| 0 <= t < ts.len() implies trie::extends((#[trigger] ts[t]).toks@, p) && m[ts[t].seq] == p
        && st.seqs().contains(ts[t].seq) && exists|i: int|
        0 <= i < hi - lo && ts[t].toks@.is_prefix_of((#[trigger] ls[i]).toks@) by {
        let f = from[t];
        let sp = st.spans@[f];
        let k = choose|k: int| 0 <= k < n && plan::cut_from(#[trigger] items[k], sp);
        assert(items[k].base == items[lo].base);
        assert(lo <= k < hi);
        assert(wave::stem(items[k]) == p && items[k].blen == items[lo].blen);
        assert(ls[k - lo].toks@ == items[k].toks@);
        assert(sp.toks@.take(sp.blen as int) =~= p) by {
            assert(sp.toks@ =~= items[k].toks@.subrange(0, sp.toks@.len() as int));
        }
        assert(!based(items, lo, sp.base)) by {
            if based(items, lo, sp.base) {
                let z = choose|z: int| 0 <= z < lo && (#[trigger] items[z]).base == sp.base;
                assert(lo <= z);
            }
        }
        assert(m[st.span_seqs@[f]] == m0[st.span_seqs@[f]]);
        assert(st.span_seqs@.contains(st.span_seqs@[f]));
    }
}

/// Decoding a part moves the wave past it.
proof fn lemma_part_done(
    items: Seq<Item>,
    st: &Seats,
    lo: int,
    hi: int,
    ls: Seq<Leaf>,
    from: Seq<int>,
    ts: Seq<Tag>,
    m0: memory::Memory,
    m: memory::Memory,
    m2: memory::Memory,
)
    requires
        plan::in_order(items),
        st.ok(items),
        is_part(items, st.shared, st.n as int, lo, hi),
        part_leaves(items, st.seq_of@, lo, hi, ls),
        part_tags(st.spans@, st.span_seqs@, items[lo].base, st.spans@.len() as int, from, ts),
        st.woven(m0, m, items, lo),
        forall|x: int| 0 <= x < ts.len() ==> trie::extends((#[trigger] ts[x]).toks@, wave::stem(items[lo])),
        trie::grown(m, m2, ls, ts, 0, hi - lo, wave::stem(items[lo])),
    ensures
        st.woven(m0, m2, items, hi),
{
    let (shared, n) = (st.shared, st.n as int);
    lemma_part(items, shared, n, lo, hi);
    wave::lemma_seated(items, shared, n, st.spans@.len() as int, st.free@, st.seq_of@, st.span_seqs@);
    assert forall|k: int| 0 <= k < n implies m2[#[trigger] st.seq_of@[k]] == if k < hi {
        items[k].toks@
    } else {
        m0[st.seq_of@[k]]
    } by {
        let s = st.seq_of@[k];
        if lo <= k < hi {
            assert(ls[k - lo].seq == s);
        } else {
            assert forall|i: int| 0 <= i < hi - lo implies (#[trigger] ls[i]).seq != s by {
                let x = lo + i;
                if k < lo {
                    wave::lemma_works_monotone(items, shared, k + 1, lo);
                    wave::lemma_works_monotone(items, shared, lo + 1, x + 1);
                    assert(!plan::repeats(items, shared, lo));
                    assert(st.seq_of@[k] == st.seq_of@[x] <==> plan::works(items, shared, k + 1) == plan::works(
                        items,
                        shared,
                        x + 1,
                    ));
                } else {
                    wave::lemma_works_monotone(items, shared, x + 1, hi);
                    wave::lemma_works_monotone(items, shared, hi + 1, k + 1);
                    assert(!plan::repeats(items, shared, hi));
                    assert(st.seq_of@[x] == st.seq_of@[k] <==> plan::works(items, shared, x + 1) == plan::works(
                        items,
                        shared,
                        k + 1,
                    ));
                }
            }
            assert forall|t: int| 0 <= t < ts.len() implies (#[trigger] ts[t]).seq != s by {
                assert(st.seq_of@[k] != st.span_seqs@[from[t]]);
            }
            assert(m2[s] == m[s]);
        }
    }
    assert forall|t: int| 0 <= t < st.spans@.len() implies m2[#[trigger] st.span_seqs@[t]] == if based(
        items,
        hi,
        st.spans@[t].base,
    ) {
        st.spans@[t].toks@
    } else {
        m0[st.span_seqs@[t]]
    } by {
        let s = st.span_seqs@[t];
        let b = st.spans@[t].base;
        if b == items[lo].base {
            assert(from.contains(t));
            let x = choose|x: int| 0 <= x < from.len() && from[x] == t;
            assert(ts[x].seq == s);
            assert(items[lo].base == b);
        } else {
            assert forall|i: int| 0 <= i < hi - lo implies (#[trigger] ls[i]).seq != s by {
                assert(st.seq_of@[lo + i] != st.span_seqs@[t]);
            }
            assert forall|x: int| 0 <= x < ts.len() implies (#[trigger] ts[x]).seq != s by {
                let f = from[x];
                if f < t {
                    assert(st.span_seqs@[f] != st.span_seqs@[t]);
                } else if t < f {
                    assert(st.span_seqs@[t] != st.span_seqs@[f]);
                }
            }
            assert(m2[s] == m[s]);
            if based(items, hi, b) {
                let z = choose|z: int| 0 <= z < hi && (#[trigger] items[z]).base == b;
                assert(z < lo);
                assert(based(items, lo, b));
            }
            if based(items, lo, b) {
                let z = choose|z: int| 0 <= z < lo && (#[trigger] items[z]).base == b;
                assert(items[z].base == b);
            }
        }
    }
    assert forall|s: i32| !st.seqs().contains(s) implies #[trigger] m2[s] == m0[s] by {
        assert forall|i: int| 0 <= i < hi - lo implies (#[trigger] ls[i]).seq != s by {
            assert(st.seq_of@.contains(st.seq_of@[lo + i]));
        }
        assert forall|x: int| 0 <= x < ts.len() implies (#[trigger] ts[x]).seq != s by {
            assert(st.span_seqs@.contains(st.span_seqs@[from[x]]));
        }
        assert(m2[s] == m[s]);
    }
}

/// A part's trie writes what the plan counted for its items.
proof fn lemma_part_cost(items: Seq<Item>, shared: bool, n: int, lo: int, hi: int, upto: int, ls: Seq<Leaf>)
    requires
        plan::in_order(items),
        plan::forked(items),
        plan::same_base(items),
        wave::one_stem(items),
        is_part(items, shared, n, lo, hi),
        ls.len() == hi - lo,
        forall|i: int| 0 <= i < ls.len() ==> (#[trigger] ls[i]).toks@ == items[lo + i].toks@,
        lo < upto <= hi,
    ensures
        trie::trie_cost(ls, 0, upto - lo, items[lo].blen as int) == plan::cells(items, shared, upto) - plan::cells(
            items,
            shared,
            lo,
        ),
    decreases upto - lo,
{
    if upto > lo + 1 {
        lemma_part_cost(items, shared, n, lo, hi, upto - 1, ls);
        let k = upto - 1;
        assert(plan::grouped(items, shared, k));
        let (a, b) = (items[k - 1], items[k]);
        assert(ls[k - lo].toks@ == b.toks@ && ls[k - 1 - lo].toks@ == a.toks@);
        assert(wave::stem(a) == wave::stem(b));
        assert forall|i: int| 0 <= i < b.blen implies a.toks@[i] == b.toks@[i] by {
            assert(wave::stem(a)[i] == wave::stem(b)[i]);
        }
        assert(a.blen == b.blen);
        prefix::lemma_lcp_bound(a.toks@, b.toks@, b.blen as int);
        prefix::lemma_lcp(a.toks@, b.toks@);
    } else {
        assert(ls[0].toks@ == items[lo].toks@);
        assert(plan::cells(items, shared, upto) == plan::cells(items, shared, lo) + plan::own_cells(items, shared, lo));
    }
}

/// The length of the longest prompt among items `lo..hi`.
pub open spec fn longest_of(items: Seq<Item>, lo: int, hi: int) -> int
    decreases hi - lo,
{
    if hi <= lo {
        0
    } else if items[hi - 1].toks@.len() > longest_of(items, lo, hi - 1) {
        items[hi - 1].toks@.len() as int
    } else {
        longest_of(items, lo, hi - 1)
    }
}

/// Where the part that item `k - 1` belongs to ends.
pub open spec fn part_end(items: Seq<Item>, shared: bool, n: int, k: int) -> int
    decreases n - k,
{
    if k < n && plan::grouped(items, shared, k) {
        part_end(items, shared, n, k + 1)
    } else {
        k
    }
}

/// The leaves of items `lo..hi`.
pub open spec fn leaves_of<'a>(items: Seq<Item<'a>>, seq_of: Seq<i32>, lo: int, hi: int) -> Seq<Leaf<'a>> {
    Seq::new(
        (hi - lo) as nat,
        |i: int| Leaf { job: items[lo + i].job, toks: items[lo + i].toks, seq: seq_of[lo + i] },
    )
}

/// The tags of those of the first `n` spans that fork off `base`.
pub open spec fn tags_of<'a>(spans: Seq<Span<'a>>, span_seqs: Seq<i32>, base: i32, n: int) -> Seq<Tag<'a>>
    decreases n,
{
    if n <= 0 {
        Seq::empty()
    } else if spans[n - 1].base == base {
        tags_of(spans, span_seqs, base, n - 1).push(Tag { toks: spans[n - 1].toks, seq: span_seqs[n - 1] })
    } else {
        tags_of(spans, span_seqs, base, n - 1)
    }
}

/// The trie of the part `lo..hi`.
pub open spec fn part_edges(items: Seq<Item>, st: &Seats, lo: int, hi: int) -> Seq<Edge> {
    trie::forest(
        leaves_of(items, st.seq_of@, lo, hi),
        tags_of(st.spans@, st.span_seqs@, items[lo].base, st.spans@.len() as int),
        0,
        hi - lo,
        items[lo].blen as int,
        longest_of(items, lo, hi),
    )
}

/// The tries of the wave's items from `lo` on, one part after the other.
pub open spec fn edges_from(items: Seq<Item>, st: &Seats, lo: int) -> Seq<Edge>
    decreases st.n - lo,
{
    let hi = part_end(items, st.shared, st.n as int, lo + 1);
    if lo < hi <= st.n {
        part_edges(items, st, lo, hi) + edges_from(items, st, hi)
    } else {
        Seq::empty()
    }
}

/// The longest prompt, as a bound on the depth of a trie.
fn longest(items: &Vec<Item>, lo: usize, hi: usize) -> (cap: usize)
    requires
        lo <= hi <= items@.len(),
    ensures
        cap == longest_of(items@, lo as int, hi as int),
        forall|i: int| lo <= i < hi ==> (#[trigger] items@[i]).toks@.len() <= cap,
{
    let mut cap: usize = 0;
    let mut i: usize = lo;
    while i < hi
        invariant
            lo <= i <= hi <= items@.len(),
            cap == longest_of(items@, lo as int, i as int),
            forall|k: int| lo <= k < i ==> (#[trigger] items@[k]).toks@.len() <= cap,
        decreases hi - i,
    {
        if items[i].toks.len() > cap {
            cap = items[i].toks.len();
        }
        i += 1;
    }
    cap
}

/// The part of the wave that starts at item `lo`: its leaves, and where it ends.
fn part_from<'a>(items: &Vec<Item<'a>>, st: &Seats<'a>, lo: usize) -> (r: (Vec<Leaf<'a>>, usize))
    requires
        st.n <= items@.len(),
        st.seq_of@.len() == st.n,
        lo < st.n,
        !plan::grouped(items@, st.shared, lo as int),
    ensures
        r.1 == part_end(items@, st.shared, st.n as int, lo + 1),
        is_part(items@, st.shared, st.n as int, lo as int, r.1 as int),
        r.0@ == leaves_of(items@, st.seq_of@, lo as int, r.1 as int),
{
    let (shared, n): (bool, usize) = (st.shared, st.n);
    let mut ls: Vec<Leaf<'a>> = Vec::new();
    ls.push(Leaf { job: items[lo].job, toks: items[lo].toks, seq: st.seq_of[lo] });
    let mut hi: usize = lo + 1;
    proof {
        assert(ls@ =~= leaves_of(items@, st.seq_of@, lo as int, hi as int));
    }
    while hi < n && shared && items[hi].base == items[hi - 1].base
        invariant
            shared == st.shared,
            n == st.n,
            st.seq_of@.len() == n,
            lo < hi <= n <= items@.len(),
            ls@ == leaves_of(items@, st.seq_of@, lo as int, hi as int),
            part_end(items@, shared, n as int, lo + 1) == part_end(items@, shared, n as int, hi as int),
            forall|k: int| lo < k < hi ==> #[trigger] plan::grouped(items@, shared, k),
        decreases n - hi,
    {
        ls.push(Leaf { job: items[hi].job, toks: items[hi].toks, seq: st.seq_of[hi] });
        hi += 1;
        proof {
            assert(ls@ =~= leaves_of(items@, st.seq_of@, lo as int, hi as int));
        }
    }
    (ls, hi)
}

/// The tags of the spans that fork off `base`, and which spans those are.
fn tags_on<'a>(st: &Seats<'a>, base: i32) -> (r: (Vec<Tag<'a>>, Ghost<Seq<int>>))
    requires
        st.span_seqs@.len() == st.spans@.len(),
    ensures
        r.0@ == tags_of(st.spans@, st.span_seqs@, base, st.spans@.len() as int),
        part_tags(st.spans@, st.span_seqs@, base, st.spans@.len() as int, r.1@, r.0@),
{
    let mut ts: Vec<Tag<'a>> = Vec::new();
    let ghost mut from = Seq::<int>::empty();
    let mut t: usize = 0;
    while t < st.spans.len()
        invariant
            st.span_seqs@.len() == st.spans@.len(),
            t <= st.spans@.len(),
            part_tags(st.spans@, st.span_seqs@, base, t as int, from, ts@),
            ts@ == tags_of(st.spans@, st.span_seqs@, base, t as int),
        decreases st.spans@.len() - t,
    {
        let ghost before = from;
        if st.spans[t].base == base {
            ts.push(Tag { toks: st.spans[t].toks, seq: st.span_seqs[t] });
            proof {
                from = from.push(t as int);
                assert(from[before.len() as int] == t as int);
            }
        }
        proof {
            assert forall|u: int| 0 <= u < t + 1 && (#[trigger] st.spans@[u]).base == base implies from.contains(u) by {
                if u < t {
                    assert(before.contains(u));
                    let x = choose|x: int| 0 <= x < before.len() && before[x] == u;
                    assert(from[x] == u);
                }
            }
        }
        t += 1;
    }
    (ts, Ghost(from))
}

/// The groups of the wave so far: those of the items before `lo`.
spec fn so_far(items: Seq<Item>, st: &Seats, groups: Seq<Dec>, rows: Seq<Vec<usize>>, m0: memory::Memory, want: spec_fn(usize) -> Seq<i32>, lo: int) -> bool {
    &&& 0 <= lo <= st.n
    &&& lo < st.n ==> !plan::grouped(items, st.shared, lo)
    &&& memory::within(groups, st.seqs())
    &&& memory::decodable(m0, groups)
    &&& memory::reads(m0, groups, rows, want)
    &&& st.woven(m0, memory::decoded(m0, groups), items, lo)
    &&& memory::jobs_read(rows) == wave::jobs_of(items).take(lo)
    &&& memory::written(groups) == plan::cells(items, st.shared, lo)
}

/// Add the groups of the part that starts at item `lo`.
#[verifier::rlimit(20)]
fn weave_part<'a>(
    items: &Vec<Item<'a>>,
    st: &Seats<'a>,
    jobs: &Vec<Job<'a>>,
    lo: usize,
    groups: &mut Vec<Dec<'a>>,
    rows: &mut Vec<Vec<usize>>,
    Ghost(m0): Ghost<memory::Memory>,
    Ghost(want): Ghost<spec_fn(usize) -> Seq<i32>>,
) -> (hi: usize)
    requires
        plan::in_order(items@),
        plan::forked(items@),
        plan::same_base(items@),
        wave::one_stem(items@),
        st.ok(items@),
        st.seeded(m0, items@),
        forall|k: int|
            0 <= k < items@.len() ==> (#[trigger] items@[k]).job < jobs@.len() && items@[k].toks
                == jobs@[items@[k].job as int].toks,
        want == (|j: usize| jobs@[j as int].toks@),
        lo < st.n,
        so_far(items@, st, old(groups)@, old(rows)@, m0, want, lo as int),
    ensures
        hi == part_end(items@, st.shared, st.n as int, lo + 1),
        lo < hi,
        so_far(items@, st, final(groups)@, final(rows)@, m0, want, hi as int),
        trie::emitted(
            old(groups)@,
            old(rows)@,
            final(groups)@,
            final(rows)@,
            part_edges(items@, st, lo as int, hi as int),
        ),
{
    let (shared, n): (bool, usize) = (st.shared, st.n);
    let (ls, hi): (Vec<Leaf<'a>>, usize) = part_from(items, st, lo);
    let base: i32 = items[lo].base;
    let (ts, Ghost(from)): (Vec<Tag<'a>>, Ghost<Seq<int>>) = tags_on(st, base);
    let cap: usize = longest(items, lo, hi);
    let ghost m = memory::decoded(m0, groups@);
    let ghost p = wave::stem(items@[lo as int]);
    let ghost width = hi - lo;
    proof {
        assert(is_part(items@, shared, n as int, lo as int, hi as int));
        lemma_part_seqs(items@, st, lo as int, hi as int, ls@, from, ts@);
        lemma_part_ready(items@, st, lo as int, hi as int, ls@, from, ts@, m0, m);
        assert forall|i: int| 0 <= i < ls@.len() implies (#[trigger] ls@[i]).toks@.len() <= cap && want(ls@[i].job)
            == ls@[i].toks@ by {
            assert(items@[lo + i].toks@.len() <= cap);
        }
    }
    trie::children(
        &ls,
        0,
        hi - lo,
        items[lo].blen,
        &ts,
        groups,
        rows,
        cap,
        Ghost(m0),
        Ghost(p),
        Ghost(want),
        Ghost(st.seqs()),
    );
    proof {
        lemma_part_done(items@, st, lo as int, hi as int, ls@, from, ts@, m0, m, memory::decoded(m0, groups@));
        lemma_part_cost(items@, shared, n as int, lo as int, hi as int, hi as int, ls@);
        assert(wave::jobs_of(items@).take(hi as int) =~= wave::jobs_of(items@).take(lo as int) + trie::leaf_jobs(
            ls@,
            0,
            width,
        ));
    }
    hi
}

/// The groups of a wave, and the jobs read at each: every job once, right
/// after exactly its prompt.
pub fn weave<'a>(
    items: &Vec<Item<'a>>,
    st: &Seats<'a>,
    jobs: &Vec<Job<'a>>,
    Ghost(m0): Ghost<memory::Memory>,
) -> (r: (Vec<Dec<'a>>, Vec<Vec<usize>>))
    requires
        plan::in_order(items@),
        plan::forked(items@),
        plan::same_base(items@),
        wave::one_stem(items@),
        st.ok(items@),
        st.seeded(m0, items@),
        forall|k: int|
            0 <= k < items@.len() ==> (#[trigger] items@[k]).job < jobs@.len() && items@[k].toks
                == jobs@[items@[k].job as int].toks,
    ensures
        memory::within(r.0@, st.seqs()),
        memory::decodable(m0, r.0@),
        memory::reads(m0, r.0@, r.1@, |j: usize| jobs@[j as int].toks@),
        st.woven(m0, memory::decoded(m0, r.0@), items@, st.n as int),
        memory::jobs_read(r.1@) == wave::jobs_of(items@).take(st.n as int),
        memory::written(r.0@) == plan::cells(items@, st.shared, st.n as int),
        trie::emitted(Seq::empty(), Seq::empty(), r.0@, r.1@, edges_from(items@, st, 0)),
{
    let ghost want = |j: usize| jobs@[j as int].toks@;
    let (shared, n): (bool, usize) = (st.shared, st.n);
    let mut groups: Vec<Dec<'a>> = Vec::new();
    let mut rows: Vec<Vec<usize>> = Vec::new();
    let mut lo: usize = 0;
    let ghost mut es = Seq::<Edge>::empty();
    let ghost (no_groups, no_rows) = (Seq::<Dec>::empty(), Seq::<Vec<usize>>::empty());
    proof {
        assert(wave::jobs_of(items@).take(0) =~= Seq::empty());
        assert(es + edges_from(items@, st, 0) =~= edges_from(items@, st, 0));
        assert(groups@ =~= no_groups && rows@ =~= no_rows);
    }
    while lo < n
        invariant
            plan::in_order(items@),
            plan::forked(items@),
            plan::same_base(items@),
            wave::one_stem(items@),
            st.ok(items@),
            st.seeded(m0, items@),
            forall|k: int|
                0 <= k < items@.len() ==> (#[trigger] items@[k]).job < jobs@.len() && items@[k].toks
                    == jobs@[items@[k].job as int].toks,
            want == (|j: usize| jobs@[j as int].toks@),
            shared == st.shared,
            n == st.n,
            lo <= n <= items@.len(),
            so_far(items@, st, groups@, rows@, m0, want, lo as int),
            no_groups == Seq::<Dec>::empty(),
            no_rows == Seq::<Vec<usize>>::empty(),
            trie::emitted(no_groups, no_rows, groups@, rows@, es),
            es + edges_from(items@, st, lo as int) == edges_from(items@, st, 0),
        decreases n - lo,
    {
        let ghost (g0, r0) = (groups@, rows@);
        let hi: usize = weave_part(items, st, jobs, lo, &mut groups, &mut rows, Ghost(m0), Ghost(want));
        proof {
            let below = part_edges(items@, st, lo as int, hi as int);
            let next = edges_from(items@, st, hi as int);
            trie::lemma_emitted(no_groups, no_rows, g0, r0, groups@, rows@, es, below);
            assert((es + below) + next =~= es + (below + next));
            es = es + below;
        }
        lo = hi;
    }
    proof {
        assert(edges_from(items@, st, lo as int) =~= Seq::empty());
        assert(es + Seq::<Edge>::empty() =~= es);
    }
    (groups, rows)
}

} // verus!
