//! What one wave takes on: pending prompts in trie order, and the greedy cut
//! of that order under a budget of sequences and cells.
use vstd::prelude::*;
use vstd::slice::slice_subrange;

use crate::prefix;

verus! {

/// A pending job: its prompt, the prefix worth keeping, and the cached span it
/// forks off (`base`, -1 for none, of `blen` tokens).
#[derive(Clone, Copy)]
pub struct Item<'a> {
    pub job: usize,
    pub toks: &'a [i32],
    pub keep: usize,
    pub base: i32,
    pub blen: usize,
}

/// A span a wave leaves cached on a sequence of its own, forked off `base`:
/// keep spans live on across requests, temp spans only until the run ends.
#[derive(Clone, Copy)]
pub struct Span<'a> {
    pub toks: &'a [i32],
    pub base: i32,
    pub blen: usize,
    pub temp: bool,
}

/// The first `n` items, the spans they cache, and the work sequences and
/// cells that costs.
pub struct Plan<'a> {
    pub n: usize,
    pub spans: Vec<Span<'a>>,
    pub works: usize,
    pub cells: u128,
}

/// Trie order: by base, then by prompt, then by job.
pub open spec fn item_le(a: Item, b: Item) -> bool {
    a.base < b.base || (a.base == b.base && prefix::lex_le(a.toks@, b.toks@) && (a.toks@ == b.toks@ ==> a.job
        <= b.job))
}

pub open spec fn in_order(s: Seq<Item>) -> bool {
    forall|i: int, j: int| 0 <= i <= j < s.len() ==> item_le(#[trigger] s[i], #[trigger] s[j])
}

proof fn lemma_item_le(a: Item, b: Item, c: Item)
    ensures
        item_le(a, a),
        item_le(a, b) || item_le(b, a),
        item_le(a, b) && item_le(b, c) ==> item_le(a, c),
{
    prefix::lemma_lex_total(a.toks@, b.toks@);
    if a.toks@ != b.toks@ && prefix::lex_le(a.toks@, b.toks@) && prefix::lex_le(b.toks@, a.toks@) {
        prefix::lemma_lex_antisymmetric(a.toks@, b.toks@);
    }
    if item_le(a, b) && item_le(b, c) && a.base == b.base && b.base == c.base {
        prefix::lemma_between(a.toks@, b.toks@, c.toks@);
        if a.toks@ == c.toks@ {
            prefix::lemma_lex_antisymmetric(a.toks@, b.toks@);
        }
    }
}

fn item_before(a: &Item, b: &Item) -> (r: bool)
    ensures
        r <==> item_le(*a, *b),
{
    if a.base != b.base {
        return a.base < b.base;
    }
    if !prefix::sorts_before(a.toks, b.toks) {
        return false;
    }
    !prefix::same(a.toks, b.toks) || a.job <= b.job
}

proof fn lemma_push_multiset(s: Seq<Item>, x: Item)
    ensures
        s.push(x).to_multiset() == s.to_multiset().insert(x),
{
    s.to_multiset_ensures();
}

proof fn lemma_take_multiset(s: Seq<Item>, i: int)
    requires
        0 <= i < s.len(),
    ensures
        s.take(i + 1).to_multiset() == s.take(i).to_multiset().insert(s[i]),
{
    assert(s.take(i + 1) =~= s.take(i).push(s[i]));
    lemma_push_multiset(s.take(i), s[i]);
}

/// Two ordered lists as one.
fn merge<'a>(a: &Vec<Item<'a>>, b: &Vec<Item<'a>>) -> (r: Vec<Item<'a>>)
    requires
        in_order(a@),
        in_order(b@),
    ensures
        in_order(r@),
        r@.to_multiset() == a@.to_multiset().add(b@.to_multiset()),
{
    let mut r: Vec<Item<'a>> = Vec::new();
    let (mut i, mut j): (usize, usize) = (0, 0);
    proof {
        assert(a@.take(0) =~= Seq::empty());
        assert(b@.take(0) =~= Seq::empty());
        a@.take(0).to_multiset_ensures();
        b@.take(0).to_multiset_ensures();
        assert(a@.take(0).to_multiset().len() == 0);
        assert(r@.to_multiset() =~= a@.take(0).to_multiset().add(b@.take(0).to_multiset()));
    }
    while i < a.len() || j < b.len()
        invariant
            in_order(a@),
            in_order(b@),
            in_order(r@),
            i <= a@.len(),
            j <= b@.len(),
            forall|k: int, l: int| 0 <= k < r@.len() && i <= l < a@.len() ==> item_le(#[trigger] r@[k], #[trigger] a@[l]),
            forall|k: int, l: int| 0 <= k < r@.len() && j <= l < b@.len() ==> item_le(#[trigger] r@[k], #[trigger] b@[l]),
            r@.to_multiset() == a@.take(i as int).to_multiset().add(b@.take(j as int).to_multiset()),
        decreases a@.len() - i + b@.len() - j,
    {
        let left: bool = j == b.len() || (i < a.len() && item_before(&a[i], &b[j]));
        let x: Item<'a> = if left {
            a[i]
        } else {
            b[j]
        };
        proof {
            lemma_push_multiset(r@, x);
            assert forall|l: int| i <= l < a@.len() implies item_le(x, #[trigger] a@[l]) by {
                if !left {
                    lemma_item_le(a@[i as int], b@[j as int], x);
                    lemma_item_le(x, a@[i as int], a@[l]);
                }
            }
            assert forall|l: int| j <= l < b@.len() implies item_le(x, #[trigger] b@[l]) by {
                if left {
                    lemma_item_le(x, b@[j as int], b@[l]);
                }
            }
            lemma_item_le(x, x, x);
            if left {
                lemma_take_multiset(a@, i as int);
            } else {
                lemma_take_multiset(b@, j as int);
            }
        }
        r.push(x);
        if left {
            i += 1;
        } else {
            j += 1;
        }
        proof {
            assert(r@.to_multiset() =~= a@.take(i as int).to_multiset().add(b@.take(j as int).to_multiset()));
        }
    }
    proof {
        assert(a@.take(i as int) =~= a@);
        assert(b@.take(j as int) =~= b@);
    }
    r
}

/// The items in trie order: shared prefixes and duplicates end up adjacent.
pub fn sort<'a>(s: &[Item<'a>]) -> (r: Vec<Item<'a>>)
    ensures
        in_order(r@),
        r@.to_multiset() == s@.to_multiset(),
        r@.len() == s@.len(),
    decreases s@.len(),
{
    if s.len() <= 1 {
        let mut r: Vec<Item<'a>> = Vec::new();
        if s.len() == 1 {
            r.push(s[0]);
        }
        proof {
            assert(r@ =~= s@);
            if s@.len() == 1 {
                lemma_item_le(s@[0], s@[0], s@[0]);
            }
        }
        return r;
    }
    let mid: usize = s.len() / 2;
    let a = sort(slice_subrange(s, 0, mid));
    let b = sort(slice_subrange(s, mid, s.len()));
    let r = merge(&a, &b);
    proof {
        let (x, y) = (s@.subrange(0, mid as int), s@.subrange(mid as int, s@.len() as int));
        assert(x + y =~= s@);
        vstd::seq_lib::lemma_multiset_commutative(x, y);
        r@.to_multiset_ensures();
        s@.to_multiset_ensures();
        assert(r@.len() == s@.len());
    }
    r
}

/// Item `k` is weighed against the one before it: same base, in shared mode.
pub open spec fn grouped(s: Seq<Item>, shared: bool, k: int) -> bool {
    shared && k > 0 && s[k - 1].base == s[k].base
}

/// Item `k` repeats the prompt before it.
pub open spec fn repeats(s: Seq<Item>, shared: bool, k: int) -> bool {
    grouped(s, shared, k) && s[k - 1].toks@ == s[k].toks@
}

/// Work sequences of the first `n` items: one per distinct prompt.
pub open spec fn works(s: Seq<Item>, shared: bool, n: int) -> nat
    decreases n,
{
    if n <= 0 {
        0
    } else {
        works(s, shared, n - 1) + if repeats(s, shared, n - 1) {
            0nat
        } else {
            1
        }
    }
}

/// Tokens of item `k` that neither its base nor the prompt before it holds.
pub open spec fn own_cells(s: Seq<Item>, shared: bool, k: int) -> int {
    let l = if grouped(s, shared, k) {
        prefix::lcp(s[k - 1].toks@, s[k].toks@) as int
    } else {
        0
    };
    s[k].toks@.len() - if l > s[k].blen {
        l
    } else {
        s[k].blen as int
    }
}

/// Cells the trie of the first `n` items writes.
pub open spec fn cells(s: Seq<Item>, shared: bool, n: int) -> int
    decreases n,
{
    if n <= 0 {
        0
    } else {
        cells(s, shared, n - 1) + own_cells(s, shared, n - 1)
    }
}

/// The span item `k` asks to keep: a proper prefix past its base. New entries
/// fork off the head only, so their cells stay countable.
pub open spec fn keep_of(s: Seq<Item>, shared: bool, k: int) -> Option<Seq<i32>> {
    if shared && s[k].base <= 0 && s[k].blen < s[k].keep < s[k].toks@.len() {
        Some(s[k].toks@.take(s[k].keep as int))
    } else {
        None
    }
}

/// Item `k` is the first to ask for its keep span.
pub open spec fn first_keep(s: Seq<Item>, shared: bool, k: int) -> bool {
    keep_of(s, shared, k) is Some && forall|j: int|
        0 <= j < k ==> #[trigger] keep_of(s, shared, j) != keep_of(s, shared, k)
}

/// The items among the first `n` that bring in a keep span.
pub open spec fn keepers(s: Seq<Item>, shared: bool, n: int) -> Seq<int>
    decreases n,
{
    if n <= 0 {
        Seq::empty()
    } else if first_keep(s, shared, n - 1) {
        keepers(s, shared, n - 1).push(n - 1)
    } else {
        keepers(s, shared, n - 1)
    }
}

/// `t` is the keep span of item `k`.
pub open spec fn keeps(s: Seq<Item>, shared: bool, k: int, t: Span) -> bool {
    &&& keep_of(s, shared, k) == Some(t.toks@)
    &&& t.base == s[k].base
    &&& t.blen == s[k].blen
    &&& !t.temp
}

/// The first `n` items stay within the budgets.
pub open spec fn affordable(s: Seq<Item>, shared: bool, n: int, seq_cap: int, cell_cap: int) -> bool {
    works(s, shared, n) + keepers(s, shared, n).len() <= seq_cap && cells(s, shared, n) <= cell_cap
}

/// Every item strictly extends its base.
pub open spec fn forked(s: Seq<Item>) -> bool {
    forall|k: int| 0 <= k < s.len() ==> (#[trigger] s[k]).blen < s[k].toks@.len()
}

/// `spans` are the keep spans of the first `n` items, in order.
pub open spec fn keep_spans(s: Seq<Item>, shared: bool, n: int, spans: Seq<Span>) -> bool {
    &&& spans.len() == keepers(s, shared, n).len()
    &&& forall|i: int|
        0 <= i < spans.len() ==> keeps(s, shared, #[trigger] keepers(s, shared, n)[i], spans[i])
}

proof fn lemma_keepers(s: Seq<Item>, shared: bool, n: int)
    requires
        0 <= n <= s.len(),
    ensures
        forall|i: int|
            0 <= i < keepers(s, shared, n).len() ==> 0 <= #[trigger] keepers(s, shared, n)[i] < n && first_keep(
                s,
                shared,
                keepers(s, shared, n)[i],
            ),
        forall|j: int|
            0 <= j < n && #[trigger] keep_of(s, shared, j) is Some ==> exists|i: int|
                0 <= i < keepers(s, shared, n).len() && keep_of(s, shared, #[trigger] keepers(s, shared, n)[i])
                    == keep_of(s, shared, j),
        keepers(s, shared, n).no_duplicates(),
        keepers(s, shared, n).len() <= n,
    decreases n,
{
    if n > 0 {
        lemma_keepers(s, shared, n - 1);
        let (a, b) = (keepers(s, shared, n - 1), keepers(s, shared, n));
        assert forall|j: int| 0 <= j < n && #[trigger] keep_of(s, shared, j) is Some implies exists|i: int|
            0 <= i < b.len() && keep_of(s, shared, #[trigger] b[i]) == keep_of(s, shared, j) by {
            if j < n - 1 {
                let i = choose|i: int|
                    0 <= i < a.len() && keep_of(s, shared, #[trigger] a[i]) == keep_of(s, shared, j);
                assert(b[i] == a[i]);
            } else if first_keep(s, shared, j) {
                assert(b[b.len() - 1] == j);
            } else {
                let l = choose|l: int| 0 <= l < j && #[trigger] keep_of(s, shared, l) == keep_of(s, shared, j);
                let i = choose|i: int|
                    0 <= i < a.len() && keep_of(s, shared, #[trigger] a[i]) == keep_of(s, shared, l);
                assert(b[i] == a[i]);
            }
        }
    }
}

pub proof fn lemma_cost_bounds(s: Seq<Item>, shared: bool, n: int)
    requires
        0 <= n <= s.len(),
        forked(s),
    ensures
        works(s, shared, n) <= n,
        n > 0 ==> works(s, shared, n) >= 1,
        0 <= cells(s, shared, n) <= n * usize::MAX,
        n > 0 ==> 0 <= own_cells(s, shared, n - 1) <= usize::MAX,
    decreases n,
{
    if n > 0 {
        lemma_cost_bounds(s, shared, n - 1);
        if grouped(s, shared, n - 1) {
            prefix::lemma_lcp(s[n - 2].toks@, s[n - 1].toks@);
        }
        assert(s[n - 1].blen < s[n - 1].toks@.len());
        assert(s[n - 1].toks@.len() <= usize::MAX) by {
            assert(s[n - 1].toks.len() == s[n - 1].toks@.len());
        }
        assert((n - 1) * usize::MAX + usize::MAX == n * usize::MAX) by (nonlinear_arith);
    }
}

/// What item `n` adds to a wave of the items before it: a work sequence unless
/// it repeats the prompt before it, its own cells, and perhaps a keep span.
fn weigh<'a>(s: &Vec<Item<'a>>, shared: bool, n: usize, spans: &Vec<Span<'a>>) -> (r: (bool, usize, Option<Span<'a>>))
    requires
        forked(s@),
        n < s@.len(),
        keep_spans(s@, shared, n as int, spans@),
    ensures
        r.0 == repeats(s@, shared, n as int),
        r.1 == own_cells(s@, shared, n as int),
        r.2 is Some <==> first_keep(s@, shared, n as int),
        r.2 is Some ==> keeps(s@, shared, n as int, r.2->0),
{
    let x: Item<'a> = s[n];
    proof {
        lemma_cost_bounds(s@, shared, n + 1);
    }
    let (mut dup, mut shares): (bool, usize) = (false, 0);
    if shared && n > 0 && s[n - 1].base == x.base {
        shares = prefix::common(s[n - 1].toks, x.toks);
        dup = prefix::same(s[n - 1].toks, x.toks);
    }
    let deep: usize = if shares > x.blen {
        shares
    } else {
        x.blen
    };
    let more: usize = x.toks.len() - deep;
    if shared && x.base <= 0 && x.blen < x.keep && x.keep < x.toks.len() {
        let k: &'a [i32] = slice_subrange(x.toks, 0, x.keep);
        proof {
            assert(k@ =~= x.toks@.take(x.keep as int));
            lemma_new_keep(s@, shared, n as int, spans@, k@);
        }
        if !holds(spans, k) {
            return (dup, more, Some(Span { toks: k, base: x.base, blen: x.blen, temp: false }));
        }
    }
    (dup, more, None)
}

/// Taking on item `n` keeps the list of keep spans complete.
proof fn lemma_keep_step(s: Seq<Item>, shared: bool, n: int, spans: Seq<Span>, more: Seq<Span>)
    requires
        0 <= n < s.len(),
        keep_spans(s, shared, n, spans),
        if first_keep(s, shared, n) {
            more.len() == spans.len() + 1 && more.drop_last() == spans && keeps(s, shared, n, more.last())
        } else {
            more == spans
        },
    ensures
        keep_spans(s, shared, n + 1, more),
        keepers(s, shared, n + 1).len() <= n + 1,
{
    lemma_keepers(s, shared, n + 1);
    let (a, b) = (keepers(s, shared, n), keepers(s, shared, n + 1));
    assert forall|i: int| 0 <= i < more.len() implies keeps(s, shared, #[trigger] b[i], more[i]) by {
        if i < a.len() {
            assert(b[i] == a[i]);
            if first_keep(s, shared, n) {
                assert(more.drop_last()[i] == more[i]);
            }
        }
    }
}

/// Greedy cut of the trie order: every distinct prompt needs a work sequence,
/// every new keep span one of its own, and cells grow by whatever the trie
/// doesn't share with the previous prompt. The first item is always taken.
pub fn form<'a>(s: &Vec<Item<'a>>, shared: bool, limit: usize, seq_cap: usize, cell_cap: usize) -> (p: Plan<'a>)
    requires
        forked(s@),
        limit > 0,
    ensures
        p.works == works(s@, shared, p.n as int),
        p.cells == cells(s@, shared, p.n as int),
        keep_spans(s@, shared, p.n as int, p.spans@),
        greedy(s@, shared, limit as int, seq_cap as int, cell_cap as int, p.n as int),
{
    let mut n: usize = 0;
    let mut spans: Vec<Span<'a>> = Vec::new();
    let mut w: usize = 0;
    let mut c: u128 = 0;
    let mut full: bool = false;
    while n < s.len() && n < limit && !full
        invariant
            forked(s@),
            n <= s@.len(),
            n <= limit,
            full ==> n > 0 && n < s@.len() && !affordable(s@, shared, n + 1, seq_cap as int, cell_cap as int),
            w == works(s@, shared, n as int),
            c == cells(s@, shared, n as int),
            w <= n,
            keep_spans(s@, shared, n as int, spans@),
            spans@.len() <= n,
            n > 1 ==> affordable(s@, shared, n as int, seq_cap as int, cell_cap as int),
        decreases s@.len() - n, (if full { 0int } else { 1 }),
    {
        let (dup, more, keep): (bool, usize, Option<Span<'a>>) = weigh(s, shared, n, &spans);
        let mut w2: u128 = w as u128;
        if !dup {
            w2 = w2 + 1;
        }
        let mut held: u128 = spans.len() as u128;
        if keep.is_some() {
            held = held + 1;
        }
        proof {
            lemma_cost_bounds(s@, shared, n + 1);
            assert((n + 1) * usize::MAX <= u128::MAX) by (nonlinear_arith)
                requires
                    0 <= n + 1 <= usize::MAX,
            ;
            assert(w2 == works(s@, shared, n + 1));
            assert(held == keepers(s@, shared, n + 1).len());
            assert(c + more == cells(s@, shared, n + 1));
        }
        let c2: u128 = c + more as u128;
        if n > 0 && (w2 + held > seq_cap as u128 || c2 > cell_cap as u128) {
            full = true;
        } else {
            let ghost before = spans@;
            if let Some(t) = keep {
                spans.push(t);
            }
            proof {
                assert(first_keep(s@, shared, n as int) ==> spans@.drop_last() =~= before);
                lemma_keep_step(s@, shared, n as int, before, spans@);
            }
            if !dup {
                w += 1;
            }
            c = c2;
            n += 1;
        }
    }
    Plan { n, spans, works: w, cells: c }
}

/// Whether one of `spans` is `k`.
pub fn holds(spans: &Vec<Span>, k: &[i32]) -> (r: bool)
    ensures
        r <==> exists|i: int| 0 <= i < spans@.len() && (#[trigger] spans@[i]).toks@ == k@,
{
    let mut i: usize = 0;
    while i < spans.len()
        invariant
            i <= spans@.len(),
            forall|j: int| 0 <= j < i ==> (#[trigger] spans@[j]).toks@ != k@,
        decreases spans@.len() - i,
    {
        if prefix::same(spans[i].toks, k) {
            return true;
        }
        i += 1;
    }
    false
}

/// A keep span is new exactly when no span so far equals it.
proof fn lemma_new_keep(s: Seq<Item>, shared: bool, n: int, spans: Seq<Span>, k: Seq<i32>)
    requires
        0 <= n < s.len(),
        keep_spans(s, shared, n, spans),
        keep_of(s, shared, n) == Some(k),
    ensures
        first_keep(s, shared, n) <==> !exists|i: int| 0 <= i < spans.len() && (#[trigger] spans[i]).toks@ == k,
{
    lemma_keepers(s, shared, n);
    let ks = keepers(s, shared, n);
    if exists|i: int| 0 <= i < spans.len() && (#[trigger] spans[i]).toks@ == k {
        let i = choose|i: int| 0 <= i < spans.len() && (#[trigger] spans[i]).toks@ == k;
        assert(keeps(s, shared, ks[i], spans[i]));
        assert(keep_of(s, shared, ks[i]) == keep_of(s, shared, n));
    } else {
        assert forall|j: int| 0 <= j < n implies #[trigger] keep_of(s, shared, j) != keep_of(s, shared, n) by {
            if keep_of(s, shared, j) == keep_of(s, shared, n) {
                let i = choose|i: int| 0 <= i < ks.len() && keep_of(s, shared, #[trigger] ks[i]) == keep_of(s, shared, j);
                assert(keeps(s, shared, ks[i], spans[i]));
            }
        }
    }
}

/// `n` is where the greedy cut under these budgets ends.
pub open spec fn greedy(s: Seq<Item>, shared: bool, limit: int, seq_cap: int, cell_cap: int, n: int) -> bool {
    &&& 0 <= n <= s.len()
    &&& n <= limit
    &&& s.len() > 0 ==> n > 0
    &&& n > 1 ==> affordable(s, shared, n, seq_cap, cell_cap)
    &&& n == s.len() || n == limit || !affordable(s, shared, n + 1, seq_cap, cell_cap)
}

/// The items from `lo` to `hi` are all that have the base of item `k`.
pub open spec fn base_group(s: Seq<Item>, k: int, lo: int, hi: int) -> bool {
    &&& 0 <= lo <= k <= hi < s.len()
    &&& forall|i: int| 0 <= i < s.len() ==> ((#[trigger] s[i]).base == s[k].base <==> lo <= i <= hi)
}

/// The prefix that items `lo..=hi` share goes past their base and ends before
/// any of them does: worth holding while they spill over several waves.
pub open spec fn has_stem(s: Seq<Item>, lo: int, hi: int) -> bool {
    let l = prefix::lcp(s[lo].toks@, s[hi].toks@);
    l > s[lo].blen && forall|i: int| lo <= i <= hi ==> (#[trigger] s[i]).toks@.len() > l
}

/// Items with one base have one base length.
pub open spec fn same_base(s: Seq<Item>) -> bool {
    forall|i: int, j: int|
        0 <= i < s.len() && 0 <= j < s.len() && (#[trigger] s[i]).base == (#[trigger] s[j]).base ==> s[i].blen
            == s[j].blen
}

/// The cut ends at `n0`, inside a base group that `lo..=hi` spans, and giving
/// up one sequence to hold the group's stem still leaves the cut `n1` with an
/// item of that group.
pub open spec fn spills(s: Seq<Item>, shared: bool, seq_cap: int, n0: int, n1: int, lo: int, hi: int) -> bool {
    &&& shared
    &&& n0 < s.len()
    &&& seq_cap > 1
    &&& base_group(s, n0, lo, hi)
    &&& has_stem(s, lo, hi)
    &&& exists|k: int| 0 <= k < n1 && (#[trigger] s[k]).base == s[n0].base
    &&& forall|k: int|
        0 <= k < n1 ==> #[trigger] keep_of(s, shared, k) != Some(
            s[lo].toks@.take(prefix::lcp(s[lo].toks@, s[hi].toks@) as int),
        )
}

/// Plan of the first `n` items with their keep spans and no other.
pub open spec fn plain_plan(s: Seq<Item>, shared: bool, n: int, p: Plan) -> bool {
    &&& p.n == n
    &&& p.works == works(s, shared, n)
    &&& p.cells == cells(s, shared, n)
    &&& keep_spans(s, shared, n, p.spans@)
}

/// As `plain_plan`, and the stem of `lo..=hi` held besides.
pub open spec fn stem_plan(s: Seq<Item>, shared: bool, n: int, lo: int, hi: int, p: Plan) -> bool {
    &&& p.n == n
    &&& p.works == works(s, shared, n)
    &&& p.cells == cells(s, shared, n)
    &&& p.spans@.len() > 0
    &&& keep_spans(s, shared, n, p.spans@.drop_last())
    &&& p.spans@.last().toks@ == s[lo].toks@.take(prefix::lcp(s[lo].toks@, s[hi].toks@) as int)
    &&& p.spans@.last().base == s[lo].base
    &&& p.spans@.last().blen == s[lo].blen
    &&& p.spans@.last().temp
}

/// What `cut` returns, `n0` and `n1` being the cuts with and without the
/// sequence that a stem would take.
pub open spec fn is_cut(s: Seq<Item>, shared: bool, limit: int, seq_cap: int, cell_cap: int, p: Plan, n0: int, n1: int, lo: int, hi: int) -> bool {
    &&& greedy(s, shared, limit, seq_cap, cell_cap, n0)
    &&& greedy(s, shared, limit, seq_cap - 1, cell_cap, n1)
    &&& shared && n0 < s.len() ==> base_group(s, n0, lo, hi)
    &&& if spills(s, shared, seq_cap, n0, n1, lo, hi) {
        stem_plan(s, shared, n1, lo, hi, p)
    } else {
        plain_plan(s, shared, n0, p)
    }
}

/// Every span is a proper prefix of one of the first `n` items, past that
/// item's base, and no two are equal.
pub open spec fn spans_ok(s: Seq<Item>, shared: bool, n: int, spans: Seq<Span>) -> bool {
    &&& spans.len() > 0 ==> shared
    &&& forall|i: int| 0 <= i < spans.len() ==> (#[trigger] spans[i]).blen < spans[i].toks@.len()
    &&& forall|i: int|
        0 <= i < spans.len() ==> exists|k: int| 0 <= k < n && cut_from(#[trigger] s[k], #[trigger] spans[i])
    &&& forall|i: int, j: int| 0 <= i < j < spans.len() ==> (#[trigger] spans[i]).toks@ != (#[trigger] spans[j]).toks@
}

/// `t` is a proper prefix of the prompt of `x`, with the same base.
pub open spec fn cut_from(x: Item, t: Span) -> bool {
    &&& t.base == x.base
    &&& t.blen == x.blen
    &&& t.toks@.is_prefix_of(x.toks@)
    &&& t.toks@.len() < x.toks@.len()
}

proof fn lemma_keep_spans_ok(s: Seq<Item>, shared: bool, n: int, spans: Seq<Span>)
    requires
        0 <= n <= s.len(),
        keep_spans(s, shared, n, spans),
    ensures
        spans_ok(s, shared, n, spans),
{
    lemma_keepers(s, shared, n);
    let ks = keepers(s, shared, n);
    assert forall|i: int| 0 <= i < spans.len() implies (#[trigger] spans[i]).blen < spans[i].toks@.len() && shared
        && exists|k: int| 0 <= k < n && cut_from(#[trigger] s[k], spans[i]) by {
        let k = ks[i];
        assert(keeps(s, shared, k, spans[i]));
        assert(spans[i].toks@ =~= s[k].toks@.subrange(0, s[k].keep as int));
        assert(cut_from(s[k], spans[i]));
    }
    if spans.len() > 0 {
        assert(keeps(s, shared, ks[0], spans[0]));
    }
    assert forall|i: int, j: int| 0 <= i < j < spans.len() implies (#[trigger] spans[i]).toks@ != (#[trigger] spans[j]).toks@ by {
        assert(keeps(s, shared, ks[i], spans[i]));
        assert(keeps(s, shared, ks[j], spans[j]));
        assert(first_keep(s, shared, ks[i]) && first_keep(s, shared, ks[j]));
        if spans[i].toks@ == spans[j].toks@ {
            if ks[i] < ks[j] {
                assert(keep_of(s, shared, ks[i]) != keep_of(s, shared, ks[j]));
            } else if ks[j] < ks[i] {
                assert(keep_of(s, shared, ks[j]) != keep_of(s, shared, ks[i]));
            }
        }
    }
}

/// The stem of a base group is a proper prefix of each of its prompts.
proof fn lemma_stem(s: Seq<Item>, k: int, lo: int, hi: int, j: int)
    requires
        in_order(s),
        base_group(s, k, lo, hi),
        has_stem(s, lo, hi),
        lo <= j <= hi,
    ensures
        s[lo].toks@.take(prefix::lcp(s[lo].toks@, s[hi].toks@) as int).is_prefix_of(s[j].toks@),
        prefix::lcp(s[lo].toks@, s[hi].toks@) < s[j].toks@.len(),
        prefix::lcp(s[lo].toks@, s[hi].toks@) <= s[lo].toks@.len(),
{
    let (a, b, c) = (s[lo].toks@, s[j].toks@, s[hi].toks@);
    assert(s[lo].base == s[k].base && s[hi].base == s[k].base && s[j].base == s[k].base);
    assert(item_le(s[lo], s[j]) && item_le(s[j], s[hi]));
    prefix::lemma_between(a, b, c);
    prefix::lemma_lcp(a, b);
    prefix::lemma_lcp(a, c);
    let l = prefix::lcp(a, c) as int;
    assert(a.take(l) =~= b.subrange(0, l));
}

/// First and last item with the base of item `k`.
fn group_of(s: &Vec<Item>, k: usize) -> (r: (usize, usize))
    requires
        k < s@.len(),
        in_order(s@),
    ensures
        base_group(s@, k as int, r.0 as int, r.1 as int),
{
    let (mut lo, mut hi): (usize, usize) = (k, k);
    while lo > 0 && s[lo - 1].base == s[k].base
        invariant
            lo <= k < s@.len(),
            forall|i: int| lo <= i <= k ==> (#[trigger] s@[i]).base == s@[k as int].base,
        decreases lo,
    {
        lo -= 1;
    }
    while hi < s.len() - 1 && s[hi + 1].base == s[k].base
        invariant
            k <= hi < s@.len(),
            forall|i: int| k <= i <= hi ==> (#[trigger] s@[i]).base == s@[k as int].base,
        decreases s@.len() - hi,
    {
        hi += 1;
    }
    proof {
        assert forall|i: int| 0 <= i < s@.len() implies ((#[trigger] s@[i]).base == s@[k as int].base <==> lo <= i <= hi) by {
            if i < lo {
                assert(item_le(s@[i], s@[lo - 1]));
                assert(item_le(s@[lo - 1], s@[k as int]));
            }
            if i > hi {
                assert(item_le(s@[hi + 1], s@[i]));
                assert(item_le(s@[k as int], s@[hi + 1]));
            }
        }
    }
    (lo, hi)
}

/// The jobs of a wave and what they cache. A base group spilling into the next
/// wave holds what all its jobs share on a temp sequence, so later waves fork
/// past it instead of decoding it again.
pub fn cut<'a>(s: &Vec<Item<'a>>, shared: bool, limit: usize, seq_cap: usize, cell_cap: usize) -> (p: Plan<'a>)
    requires
        in_order(s@),
        forked(s@),
        same_base(s@),
        limit > 0,
        seq_cap > 0,
    ensures
        exists|n0: int, n1: int, lo: int, hi: int| #[trigger]
            is_cut(s@, shared, limit as int, seq_cap as int, cell_cap as int, p, n0, n1, lo, hi),
        p.n <= s@.len(),
        p.n <= limit,
        s@.len() > 0 ==> p.n > 0,
        p.works == works(s@, shared, p.n as int),
        p.works <= seq_cap,
        p.cells == cells(s@, shared, p.n as int),
        spans_ok(s@, shared, p.n as int, p.spans@),
{
    let p: Plan<'a> = form(s, shared, limit, seq_cap, cell_cap);
    let ghost p0 = p;
    let mut q: Plan<'a> = form(s, shared, limit, seq_cap - 1, cell_cap);
    let ghost q0 = q;
    proof {
        lemma_keep_spans_ok(s@, shared, p.n as int, p.spans@);
        lemma_keep_spans_ok(s@, shared, q.n as int, q.spans@);
        lemma_cost_bounds(s@, shared, p.n as int);
        lemma_cost_bounds(s@, shared, q.n as int);
        assert(greedy(s@, shared, limit as int, seq_cap as int, cell_cap as int, p.n as int));
        assert(greedy(s@, shared, limit as int, seq_cap - 1, cell_cap as int, q.n as int));
    }
    let ghost (mut glo, mut ghi) = (0int, 0int);
    if shared && p.n < s.len() {
        let (lo, hi): (usize, usize) = group_of(s, p.n);
        proof {
            glo = lo as int;
            ghi = hi as int;
        }
        if seq_cap > 1 {
            let l: usize = prefix::common(s[lo].toks, s[hi].toks);
            proof {
                prefix::lemma_lcp(s@[lo as int].toks@, s@[hi as int].toks@);
            }
            let mut stem: bool = l > s[lo].blen;
            let mut i: usize = lo;
            let after: usize = s.len();
            while stem && i <= hi
                invariant
                    lo <= i <= hi + 1 <= after,
                    after == s@.len(),
                    stem ==> l > s@[lo as int].blen && forall|j: int| lo <= j < i ==> (#[trigger] s@[j]).toks@.len() > l,
                    !stem ==> l <= s@[lo as int].blen || exists|j: int| lo <= j <= hi && (#[trigger] s@[j]).toks@.len() <= l,
                decreases hi + 1 - i, (if stem { 1int } else { 0 }),
            {
                if s[i].toks.len() <= l {
                    stem = false;
                } else {
                    i += 1;
                }
            }
            let inside: bool = q.n > lo;
            proof {
                assert(stem == has_stem(s@, glo, ghi));
                assert(inside <==> exists|k: int| 0 <= k < q.n && (#[trigger] s@[k]).base == s@[p.n as int].base) by {
                    if inside {
                        assert(s@[lo as int].base == s@[p.n as int].base);
                    }
                }
            }
            if stem && inside {
                let k: &'a [i32] = slice_subrange(s[lo].toks, 0, l);
                proof {
                    assert(k@ =~= s@[glo].toks@.take(l as int));
                    lemma_no_keep(s@, shared, q.n as int, q.spans@, k@);
                }
                if !holds(&q.spans, k) {
                    let t: Span<'a> = Span { toks: k, base: s[lo].base, blen: s[lo].blen, temp: true };
                    q.spans.push(t);
                    proof {
                        assert(spills(s@, shared, seq_cap as int, p0.n as int, q0.n as int, glo, ghi));
                        assert(q.spans@.drop_last() =~= q0.spans@);
                        assert(stem_plan(s@, shared, q0.n as int, glo, ghi, q));
                        assert(is_cut(s@, shared, limit as int, seq_cap as int, cell_cap as int, q, p0.n as int, q0.n as int, glo, ghi));
                        lemma_stem(s@, p0.n as int, glo, ghi, glo);
                        assert(cut_from(s@[glo], t));
                        assert forall|i: int| 0 <= i < q.spans@.len() implies exists|k: int|
                            0 <= k < q.n && cut_from(#[trigger] s@[k], #[trigger] q.spans@[i]) by {
                            if i < q0.spans@.len() {
                                assert(q.spans@[i] == q0.spans@[i]);
                            }
                        }
                    }
                    return q;
                }
            }
        }
    }
    proof {
        assert(is_cut(s@, shared, limit as int, seq_cap as int, cell_cap as int, p, p0.n as int, q0.n as int, glo, ghi));
    }
    p
}

/// No item asks to keep `k` exactly when no keep span is `k`.
proof fn lemma_no_keep(s: Seq<Item>, shared: bool, n: int, spans: Seq<Span>, k: Seq<i32>)
    requires
        0 <= n <= s.len(),
        keep_spans(s, shared, n, spans),
    ensures
        (forall|j: int| 0 <= j < n ==> #[trigger] keep_of(s, shared, j) != Some(k)) <==> !exists|i: int|
            0 <= i < spans.len() && (#[trigger] spans[i]).toks@ == k,
{
    lemma_keepers(s, shared, n);
    let ks = keepers(s, shared, n);
    if exists|i: int| 0 <= i < spans.len() && (#[trigger] spans[i]).toks@ == k {
        let i = choose|i: int| 0 <= i < spans.len() && (#[trigger] spans[i]).toks@ == k;
        assert(keeps(s, shared, ks[i], spans[i]));
    } else {
        assert forall|j: int| 0 <= j < n implies #[trigger] keep_of(s, shared, j) != Some(k) by {
            if keep_of(s, shared, j) == Some(k) {
                let i = choose|i: int| 0 <= i < ks.len() && keep_of(s, shared, #[trigger] ks[i]) == keep_of(s, shared, j);
                assert(keeps(s, shared, ks[i], spans[i]));
            }
        }
    }
}

/// Every span of a cut is a proper prefix of one of its items, past that item's
/// base.
pub proof fn lemma_cut_spans(s: Seq<Item>, shared: bool, limit: int, seq_cap: int, cell_cap: int, p: Plan, n0: int, n1: int, lo: int, hi: int, t: int)
    requires
        in_order(s),
        same_base(s),
        is_cut(s, shared, limit, seq_cap, cell_cap, p, n0, n1, lo, hi),
        0 <= t < p.spans@.len(),
    ensures
        0 <= p.n <= s.len(),
        p.spans@[t].blen < p.spans@[t].toks@.len(),
        exists|k: int| 0 <= k < p.n && cut_from(#[trigger] s[k], p.spans@[t]),
{
    let spans = p.spans@;
    if spills(s, shared, seq_cap, n0, n1, lo, hi) {
        if t < spans.len() - 1 {
            lemma_keep_spans_ok(s, shared, n1, spans.drop_last());
            assert(spans.drop_last()[t] == spans[t]);
        } else {
            let k = choose|k: int| 0 <= k < n1 && (#[trigger] s[k]).base == s[n0].base;
            lemma_stem(s, n0, lo, hi, k);
            assert(s[lo].base == s[n0].base);
            assert(s[k].blen == s[lo].blen);
            assert(cut_from(s[k], spans[t]));
        }
    } else {
        lemma_keep_spans_ok(s, shared, n0, spans);
    }
}

/// A piece of text past the base of `x`: what a cell of its prompt stands for.
pub open spec fn is_piece(x: Item, p: (i32, Seq<i32>)) -> bool {
    p.0 == x.base && x.blen < p.1.len() <= x.toks@.len() && p.1 == x.toks@.take(p.1.len() as int)
}

/// The distinct pieces of text of the first `n` items past their bases.
pub open spec fn pieces(s: Seq<Item>, n: int) -> Set<(i32, Seq<i32>)> {
    Set::new(|p: (i32, Seq<i32>)| exists|k: int| 0 <= k < n && is_piece(#[trigger] s[k], p))
}

/// The prefixes of `x` longer than `lo`, up to `hi`.
spec fn longer(x: Item, lo: int, hi: int) -> Set<(i32, Seq<i32>)> {
    Set::new(
        |p: (i32, Seq<i32>)| p.0 == x.base && lo < p.1.len() <= hi && p.1 == x.toks@.take(p.1.len() as int),
    )
}

proof fn lemma_longer(x: Item, lo: int, hi: int)
    requires
        0 <= lo <= hi <= x.toks@.len(),
    ensures
        longer(x, lo, hi).finite(),
        longer(x, lo, hi).len() == hi - lo,
    decreases hi - lo,
{
    if lo == hi {
        assert(longer(x, lo, hi) =~= Set::empty());
    } else {
        lemma_longer(x, lo, hi - 1);
        let p = (x.base, x.toks@.take(hi));
        assert(longer(x, lo, hi) =~= longer(x, lo, hi - 1).insert(p)) by {
            assert forall|q: (i32, Seq<i32>)| longer(x, lo, hi).contains(q) <==> longer(x, lo, hi - 1).insert(
                p,
            ).contains(q) by {}
        }
    }
}

/// A piece of item `n` that an item before it has is a prefix shared with the
/// item right before it.
proof fn lemma_piece_before(s: Seq<Item>, n: int, k: int, p: (i32, Seq<i32>))
    requires
        in_order(s),
        0 <= k < n < s.len(),
        is_piece(s[k], p),
        is_piece(s[n], p),
    ensures
        s[n - 1].base == s[n].base,
        p.1.len() <= prefix::lcp(s[n - 1].toks@, s[n].toks@),
{
    let (a, b, c) = (s[k], s[n - 1], s[n]);
    assert(item_le(a, b));
    assert(item_le(b, c));
    prefix::lemma_between(a.toks@, b.toks@, c.toks@);
    let m = p.1.len() as int;
    assert(a.toks@.take(m) == c.toks@.take(m));
    prefix::lemma_shared(a.toks@, c.toks@, m);
}

/// In shared mode a wave writes one cell for every distinct piece of text past
/// its base, however many prompts run through it; alone, every prompt writes
/// all that its base does not hold.
pub proof fn law_decoded_once(s: Seq<Item>, n: int)
    requires
        in_order(s),
        forked(s),
        same_base(s),
        0 <= n <= s.len(),
    ensures
        pieces(s, n).finite(),
        cells(s, true, n) == pieces(s, n).len(),
        n > 0 ==> cells(s, false, n) == cells(s, false, n - 1) + s[n - 1].toks@.len() - s[n - 1].blen,
    decreases n,
{
    if n == 0 {
        assert(pieces(s, n) =~= Set::empty());
    } else {
        law_decoded_once(s, n - 1);
        let x = s[n - 1];
        let l = if grouped(s, true, n - 1) {
            prefix::lcp(s[n - 2].toks@, x.toks@) as int
        } else {
            0
        };
        let lo = if l > x.blen {
            l
        } else {
            x.blen as int
        };
        if n > 1 {
            prefix::lemma_lcp(s[n - 2].toks@, x.toks@);
        }
        assert(lo <= x.toks@.len());
        let (a, b) = (pieces(s, n - 1), longer(x, lo, x.toks@.len() as int));
        lemma_longer(x, lo, x.toks@.len() as int);
        assert(a.disjoint(b)) by {
            assert forall|p: (i32, Seq<i32>)| a.contains(p) implies !b.contains(p) by {
                if b.contains(p) {
                    let k = choose|k: int| 0 <= k < n - 1 && is_piece(#[trigger] s[k], p);
                    lemma_piece_before(s, n - 1, k, p);
                }
            }
        }
        assert(pieces(s, n) =~= a.union(b)) by {
            assert forall|p: (i32, Seq<i32>)| pieces(s, n).contains(p) <==> a.union(b).contains(p) by {
                if pieces(s, n).contains(p) && !a.contains(p) {
                    let k = choose|k: int| 0 <= k < n && is_piece(#[trigger] s[k], p);
                    if k < n - 1 {
                        assert(is_piece(s[k], p));
                    } else if p.1.len() <= l {
                        let y = s[n - 2];
                        let m = p.1.len() as int;
                        prefix::lemma_lcp(y.toks@, x.toks@);
                        prefix::lemma_shared(y.toks@, x.toks@, m);
                        assert(same_base(s));
                        assert(s[n - 2].base == s[n - 1].base);
                        assert(is_piece(s[n - 2], p));
                    }
                }
                if a.contains(p) {
                    let k = choose|k: int| 0 <= k < n - 1 && is_piece(#[trigger] s[k], p);
                    assert(is_piece(s[k], p));
                }
                if b.contains(p) {
                    assert(is_piece(s[n - 1], p));
                }
            }
        }
        vstd::set_lib::lemma_set_disjoint_lens(a, b);
    }
}

} // verus!
