//! A wave's prompts as one prefix trie: every edge becomes one group of
//! tokens, tagged with all the sequences that run through it.
use vstd::prelude::*;
use vstd::slice::slice_subrange;

use crate::kv::Dec;
use crate::memory;
use crate::prefix;

verus! {

/// A prompt of the wave, the job it answers and the sequence it is decoded on.
pub struct Leaf<'a> {
    pub job: usize,
    pub toks: &'a [i32],
    pub seq: i32,
}

/// A span kept on a sequence of its own.
pub struct Tag<'a> {
    pub toks: &'a [i32],
    pub seq: i32,
}

/// Prompts in lexicographic order.
pub open spec fn sorted_leaves(ls: Seq<Leaf>) -> bool {
    forall|i: int, j: int|
        0 <= i <= j < ls.len() ==> prefix::lex_le((#[trigger] ls[i]).toks@, (#[trigger] ls[j]).toks@)
}

/// Two prompts share a sequence exactly when they are equal; spans have
/// sequences of their own.
pub open spec fn own_seqs(ls: Seq<Leaf>, ts: Seq<Tag>) -> bool {
    &&& forall|i: int, j: int|
        0 <= i < ls.len() && 0 <= j < ls.len() ==> ((#[trigger] ls[i]).seq == (#[trigger] ls[j]).seq
            <==> ls[i].toks@ == ls[j].toks@)
    &&& forall|i: int, j: int|
        0 <= i < ts.len() && 0 <= j < ts.len() && (#[trigger] ts[i]).seq == (#[trigger] ts[j]).seq
            ==> i == j
    &&& forall|i: int, j: int|
        0 <= i < ls.len() && 0 <= j < ts.len() ==> (#[trigger] ls[i]).seq != (#[trigger] ts[j]).seq
}

/// The sequences of the leaves and spans are among `all`.
pub open spec fn all_seqs(ls: Seq<Leaf>, ts: Seq<Tag>, all: Set<i32>) -> bool {
    &&& forall|i: int| 0 <= i < ls.len() ==> all.contains((#[trigger] ls[i]).seq)
    &&& forall|t: int| 0 <= t < ts.len() ==> all.contains((#[trigger] ts[t]).seq)
}

/// `k` strictly extends `p`.
pub open spec fn extends(k: Seq<i32>, p: Seq<i32>) -> bool {
    k.len() > p.len() && k.take(p.len() as int) == p
}

/// Leaves `lo..hi` all strictly extend `p`, and every span that does is a
/// prefix of one of them.
pub open spec fn under(ls: Seq<Leaf>, ts: Seq<Tag>, lo: int, hi: int, p: Seq<i32>) -> bool {
    &&& 0 <= lo <= hi <= ls.len()
    &&& forall|i: int| lo <= i < hi ==> extends((#[trigger] ls[i]).toks@, p)
    &&& forall|t: int|
        0 <= t < ts.len() && extends((#[trigger] ts[t]).toks@, p) ==> exists|i: int|
            lo <= i < hi && ts[t].toks@.is_prefix_of((#[trigger] ls[i]).toks@)
}

/// As `under`, among the sequences whose next token after `p` is `c`.
pub open spec fn under_edge(ls: Seq<Leaf>, ts: Seq<Tag>, lo: int, hi: int, p: Seq<i32>, c: i32) -> bool {
    &&& 0 <= lo < hi <= ls.len()
    &&& forall|i: int| lo <= i < hi ==> extends((#[trigger] ls[i]).toks@, p.push(c)) || (#[trigger] ls[i]).toks@ == p.push(c)
    &&& forall|t: int|
        0 <= t < ts.len() && through((#[trigger] ts[t]).toks@, p, c) ==> exists|i: int|
            lo <= i < hi && ts[t].toks@.is_prefix_of((#[trigger] ls[i]).toks@)
}

/// `k` extends `p` by `c` and possibly more.
pub open spec fn through(k: Seq<i32>, p: Seq<i32>, c: i32) -> bool {
    extends(k, p) && k[p.len() as int] == c
}

/// Every sequence of the subtree holds `p`.
pub open spec fn ready(m: memory::Memory, ls: Seq<Leaf>, ts: Seq<Tag>, lo: int, hi: int, p: Seq<i32>) -> bool {
    &&& forall|i: int| lo <= i < hi ==> m[(#[trigger] ls[i]).seq] == p
    &&& forall|t: int|
        0 <= t < ts.len() && extends((#[trigger] ts[t]).toks@, p) ==> m[ts[t].seq] == p
}

/// Every sequence of the subtree holds its prompt or span; no other changed.
pub open spec fn grown(
    m: memory::Memory,
    n: memory::Memory,
    ls: Seq<Leaf>,
    ts: Seq<Tag>,
    lo: int,
    hi: int,
    p: Seq<i32>,
) -> bool {
    &&& forall|i: int| lo <= i < hi ==> n[(#[trigger] ls[i]).seq] == ls[i].toks@
    &&& forall|t: int|
        0 <= t < ts.len() && extends((#[trigger] ts[t]).toks@, p) ==> n[ts[t].seq] == ts[t].toks@
    &&& forall|s: i32|
        (forall|i: int| lo <= i < hi ==> (#[trigger] ls[i]).seq != s) && (forall|t: int|
            0 <= t < ts.len() && extends((#[trigger] ts[t]).toks@, p) ==> ts[t].seq != s)
            ==> #[trigger] n[s] == m[s]
}

/// As `ready` and `grown`, for the sequences through one edge.
pub open spec fn ready_edge(
    m: memory::Memory,
    ls: Seq<Leaf>,
    ts: Seq<Tag>,
    lo: int,
    hi: int,
    p: Seq<i32>,
    c: i32,
) -> bool {
    &&& forall|i: int| lo <= i < hi ==> m[(#[trigger] ls[i]).seq] == p
    &&& forall|t: int|
        0 <= t < ts.len() && through((#[trigger] ts[t]).toks@, p, c) ==> m[ts[t].seq] == p
}

pub open spec fn grown_edge(
    m: memory::Memory,
    n: memory::Memory,
    ls: Seq<Leaf>,
    ts: Seq<Tag>,
    lo: int,
    hi: int,
    p: Seq<i32>,
    c: i32,
) -> bool {
    &&& forall|i: int| lo <= i < hi ==> n[(#[trigger] ls[i]).seq] == ls[i].toks@
    &&& forall|t: int|
        0 <= t < ts.len() && through((#[trigger] ts[t]).toks@, p, c) ==> n[ts[t].seq] == ts[t].toks@
    &&& forall|s: i32|
        (forall|i: int| lo <= i < hi ==> (#[trigger] ls[i]).seq != s) && (forall|t: int|
            0 <= t < ts.len() && through((#[trigger] ts[t]).toks@, p, c) ==> ts[t].seq != s)
            ==> #[trigger] n[s] == m[s]
}

/// The jobs of leaves `lo..hi`, in order.
pub open spec fn leaf_jobs(ls: Seq<Leaf>, lo: int, hi: int) -> Seq<usize> {
    Seq::new((hi - lo) as nat, |i: int| ls[lo + i].job)
}

/// Tokens the trie below `depth` writes for leaves `lo..hi`: each prompt past
/// what it shares with its predecessor.
pub open spec fn trie_cost(ls: Seq<Leaf>, lo: int, hi: int, depth: int) -> int
    decreases hi - lo,
{
    if hi <= lo {
        0
    } else if hi == lo + 1 {
        ls[lo].toks@.len() - depth
    } else {
        trie_cost(ls, lo, hi - 1, depth) + ls[hi - 1].toks@.len() - prefix::lcp(
            ls[hi - 2].toks@,
            ls[hi - 1].toks@,
        )
    }
}

proof fn lemma_cost_shift(ls: Seq<Leaf>, lo: int, hi: int, d: int, e: int)
    requires
        lo < hi,
    ensures
        trie_cost(ls, lo, hi, d) == trie_cost(ls, lo, hi, e) + (e - d),
    decreases hi - lo,
{
    if hi > lo + 1 {
        lemma_cost_shift(ls, lo, hi - 1, d, e);
    }
}

proof fn lemma_cost_split(ls: Seq<Leaf>, lo: int, mid: int, hi: int, d: int)
    requires
        0 <= lo <= mid <= hi <= ls.len(),
        lo < mid < hi ==> prefix::lcp(ls[mid - 1].toks@, ls[mid].toks@) == d,
    ensures
        trie_cost(ls, lo, hi, d) == trie_cost(ls, lo, mid, d) + trie_cost(ls, mid, hi, d),
    decreases hi - mid,
{
    if lo < mid < hi {
        if hi > mid + 1 {
            lemma_cost_split(ls, lo, mid, hi - 1, d);
        }
    }
}

/// Leaves that all end at `d` cost nothing below it.
proof fn lemma_cost_ended(ls: Seq<Leaf>, lo: int, hi: int, d: int)
    requires
        0 <= lo <= hi <= ls.len(),
        forall|i: int| lo <= i < hi ==> (#[trigger] ls[i]).toks@ == ls[lo].toks@ && ls[i].toks@.len() == d,
    ensures
        trie_cost(ls, lo, hi, d) == 0,
    decreases hi - lo,
{
    if hi > lo + 1 {
        lemma_cost_ended(ls, lo, hi - 1, d);
        assert(ls[hi - 2].toks@ == ls[hi - 1].toks@);
        prefix::lemma_lcp_bound(ls[hi - 2].toks@, ls[hi - 1].toks@, d);
    }
}

/// An edge of the trie: its tokens and how many come before them, the sequences
/// that run through it, and the jobs whose prompts end with it.
pub struct Edge {
    pub seqs: Seq<i32>,
    pub toks: Seq<i32>,
    pub pos0: int,
    pub jobs: Seq<usize>,
}

/// Where the edge below `depth` ends, as far as the first `n` spans go: at `far`,
/// or where one of them ends first.
pub open spec fn cut(ts: Seq<Tag>, first: Seq<i32>, depth: int, far: int, n: int) -> int
    decreases n,
{
    if n <= 0 {
        far
    } else {
        let (e, k) = (cut(ts, first, depth, far, n - 1), ts[n - 1].toks@);
        if depth < k.len() < e && k.is_prefix_of(first) {
            k.len() as int
        } else {
            e
        }
    }
}

/// Where the edge below `depth` of leaves `lo..hi` ends: where they part or the
/// first of them ends, or a span does.
pub open spec fn edge_end(ls: Seq<Leaf>, ts: Seq<Tag>, lo: int, hi: int, depth: int) -> int {
    let first = ls[lo].toks@;
    cut(ts, first, depth, prefix::lcp(first, ls[hi - 1].toks@) as int, ts.len() as int)
}

/// The sequences of leaves `lo..hi`, each once.
pub open spec fn leaf_seqs(ls: Seq<Leaf>, lo: int, hi: int) -> Seq<i32>
    decreases hi - lo,
{
    if hi <= lo {
        Seq::empty()
    } else if hi - 1 > lo && ls[hi - 2].seq == ls[hi - 1].seq {
        leaf_seqs(ls, lo, hi - 1)
    } else {
        leaf_seqs(ls, lo, hi - 1).push(ls[hi - 1].seq)
    }
}

/// The sequences of those of the first `n` spans that start with `q`.
pub open spec fn tag_seqs(ts: Seq<Tag>, q: Seq<i32>, n: int) -> Seq<i32>
    decreases n,
{
    if n <= 0 {
        Seq::empty()
    } else if q.is_prefix_of(ts[n - 1].toks@) {
        tag_seqs(ts, q, n - 1).push(ts[n - 1].seq)
    } else {
        tag_seqs(ts, q, n - 1)
    }
}

/// The first of leaves `lo..hi` whose prompt does not end at `end`.
pub open spec fn past_ended(ls: Seq<Leaf>, lo: int, hi: int, end: int) -> int
    decreases hi - lo,
{
    if lo >= hi || ls[lo].toks@.len() != end {
        lo
    } else {
        past_ended(ls, lo + 1, hi, end)
    }
}

/// The first of leaves `z..hi` whose token at `depth` is not that of leaf `a`.
pub open spec fn past_chunk(ls: Seq<Leaf>, a: int, z: int, hi: int, depth: int) -> int
    decreases hi - z,
{
    if z >= hi || ls[z].toks@[depth] != ls[a].toks@[depth] {
        z
    } else {
        past_chunk(ls, a, z + 1, hi, depth)
    }
}

/// The edge below `depth` of leaves `lo..hi`.
pub open spec fn edge_of(ls: Seq<Leaf>, ts: Seq<Tag>, lo: int, hi: int, depth: int) -> Edge {
    let (first, end) = (ls[lo].toks@, edge_end(ls, ts, lo, hi, depth));
    Edge {
        seqs: leaf_seqs(ls, lo, hi) + tag_seqs(ts, first.take(end), ts.len() as int),
        toks: first.subrange(depth, end),
        pos0: depth,
        jobs: leaf_jobs(ls, lo, past_ended(ls, lo, hi, end)),
    }
}

/// The trie of leaves `lo..hi`, none longer than `cap`, that share their first
/// `depth` tokens and the next one: the edge they share, then what lies below.
pub open spec fn subtree(ls: Seq<Leaf>, ts: Seq<Tag>, lo: int, hi: int, depth: int, cap: int) -> Seq<Edge>
    decreases cap - depth, 0int, 0int,
{
    let end = edge_end(ls, ts, lo, hi, depth);
    seq![edge_of(ls, ts, lo, hi, depth)] + if depth < end <= cap {
        forest(ls, ts, past_ended(ls, lo, hi, end), hi, end, cap)
    } else {
        Seq::empty()
    }
}

/// The tries of leaves `lo..hi`, none longer than `cap`, that share their first
/// `depth` tokens and go on: one for each next token.
pub open spec fn forest(ls: Seq<Leaf>, ts: Seq<Tag>, lo: int, hi: int, depth: int, cap: int) -> Seq<Edge>
    decreases cap - depth, 1int, hi - lo,
{
    let z = past_chunk(ls, lo, lo + 1, hi, depth);
    if lo < z <= hi {
        subtree(ls, ts, lo, z, depth, cap) + forest(ls, ts, z, hi, depth, cap)
    } else {
        Seq::empty()
    }
}

/// The group `g`, whose row goes to the jobs `row`, is the edge `e`; logits are
/// asked for where a prompt ends.
pub open spec fn is_edge(g: Dec, row: Vec<usize>, e: Edge) -> bool {
    &&& g.seqs@ == e.seqs
    &&& g.toks@ == e.toks
    &&& g.pos0 == e.pos0
    &&& g.logits == (e.jobs.len() > 0)
    &&& row@ == e.jobs
}

/// The groups `g` and rows `r` have become `g2` and `r2`: one more of each for every
/// edge of `es`, in order.
pub open spec fn emitted(g: Seq<Dec>, r: Seq<Vec<usize>>, g2: Seq<Dec>, r2: Seq<Vec<usize>>, es: Seq<Edge>) -> bool {
    &&& g.is_prefix_of(g2)
    &&& r.is_prefix_of(r2)
    &&& g2.len() == g.len() + es.len()
    &&& r2.len() == r.len() + es.len()
    &&& forall|k: int| 0 <= k < es.len() ==> is_edge(g2[g.len() + k], r2[r.len() + k], #[trigger] es[k])
}

/// Edges emitted one after the other.
pub proof fn lemma_emitted(
    g: Seq<Dec>,
    r: Seq<Vec<usize>>,
    g2: Seq<Dec>,
    r2: Seq<Vec<usize>>,
    g3: Seq<Dec>,
    r3: Seq<Vec<usize>>,
    a: Seq<Edge>,
    b: Seq<Edge>,
)
    requires
        emitted(g, r, g2, r2, a),
        emitted(g2, r2, g3, r3, b),
    ensures
        emitted(g, r, g3, r3, a + b),
{
    assert forall|k: int| 0 <= k < g2.len() implies g3[k] == #[trigger] g2[k] by {
        assert(g3.subrange(0, g2.len() as int)[k] == g3[k]);
    }
    assert forall|k: int| 0 <= k < r2.len() implies r3[k] == #[trigger] r2[k] by {
        assert(r3.subrange(0, r2.len() as int)[k] == r3[k]);
    }
    assert(g3.subrange(0, g.len() as int) =~= g2.subrange(0, g.len() as int));
    assert(r3.subrange(0, r.len() as int) =~= r2.subrange(0, r.len() as int));
    let es = a + b;
    assert forall|k: int| 0 <= k < es.len() implies is_edge(g3[g.len() + k], r3[r.len() + k], #[trigger] es[k]) by {
        if k < a.len() {
            assert(is_edge(g2[g.len() + k], r2[r.len() + k], a[k]));
        } else {
            assert(is_edge(g3[g2.len() + (k - a.len())], r3[r2.len() + (k - a.len())], b[k - a.len()]));
        }
    }
}

/// Emit the trie of leaves `lo..hi`, which all strictly extend their first
/// `depth` tokens: one subtree per next token.
pub fn children<'a>(
    ls: &Vec<Leaf<'a>>,
    lo: usize,
    hi: usize,
    depth: usize,
    ts: &Vec<Tag<'a>>,
    groups: &mut Vec<Dec<'a>>,
    rows: &mut Vec<Vec<usize>>,
    cap: usize,
    Ghost(m): Ghost<memory::Memory>,
    Ghost(p): Ghost<Seq<i32>>,
    Ghost(want): Ghost<spec_fn(usize) -> Seq<i32>>,
    Ghost(all): Ghost<Set<i32>>,
)
    requires
        depth == p.len(),
        sorted_leaves(ls@),
        own_seqs(ls@, ts@),
        under(ls@, ts@, lo as int, hi as int, p),
        forall|i: int| lo <= i < hi ==> (#[trigger] ls@[i]).toks@.len() <= cap,
        forall|i: int| lo <= i < hi ==> want((#[trigger] ls@[i]).job) == ls@[i].toks@,
        ready(memory::decoded(m, old(groups)@), ls@, ts@, lo as int, hi as int, p),
        all_seqs(ls@, ts@, all),
        memory::within(old(groups)@, all),
        memory::decodable(m, old(groups)@),
        memory::reads(m, old(groups)@, old(rows)@, want),
    ensures
        memory::within(final(groups)@, all),
        memory::decodable(m, final(groups)@),
        memory::reads(m, final(groups)@, final(rows)@, want),
        grown(
            memory::decoded(m, old(groups)@),
            memory::decoded(m, final(groups)@),
            ls@,
            ts@,
            lo as int,
            hi as int,
            p,
        ),
        memory::jobs_read(final(rows)@) == memory::jobs_read(old(rows)@) + leaf_jobs(ls@, lo as int, hi as int),
        memory::written(final(groups)@) == memory::written(old(groups)@) + trie_cost(
            ls@,
            lo as int,
            hi as int,
            depth as int,
        ),
        emitted(
            old(groups)@,
            old(rows)@,
            final(groups)@,
            final(rows)@,
            forest(ls@, ts@, lo as int, hi as int, depth as int, cap as int),
        ),
    decreases cap - depth, 1int,
{
    let mut a: usize = lo;
    let ghost m0 = memory::decoded(m, groups@);
    let ghost (g0, r0) = (groups@, rows@);
    let ghost all_edges = forest(ls@, ts@, lo as int, hi as int, depth as int, cap as int);
    let ghost mut es = Seq::<Edge>::empty();
    proof {
        lemma_next_token(ls@, ts@, lo as int, hi as int, p);
        assert(es + all_edges =~= all_edges);
        assert(g0.subrange(0, g0.len() as int) =~= g0);
        assert(r0.subrange(0, r0.len() as int) =~= r0);
    }
    while a < hi
        invariant
            lo <= a <= hi <= ls@.len(),
            depth == p.len(),
            sorted_leaves(ls@),
            own_seqs(ls@, ts@),
            under(ls@, ts@, lo as int, hi as int, p),
            forall|i: int| lo <= i < hi ==> (#[trigger] ls@[i]).toks@.len() <= cap,
            forall|i: int| lo <= i < hi ==> want((#[trigger] ls@[i]).job) == ls@[i].toks@,
            m0 == memory::decoded(m, old(groups)@),
            ready(m0, ls@, ts@, lo as int, hi as int, p),
            all_seqs(ls@, ts@, all),
            memory::within(groups@, all),
            memory::decodable(m, groups@),
            memory::reads(m, groups@, rows@, want),
            // done so far: exactly the sequences whose next token is already behind
            forall|i: int| lo <= i < a ==> memory::decoded(m, groups@)[(#[trigger] ls@[i]).seq] == ls@[i].toks@,
            forall|i: int| a <= i < hi ==> memory::decoded(m, groups@)[(#[trigger] ls@[i]).seq] == p,
            forall|t: int|
                0 <= t < ts@.len() && extends((#[trigger] ts@[t]).toks@, p) ==> memory::decoded(m, groups@)[ts@[t].seq]
                    == if a == hi || ts@[t].toks@[depth as int] < ls@[a as int].toks@[depth as int] {
                    ts@[t].toks@
                } else {
                    p
                },
            forall|s: i32|
                (forall|i: int| lo <= i < hi ==> (#[trigger] ls@[i]).seq != s) && (forall|t: int|
                    0 <= t < ts@.len() && extends((#[trigger] ts@[t]).toks@, p) ==> ts@[t].seq != s)
                    ==> #[trigger] memory::decoded(m, groups@)[s] == m0[s],
            lo < a < hi ==> ls@[a - 1].toks@[depth as int] < ls@[a as int].toks@[depth as int],
            memory::jobs_read(rows@) == memory::jobs_read(old(rows)@) + leaf_jobs(ls@, lo as int, a as int),
            memory::written(groups@) == memory::written(old(groups)@) + trie_cost(ls@, lo as int, a as int, depth as int),
            g0 == old(groups)@,
            r0 == old(rows)@,
            emitted(g0, r0, groups@, rows@, es),
            all_edges == forest(ls@, ts@, lo as int, hi as int, depth as int, cap as int),
            es + forest(ls@, ts@, a as int, hi as int, depth as int, cap as int) == all_edges,
        decreases hi - a,
    {
        let c: i32 = ls[a].toks[depth];
        let mut z: usize = a + 1;
        while z < hi && ls[z].toks[depth] == c
            invariant
                lo <= a < z <= hi <= ls@.len(),
                depth == p.len(),
                under(ls@, ts@, lo as int, hi as int, p),
                c == ls@[a as int].toks@[depth as int],
                forall|i: int| a <= i < z ==> (#[trigger] ls@[i]).toks@[depth as int] == c,
                past_chunk(ls@, a as int, a + 1, hi as int, depth as int) == past_chunk(
                    ls@,
                    a as int,
                    z as int,
                    hi as int,
                    depth as int,
                ),
            decreases hi - z,
        {
            z += 1;
        }
        let ghost m1 = memory::decoded(m, groups@);
        let ghost (g1, r1) = (groups@, rows@);
        proof {
            lemma_chunk(ls@, ts@, lo as int, a as int, z as int, hi as int, p, c);
        }
        node(ls, a, z, depth, ts, groups, rows, cap, Ghost(m), Ghost(p), Ghost(c), Ghost(want), Ghost(all));
        proof {
            lemma_after_chunk(ls@, ts@, lo as int, a as int, z as int, hi as int, p, c, m0, m1, memory::decoded(m, groups@));
            assert(leaf_jobs(ls@, lo as int, z as int) =~= leaf_jobs(ls@, lo as int, a as int) + leaf_jobs(
                ls@,
                a as int,
                z as int,
            ));
            if lo < a {
                let (x, y) = (ls@[a - 1].toks@, ls@[a as int].toks@);
                assert(x.take(depth as int) == y.take(depth as int));
                assert forall|i: int| 0 <= i < depth implies x[i] == y[i] by {
                    assert(x.take(depth as int)[i] == y.take(depth as int)[i]);
                }
                prefix::lemma_lcp_bound(x, y, depth as int);
            }
            lemma_cost_split(ls@, lo as int, a as int, z as int, depth as int);
            let below = subtree(ls@, ts@, a as int, z as int, depth as int, cap as int);
            let next = forest(ls@, ts@, z as int, hi as int, depth as int, cap as int);
            lemma_emitted(g0, r0, g1, r1, groups@, rows@, es, below);
            assert((es + below) + next =~= es + (below + next));
            es = es + below;
        }
        a = z;
    }
    proof {
        assert(es + Seq::<Edge>::empty() =~= es);
    }
}

/// Next tokens rise over the leaves, and no span goes below the first.
proof fn lemma_next_token(ls: Seq<Leaf>, ts: Seq<Tag>, lo: int, hi: int, p: Seq<i32>)
    requires
        sorted_leaves(ls),
        under(ls, ts, lo, hi, p),
    ensures
        forall|i: int, j: int|
            lo <= i <= j < hi ==> (#[trigger] ls[i]).toks@[p.len() as int] <= (#[trigger] ls[j]).toks@[p.len() as int],
        forall|t: int|
            0 <= t < ts.len() && extends((#[trigger] ts[t]).toks@, p) ==> lo < hi && ts[t].toks@[p.len() as int]
                >= ls[lo].toks@[p.len() as int],
{
    let d = p.len() as int;
    assert forall|i: int, j: int| lo <= i <= j < hi implies (#[trigger] ls[i]).toks@[d] <= (#[trigger] ls[j]).toks@[d] by {
        let (x, y) = (ls[i].toks@, ls[j].toks@);
        assert(prefix::lex_le(x, y));
        assert(extends(x, p) && extends(y, p));
        assert forall|k: int| 0 <= k < d implies x[k] == y[k] by {
            assert(x.take(d)[k] == y.take(d)[k]);
        }
        prefix::lemma_lcp_bound(x, y, d);
        prefix::lemma_lcp(x, y);
    }
    assert forall|t: int| 0 <= t < ts.len() && extends((#[trigger] ts[t]).toks@, p) implies lo < hi && ts[t].toks@[d]
        >= ls[lo].toks@[d] by {
        let k = ts[t].toks@;
        let i = choose|i: int| lo <= i < hi && k.is_prefix_of((#[trigger] ls[i]).toks@);
        assert(ls[i].toks@.subrange(0, k.len() as int)[d] == k[d]);
        assert(ls[lo].toks@[d] <= ls[i].toks@[d]);
    }
}

/// Facts about the leaves `a..z` that share the next token `c`.
proof fn lemma_chunk(
    ls: Seq<Leaf>,
    ts: Seq<Tag>,
    lo: int,
    a: int,
    z: int,
    hi: int,
    p: Seq<i32>,
    c: i32,
)
    requires
        sorted_leaves(ls),
        under(ls, ts, lo, hi, p),
        lo <= a < z <= hi,
        forall|i: int| a <= i < z ==> (#[trigger] ls[i]).toks@[p.len() as int] == c,
        z < hi ==> ls[z].toks@[p.len() as int] != c,
        lo < a ==> ls[a - 1].toks@[p.len() as int] < c,
    ensures
        under_edge(ls, ts, a, z, p, c),
        forall|i: int| lo <= i < a ==> (#[trigger] ls[i]).toks@[p.len() as int] < c,
        forall|i: int| z <= i < hi ==> (#[trigger] ls[i]).toks@[p.len() as int] > c,
        forall|i: int| z <= i < hi ==> (#[trigger] ls[i]).toks@[p.len() as int] >= ls[z].toks@[p.len() as int],
{
    let d = p.len() as int;
    lemma_next_token(ls, ts, lo, hi, p);
    assert forall|i: int| a <= i < z implies extends((#[trigger] ls[i]).toks@, p.push(c)) || ls[i].toks@ == p.push(c) by {
        let x = ls[i].toks@;
        assert(extends(x, p));
        assert(x.take(d + 1) =~= p.push(c)) by {
            assert forall|k: int| 0 <= k < d implies x[k] == p[k] by {
                assert(x.take(d)[k] == p[k]);
            }
        }
        if x.len() == d + 1 {
            assert(x =~= x.take(d + 1));
        }
    }
    assert forall|t: int| 0 <= t < ts.len() && through((#[trigger] ts[t]).toks@, p, c) implies exists|i: int|
        a <= i < z && ts[t].toks@.is_prefix_of((#[trigger] ls[i]).toks@) by {
        let k = ts[t].toks@;
        let i = choose|i: int| lo <= i < hi && k.is_prefix_of((#[trigger] ls[i]).toks@);
        assert(ls[i].toks@.subrange(0, k.len() as int)[d] == k[d]);
        assert(ls[i].toks@[d] == c);
        if i < a {
            assert(ls[i].toks@[d] <= ls[a - 1].toks@[d]);
        } else if i >= z {
            assert(ls[z - 1].toks@[d] <= ls[z].toks@[d]);
            assert(ls[z].toks@[d] <= ls[i].toks@[d]);
        }
    }
    if z < hi {
        assert(ls[z - 1].toks@[d] <= ls[z].toks@[d]);
    }
}

/// Growing the chunk `a..z` moves the frontier of `children` past it.
proof fn lemma_after_chunk(
    ls: Seq<Leaf>,
    ts: Seq<Tag>,
    lo: int,
    a: int,
    z: int,
    hi: int,
    p: Seq<i32>,
    c: i32,
    m0: memory::Memory,
    m1: memory::Memory,
    m2: memory::Memory,
)
    requires
        own_seqs(ls, ts),
        under(ls, ts, lo, hi, p),
        lo <= a < z <= hi,
        under_edge(ls, ts, a, z, p, c),
        ls[a].toks@[p.len() as int] == c,
        forall|i: int| lo <= i < a ==> (#[trigger] ls[i]).toks@[p.len() as int] < c,
        forall|i: int| z <= i < hi ==> (#[trigger] ls[i]).toks@[p.len() as int] > c,
        forall|i: int| z <= i < hi ==> (#[trigger] ls[i]).toks@[p.len() as int] >= ls[z].toks@[p.len() as int],
        forall|i: int| a <= i < z ==> (#[trigger] ls[i]).toks@[p.len() as int] == c,
        grown_edge(m1, m2, ls, ts, a, z, p, c),
        forall|i: int| lo <= i < a ==> m1[(#[trigger] ls[i]).seq] == ls[i].toks@,
        forall|i: int| a <= i < hi ==> m1[(#[trigger] ls[i]).seq] == p,
        forall|t: int|
            0 <= t < ts.len() && extends((#[trigger] ts[t]).toks@, p) ==> m1[ts[t].seq] == if ts[t].toks@[p.len() as int]
                < ls[a].toks@[p.len() as int] {
                ts[t].toks@
            } else {
                p
            },
        forall|s: i32|
            (forall|i: int| lo <= i < hi ==> (#[trigger] ls[i]).seq != s) && (forall|t: int|
                0 <= t < ts.len() && extends((#[trigger] ts[t]).toks@, p) ==> ts[t].seq != s)
                ==> #[trigger] m1[s] == m0[s],
    ensures
        forall|i: int| lo <= i < z ==> m2[(#[trigger] ls[i]).seq] == ls[i].toks@,
        forall|i: int| z <= i < hi ==> m2[(#[trigger] ls[i]).seq] == p,
        forall|t: int|
            0 <= t < ts.len() && extends((#[trigger] ts[t]).toks@, p) ==> m2[ts[t].seq] == if z == hi
                || ts[t].toks@[p.len() as int] < ls[z].toks@[p.len() as int] {
                ts[t].toks@
            } else {
                p
            },
        forall|s: i32|
            (forall|i: int| lo <= i < hi ==> (#[trigger] ls[i]).seq != s) && (forall|t: int|
                0 <= t < ts.len() && extends((#[trigger] ts[t]).toks@, p) ==> ts[t].seq != s)
                ==> #[trigger] m2[s] == m0[s],
{
    let d = p.len() as int;
    assert forall|i: int| lo <= i < hi && !(a <= i < z) implies m2[(#[trigger] ls[i]).seq] == m1[ls[i].seq] by {
        assert forall|j: int| a <= j < z implies (#[trigger] ls[j]).seq != ls[i].seq by {
            assert(ls[j].toks@[d] != ls[i].toks@[d]);
        }
    }
    assert forall|t: int| 0 <= t < ts.len() && extends((#[trigger] ts[t]).toks@, p) implies m2[ts[t].seq] == if z == hi
        || ts[t].toks@[d] < ls[z].toks@[d] {
        ts[t].toks@
    } else {
        p
    } by {
        let k = ts[t].toks@;
        if k[d] == c {
            assert(through(k, p, c));
        } else {
            assert(m2[ts[t].seq] == m1[ts[t].seq]);
            let i = choose|i: int| lo <= i < hi && k.is_prefix_of((#[trigger] ls[i]).toks@);
            assert(ls[i].toks@.subrange(0, k.len() as int)[d] == k[d]);
            assert(ls[i].toks@[d] == k[d]);
            assert(ls[a].toks@[d] == c);
            if k[d] > c {
                assert(i >= z);
            }
        }
    }
    assert forall|s: i32|
        (forall|i: int| lo <= i < hi ==> (#[trigger] ls[i]).seq != s) && (forall|t: int|
            0 <= t < ts.len() && extends((#[trigger] ts[t]).toks@, p) ==> ts[t].seq != s)
            implies #[trigger] m2[s] == m0[s] by {
        assert(forall|t: int|
            0 <= t < ts.len() && through((#[trigger] ts[t]).toks@, p, c) ==> extends(ts[t].toks@, p));
        assert(m2[s] == m1[s]);
    }
}

/// Leaves on one edge agree with the first of them as far as the last does.
proof fn lemma_edge_shared(ls: Seq<Leaf>, ts: Seq<Tag>, lo: int, hi: int, p: Seq<i32>, c: i32)
    requires
        sorted_leaves(ls),
        under_edge(ls, ts, lo, hi, p, c),
    ensures
        prefix::lcp(ls[lo].toks@, ls[hi - 1].toks@) > p.len(),
        prefix::lcp(ls[lo].toks@, ls[hi - 1].toks@) <= ls[lo].toks@.len(),
        forall|i: int|
            lo <= i < hi ==> prefix::lcp(ls[lo].toks@, (#[trigger] ls[i]).toks@) >= prefix::lcp(
                ls[lo].toks@,
                ls[hi - 1].toks@,
            ),
        ls[lo].toks@.take(p.len() as int) == p,
        ls[lo].toks@[p.len() as int] == c,
{
    let (f, z) = (ls[lo].toks@, ls[hi - 1].toks@);
    let d = p.len() as int;
    assert(f.take(d + 1) =~= p.push(c) && z.take(d + 1) =~= p.push(c));
    assert(f.len() > d && z.len() > d);
    assert forall|k: int| 0 <= k < d + 1 implies f[k] == z[k] && f[k] == p.push(c)[k] by {
        assert(f.take(d + 1)[k] == p.push(c)[k]);
        assert(z.take(d + 1)[k] == p.push(c)[k]);
    }
    prefix::lemma_lcp_bound(f, z, d + 1);
    prefix::lemma_lcp(f, z);
    assert(f.take(d) =~= p);
    assert forall|i: int| lo <= i < hi implies prefix::lcp(f, (#[trigger] ls[i]).toks@) >= prefix::lcp(f, z) by {
        assert(prefix::lex_le(f, ls[i].toks@));
        assert(prefix::lex_le(ls[i].toks@, z));
        prefix::lemma_between(f, ls[i].toks@, z);
    }
}

/// The leaves of an edge up to `end`, and the spans it is tagged with: those
/// that run through it.
proof fn lemma_edge_tags(ls: Seq<Leaf>, ts: Seq<Tag>, lo: int, hi: int, p: Seq<i32>, c: i32, end: int)
    requires
        sorted_leaves(ls),
        under_edge(ls, ts, lo, hi, p, c),
        p.len() < end <= prefix::lcp(ls[lo].toks@, ls[hi - 1].toks@),
        forall|u: int|
            0 <= u < ts.len() && p.len() < (#[trigger] ts[u]).toks@.len() < end ==> !ts[u].toks@.is_prefix_of(
                ls[lo].toks@,
            ),
    ensures
        end <= ls[lo].toks@.len(),
        ls[lo].toks@.take(end).len() == end,
        p + ls[lo].toks@.subrange(p.len() as int, end) == ls[lo].toks@.take(end),
        forall|i: int|
            lo <= i < hi ==> (#[trigger] ls[i]).toks@.len() >= end && ls[i].toks@.take(end) == ls[lo].toks@.take(
                end,
            ),
        forall|u: int|
            0 <= u < ts.len() ==> (through((#[trigger] ts[u]).toks@, p, c) <==> ts[u].toks@.len() >= end
                && ts[u].toks@.take(end) == ls[lo].toks@.take(end)),
{
    lemma_edge_shared(ls, ts, lo, hi, p, c);
    let f = ls[lo].toks@;
    let q = f.take(end);
    let d = p.len() as int;
    assert(p + f.subrange(d, end) =~= q) by {
        assert forall|k: int| 0 <= k < d implies p[k] == f[k] by {
            assert(f.take(d)[k] == p[k]);
        }
    }
    assert forall|i: int| lo <= i < hi implies (#[trigger] ls[i]).toks@.len() >= end && ls[i].toks@.take(end) == q by {
        prefix::lemma_lcp(f, ls[i].toks@);
        assert(ls[i].toks@.take(end) =~= q);
    }
    assert forall|u: int| 0 <= u < ts.len() implies (through((#[trigger] ts[u]).toks@, p, c) <==> ts[u].toks@.len() >= end
        && ts[u].toks@.take(end) == q) by {
        let k = ts[u].toks@;
        if through(k, p, c) {
            let i = choose|i: int| lo <= i < hi && k.is_prefix_of((#[trigger] ls[i]).toks@);
            let x = ls[i].toks@;
            assert(x.len() >= end && x.take(end) == q);
            assert forall|n: int| 0 <= n < k.len() implies k[n] == x[n] by {
                assert(x.subrange(0, k.len() as int)[n] == x[n]);
            }
            assert forall|n: int| 0 <= n < end implies f[n] == x[n] by {
                assert(x.take(end)[n] == q[n]);
            }
            if k.len() < end {
                assert(k =~= f.subrange(0, k.len() as int));
                assert(k.is_prefix_of(f));
            }
            assert(k.take(end) =~= q);
        }
        if k.len() >= end && k.take(end) == q {
            assert forall|n: int| 0 <= n < end implies k[n] == f[n] by {
                assert(k.take(end)[n] == q[n]);
            }
            assert(k.take(d) =~= f.take(d));
        }
    }
}

/// Equal prompts stand next to each other.
proof fn lemma_equal_run(ls: Seq<Leaf>, ts: Seq<Tag>, x: int, y: int, z: int)
    requires
        sorted_leaves(ls),
        own_seqs(ls, ts),
        0 <= x <= y <= z < ls.len(),
        ls[x].seq == ls[z].seq,
    ensures
        ls[y].seq == ls[z].seq,
{
    assert(prefix::lex_le(ls[x].toks@, ls[y].toks@));
    assert(prefix::lex_le(ls[y].toks@, ls[z].toks@));
    prefix::lemma_lex_antisymmetric(ls[x].toks@, ls[y].toks@);
}

/// What decoding the edge does: its sequences all hold the longer prefix `q`,
/// the leaves up to `rest` are done, the others are ready to go on.
proof fn lemma_edge_memory(
    ls: Seq<Leaf>,
    ts: Seq<Tag>,
    lo: int,
    hi: int,
    rest: int,
    p: Seq<i32>,
    c: i32,
    end: int,
    m1: memory::Memory,
    m2: memory::Memory,
    sq: Seq<i32>,
)
    requires
        sorted_leaves(ls),
        own_seqs(ls, ts),
        under_edge(ls, ts, lo, hi, p, c),
        p.len() < end <= prefix::lcp(ls[lo].toks@, ls[hi - 1].toks@),
        forall|u: int|
            0 <= u < ts.len() && p.len() < (#[trigger] ts[u]).toks@.len() < end ==> !ts[u].toks@.is_prefix_of(
                ls[lo].toks@,
            ),
        ready_edge(m1, ls, ts, lo, hi, p, c),
        sq.len() > 0,
        sq.no_duplicates(),
        edge_seqs(ls, ts, lo, hi, p, c, sq),
        m2 == memory::appended(m1, sq, ls[lo].toks@.subrange(p.len() as int, end)),
        lo <= rest <= hi,
        forall|x: int| lo <= x < rest ==> (#[trigger] ls[x]).toks@.len() == end,
        rest < hi ==> ls[rest].toks@.len() != end,
    ensures
        memory::coupled(m1, sq, p.len() as int),
        forall|k: int| 0 <= k < sq.len() ==> m2[#[trigger] sq[k]] == ls[lo].toks@.take(end),
        forall|x: int| lo <= x < rest ==> (#[trigger] ls[x]).toks@ == ls[lo].toks@.take(end),
        forall|x: int| rest <= x < hi ==> extends((#[trigger] ls[x]).toks@, ls[lo].toks@.take(end)),
        under(ls, ts, rest, hi, ls[lo].toks@.take(end)),
        ready(m2, ls, ts, rest, hi, ls[lo].toks@.take(end)),
{
    lemma_edge_tags(ls, ts, lo, hi, p, c, end);
    let q = ls[lo].toks@.take(end);
    let edge = ls[lo].toks@.subrange(p.len() as int, end);
    assert forall|s: i32| #[trigger] sq.contains(s) implies m1[s] == p && m2[s] == q by {
        if exists|x: int| lo <= x < hi && (#[trigger] ls[x]).seq == s {
            let x = choose|x: int| lo <= x < hi && (#[trigger] ls[x]).seq == s;
            assert(m1[ls[x].seq] == p);
        } else {
            let u = choose|u: int| 0 <= u < ts.len() && (#[trigger] ts[u]).seq == s && through(ts[u].toks@, p, c);
            assert(m1[ts[u].seq] == p);
        }
    }
    assert forall|k: int| 0 <= k < sq.len() implies m2[#[trigger] sq[k]] == q && m1[sq[k]] == p by {
        assert(sq.contains(sq[k]));
    }
    assert forall|x: int| lo <= x < rest implies (#[trigger] ls[x]).toks@ == q by {
        assert(ls[x].toks@.take(end) == q);
        assert(ls[x].toks@ =~= ls[x].toks@.take(end));
    }
    assert forall|x: int| rest <= x < hi implies extends((#[trigger] ls[x]).toks@, q) by {
        assert(ls[x].toks@.take(end) == q);
        let (r, y) = (ls[rest].toks@, ls[x].toks@);
        if y.len() == end {
            assert(y =~= y.take(end));
            assert(prefix::lex_le(r, y));
            assert(r.len() > end && r.take(end) == q);
            assert forall|k: int| 0 <= k < end implies r[k] == y[k] by {
                assert(r.take(end)[k] == q[k]);
            }
            prefix::lemma_lcp_bound(r, y, end);
            assert(false);
        }
    }
    assert forall|u: int| 0 <= u < ts.len() && extends((#[trigger] ts[u]).toks@, q) implies through(ts[u].toks@, p, c)
        && exists|i: int| rest <= i < hi && ts[u].toks@.is_prefix_of((#[trigger] ls[i]).toks@) by {
        assert(through(ts[u].toks@, p, c));
        let i = choose|i: int| lo <= i < hi && ts[u].toks@.is_prefix_of((#[trigger] ls[i]).toks@);
        assert(ls[i].toks@.len() >= ts[u].toks@.len());
        assert(i >= rest);
    }
    assert forall|i: int| rest <= i < hi implies m2[(#[trigger] ls[i]).seq] == q by {
        assert(sq.contains(ls[i].seq));
    }
    assert forall|t: int| 0 <= t < ts.len() && extends((#[trigger] ts[t]).toks@, q) implies m2[ts[t].seq] == q by {
        assert(sq.contains(ts[t].seq));
    }
}

/// `sq` holds the sequences that run through the edge.
spec fn edge_seqs(ls: Seq<Leaf>, ts: Seq<Tag>, lo: int, hi: int, p: Seq<i32>, c: i32, sq: Seq<i32>) -> bool {
    forall|s: i32| #[trigger]
        sq.contains(s) <==> (exists|x: int| lo <= x < hi && (#[trigger] ls[x]).seq == s) || (exists|u: int|
            0 <= u < ts.len() && (#[trigger] ts[u]).seq == s && through(ts[u].toks@, p, c))
}

/// Growing what lies below the edge grows the whole subtree.
proof fn lemma_subtree(
    ls: Seq<Leaf>,
    ts: Seq<Tag>,
    lo: int,
    hi: int,
    rest: int,
    p: Seq<i32>,
    c: i32,
    end: int,
    m1: memory::Memory,
    m2: memory::Memory,
    m3: memory::Memory,
    sq: Seq<i32>,
)
    requires
        own_seqs(ls, ts),
        0 <= lo <= rest <= hi <= ls.len(),
        lo < hi,
        p.len() < end <= ls[lo].toks@.len(),
        forall|u: int|
            0 <= u < ts.len() ==> (through((#[trigger] ts[u]).toks@, p, c) <==> ts[u].toks@.len() >= end
                && ts[u].toks@.take(end) == ls[lo].toks@.take(end)),
        edge_seqs(ls, ts, lo, hi, p, c, sq),
        m2 == memory::appended(m1, sq, ls[lo].toks@.subrange(p.len() as int, end)),
        forall|k: int| 0 <= k < sq.len() ==> m2[#[trigger] sq[k]] == ls[lo].toks@.take(end),
        forall|x: int| lo <= x < rest ==> (#[trigger] ls[x]).toks@ == ls[lo].toks@.take(end),
        forall|x: int| rest <= x < hi ==> extends((#[trigger] ls[x]).toks@, ls[lo].toks@.take(end)),
        grown(m2, m3, ls, ts, rest, hi, ls[lo].toks@.take(end)),
    ensures
        grown_edge(m1, m3, ls, ts, lo, hi, p, c),
{
    let q = ls[lo].toks@.take(end);
    assert forall|s: i32| #[trigger] sq.contains(s) implies m2[s] == q by {
        let k = choose|k: int| 0 <= k < sq.len() && sq[k] == s;
        assert(m2[sq[k]] == q);
    }
    assert forall|i: int| lo <= i < hi implies m3[(#[trigger] ls[i]).seq] == ls[i].toks@ by {
        if i < rest {
            let s = ls[i].seq;
            assert forall|j: int| rest <= j < hi implies (#[trigger] ls[j]).seq != s by {
                assert(ls[j].toks@.len() > ls[i].toks@.len());
            }
            assert(m3[s] == m2[s]);
            assert(sq.contains(s));
        }
    }
    assert forall|t: int| 0 <= t < ts.len() && through((#[trigger] ts[t]).toks@, p, c) implies m3[ts[t].seq]
        == ts[t].toks@ by {
        let k = ts[t].toks@;
        if !extends(k, q) {
            assert(k.len() == end);
            assert(k =~= k.take(end));
            let s = ts[t].seq;
            assert(m3[s] == m2[s]);
            assert(sq.contains(s));
        }
    }
    assert forall|s: i32|
        (forall|i: int| lo <= i < hi ==> (#[trigger] ls[i]).seq != s) && (forall|t: int|
            0 <= t < ts.len() && through((#[trigger] ts[t]).toks@, p, c) ==> ts[t].seq != s)
            implies #[trigger] m3[s] == m1[s] by {
        assert(!sq.contains(s));
        assert(forall|t: int| 0 <= t < ts.len() && extends((#[trigger] ts[t]).toks@, q) ==> through(ts[t].toks@, p, c));
        assert(m3[s] == m2[s]);
    }
}

/// Where the edge of leaves `lo..hi` ends.
fn end_of<'a>(
    ls: &Vec<Leaf<'a>>,
    lo: usize,
    hi: usize,
    depth: usize,
    ts: &Vec<Tag<'a>>,
    Ghost(p): Ghost<Seq<i32>>,
    Ghost(c): Ghost<i32>,
) -> (end: usize)
    requires
        depth == p.len(),
        sorted_leaves(ls@),
        under_edge(ls@, ts@, lo as int, hi as int, p, c),
    ensures
        end == edge_end(ls@, ts@, lo as int, hi as int, depth as int),
        depth < end <= prefix::lcp(ls@[lo as int].toks@, ls@[hi - 1].toks@),
        end <= ls@[lo as int].toks@.len(),
        forall|u: int|
            0 <= u < ts@.len() && depth < (#[trigger] ts@[u]).toks@.len() < end ==> !ts@[u].toks@.is_prefix_of(
                ls@[lo as int].toks@,
            ),
{
    let first: &'a [i32] = ls[lo].toks;
    let ghost far = prefix::lcp(first@, ls@[hi - 1].toks@) as int;
    let mut end: usize = prefix::common(first, ls[hi - 1].toks);
    proof {
        lemma_edge_shared(ls@, ts@, lo as int, hi as int, p, c);
    }
    let mut t: usize = 0;
    while t < ts.len()
        invariant
            t <= ts@.len(),
            depth < end <= far <= first@.len(),
            end < far ==> exists|u: int| 0 <= u < t && ts@[u].toks@.len() == end && ts@[u].toks@.is_prefix_of(first@),
            forall|u: int|
                0 <= u < t && depth < (#[trigger] ts@[u]).toks@.len() < end ==> !ts@[u].toks@.is_prefix_of(first@),
            end == cut(ts@, first@, depth as int, far, t as int),
        decreases ts@.len() - t,
    {
        let k: &[i32] = ts[t].toks;
        if k.len() > depth && k.len() < end && prefix::starts_with(first, k) {
            end = k.len();
        }
        t += 1;
    }
    end
}

/// The sequences of leaves `lo..hi`, and of the spans that start as the first of them
/// does up to `end`.
fn seqs_of<'a>(ls: &Vec<Leaf<'a>>, lo: usize, hi: usize, ts: &Vec<Tag<'a>>, end: usize) -> (seqs: Vec<i32>)
    requires
        lo < hi <= ls@.len(),
        sorted_leaves(ls@),
        own_seqs(ls@, ts@),
        end <= ls@[lo as int].toks@.len(),
    ensures
        seqs@ == leaf_seqs(ls@, lo as int, hi as int) + tag_seqs(
            ts@,
            ls@[lo as int].toks@.take(end as int),
            ts@.len() as int,
        ),
        seqs@.no_duplicates(),
        seqs@.len() > 0,
        forall|s: i32| #[trigger]
            seqs@.contains(s) <==> (exists|x: int| lo <= x < hi && (#[trigger] ls@[x]).seq == s) || (exists|u: int|
                0 <= u < ts@.len() && (#[trigger] ts@[u]).seq == s && ts@[u].toks@.len() >= end && ts@[u].toks@.take(
                    end as int,
                ) == ls@[lo as int].toks@.take(end as int)),
{
    let first: &'a [i32] = ls[lo].toks;
    let mut seqs: Vec<i32> = Vec::new();
    let mut i: usize = lo;
    while i < hi
        invariant
            lo <= i <= hi <= ls@.len(),
            sorted_leaves(ls@),
            own_seqs(ls@, ts@),
            i > lo ==> seqs@.len() > 0 && seqs@.last() == ls@[i - 1].seq,
            seqs@.no_duplicates(),
            seqs@ == leaf_seqs(ls@, lo as int, i as int),
            forall|s: i32| #[trigger] seqs@.contains(s) <==> exists|x: int| lo <= x < i && (#[trigger] ls@[x]).seq == s,
        decreases hi - i,
    {
        let s: i32 = ls[i].seq;
        let ghost before = seqs@;
        if i == lo || ls[i - 1].seq != s {
            proof {
                if before.contains(s) {
                    let x = choose|x: int| lo <= x < i && (#[trigger] ls@[x]).seq == s;
                    lemma_equal_run(ls@, ts@, x, i - 1, i as int);
                }
            }
            seqs.push(s);
            proof {
                assert(seqs@.last() == s);
            }
        }
        proof {
            assert forall|s2: i32| #[trigger] seqs@.contains(s2) <==> exists|x: int|
                lo <= x < i + 1 && (#[trigger] ls@[x]).seq == s2 by {
                if seqs@.contains(s2) {
                    if s2 == s {
                        assert(ls@[i as int].seq == s2);
                    } else {
                        let y = choose|y: int| 0 <= y < seqs@.len() && seqs@[y] == s2;
                        assert(y < before.len());
                        assert(before[y] == s2);
                        assert(before.contains(s2));
                    }
                }
                if exists|x: int| lo <= x < i + 1 && (#[trigger] ls@[x]).seq == s2 {
                    let x = choose|x: int| lo <= x < i + 1 && (#[trigger] ls@[x]).seq == s2;
                    if x < i {
                        assert(before.contains(s2));
                        let y = choose|y: int| 0 <= y < before.len() && before[y] == s2;
                        assert(seqs@[y] == s2);
                    } else {
                        assert(seqs@[seqs@.len() - 1] == s2);
                    }
                }
            }
        }
        i += 1;
    }
    let mut t: usize = 0;
    proof {
        assert(seqs@ =~= leaf_seqs(ls@, lo as int, hi as int) + tag_seqs(ts@, first@.take(end as int), 0));
    }
    while t < ts.len()
        invariant
            t <= ts@.len(),
            lo < hi <= ls@.len(),
            end <= first@.len(),
            own_seqs(ls@, ts@),
            seqs@.no_duplicates(),
            seqs@.len() > 0,
            seqs@ == leaf_seqs(ls@, lo as int, hi as int) + tag_seqs(ts@, first@.take(end as int), t as int),
            forall|s: i32| #[trigger]
                seqs@.contains(s) <==> (exists|x: int| lo <= x < hi && (#[trigger] ls@[x]).seq == s) || (exists|u: int|
                    0 <= u < t && (#[trigger] ts@[u]).seq == s && ts@[u].toks@.len() >= end && ts@[u].toks@.take(end as int)
                        == first@.take(end as int)),
        decreases ts@.len() - t,
    {
        let k: &[i32] = ts[t].toks;
        let ghost before = seqs@;
        let mut tagged: bool = false;
        if k.len() >= end {
            let (x, y) = (slice_subrange(first, 0, end), slice_subrange(k, 0, end));
            tagged = prefix::same(x, y);
        }
        if tagged {
            let s: i32 = ts[t].seq;
            proof {
                assert(!before.contains(s));
            }
            seqs.push(s);
            proof {
                assert(seqs@[before.len() as int] == s);
            }
        }
        proof {
            let now = t + 1;
            let q = first@.take(end as int);
            assert(tagged <==> q.is_prefix_of(k@)) by {
                if k@.len() >= end {
                    assert(k@.subrange(0, q.len() as int) =~= k@.take(end as int));
                }
            }
            assert(seqs@ =~= leaf_seqs(ls@, lo as int, hi as int) + tag_seqs(ts@, q, now));
            assert forall|s2: i32| #[trigger]
                seqs@.contains(s2) <==> (exists|x: int| lo <= x < hi && (#[trigger] ls@[x]).seq == s2) || (exists|u: int|
                    0 <= u < now && (#[trigger] ts@[u]).seq == s2 && ts@[u].toks@.len() >= end && ts@[u].toks@.take(
                        end as int,
                    ) == first@.take(end as int)) by {
                if before.contains(s2) {
                    let y = choose|y: int| 0 <= y < before.len() && before[y] == s2;
                    assert(seqs@[y] == s2);
                }
                if seqs@.contains(s2) && !before.contains(s2) {
                    let y = choose|y: int| 0 <= y < seqs@.len() && seqs@[y] == s2;
                    if y < before.len() {
                        assert(before[y] == s2);
                    }
                    assert(ts@[t as int].seq == s2);
                }
            }
        }
        t += 1;
    }
    seqs
}

/// Those are the sequences that run through the edge.
proof fn lemma_runs_through(ls: Seq<Leaf>, ts: Seq<Tag>, lo: int, hi: int, p: Seq<i32>, c: i32, end: int, sq: Seq<i32>)
    requires
        forall|u: int|
            0 <= u < ts.len() ==> (through((#[trigger] ts[u]).toks@, p, c) <==> ts[u].toks@.len() >= end
                && ts[u].toks@.take(end) == ls[lo].toks@.take(end)),
        forall|s: i32| #[trigger]
            sq.contains(s) <==> (exists|x: int| lo <= x < hi && (#[trigger] ls[x]).seq == s) || (exists|u: int|
                0 <= u < ts.len() && (#[trigger] ts[u]).seq == s && ts[u].toks@.len() >= end && ts[u].toks@.take(end)
                    == ls[lo].toks@.take(end)),
    ensures
        edge_seqs(ls, ts, lo, hi, p, c, sq),
{
    assert forall|s: i32| #[trigger]
        sq.contains(s) <==> (exists|x: int| lo <= x < hi && (#[trigger] ls[x]).seq == s) || (exists|u: int|
            0 <= u < ts.len() && (#[trigger] ts[u]).seq == s && through(ts[u].toks@, p, c)) by {
        if exists|u: int| 0 <= u < ts.len() && (#[trigger] ts[u]).seq == s && through(ts[u].toks@, p, c) {
            let u = choose|u: int| 0 <= u < ts.len() && (#[trigger] ts[u]).seq == s && through(ts[u].toks@, p, c);
            assert(ts[u].toks@.len() >= end);
        }
    }
}

/// Emit the subtree of leaves `lo..hi`, which share their first `depth` tokens
/// and the next one: the common edge first, tagged with every leaf sequence
/// and every span running through it (an edge ends where a span ends), then
/// what lies below.
fn node<'a>(
    ls: &Vec<Leaf<'a>>,
    lo: usize,
    hi: usize,
    depth: usize,
    ts: &Vec<Tag<'a>>,
    groups: &mut Vec<Dec<'a>>,
    rows: &mut Vec<Vec<usize>>,
    cap: usize,
    Ghost(m): Ghost<memory::Memory>,
    Ghost(p): Ghost<Seq<i32>>,
    Ghost(c): Ghost<i32>,
    Ghost(want): Ghost<spec_fn(usize) -> Seq<i32>>,
    Ghost(all): Ghost<Set<i32>>,
)
    requires
        depth == p.len(),
        sorted_leaves(ls@),
        own_seqs(ls@, ts@),
        under_edge(ls@, ts@, lo as int, hi as int, p, c),
        forall|i: int| lo <= i < hi ==> (#[trigger] ls@[i]).toks@.len() <= cap,
        forall|i: int| lo <= i < hi ==> want((#[trigger] ls@[i]).job) == ls@[i].toks@,
        ready_edge(memory::decoded(m, old(groups)@), ls@, ts@, lo as int, hi as int, p, c),
        all_seqs(ls@, ts@, all),
        memory::within(old(groups)@, all),
        memory::decodable(m, old(groups)@),
        memory::reads(m, old(groups)@, old(rows)@, want),
    ensures
        memory::within(final(groups)@, all),
        memory::decodable(m, final(groups)@),
        memory::reads(m, final(groups)@, final(rows)@, want),
        grown_edge(
            memory::decoded(m, old(groups)@),
            memory::decoded(m, final(groups)@),
            ls@,
            ts@,
            lo as int,
            hi as int,
            p,
            c,
        ),
        memory::jobs_read(final(rows)@) == memory::jobs_read(old(rows)@) + leaf_jobs(ls@, lo as int, hi as int),
        memory::written(final(groups)@) == memory::written(old(groups)@) + trie_cost(
            ls@,
            lo as int,
            hi as int,
            depth as int,
        ),
        emitted(
            old(groups)@,
            old(rows)@,
            final(groups)@,
            final(rows)@,
            subtree(ls@, ts@, lo as int, hi as int, depth as int, cap as int),
        ),
    decreases cap - depth, 0int,
{
    let first: &'a [i32] = ls[lo].toks;
    let end: usize = end_of(ls, lo, hi, depth, ts, Ghost(p), Ghost(c));
    let ghost q = first@.take(end as int);
    let ghost edge = first@.subrange(depth as int, end as int);
    proof {
        lemma_edge_tags(ls@, ts@, lo as int, hi as int, p, c, end as int);
        assert(p + edge =~= q);
    }
    let seqs: Vec<i32> = seqs_of(ls, lo, hi, ts, end);
    proof {
        lemma_runs_through(ls@, ts@, lo as int, hi as int, p, c, end as int, seqs@);
    }
    let mut ends: Vec<usize> = Vec::new();
    let mut rest: usize = lo;
    while rest < hi && ls[rest].toks.len() == end
        invariant
            lo <= rest <= hi <= ls@.len(),
            forall|x: int| lo <= x < rest ==> (#[trigger] ls@[x]).toks@.len() == end,
            ends@ == leaf_jobs(ls@, lo as int, rest as int),
            past_ended(ls@, lo as int, hi as int, end as int) == past_ended(ls@, rest as int, hi as int, end as int),
        decreases hi - rest,
    {
        ends.push(ls[rest].job);
        rest += 1;
        proof {
            assert(ends@ =~= leaf_jobs(ls@, lo as int, rest as int));
        }
    }
    let ghost m1 = memory::decoded(m, groups@);
    let ghost g1 = groups@;
    let ghost r1 = rows@;
    let ghost sq = seqs@;
    let asked: bool = ends.len() > 0;
    let ghost ej = ends@;
    groups.push(Dec { seqs, toks: slice_subrange(first, depth, end), pos0: depth, logits: asked });
    rows.push(ends);
    let ghost m2 = memory::decoded(m, groups@);
    proof {
        assert(groups@.drop_last() =~= g1);
        assert(rows@.drop_last() =~= r1);
        assert(m2 == memory::appended(m1, sq, edge));
        lemma_edge_memory(ls@, ts@, lo as int, hi as int, rest as int, p, c, end as int, m1, m2, sq);
        assert(memory::decodable(m, groups@));
        assert forall|g: int, k: int| 0 <= g < groups@.len() && 0 <= k < groups@[g].seqs@.len() implies all.contains(
            #[trigger] groups@[g].seqs@[k],
        ) by {
            if g < g1.len() {
                assert(all.contains(g1[g].seqs@[k]));
            } else {
                assert(sq.contains(sq[k]));
            }
        }
        assert forall|x: int, k: int| 0 <= x < ej.len() && 0 <= k < sq.len() implies m2[#[trigger] sq[k]] == want(
            #[trigger] ej[x],
        ) by {
            assert(ej[x] == ls@[lo + x].job);
            assert(sq.contains(sq[k]));
        }
        assert(memory::reads(m, groups@, rows@, want));
    }
    let ghost (g2, r2) = (groups@, rows@);
    let ghost e0 = edge_of(ls@, ts@, lo as int, hi as int, depth as int);
    proof {
        assert(g2.subrange(0, g1.len() as int) =~= g1);
        assert(r2.subrange(0, r1.len() as int) =~= r1);
        assert(is_edge(g2[g1.len() as int], r2[r1.len() as int], e0));
        assert(emitted(g1, r1, g2, r2, seq![e0]));
    }
    children(ls, rest, hi, end, ts, groups, rows, cap, Ghost(m), Ghost(q), Ghost(want), Ghost(all));
    proof {
        lemma_emitted(
            g1,
            r1,
            g2,
            r2,
            groups@,
            rows@,
            seq![e0],
            forest(ls@, ts@, rest as int, hi as int, end as int, cap as int),
        );
        lemma_subtree(ls@, ts@, lo as int, hi as int, rest as int, p, c, end as int, m1, m2, memory::decoded(m, groups@), sq);
        assert(leaf_jobs(ls@, lo as int, hi as int) =~= leaf_jobs(ls@, lo as int, rest as int) + leaf_jobs(
            ls@,
            rest as int,
            hi as int,
        ));
        lemma_cost_shift(ls@, lo as int, hi as int, depth as int, end as int);
        if lo < rest < hi {
            prefix::lemma_lcp_bound(ls@[rest - 1].toks@, ls@[rest as int].toks@, end as int);
        }
        lemma_cost_split(ls@, lo as int, rest as int, hi as int, end as int);
        lemma_cost_ended(ls@, lo as int, rest as int, end as int);
    }
}

} // verus!
