//! KV orchestration over one multi-sequence context: a prefix cache plus a
//! trie planner.
//!
//! A job is a full prompt whose logits row is read at its last token. It forks
//! off the longest cached span it strictly extends: sequence 0 holds the
//! resident template head, other entries are spans that recur across requests.
//! The jobs of a wave then decode as one prefix trie in a single batched call:
//! every trie edge is decoded once, tagged with all the sequences below it, so
//! text shared by many questions costs one pass.
//!
//! Sequences are only ever copied whole and removed whole, never trimmed.
use vstd::prelude::*;

use crate::calls;
use crate::calls::Call;
use crate::ledger::Ledger;
use crate::memory;
use crate::plan::Item;
use crate::prefix;

verus! {

/// Consecutive tokens decoded at `pos0..`, tagged with every seq in `seqs`;
/// `logits` asks for the row at the last token.
pub struct Dec<'a> {
    pub seqs: Vec<i32>,
    pub toks: &'a [i32],
    pub pos0: usize,
    pub logits: bool,
}

pub enum DecodeError {
    /// No free KV cells for the batch.
    NoSlot,
    Failed(String),
}

impl DecodeError {
    /// The error in words.
    pub fn message(&self) -> (r: String)
        ensures
            r@ == match *self {
                DecodeError::NoSlot => "no free KV cells for the batch"@,
                DecodeError::Failed(m) => m@,
            },
    {
        match self {
            DecodeError::NoSlot => "no free KV cells for the batch".to_owned(),
            DecodeError::Failed(m) => m.clone(),
        }
    }
}

/// The model runtime: its chat template, its tokenizer and its memory.
pub trait Backend {
    /// `out` is what `render` may give for these texts: anything, unless an
    /// implementation says more. A template may read a clock, so there can be
    /// more than one.
    open spec fn renders(&self, system: Seq<char>, user: Seq<char>, out: Seq<char>) -> bool {
        true
    }

    /// `out` is what `tokenize` may give for this text: anything, unless an
    /// implementation says more.
    open spec fn tokenizes(&self, text: Seq<char>, special: bool, out: Seq<i32>) -> bool {
        true
    }

    /// `render` may fail on these texts, and say `why`.
    open spec fn render_fails(&self, system: Seq<char>, user: Seq<char>, why: Seq<char>) -> bool {
        true
    }

    /// `tokenize` may fail on this text, and say `why`.
    open spec fn tokenize_fails(&self, text: Seq<char>, special: bool, why: Seq<char>) -> bool {
        true
    }

    /// `decode` may fail, and say `why`.
    open spec fn decode_fails(&self, why: DecodeError) -> bool {
        true
    }

    /// The calls that may have changed the memory, from the first on. A verified
    /// implementation overrides this with a ghost field that it adds each call to.
    open spec fn told(&self) -> Seq<Call> {
        Seq::empty()
    }

    /// Chat template over (system, user), generation prompt appended.
    fn render(&self, system: &str, user: &str) -> (r: Result<String, String>)
        ensures
            match r {
                Ok(t) => self.renders(system@, user@, t@),
                Err(e) => self.render_fails(system@, user@, e@),
            },
    ;

    /// The tokens of a text; `special` lets it produce control tokens.
    fn tokenize(&self, text: &str, special: bool) -> (r: Result<Vec<i32>, String>)
        ensures
            match r {
                Ok(t) => self.tokenizes(text@, special, t@),
                Err(e) => self.tokenize_fails(text@, special, e@),
            },
    ;

    /// Decode groups in order; the logits row at the last token of group `g`
    /// goes to every job in `jobs[g]`.
    fn decode(&mut self, groups: &Vec<Dec>, jobs: &Vec<Vec<usize>>) -> (r: Result<(), DecodeError>)
        ensures
            r matches Err(e) ==> old(self).decode_fails(e),
            final(self).told() == old(self).told().push(
                Call::Decode { groups: groups@, rows: jobs@, went: r is Ok },
            ),
    ;

    /// Remove a whole sequence.
    fn seq_rm(&mut self, seq: i32)
        ensures
            final(self).told() == old(self).told().push(Call::Rm(seq)),
    ;

    /// Make the empty `dst` a copy of `src`, which holds exactly `len` tokens.
    fn seq_cp(&mut self, src: i32, dst: i32, len: usize)
        ensures
            final(self).told() == old(self).told().push(Call::Cp { src, dst, len }),
    ;

    fn clear(&mut self)
        ensures
            final(self).told() == old(self).told().push(Call::Clear),
    ;
}

/// A backend of this type may refuse a decode and say `why`.
pub open spec fn refuses<B: Backend>(why: DecodeError) -> bool {
    exists|b: B| #[trigger] b.decode_fails(why)
}

/// A decode unit: the prompt, and the length of its prefix worth keeping
/// across requests (0 = nothing).
#[derive(Clone, Copy)]
pub struct Job<'a> {
    pub toks: &'a [i32],
    pub keep: usize,
}

/// A span cached on a sequence of its own.
pub struct Entry {
    pub toks: Vec<i32>,
    pub seq: i32,
    /// cells this entry keeps alive past the span it was forked from
    pub cells: usize,
    pub tick: u64,
    pub born: u64,
    pub pinned: bool,
    /// request-scoped: dropped when the run ends
    pub temp: bool,
}

/// Cell slack under the context size when sizing waves.
pub const KV_SLACK: usize = 32;

pub struct Kv {
    pub n_seq: usize,
    pub n_ctx: usize,
    /// the template head that sequence 0 is for
    pub head: Vec<i32>,
    pub entries: Vec<Entry>,
    pub tick: u64,
    /// seqs of a wave not yet cleaned up, non-empty only after a panic
    /// mid-wave; wiped at the start of the next run
    pub scratch: Vec<i32>,
    pub ledger: Ledger,
}

/// Sequence `s` holds an entry.
pub open spec fn taken(es: Seq<Entry>, s: i32) -> bool {
    exists|i: int| 0 <= i < es.len() && (#[trigger] es[i]).seq == s
}

/// Entries have sequences of their own, the pinned one sequence 0, and no two
/// hold the same span.
pub open spec fn entries_ok(es: Seq<Entry>, n_seq: int) -> bool {
    &&& forall|i: int|
        0 <= i < es.len() ==> 0 <= (#[trigger] es[i]).seq < n_seq && (es[i].pinned <==> es[i].seq == 0)
            && es[i].toks@.len() > 0
    &&& forall|i: int, j: int|
        0 <= i < j < es.len() ==> (#[trigger] es[i]).seq != (#[trigger] es[j]).seq && es[i].toks@ != es[j].toks@
}

/// Unpinned entries that `f` accepts.
pub open spec fn tally(es: Seq<Entry>, f: spec_fn(Entry) -> bool) -> nat
    decreases es.len(),
{
    if es.len() == 0 {
        0
    } else {
        tally(es.drop_last(), f) + if !es.last().pinned && f(es.last()) {
            1nat
        } else {
            0
        }
    }
}

/// Every unpinned entry.
pub open spec fn any_entry() -> spec_fn(Entry) -> bool {
    |e: Entry| true
}

/// Cells that entries `f` accepts keep alive.
pub open spec fn cell_sum(es: Seq<Entry>, f: spec_fn(Entry) -> bool) -> nat
    decreases es.len(),
{
    if es.len() == 0 {
        0
    } else {
        cell_sum(es.drop_last(), f) + if f(es.last()) {
            es.last().cells as nat
        } else {
            0
        }
    }
}

/// The memory holds every entry's span on its sequence, and nothing on
/// sequences that are neither an entry's nor in `scratch`.
pub open spec fn backed(m: memory::Memory, es: Seq<Entry>, scratch: Seq<i32>) -> bool {
    &&& forall|i: int| 0 <= i < es.len() ==> m[(#[trigger] es[i]).seq] == es[i].toks@
    &&& forall|s: i32| !taken(es, s) && !scratch.contains(s) ==> #[trigger] m[s] == Seq::<i32>::empty()
}

/// `e` is a span that `toks` strictly extends, and may be forked from: direct
/// mode only ever forks off the resident head.
pub open spec fn forkable(e: Entry, toks: Seq<i32>, shared: bool) -> bool {
    (shared || e.pinned) && e.toks@.len() < toks.len() && e.toks@.is_prefix_of(toks)
}

/// `(seq, len)` is the longest cached span `toks` strictly extends, (-1, 0)
/// where there is none.
pub open spec fn is_base(es: Seq<Entry>, toks: Seq<i32>, shared: bool, seq: i32, len: int) -> bool {
    if exists|i: int| 0 <= i < es.len() && forkable(#[trigger] es[i], toks, shared) {
        exists|i: int|
            0 <= i < es.len() && forkable(#[trigger] es[i], toks, shared) && es[i].seq == seq && es[i].toks@.len()
                == len && forall|j: int|
                0 <= j < es.len() && forkable(#[trigger] es[j], toks, shared) ==> es[j].toks@.len() <= len
    } else {
        seq == -1 && len == 0
    }
}

/// `x` stands for pending job `x.job` over the cache `es`.
pub open spec fn item_ok(jobs: Seq<Job>, es: Seq<Entry>, shared: bool, x: Item) -> bool {
    &&& x.job < jobs.len()
    &&& x.toks == jobs[x.job as int].toks
    &&& x.keep == jobs[x.job as int].keep
    &&& is_base(es, x.toks@, shared, x.base, x.blen as int)
}

/// What a base is: an entry that holds just the prefix, or nothing.
pub proof fn lemma_base(es: Seq<Entry>, n_seq: int, toks: Seq<i32>, shared: bool, seq: i32, len: int)
    requires
        entries_ok(es, n_seq),
        is_base(es, toks, shared, seq, len),
        toks.len() > 0,
    ensures
        0 <= len < toks.len(),
        seq == -1 || seq >= 0,
        seq == -1 ==> len == 0,
        seq >= 0 ==> exists|i: int|
            0 <= i < es.len() && (#[trigger] es[i]).seq == seq && es[i].toks@ == toks.take(len),
{
    if exists|i: int| 0 <= i < es.len() && forkable(#[trigger] es[i], toks, shared) {
        let i = choose|i: int|
            0 <= i < es.len() && forkable(#[trigger] es[i], toks, shared) && es[i].seq == seq && es[i].toks@.len()
                == len && forall|j: int|
                0 <= j < es.len() && forkable(#[trigger] es[j], toks, shared) ==> es[j].toks@.len() <= len;
        assert(es[i].toks@ =~= toks.take(len));
    }
}

/// A prompt never decodes again what is cached of it: the span it forks off is
/// at least as long as any cached span that it strictly extends.
pub proof fn law_cached_is_forked(es: Seq<Entry>, toks: Seq<i32>, seq: i32, len: int, i: int)
    requires
        is_base(es, toks, true, seq, len),
        0 <= i < es.len(),
        es[i].toks@.len() < toks.len(),
        es[i].toks@.is_prefix_of(toks),
    ensures
        es[i].toks@.len() <= len,
{
    assert(forkable(es[i], toks, true));
}

/// An entry that may be evicted while `hold` is needed.
pub open spec fn evictable(e: Entry, hold: Seq<i32>, temp: bool) -> bool {
    !e.pinned && (temp ==> e.temp) && !hold.contains(e.seq)
}

/// Entry `i` is the least recently used that may be evicted.
pub open spec fn least_recent(es: Seq<Entry>, hold: Seq<i32>, temp: bool, i: int) -> bool {
    &&& 0 <= i < es.len()
    &&& evictable(es[i], hold, temp)
    &&& forall|j: int|
        0 <= j < es.len() && evictable(#[trigger] es[j], hold, temp) ==> es[i].tick < es[j].tick || (es[i].tick
            == es[j].tick && i <= j)
}

/// `es` without entry `i`, the last one in its place.
pub open spec fn swap_removed(es: Seq<Entry>, i: int) -> Seq<Entry> {
    es.update(i, es.last()).drop_last()
}

/// Some entry may be evicted.
pub open spec fn some_evictable(es: Seq<Entry>, hold: Seq<i32>, temp: bool) -> bool {
    exists|i: int| #[trigger] least_recent(es, hold, temp, i)
}

/// The least recently used entry that may be evicted.
pub open spec fn first_to_go(es: Seq<Entry>, hold: Seq<i32>, temp: bool) -> int {
    choose|i: int| #[trigger] least_recent(es, hold, temp, i)
}

/// `es` without the least recently used entry that may be evicted.
pub open spec fn evicted(es: Seq<Entry>, hold: Seq<i32>, temp: bool) -> Seq<Entry> {
    swap_removed(es, first_to_go(es, hold, temp))
}

/// What is left of `es` when entries are evicted one after the other, until
/// `done` holds or none may be.
pub open spec fn evicted_until(
    es: Seq<Entry>,
    hold: Seq<i32>,
    temp: bool,
    done: spec_fn(Seq<Entry>) -> bool,
) -> Seq<Entry>
    decreases es.len(),
{
    if done(es) || !some_evictable(es, hold, temp) {
        es
    } else {
        evicted_until(evicted(es, hold, temp), hold, temp, done)
    }
}

/// Only one entry is the least recently used.
proof fn lemma_one_victim(es: Seq<Entry>, hold: Seq<i32>, temp: bool, i: int)
    requires
        least_recent(es, hold, temp, i),
    ensures
        some_evictable(es, hold, temp),
        first_to_go(es, hold, temp) == i,
        evicted(es, hold, temp) == swap_removed(es, i),
{
    let j = choose|j: int| #[trigger] least_recent(es, hold, temp, j);
    assert(evictable(es[i], hold, temp) && evictable(es[j], hold, temp));
}

/// Every entry of `a` is one of `b`.
pub open spec fn among(a: Seq<Entry>, b: Seq<Entry>) -> bool {
    forall|i: int| 0 <= i < a.len() ==> b.contains(#[trigger] a[i])
}

/// Every entry of `b` on a sequence of `hold` is still one of `a`.
pub open spec fn holding(a: Seq<Entry>, b: Seq<Entry>, hold: Seq<i32>) -> bool {
    forall|i: int| 0 <= i < b.len() && (b[i].pinned || hold.contains(b[i].seq)) ==> a.contains(#[trigger] b[i])
}

proof fn lemma_tally_update(es: Seq<Entry>, i: int, x: Entry, f: spec_fn(Entry) -> bool)
    requires
        0 <= i < es.len(),
    ensures
        tally(es.update(i, x), f) + (if !es[i].pinned && f(es[i]) { 1nat } else { 0 }) == tally(es, f) + (if !x.pinned
            && f(x) { 1nat } else { 0 }),
    decreases es.len(),
{
    let u = es.update(i, x);
    if i == es.len() - 1 {
        assert(u.drop_last() =~= es.drop_last());
    } else {
        assert(u.drop_last() =~= es.drop_last().update(i, x));
        lemma_tally_update(es.drop_last(), i, x, f);
    }
}

/// Removing an entry leaves all the others.
proof fn lemma_swap_removed(es: Seq<Entry>, i: int, n_seq: int)
    requires
        0 <= i < es.len(),
        entries_ok(es, n_seq),
    ensures
        entries_ok(swap_removed(es, i), n_seq),
        among(swap_removed(es, i), es),
        forall|j: int| 0 <= j < es.len() && j != i ==> swap_removed(es, i).contains(#[trigger] es[j]),
        forall|s: i32| #[trigger] taken(swap_removed(es, i), s) <==> taken(es, s) && s != es[i].seq,
        forall|f: spec_fn(Entry) -> bool| #[trigger]
            tally(swap_removed(es, i), f) + (if !es[i].pinned && f(es[i]) { 1nat } else { 0 }) == tally(es, f),
{
    let r = swap_removed(es, i);
    let n = es.len() as int;
    assert forall|j: int| 0 <= j < r.len() implies es.contains(#[trigger] r[j]) by {
        if j == i {
            assert(es[n - 1] == r[j]);
        } else {
            assert(es[j] == r[j]);
        }
    }
    assert forall|j: int| 0 <= j < n && j != i implies r.contains(#[trigger] es[j]) by {
        if j == n - 1 {
            assert(r[i] == es[j]);
        } else {
            assert(r[j] == es[j]);
        }
    }
    assert forall|s: i32| #[trigger] taken(r, s) <==> taken(es, s) && s != es[i].seq by {
        if taken(r, s) {
            let j = choose|j: int| 0 <= j < r.len() && (#[trigger] r[j]).seq == s;
            let k = if j == i {
                n - 1
            } else {
                j
            };
            assert(es[k].seq == s && k != i);
        }
        if taken(es, s) && s != es[i].seq {
            let j = choose|j: int| 0 <= j < es.len() && (#[trigger] es[j]).seq == s;
            assert(r.contains(es[j]));
            let k = choose|k: int| 0 <= k < r.len() && r[k] == es[j];
            assert(r[k].seq == s);
        }
    }
    assert forall|f: spec_fn(Entry) -> bool| #[trigger]
        tally(r, f) + (if !es[i].pinned && f(es[i]) { 1nat } else { 0 }) == tally(es, f) by {
        lemma_tally_update(es, i, es.last(), f);
    }
}

/// The sequences of unpinned entries.
spec fn used(es: Seq<Entry>) -> Seq<i32>
    decreases es.len(),
{
    if es.len() == 0 {
        Seq::empty()
    } else if es.last().pinned {
        used(es.drop_last())
    } else {
        used(es.drop_last()).push(es.last().seq)
    }
}

proof fn lemma_used(es: Seq<Entry>, n_seq: int)
    requires
        entries_ok(es, n_seq),
    ensures
        used(es).len() == tally(es, any_entry()),
        used(es).no_duplicates(),
        forall|s: i32| #[trigger] used(es).contains(s) <==> 1 <= s && taken(es, s),
    decreases es.len(),
{
    if es.len() > 0 {
        let d = es.drop_last();
        let z = es.last();
        assert forall|i: int| 0 <= i < d.len() implies d[i] == es[i] by {}
        assert(entries_ok(d, n_seq)) by {
            assert forall|i: int| 0 <= i < d.len() implies 0 <= (#[trigger] d[i]).seq < n_seq && (d[i].pinned
                <==> d[i].seq == 0) && d[i].toks@.len() > 0 by {
                assert(d[i] == es[i]);
            }
        }
        lemma_used(d, n_seq);
        assert(es[es.len() - 1] == z);
        assert forall|s: i32| #[trigger] used(es).contains(s) <==> 1 <= s && taken(es, s) by {
            if used(es).contains(s) {
                let k = choose|k: int| 0 <= k < used(es).len() && used(es)[k] == s;
                if k < used(d).len() {
                    assert(used(d)[k] == s);
                    assert(used(d).contains(s));
                    let i = choose|i: int| 0 <= i < d.len() && (#[trigger] d[i]).seq == s;
                    assert(es[i].seq == s);
                }
            }
            if 1 <= s && taken(es, s) {
                let i = choose|i: int| 0 <= i < es.len() && (#[trigger] es[i]).seq == s;
                if i < d.len() {
                    assert(d[i].seq == s);
                    assert(used(d).contains(s));
                    let k = choose|k: int| 0 <= k < used(d).len() && used(d)[k] == s;
                    assert(used(es)[k] == s);
                } else {
                    assert(used(es)[used(es).len() - 1] == s);
                }
            }
        }
        if !z.pinned && used(d).contains(z.seq) {
            let i = choose|i: int| 0 <= i < d.len() && (#[trigger] d[i]).seq == z.seq;
            assert(es[i].seq == z.seq);
        }
    }
}

/// Every sequence past 0 is free or an unpinned entry's.
pub proof fn lemma_free_count(es: Seq<Entry>, n_seq: int, free: Seq<i32>)
    requires
        1 <= n_seq <= i32::MAX,
        entries_ok(es, n_seq),
        forall|s: i32| #[trigger] free.contains(s) <==> 1 <= s < n_seq && !taken(es, s),
        forall|i: int, j: int| 0 <= i < j < free.len() ==> #[trigger] free[i] < #[trigger] free[j],
    ensures
        free.len() + tally(es, any_entry()) == n_seq - 1,
{
    lemma_used(es, n_seq);
    let u = used(es);
    let all = free + u;
    let nums = all.map_values(|x: i32| x as int);
    assert forall|i: int, j: int| 0 <= i < all.len() && 0 <= j < all.len() && i != j implies nums[i] != nums[j] by {
        if i < free.len() {
            assert(free.contains(free[i]));
        } else {
            assert(u.contains(u[i - free.len()]));
        }
        if j < free.len() {
            assert(free.contains(free[j]));
        } else {
            assert(u.contains(u[j - free.len()]));
        }
    }
    assert(nums.no_duplicates());
    nums.unique_seq_to_set();
    let range = vstd::set_lib::set_int_range(1, n_seq);
    vstd::set_lib::lemma_int_range(1, n_seq);
    assert forall|x: int| nums.to_set().contains(x) <==> range.contains(x) by {
        if nums.contains(x) {
            let k = choose|k: int| 0 <= k < nums.len() && nums[k] == x;
            if k < free.len() {
                assert(free.contains(free[k]));
            } else {
                let s = u[k - free.len()];
                assert(u.contains(s));
                let i = choose|i: int| 0 <= i < es.len() && (#[trigger] es[i]).seq == s;
                assert(es[i].seq < n_seq);
            }
        }
        if 1 <= x < n_seq {
            let s = x as i32;
            if taken(es, s) {
                assert(u.contains(s));
                let k = choose|k: int| 0 <= k < u.len() && u[k] == s;
                assert(nums[free.len() + k] == x);
            } else {
                assert(free.contains(s));
                let k = choose|k: int| 0 <= k < free.len() && free[k] == s;
                assert(nums[k] == x);
            }
        }
    }
    assert(nums.to_set() =~= range);
}

/// Entries on a sequence of `ws`.
pub open spec fn on_any(ws: Seq<i32>) -> spec_fn(Entry) -> bool {
    |e: Entry| ws.contains(e.seq)
}

/// The resident head, and entries on a sequence of `ws`.
pub open spec fn head_or_on(ws: Seq<i32>) -> spec_fn(Entry) -> bool {
    |e: Entry| e.pinned || ws.contains(e.seq)
}

/// What `f` accepts only if `g` does is tallied by `g` too.
pub proof fn lemma_tally_le(es: Seq<Entry>, f: spec_fn(Entry) -> bool, g: spec_fn(Entry) -> bool)
    requires
        forall|i: int| 0 <= i < es.len() && !(#[trigger] es[i]).pinned && f(es[i]) ==> g(es[i]),
    ensures
        tally(es, f) <= tally(es, g),
    decreases es.len(),
{
    if es.len() > 0 {
        assert forall|i: int| 0 <= i < es.drop_last().len() && !(#[trigger] es.drop_last()[i]).pinned && f(
            es.drop_last()[i],
        ) implies g(es.drop_last()[i]) by {
            assert(es.drop_last()[i] == es[i]);
        }
        lemma_tally_le(es.drop_last(), f, g);
        assert(es[es.len() - 1] == es.last());
    }
}

/// The bases of the first `n` items.
pub open spec fn bases(items: Seq<Item>, n: int) -> Seq<i32> {
    Seq::new(n as nat, |i: int| items[i].base)
}

pub fn bases_of(items: &Vec<Item>, n: usize) -> (r: Vec<i32>)
    requires
        n <= items@.len(),
    ensures
        r@ == bases(items@, n as int),
{
    let mut r: Vec<i32> = Vec::new();
    let mut i: usize = 0;
    while i < n
        invariant
            i <= n <= items@.len(),
            r@ == bases(items@, i as int),
        decreases n - i,
    {
        r.push(items[i].base);
        i += 1;
        proof {
            assert(r@ =~= bases(items@, i as int));
        }
    }
    r
}

impl Kv {
    /// Distinct entries over sequences of the context, one sequence always
    /// left to work on, and a memory that holds just what the entries say.
    pub open spec fn wf(&self) -> bool {
        &&& 2 <= self.n_seq <= i32::MAX
        &&& self.ledger.n_seq == self.n_seq
        &&& entries_ok(self.entries@, self.n_seq as int)
        &&& tally(self.entries@, any_entry()) <= self.n_seq - 2
        &&& forall|s: i32| #[trigger] self.scratch@.contains(s) ==> 0 <= s < self.n_seq && !taken(self.entries@, s)
        &&& forall|s: i32| #[trigger] self.ledger.dirty@.contains(s) ==> self.scratch@.contains(s)
        &&& backed(self.ledger.held@, self.entries@, self.scratch@)
        &&& forall|i: int|
            0 <= i < self.entries@.len() && (#[trigger] self.entries@[i]).pinned ==> self.entries@[i].toks@
                == self.head@
    }

    /// No sequence of an unfinished wave is left.
    pub open spec fn settled(&self) -> bool {
        self.wf() && self.scratch@.len() == 0
    }

    /// Longest cached span `toks` strictly extends: (seq, len), or (-1, 0).
    /// Direct mode only ever forks off the resident head.
    pub fn base(&self, toks: &[i32], shared: bool) -> (r: (i32, usize))
        ensures
            is_base(self.entries@, toks@, shared, r.0, r.1 as int),
    {
        let mut r: (i32, usize) = (-1, 0);
        let mut found: bool = false;
        let mut i: usize = 0;
        let ghost mut at = 0int;
        while i < self.entries.len()
            invariant
                i <= self.entries@.len(),
                !found ==> r == (-1i32, 0usize) && forall|j: int|
                    0 <= j < i ==> !forkable(#[trigger] self.entries@[j], toks@, shared),
                found ==> 0 <= at < i && forkable(self.entries@[at], toks@, shared) && self.entries@[at].seq == r.0
                    && self.entries@[at].toks@.len() == r.1,
                forall|j: int|
                    0 <= j < i && forkable(#[trigger] self.entries@[j], toks@, shared) ==> self.entries@[j].toks@.len()
                        <= r.1,
            decreases self.entries@.len() - i,
        {
            let e: &Entry = &self.entries[i];
            if (shared || e.pinned) && e.toks.len() < toks.len() && prefix::starts_with(toks, e.toks.as_slice()) {
                if !found || e.toks.len() >= r.1 {
                    r = (e.seq, e.toks.len());
                    found = true;
                    proof {
                        at = i as int;
                    }
                }
            }
            i += 1;
        }
        r
    }

    /// Cells the entries keep alive.
    pub fn cells(&self) -> (n: u128)
        ensures
            n == cell_sum(self.entries@, any_entry()),
    {
        let mut n: u128 = 0;
        let mut i: usize = 0;
        while i < self.entries.len()
            invariant
                i <= self.entries@.len(),
                n == cell_sum(self.entries@.take(i as int), any_entry()),
                n <= i * usize::MAX,
            decreases self.entries@.len() - i,
        {
            proof {
                assert(self.entries@.take(i + 1).drop_last() =~= self.entries@.take(i as int));
                assert(i * usize::MAX + usize::MAX == (i + 1) * usize::MAX) by (nonlinear_arith);
                assert((i + 1) * usize::MAX <= u128::MAX) by (nonlinear_arith)
                    requires
                        0 <= i + 1 <= usize::MAX,
                ;
            }
            n = n + self.entries[i].cells as u128;
            i += 1;
        }
        proof {
            assert(self.entries@.take(i as int) =~= self.entries@);
        }
        n
    }

    /// Whether an entry sits on sequence `s`.
    fn is_taken(&self, s: i32) -> (r: bool)
        ensures
            r == taken(self.entries@, s),
    {
        let mut i: usize = 0;
        while i < self.entries.len()
            invariant
                i <= self.entries@.len(),
                forall|j: int| 0 <= j < i ==> (#[trigger] self.entries@[j]).seq != s,
            decreases self.entries@.len() - i,
        {
            if self.entries[i].seq == s {
                return true;
            }
            i += 1;
        }
        false
    }

    /// Sequences past 0 that no entry sits on, in order.
    pub fn free_seqs(&self) -> (r: Vec<i32>)
        requires
            1 <= self.n_seq <= i32::MAX,
        ensures
            forall|s: i32| #[trigger] r@.contains(s) <==> 1 <= s < self.n_seq && !taken(self.entries@, s),
            forall|i: int, j: int| 0 <= i < j < r@.len() ==> #[trigger] r@[i] < #[trigger] r@[j],
    {
        let mut r: Vec<i32> = Vec::new();
        let mut s: i32 = 1;
        let end: i32 = self.n_seq as i32;
        while s < end
            invariant
                1 <= s <= end,
                end == self.n_seq,
                forall|x: i32| #[trigger] r@.contains(x) <==> 1 <= x < s && !taken(self.entries@, x),
                forall|i: int| 0 <= i < r@.len() ==> #[trigger] r@[i] < s,
                forall|i: int, j: int| 0 <= i < j < r@.len() ==> #[trigger] r@[i] < #[trigger] r@[j],
            decreases end - s,
        {
            let ghost before = r@;
            if !self.is_taken(s) {
                r.push(s);
            }
            proof {
                assert forall|x: i32| #[trigger] r@.contains(x) <==> 1 <= x < s + 1 && !taken(self.entries@, x) by {
                    if before.contains(x) {
                        let k = choose|k: int| 0 <= k < before.len() && before[k] == x;
                        assert(r@[k] == x);
                    }
                    if r@.contains(x) && !before.contains(x) {
                        let k = choose|k: int| 0 <= k < r@.len() && r@[k] == x;
                        if k < before.len() {
                            assert(before[k] == x);
                        }
                    }
                    if x == s && !taken(self.entries@, s) {
                        assert(r@[before.len() as int] == s);
                    }
                }
            }
            s += 1;
        }
        r
    }

    /// Nothing but the cache and the memory behind it differs from `o`.
    pub open spec fn same_run(&self, o: &Kv) -> bool {
        &&& self.n_seq == o.n_seq
        &&& self.n_ctx == o.n_ctx
        &&& self.head@ == o.head@
        &&& self.tick == o.tick
        &&& self.ledger.same_tally(&o.ledger)
    }

    /// The least recently used unpinned entry outside `hold`; a temp one, if
    /// `temp`.
    fn victim(&self, hold: &Vec<i32>, temp: bool) -> (r: Option<usize>)
        ensures
            match r {
                Some(i) => least_recent(self.entries@, hold@, temp, i as int),
                None => forall|j: int|
                    0 <= j < self.entries@.len() ==> !evictable(#[trigger] self.entries@[j], hold@, temp),
            },
    {
        let mut r: Option<usize> = None;
        let mut i: usize = 0;
        while i < self.entries.len()
            invariant
                i <= self.entries@.len(),
                match r {
                    Some(k) => k < i && evictable(self.entries@[k as int], hold@, temp) && forall|j: int|
                        0 <= j < i && evictable(#[trigger] self.entries@[j], hold@, temp) ==> self.entries@[k as int].tick
                            < self.entries@[j].tick || (self.entries@[k as int].tick == self.entries@[j].tick && k <= j),
                    None => forall|j: int| 0 <= j < i ==> !evictable(#[trigger] self.entries@[j], hold@, temp),
                },
            decreases self.entries@.len() - i,
        {
            let e: &Entry = &self.entries[i];
            if !e.pinned && (!temp || e.temp) && !contains(hold, e.seq) {
                let older: bool = match r {
                    Some(k) => e.tick < self.entries[k].tick,
                    None => true,
                };
                if older {
                    r = Some(i);
                }
            }
            i += 1;
        }
        r
    }

    /// Drop the least recently used unpinned entry outside `hold`; only temp
    /// ones, if `temp`.
    pub fn evict<B: Backend>(&mut self, b: &mut B, hold: &Vec<i32>, temp: bool) -> (r: bool)
        requires
            old(self).settled(),
        ensures
            final(self).settled(),
            final(self).same_run(old(self)),
            final(self).ledger.dirty@ == old(self).ledger.dirty@,
            among(final(self).entries@, old(self).entries@),
            holding(final(self).entries@, old(self).entries@, hold@),
            forall|f: spec_fn(Entry) -> bool| #[trigger]
                tally(final(self).entries@, f) <= tally(old(self).entries@, f),
            r == some_evictable(old(self).entries@, hold@, temp),
            calls::follows(
                old(b).told(),
                final(b).told(),
                old(self).ledger.model(),
                final(self).ledger.model(),
            ),
            if r {
                &&& final(b).told() == old(b).told().push(
                    Call::Rm(old(self).entries@[first_to_go(old(self).entries@, hold@, temp)].seq),
                )
                &&& final(self).entries@ == evicted(old(self).entries@, hold@, temp)
                &&& final(self).entries@.len() == old(self).entries@.len() - 1
            } else {
                &&& *final(self) == *old(self)
                &&& *final(b) == *old(b)
                &&& forall|j: int|
                    0 <= j < old(self).entries@.len() ==> !evictable(#[trigger] old(self).entries@[j], hold@, temp)
            },
    {
        let ghost es = self.entries@;
        let ghost m = self.ledger.held@;
        let ghost (t, l) = (b.told(), self.ledger.model());
        proof {
            calls::lemma_idle(t, l);
        }
        match self.victim(hold, temp) {
            Some(i) => {
                proof {
                    lemma_swap_removed(es, i as int, self.n_seq as int);
                }
                let e: Entry = self.entries.swap_remove(i);
                proof {
                    assert(self.entries@ == swap_removed(es, i as int));
                    assert(e == es[i as int]);
                }
                self.ledger.rm(b, e.seq);
                proof {
                    calls::lemma_call(t, t, l, l, Call::Rm(e.seq));
                    lemma_one_victim(es, hold@, temp, i as int);
                    assert(taken(es, e.seq));
                    assert forall|j: int| 0 <= j < es.len() && (es[j].pinned || hold@.contains(es[j].seq)) implies self.entries@.contains(
                        #[trigger] es[j],
                    ) by {
                        assert(j != i);
                    }
                    assert forall|j: int| 0 <= j < self.entries@.len() implies self.ledger.held@[(#[trigger] self.entries@[j]).seq]
                        == self.entries@[j].toks@ by {
                        assert(es.contains(self.entries@[j]));
                        let k = choose|k: int| 0 <= k < es.len() && es[k] == self.entries@[j];
                        assert(m[es[k].seq] == es[k].toks@);
                        assert(taken(self.entries@, self.entries@[j].seq));
                        assert(self.entries@[j].seq != e.seq);
                    }
                    assert forall|j: int| 0 <= j < self.entries@.len() && (#[trigger] self.entries@[j]).pinned implies self.entries@[j].toks@
                        == self.head@ by {
                        assert(es.contains(self.entries@[j]));
                    }
                    assert forall|s: i32| !taken(self.entries@, s) && !self.scratch@.contains(s) implies #[trigger] self.ledger.held@[s]
                        == Seq::<i32>::empty() by {
                        if s != e.seq {
                            assert(!taken(es, s));
                            assert(m[s] == Seq::<i32>::empty());
                        }
                    }
                }
                true
            },
            None => {
                proof {
                    assert forall|j: int| 0 <= j < es.len() implies es.contains(#[trigger] es[j]) by {}
                }
                false
            },
        }
    }
}

/// Whether `v` holds `x`.
pub fn contains(v: &Vec<i32>, x: i32) -> (r: bool)
    ensures
        r == v@.contains(x),
{
    let mut i: usize = 0;
    while i < v.len()
        invariant
            i <= v@.len(),
            forall|j: int| 0 <= j < i ==> v@[j] != x,
        decreases v@.len() - i,
    {
        if v[i] == x {
            return true;
        }
        i += 1;
    }
    false
}

} // verus!
