//! The calls that a backend was given, and what they make of its memory: what
//! every sequence holds, and after which tokens every job was read.
use vstd::prelude::*;

use crate::kv;
use crate::kv::{Dec, Kv};
use crate::memory;

verus! {

/// A call that changes a backend's memory.
pub enum Call {
    Clear,
    /// remove a sequence
    Rm(i32),
    /// copy the sequence `src`, of `len` tokens, onto the empty `dst`
    Cp { src: i32, dst: i32, len: usize },
    /// decode groups, and hand the row of each to the jobs of its row; `went`
    /// where that went through
    Decode { groups: Seq<Dec<'static>>, rows: Seq<Vec<usize>>, went: bool },
}

/// What calls amount to.
#[verifier::ext_equal]
pub struct Model {
    /// the tokens on every sequence
    pub held: memory::Memory,
    /// sequences a refused decode may have left anything on
    pub dirty: Set<i32>,
    /// the tokens that each job's row was read after
    pub seen: Map<usize, Seq<i32>>,
    /// the jobs that a row was ever asked for, with the tokens it was asked after
    pub asks: Set<(usize, Seq<i32>)>,
    /// tokens written by the decodes that went through
    pub written: nat,
    /// decodes that went through
    pub passed: nat,
    /// decodes refused
    pub refused: nat,
}

/// A backend of which nothing was asked yet.
pub open spec fn untouched() -> Model {
    Model {
        held: memory::blank(),
        dirty: Set::empty(),
        seen: Map::empty(),
        asks: Set::empty(),
        written: 0,
        passed: 0,
        refused: 0,
    }
}

/// `m`, starting over on which jobs were read.
pub open spec fn unread(m: Model) -> Model {
    Model { seen: Map::empty(), ..m }
}

/// The sequences that groups are tagged with.
pub open spec fn touched(groups: Seq<Dec>) -> Set<i32> {
    Set::new(|s: i32| exists|g: int| 0 <= g < groups.len() && (#[trigger] groups[g]).seqs@.contains(s))
}

/// The jobs that heard nothing certain of a refused decode are forgotten.
pub open spec fn unheard(seen: Map<usize, Seq<i32>>, rows: Seq<Vec<usize>>) -> Map<usize, Seq<i32>> {
    Map::new(|j: usize| seen.dom().contains(j) && !memory::jobs_read(rows).contains(j), |j: usize| seen[j])
}

/// What a call makes of `m`.
pub open spec fn after(m: Model, c: Call) -> Model {
    match c {
        Call::Clear => Model { held: memory::blank(), dirty: Set::empty(), seen: Map::empty(), ..m },
        Call::Rm(s) => Model { held: memory::removed(m.held, s), dirty: m.dirty.remove(s), ..m },
        Call::Cp { src, dst, len } => Model { held: m.held.insert(dst, m.held[src]), ..m },
        Call::Decode { groups, rows, went } => if went {
            Model {
                held: memory::decoded(m.held, groups),
                seen: memory::heard(m.held, groups, rows, m.seen),
                asks: m.asks.union(memory::asked(m.held, groups, rows)),
                written: m.written + memory::written(groups),
                passed: m.passed + 1,
                ..m
            }
        } else {
            Model {
                dirty: m.dirty.union(touched(groups)),
                seen: unheard(m.seen, rows),
                asks: m.asks.union(memory::asked(m.held, groups, rows)),
                refused: m.refused + 1,
                ..m
            }
        },
    }
}

/// What calls make of `m`, one after the other.
pub open spec fn replayed(m: Model, calls: Seq<Call>) -> Model
    decreases calls.len(),
{
    if calls.len() == 0 {
        m
    } else {
        after(replayed(m, calls.drop_last()), calls.last())
    }
}

/// A backend that had been given the calls `t` was given more, `u` in all, and
/// those made `b` of `a`.
#[verifier::opaque]
pub open spec fn follows(t: Seq<Call>, u: Seq<Call>, a: Model, b: Model) -> bool {
    &&& t.is_prefix_of(u)
    &&& b == replayed(a, u.skip(t.len() as int))
}

/// Nothing was called, and nothing changed.
pub proof fn lemma_idle(t: Seq<Call>, a: Model)
    ensures
        follows(t, t, a, a),
{
    reveal(follows);
    assert(t.subrange(0, t.len() as int) =~= t);
    assert(t.skip(t.len() as int) =~= Seq::empty());
}

/// One more call.
pub proof fn lemma_call(t: Seq<Call>, u: Seq<Call>, a: Model, b: Model, c: Call)
    requires
        follows(t, u, a, b),
    ensures
        follows(t, u.push(c), a, after(b, c)),
{
    reveal(follows);
    let n = t.len() as int;
    let v = u.push(c);
    assert(v.subrange(0, n) =~= u.subrange(0, n));
    assert(v.skip(n).drop_last() =~= u.skip(n));
    assert(v.skip(n).last() == c);
}

/// More calls, after others.
pub proof fn lemma_on(t: Seq<Call>, u: Seq<Call>, v: Seq<Call>, a: Model, b: Model, c: Model)
    requires
        follows(t, u, a, b),
        follows(u, v, b, c),
    ensures
        follows(t, v, a, c),
    decreases v.len() - u.len(),
{
    reveal(follows);
    if v.len() == u.len() {
        assert(v =~= u) by {
            assert(v.subrange(0, u.len() as int) =~= v);
        }
        assert(v.skip(u.len() as int) =~= Seq::empty());
    } else {
        let w = v.drop_last();
        let (m, n) = (t.len() as int, u.len() as int);
        assert(w.subrange(0, n) =~= v.subrange(0, n));
        assert(w.skip(n) =~= v.skip(n).drop_last());
        let d = replayed(b, w.skip(n));
        lemma_on(t, u, w, a, b, d);
        lemma_call(t, w, a, d, v.last());
        assert(w.push(v.last()) =~= v);
        assert(v.skip(n).last() == v.last());
    }
}

/// What a call does to memory depends on what the memory held, and on nothing that
/// was read or counted before.
pub proof fn law_memory_goes_by_the_calls(a: Model, b: Model, calls: Seq<Call>)
    requires
        a.held == b.held,
        a.dirty == b.dirty,
    ensures
        replayed(a, calls).held == replayed(b, calls).held,
        replayed(a, calls).dirty == replayed(b, calls).dirty,
    decreases calls.len(),
{
    if calls.len() > 0 {
        law_memory_goes_by_the_calls(a, b, calls.drop_last());
    }
}

/// Whatever row a job has now, the backend was asked for: for that job, after those
/// tokens.
pub proof fn law_heard_was_asked(a: Model, calls: Seq<Call>, j: usize)
    requires
        !a.seen.dom().contains(j),
        replayed(a, calls).seen.dom().contains(j),
    ensures
        replayed(a, calls).asks.contains((j, replayed(a, calls).seen[j])),
    decreases calls.len(),
{
    if calls.len() > 0 {
        let m = replayed(a, calls.drop_last());
        if let Call::Decode { groups, rows, went } = calls.last() {
            if went {
                memory::lemma_heard_asked(m.held, groups, rows, m.seen, j);
            }
        }
        if m.seen.dom().contains(j) {
            law_heard_was_asked(a, calls.drop_last(), j);
        }
    }
}

/// Between runs the backend holds the cache and nothing else: the calls it was given
/// left every entry's span on the entry's sequence, and all other sequences empty.
pub proof fn law_backend_holds_the_cache(t: Seq<Call>, u: Seq<Call>, a: Model, kv: &Kv)
    requires
        kv.settled(),
        follows(t, u, a, kv.ledger.model()),
    ensures
        ({
            let held = replayed(a, u.skip(t.len() as int)).held;
            &&& forall|i: int| 0 <= i < kv.entries@.len() ==> held[(#[trigger] kv.entries@[i]).seq] == kv.entries@[i].toks@
            &&& forall|s: i32| !kv::taken(kv.entries@, s) ==> #[trigger] held[s] == Seq::<i32>::empty()
        }),
{
    reveal(follows);
    assert forall|s: i32| !kv::taken(kv.entries@, s) implies #[trigger] kv.ledger.held@[s] == Seq::<i32>::empty() by {
        assert(!kv.scratch@.contains(s));
    }
}

} // verus!
