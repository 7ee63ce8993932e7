//! A model of the backend's memory: what every sequence holds, and what
//! removing, copying and decoding do to it.
use vstd::prelude::*;

use crate::kv::Dec;

verus! {

/// The token history of every sequence.
pub type Memory = Map<i32, Seq<i32>>;

/// A memory in which every sequence is empty.
pub open spec fn blank() -> Memory {
    Map::total(|s: i32| Seq::<i32>::empty())
}

/// `m` with sequence `s` removed.
pub open spec fn removed(m: Memory, s: i32) -> Memory {
    m.insert(s, Seq::empty())
}

/// Tokens can be decoded at `pos0` onto all of `seqs` at once: each holds
/// `pos0` tokens, and all of them the same ones.
pub open spec fn coupled(m: Memory, seqs: Seq<i32>, pos0: int) -> bool {
    &&& seqs.len() > 0
    &&& seqs.no_duplicates()
    &&& forall|i: int|
        0 <= i < seqs.len() ==> (#[trigger] m[seqs[i]]).len() == pos0 && m[seqs[i]] == m[seqs[0]]
}

/// `m` with `toks` appended to each of `seqs`.
pub open spec fn appended(m: Memory, seqs: Seq<i32>, toks: Seq<i32>) -> Memory {
    Map::total(
        |s: i32|
            if seqs.contains(s) {
                m[s] + toks
            } else {
                m[s]
            },
    )
}

/// `m` after decoding `groups` in order.
pub open spec fn decoded(m: Memory, groups: Seq<Dec>) -> Memory
    decreases groups.len(),
{
    if groups.len() == 0 {
        m
    } else {
        let g = groups.last();
        appended(decoded(m, groups.drop_last()), g.seqs@, g.toks@)
    }
}

/// Every group is non-empty and continues its sequences without gap or
/// overlap when `groups` are decoded in order from `m`.
pub open spec fn decodable(m: Memory, groups: Seq<Dec>) -> bool
    decreases groups.len(),
{
    groups.len() == 0 || {
        let g = groups.last();
        let before = groups.drop_last();
        &&& decodable(m, before)
        &&& g.toks@.len() > 0
        &&& coupled(decoded(m, before), g.seqs@, g.pos0 as int)
    }
}

/// Every group is tagged with sequences of `ss` only.
pub open spec fn within(groups: Seq<Dec>, ss: Set<i32>) -> bool {
    forall|g: int, k: int|
        0 <= g < groups.len() && 0 <= k < groups[g].seqs@.len() ==> ss.contains(#[trigger] groups[g].seqs@[k])
}

/// Tokens written by decoding `groups`.
pub open spec fn written(groups: Seq<Dec>) -> nat
    decreases groups.len(),
{
    if groups.len() == 0 {
        0
    } else {
        written(groups.drop_last()) + groups.last().toks@.len()
    }
}

/// Every job that `rows` reads at a group finds there exactly the prompt
/// `want` names for it, and logits are asked for where some job reads.
pub open spec fn reads(m: Memory, groups: Seq<Dec>, rows: Seq<Vec<usize>>, want: spec_fn(usize) -> Seq<i32>) -> bool
    decreases groups.len(),
{
    rows.len() == groups.len() && (groups.len() == 0 || {
        let g = groups.last();
        let r = rows.last()@;
        &&& reads(m, groups.drop_last(), rows.drop_last(), want)
        &&& g.logits == (r.len() > 0)
        &&& forall|i: int, k: int|
            0 <= i < r.len() && 0 <= k < g.seqs@.len() ==> decoded(m, groups)[#[trigger] g.seqs@[k]]
                == want(#[trigger] r[i])
    })
}

/// The jobs read, in the order of the groups.
pub open spec fn jobs_read(rows: Seq<Vec<usize>>) -> Seq<usize>
    decreases rows.len(),
{
    if rows.len() == 0 {
        Seq::empty()
    } else {
        jobs_read(rows.drop_last()) + rows.last()@
    }
}

/// The prompt each job's row was read after, when `groups` are decoded from
/// `m` and `seen` was read before.
pub open spec fn heard(m: Memory, groups: Seq<Dec>, rows: Seq<Vec<usize>>, seen: Map<usize, Seq<i32>>) -> Map<usize, Seq<i32>>
    decreases groups.len(),
{
    if groups.len() == 0 {
        seen
    } else {
        let before = heard(m, groups.drop_last(), rows.drop_last(), seen);
        let r = rows.last()@;
        Map::new(
            |j: usize| before.dom().contains(j) || r.contains(j),
            |j: usize|
                if r.contains(j) {
                    decoded(m, groups)[groups.last().seqs@[0]]
                } else {
                    before[j]
                },
        )
    }
}

/// The jobs that `rows` names at each group, with the tokens that their rows are
/// asked for after.
pub open spec fn asked(m: Memory, groups: Seq<Dec>, rows: Seq<Vec<usize>>) -> Set<(usize, Seq<i32>)>
    decreases groups.len(),
{
    if groups.len() == 0 {
        Set::empty()
    } else {
        let t = decoded(m, groups)[groups.last().seqs@[0]];
        asked(m, groups.drop_last(), rows.drop_last()).union(
            Set::new(|p: (usize, Seq<i32>)| rows.last()@.contains(p.0) && p.1 == t),
        )
    }
}

/// Rows are asked for no job but those read, and after exactly what each wanted.
pub proof fn lemma_asked(m: Memory, groups: Seq<Dec>, rows: Seq<Vec<usize>>, want: spec_fn(usize) -> Seq<i32>)
    requires
        decodable(m, groups),
        reads(m, groups, rows, want),
    ensures
        forall|p: (usize, Seq<i32>)| #[trigger]
            asked(m, groups, rows).contains(p) ==> jobs_read(rows).contains(p.0) && p.1 == want(p.0),
    decreases groups.len(),
{
    if groups.len() > 0 {
        let (g0, r0) = (groups.drop_last(), rows.drop_last());
        lemma_asked(m, g0, r0, want);
        let r = rows.last()@;
        let g = groups.last();
        assert forall|p: (usize, Seq<i32>)| #[trigger] asked(m, groups, rows).contains(p) implies jobs_read(rows).contains(p.0)
            && p.1 == want(p.0) by {
            if asked(m, g0, r0).contains(p) {
                let i = choose|i: int| 0 <= i < jobs_read(r0).len() && jobs_read(r0)[i] == p.0;
                assert(jobs_read(rows)[i] == p.0);
            } else {
                let i = choose|i: int| 0 <= i < r.len() && r[i] == p.0;
                assert(jobs_read(rows)[jobs_read(r0).len() + i] == p.0);
                assert(decoded(m, groups)[g.seqs@[0]] == want(r[i]));
            }
        }
    }
}

/// What a job newly heard was asked for it.
pub proof fn lemma_heard_asked(m: Memory, groups: Seq<Dec>, rows: Seq<Vec<usize>>, seen: Map<usize, Seq<i32>>, j: usize)
    requires
        heard(m, groups, rows, seen).dom().contains(j),
    ensures
        asked(m, groups, rows).contains((j, heard(m, groups, rows, seen)[j])) || (seen.dom().contains(j) && heard(
            m,
            groups,
            rows,
            seen,
        )[j] == seen[j]),
    decreases groups.len(),
{
    if groups.len() > 0 && !rows.last()@.contains(j) {
        lemma_heard_asked(m, groups.drop_last(), rows.drop_last(), seen, j);
    }
}

/// Jobs that are read hear exactly what they wanted; other jobs keep what they
/// heard before.
pub proof fn lemma_heard(m: Memory, groups: Seq<Dec>, rows: Seq<Vec<usize>>, seen: Map<usize, Seq<i32>>, want: spec_fn(usize) -> Seq<i32>)
    requires
        decodable(m, groups),
        reads(m, groups, rows, want),
    ensures
        forall|j: usize|
            jobs_read(rows).contains(j) ==> #[trigger] heard(m, groups, rows, seen).dom().contains(j) && heard(
                m,
                groups,
                rows,
                seen,
            )[j] == want(j),
        forall|j: usize|
            !jobs_read(rows).contains(j) ==> (#[trigger] heard(m, groups, rows, seen).dom().contains(j)
                <==> seen.dom().contains(j)) && (seen.dom().contains(j) ==> heard(m, groups, rows, seen)[j] == seen[j]),
    decreases groups.len(),
{
    if groups.len() > 0 {
        let (g0, r0) = (groups.drop_last(), rows.drop_last());
        lemma_heard(m, g0, r0, seen, want);
        let r = rows.last()@;
        let all = heard(m, groups, rows, seen);
        assert forall|j: usize| jobs_read(rows).contains(j) implies #[trigger] all.dom().contains(j) && all[j] == want(j) by {
            if r.contains(j) {
                let i = choose|i: int| 0 <= i < r.len() && r[i] == j;
                let g = groups.last();
                assert(decoded(m, groups)[g.seqs@[0]] == want(r[i]));
            } else {
                let i = choose|i: int| 0 <= i < jobs_read(rows).len() && jobs_read(rows)[i] == j;
                if i >= jobs_read(r0).len() {
                    assert(r[i - jobs_read(r0).len()] == j);
                }
                assert(jobs_read(r0)[i] == j);
                assert(jobs_read(r0).contains(j));
                assert(heard(m, g0, r0, seen).dom().contains(j));
            }
        }
        assert forall|j: usize| !jobs_read(rows).contains(j) implies (#[trigger] all.dom().contains(j) <==> seen.dom().contains(j))
            && (seen.dom().contains(j) ==> all[j] == seen[j]) by {
            if r.contains(j) {
                let i = choose|i: int| 0 <= i < r.len() && r[i] == j;
                assert(jobs_read(rows)[jobs_read(r0).len() + i] == j);
            }
            if jobs_read(r0).contains(j) {
                let i = choose|i: int| 0 <= i < jobs_read(r0).len() && jobs_read(r0)[i] == j;
                assert(jobs_read(rows)[i] == j);
            }
            assert(heard(m, g0, r0, seen).dom().contains(j) <==> seen.dom().contains(j));
            assert(seen.dom().contains(j) ==> heard(m, g0, r0, seen)[j] == seen[j]);
        }
    }
}

/// Logits are asked for exactly where some job reads.
pub proof fn lemma_reads_logits(m: Memory, groups: Seq<Dec>, rows: Seq<Vec<usize>>, want: spec_fn(usize) -> Seq<i32>)
    requires
        reads(m, groups, rows, want),
    ensures
        rows.len() == groups.len(),
        forall|g: int| 0 <= g < groups.len() ==> (#[trigger] groups[g]).logits == (rows[g]@.len() > 0),
    decreases groups.len(),
{
    if groups.len() > 0 {
        lemma_reads_logits(m, groups.drop_last(), rows.drop_last(), want);
        assert forall|g: int| 0 <= g < groups.len() implies (#[trigger] groups[g]).logits == (rows[g]@.len() > 0) by {
            if g < groups.len() - 1 {
                assert(groups.drop_last()[g] == groups[g]);
                assert(rows.drop_last()[g] == rows[g]);
            }
        }
    }
}

} // verus!
