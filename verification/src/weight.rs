//! The tokens that jobs' prompts have, as a bound on what is decoded for them.
use vstd::prelude::*;

use crate::kv::Job;
use crate::plan;
use crate::plan::Item;
use crate::wave;

verus! {

/// Tokens of those of the first `n` jobs that are among `some`.
pub open spec fn weight(jobs: Seq<Job>, some: Seq<usize>, n: int) -> nat
    decreases n,
{
    if n <= 0 {
        0
    } else {
        weight(jobs, some, n - 1) + if some.contains((n - 1) as usize) {
            jobs[n - 1].toks@.len()
        } else {
            0
        }
    }
}

/// Tokens of all prompts.
pub open spec fn prompt_tokens(jobs: Seq<Job>) -> nat
    decreases jobs.len(),
{
    if jobs.len() == 0 {
        0
    } else {
        prompt_tokens(jobs.drop_last()) + jobs.last().toks@.len()
    }
}

/// All jobs weigh what their prompts do.
pub proof fn lemma_all_weight(jobs: Seq<Job>, some: Seq<usize>, n: int)
    requires
        0 <= n <= jobs.len() <= usize::MAX,
        forall|j: usize| j < jobs.len() ==> #[trigger] some.contains(j),
    ensures
        weight(jobs, some, n) == prompt_tokens(jobs.take(n)),
    decreases n,
{
    if n > 0 {
        lemma_all_weight(jobs, some, n - 1);
        assert(jobs.take(n).drop_last() =~= jobs.take(n - 1));
        assert(some.contains((n - 1) as usize));
    }
}

proof fn lemma_weight_split(jobs: Seq<Job>, a: Seq<usize>, b: Seq<usize>, c: Seq<usize>, n: int)
    requires
        0 <= n <= jobs.len() <= usize::MAX,
        forall|x: usize| #[trigger] a.contains(x) <==> b.contains(x) || c.contains(x),
        forall|x: usize| #[trigger] b.contains(x) ==> !c.contains(x),
    ensures
        weight(jobs, a, n) == weight(jobs, b, n) + weight(jobs, c, n),
    decreases n,
{
    if n > 0 {
        lemma_weight_split(jobs, a, b, c, n - 1);
        assert(a.contains((n - 1) as usize) <==> b.contains((n - 1) as usize) || c.contains((n - 1) as usize));
    }
}

proof fn lemma_weight_one(jobs: Seq<Job>, x: usize, n: int)
    requires
        0 <= n <= jobs.len() <= usize::MAX,
    ensures
        weight(jobs, seq![x], n) == if x < n {
            jobs[x as int].toks@.len()
        } else {
            0
        },
    decreases n,
{
    if n > 0 {
        lemma_weight_one(jobs, x, n - 1);
        let one = seq![x];
        assert(one[0] == x);
        assert(one.contains((n - 1) as usize) <==> x == n - 1);
    }
}

/// The first `n` items write no more cells than their prompts have tokens, and
/// fewer where one forks off anything.
pub proof fn lemma_cells_weigh(jobs: Seq<Job>, items: Seq<Item>, shared: bool, n: int)
    requires
        0 <= n <= items.len(),
        jobs.len() <= usize::MAX,
        wave::jobs_of(items).no_duplicates(),
        forall|k: int|
            0 <= k < items.len() ==> (#[trigger] items[k]).job < jobs.len() && items[k].toks == jobs[items[k].job as int].toks,
    ensures
        plan::cells(items, shared, n) <= weight(jobs, wave::jobs_of(items).take(n), jobs.len() as int),
        (exists|k: int| 0 <= k < n && (#[trigger] items[k]).blen > 0) ==> plan::cells(items, shared, n) < weight(
            jobs,
            wave::jobs_of(items).take(n),
            jobs.len() as int,
        ),
    decreases n,
{
    let all = wave::jobs_of(items);
    let total = jobs.len() as int;
    if n > 0 {
        lemma_cells_weigh(jobs, items, shared, n - 1);
        let x = items[n - 1];
        let (a, b, c) = (all.take(n), all.take(n - 1), seq![x.job]);
        assert(all[n - 1] == x.job);
        assert(c[0] == x.job);
        assert forall|j: usize| #[trigger] a.contains(j) <==> b.contains(j) || c.contains(j) by {
            if a.contains(j) {
                let k = choose|k: int| 0 <= k < n && a[k] == j;
                if k < n - 1 {
                    assert(b[k] == j);
                }
            }
            if b.contains(j) {
                let k = choose|k: int| 0 <= k < n - 1 && b[k] == j;
                assert(a[k] == j);
            }
            if c.contains(j) {
                assert(a[n - 1] == j);
            }
        }
        assert forall|j: usize| #[trigger] b.contains(j) implies !c.contains(j) by {
            let k = choose|k: int| 0 <= k < n - 1 && b[k] == j;
            assert(all[k] != all[n - 1]);
        }
        lemma_weight_split(jobs, a, b, c, total);
        lemma_weight_one(jobs, x.job, total);
    }
}

/// The pending jobs weigh what the first `n` items and the rest do.
pub proof fn lemma_left_weighs(jobs: Seq<Job>, items: Seq<Item>, pending: Seq<usize>, n: int)
    requires
        0 <= n <= items.len(),
        jobs.len() <= usize::MAX,
        wave::jobs_of(items).no_duplicates(),
        forall|j: usize| #[trigger] wave::jobs_of(items).contains(j) <==> pending.contains(j),
    ensures
        weight(jobs, pending, jobs.len() as int) == weight(jobs, wave::jobs_of(items).take(n), jobs.len() as int) + weight(
            jobs,
            wave::jobs_of(items).skip(n),
            jobs.len() as int,
        ),
{
    let all = wave::jobs_of(items);
    let (b, c) = (all.take(n), all.skip(n));
    assert forall|x: usize| #[trigger] pending.contains(x) <==> b.contains(x) || c.contains(x) by {
        assert(all.contains(x) <==> pending.contains(x));
        if all.contains(x) {
            let k = choose|k: int| 0 <= k < all.len() && all[k] == x;
            if k < n {
                assert(b[k] == x);
            } else {
                assert(c[k - n] == x);
            }
        }
        if b.contains(x) {
            let k = choose|k: int| 0 <= k < n && b[k] == x;
            assert(all[k] == x);
        }
        if c.contains(x) {
            let k = choose|k: int| 0 <= k < c.len() && c[k] == x;
            assert(all[n + k] == x);
        }
    }
    assert forall|x: usize| #[trigger] b.contains(x) implies !c.contains(x) by {
        if c.contains(x) {
            let i = choose|i: int| 0 <= i < n && b[i] == x;
            let k = choose|k: int| 0 <= k < c.len() && c[k] == x;
            assert(all[i] != all[n + k]);
        }
    }
    lemma_weight_split(jobs, pending, b, c, jobs.len() as int);
}

/// Prompts of at most `cap` tokens weigh at most so much each.
pub proof fn lemma_tokens_bound(jobs: Seq<Job>, cap: int)
    requires
        0 <= cap,
        forall|j: int| 0 <= j < jobs.len() ==> (#[trigger] jobs[j]).toks@.len() <= cap,
    ensures
        prompt_tokens(jobs) <= jobs.len() * cap,
    decreases jobs.len(),
{
    let n = jobs.len() as int;
    if n > 0 {
        assert forall|j: int| 0 <= j < n - 1 implies (#[trigger] jobs.drop_last()[j]).toks@.len() <= cap by {
            assert(jobs[j].toks@.len() <= cap);
        }
        lemma_tokens_bound(jobs.drop_last(), cap);
        assert(jobs[n - 1].toks@.len() <= cap);
        assert((n - 1) * cap + cap == n * cap) by (nonlinear_arith);
    } else {
        assert(n * cap == 0) by (nonlinear_arith)
            requires
                n == 0,
        ;
    }
}

} // verus!
