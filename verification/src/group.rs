//! Places of a list grouped by what stands there, groups in order.
use vstd::prelude::*;

use crate::text;

verus! {

/// The places at which `k` stands.
pub open spec fn positions<K>(ks: Seq<K>, k: K) -> Seq<int>
    decreases ks.len(),
{
    if ks.len() == 0 {
        Seq::empty()
    } else if ks.last() == k {
        positions(ks.drop_last(), k).push(ks.len() - 1)
    } else {
        positions(ks.drop_last(), k)
    }
}

/// Places as integers.
pub open spec fn ints(v: Seq<usize>) -> Seq<int> {
    v.map_values(|i: usize| i as int)
}

/// Positions are exactly the places at which the key stands, in order.
pub proof fn lemma_positions<K>(ks: Seq<K>, k: K)
    ensures
        forall|i: int| #[trigger] positions(ks, k).contains(i) <==> 0 <= i < ks.len() && ks[i] == k,
        forall|i: int, j: int| 0 <= i < j < positions(ks, k).len() ==> #[trigger] positions(ks, k)[i] < #[trigger] positions(ks, k)[j],
        positions(ks, k).len() <= ks.len(),
    decreases ks.len(),
{
    if ks.len() > 0 {
        let d = ks.drop_last();
        lemma_positions(d, k);
        let (p, q) = (positions(d, k), positions(ks, k));
        assert forall|i: int| #[trigger] q.contains(i) <==> 0 <= i < ks.len() && ks[i] == k by {
            assert(p.contains(i) <==> 0 <= i < d.len() && d[i] == k);
            if ks.last() == k {
                assert(q.last() == ks.len() - 1);
                if q.contains(i) {
                    let j = choose|j: int| 0 <= j < q.len() && q[j] == i;
                    if j < p.len() {
                        assert(p[j] == i);
                    }
                }
                if p.contains(i) {
                    let j = choose|j: int| 0 <= j < p.len() && p[j] == i;
                    assert(q[j] == i);
                }
            }
        }
        assert forall|i: int, j: int| 0 <= i < j < q.len() implies #[trigger] q[i] < #[trigger] q[j] by {
            if j < p.len() {
                assert(p[i] < p[j]);
            } else {
                assert(p.contains(p[i]));
            }
        }
    }
}

/// The places at which one number stands.
pub struct Group {
    pub key: usize,
    pub members: Vec<usize>,
}

/// A group of `k`.
pub open spec fn has_key(gs: Seq<Group>, k: usize) -> bool {
    exists|j: int| 0 <= j < gs.len() && (#[trigger] gs[j]).key == k
}

/// The groups of a list of numbers: each that stands there, in order, with its places.
pub open spec fn groups_of(gs: Seq<Group>, ks: Seq<usize>) -> bool {
    &&& forall|i: int, j: int| 0 <= i < j < gs.len() ==> (#[trigger] gs[i]).key < (#[trigger] gs[j]).key
    &&& forall|i: int| 0 <= i < ks.len() ==> has_key(gs, #[trigger] ks[i])
    &&& forall|j: int|
        0 <= j < gs.len() ==> ks.contains((#[trigger] gs[j]).key) && ints(gs[j].members@) == positions(ks, gs[j].key)
}

/// Every place stands in exactly one group, once.
pub proof fn law_groups(gs: Seq<Group>, ks: Seq<usize>, i: usize)
    requires
        groups_of(gs, ks),
        i < ks.len(),
    ensures
        exists|g: int| 0 <= g < gs.len() && (#[trigger] gs[g]).members@.contains(i),
        forall|g: int, h: int|
            0 <= g < gs.len() && 0 <= h < gs.len() && (#[trigger] gs[g]).members@.contains(i) && (
            #[trigger] gs[h]).members@.contains(i) ==> g == h,
        forall|g: int| 0 <= g < gs.len() ==> (#[trigger] gs[g]).members@.no_duplicates(),
{
    assert forall|g: int| 0 <= g < gs.len() implies ((#[trigger] gs[g]).members@.contains(i) <==> gs[g].key == ks[
        i as int]) && gs[g].members@.no_duplicates() by {
        lemma_members(gs[g].members@, ks, gs[g].key, i);
    }
    assert(has_key(gs, ks[i as int]));
    let g = choose|j: int| 0 <= j < gs.len() && (#[trigger] gs[j]).key == ks[i as int];
    assert(gs[g].members@.contains(i));
}

/// Members at the positions of a key are the places at which it stands, each once.
pub proof fn lemma_members<K>(m: Seq<usize>, ks: Seq<K>, k: K, i: usize)
    requires
        ints(m) == positions(ks, k),
        i < ks.len(),
    ensures
        m.contains(i) <==> ks[i as int] == k,
        m.no_duplicates(),
{
    let p = positions(ks, k);
    lemma_positions(ks, k);
    if ks[i as int] == k {
        assert(p.contains(i as int));
        let j = choose|j: int| 0 <= j < p.len() && p[j] == i;
        assert(m[j] as int == ints(m)[j]);
    }
    if m.contains(i) {
        let j = choose|j: int| 0 <= j < m.len() && m[j] == i;
        assert(ints(m)[j] == i);
        assert(p.contains(i as int));
    }
    assert forall|a: int, b: int| 0 <= a < m.len() && 0 <= b < m.len() && a != b implies m[a] != m[b] by {
        assert(ints(m)[a] == m[a] as int && ints(m)[b] == m[b] as int);
        if a < b {
            assert(p[a] < p[b]);
        } else {
            assert(p[b] < p[a]);
        }
    }
}

/// Where the group of `k` stands, or is to stand.
fn group_place(gs: &Vec<Group>, k: usize) -> (r: usize)
    requires
        forall|i: int, j: int| 0 <= i < j < gs@.len() ==> (#[trigger] gs@[i]).key < (#[trigger] gs@[j]).key,
    ensures
        r <= gs@.len(),
        forall|i: int| 0 <= i < r ==> (#[trigger] gs@[i]).key < k,
        forall|i: int| r <= i < gs@.len() ==> (#[trigger] gs@[i]).key >= k,
{
    let mut i: usize = 0;
    while i < gs.len() && gs[i].key < k
        invariant
            i <= gs@.len(),
            forall|j: int| 0 <= j < i ==> (#[trigger] gs@[j]).key < k,
        decreases gs@.len() - i,
    {
        i += 1;
    }
    i
}

/// Add the place at the end of a list to its groups.
fn add_place(gs: &mut Vec<Group>, ks: Ghost<Seq<usize>>, k: usize, at: usize)
    requires
        groups_of(old(gs)@, ks@),
        at == ks@.len(),
    ensures
        groups_of(final(gs)@, ks@.push(k)),
{
    let ghost o = gs@;
    let ghost n = ks@.push(k);
    let p: usize = group_place(gs, k);
    proof {
        assert(n.drop_last() =~= ks@);
        assert(n.last() == k);
    }
    if p < gs.len() && gs[p].key == k {
        let ghost m = gs@[p as int].members@;
        let ghost g = gs@[p as int];
        gs[p].members.push(at);
        proof {
            assert(ints(m.push(at)) =~= ints(m).push(at as int));
            assert(gs@[p as int].members@ == m.push(at));
            assert forall|j: int| 0 <= j < gs@.len() implies n.contains((#[trigger] gs@[j]).key) && ints(
                gs@[j].members@,
            ) == positions(n, gs@[j].key) by {
                assert(ks@.contains(o[j].key));
                let i = choose|i: int| 0 <= i < ks@.len() && ks@[i] == o[j].key;
                assert(n[i] == o[j].key);
                if j != p {
                    assert(gs@[j] == o[j]);
                }
            }
            assert forall|i: int| 0 <= i < n.len() implies has_key(gs@, #[trigger] n[i]) by {
                if i < ks@.len() {
                    assert(has_key(o, ks@[i]));
                    let j = choose|j: int| 0 <= j < o.len() && (#[trigger] o[j]).key == ks@[i];
                    assert(gs@[j].key == n[i]);
                } else {
                    assert(gs@[p as int].key == n[i]);
                }
            }
        }
    } else {
        let mut members: Vec<usize> = Vec::new();
        members.push(at);
        proof {
            if ks@.contains(k) {
                let i = choose|i: int| 0 <= i < ks@.len() && ks@[i] == k;
                assert(has_key(o, ks@[i]));
                let j = choose|j: int| 0 <= j < o.len() && (#[trigger] o[j]).key == ks@[i];
                assert(o[j].key == k);
                if j > p {
                    assert(o[p as int].key < o[j].key);
                }
            }
            lemma_positions(ks@, k);
            assert(positions(ks@, k) =~= Seq::empty()) by {
                if positions(ks@, k).len() > 0 {
                    assert(positions(ks@, k).contains(positions(ks@, k)[0]));
                }
            }
            assert(ints(members@) =~= positions(n, k));
        }
        gs.insert(p, Group { key: k, members });
        proof {
            assert forall|j: int| 0 <= j < gs@.len() implies n.contains((#[trigger] gs@[j]).key) && ints(
                gs@[j].members@,
            ) == positions(n, gs@[j].key) by {
                if j == p {
                    assert(n[ks@.len() as int] == k);
                } else {
                    let q = if j < p {
                        j
                    } else {
                        j - 1
                    };
                    assert(gs@[j] == o[q]);
                    assert(ks@.contains(o[q].key));
                    let i = choose|i: int| 0 <= i < ks@.len() && ks@[i] == o[q].key;
                    assert(n[i] == o[q].key);
                    assert(!ks@.contains(k));
                }
            }
            assert forall|i: int| 0 <= i < n.len() implies has_key(gs@, #[trigger] n[i]) by {
                if i < ks@.len() {
                    assert(has_key(o, ks@[i]));
                    let j = choose|j: int| 0 <= j < o.len() && (#[trigger] o[j]).key == ks@[i];
                    if j < p {
                        assert(gs@[j].key == n[i]);
                    } else {
                        assert(gs@[j + 1].key == n[i]);
                    }
                } else {
                    assert(gs@[p as int].key == n[i]);
                }
            }
        }
    }
}

/// The groups of a list of numbers.
pub fn groups(ks: &Vec<usize>) -> (r: Vec<Group>)
    ensures
        groups_of(r@, ks@),
{
    let mut r: Vec<Group> = Vec::new();
    let mut i: usize = 0;
    while i < ks.len()
        invariant
            i <= ks@.len(),
            groups_of(r@, ks@.take(i as int)),
        decreases ks@.len() - i,
    {
        add_place(&mut r, Ghost(ks@.take(i as int)), ks[i], i);
        proof {
            assert(ks@.take(i as int).push(ks@[i as int]) =~= ks@.take(i + 1));
        }
        i += 1;
    }
    proof {
        assert(ks@.take(i as int) =~= ks@);
    }
    r
}

/// The places at which one name stands.
pub struct Named {
    pub name: String,
    pub members: Vec<usize>,
}

/// The names of groups.
pub open spec fn group_names(gs: Seq<Named>) -> Seq<Seq<char>> {
    gs.map_values(|g: Named| g.name@)
}

/// The groups of a list of names: each that stands there, in order, with its places.
pub open spec fn named_of(gs: Seq<Named>, ks: Seq<Seq<char>>) -> bool {
    &&& text::ordered(group_names(gs))
    &&& forall|k: Seq<char>| #[trigger] group_names(gs).contains(k) <==> ks.contains(k)
    &&& forall|j: int| 0 <= j < gs.len() ==> ints((#[trigger] gs[j]).members@) == positions(ks, gs[j].name@)
}

/// Members of a group are places.
pub proof fn lemma_member_place(gs: Seq<Named>, ks: Seq<Seq<char>>, g: int, k: int)
    requires
        named_of(gs, ks),
        0 <= g < gs.len(),
        0 <= k < gs[g].members@.len(),
    ensures
        gs[g].members@[k] < ks.len(),
{
    lemma_positions(ks, gs[g].name@);
    assert(ints(gs[g].members@)[k] == gs[g].members@[k]);
    assert(positions(ks, gs[g].name@).contains(gs[g].members@[k] as int));
}

/// Every place stands in the group of its name, once, and in no other.
pub proof fn law_named(gs: Seq<Named>, ks: Seq<Seq<char>>, i: usize)
    requires
        named_of(gs, ks),
        i < ks.len(),
    ensures
        exists|g: int| 0 <= g < gs.len() && (#[trigger] gs[g]).members@.contains(i),
        forall|g: int| 0 <= g < gs.len() ==> ((#[trigger] gs[g]).members@.contains(i) <==> gs[g].name@ == ks[i as int]),
        forall|g: int| 0 <= g < gs.len() ==> (#[trigger] gs[g]).members@.no_duplicates(),
{
    assert forall|g: int| 0 <= g < gs.len() implies ((#[trigger] gs[g]).members@.contains(i) <==> gs[g].name@ == ks[
        i as int]) && gs[g].members@.no_duplicates() by {
        lemma_members(gs[g].members@, ks, gs[g].name@, i);
    }
    assert(ks.contains(ks[i as int]));
    assert(group_names(gs).contains(ks[i as int]));
    let g = choose|g: int| 0 <= g < group_names(gs).len() && group_names(gs)[g] == ks[i as int];
    assert(gs[g].members@.contains(i));
}

/// The places of a name.
fn places_of(ks: &Vec<String>, k: &str) -> (r: Vec<usize>)
    ensures
        ints(r@) == positions(text::views(ks@), k@),
{
    let ghost vs = text::views(ks@);
    let mut r: Vec<usize> = Vec::new();
    let mut i: usize = 0;
    proof {
        assert(vs.take(0) =~= Seq::empty());
        assert(ints(r@) =~= Seq::empty());
    }
    while i < ks.len()
        invariant
            i <= ks@.len(),
            vs == text::views(ks@),
            ints(r@) == positions(vs.take(i as int), k@),
        decreases ks@.len() - i,
    {
        proof {
            assert(vs.take(i + 1).drop_last() =~= vs.take(i as int));
            assert(vs.take(i + 1).last() == ks@[i as int]@);
        }
        if text::same(ks[i].as_str(), k) {
            let ghost r0 = r@;
            r.push(i);
            proof {
                assert(ints(r@) =~= ints(r0).push(i as int));
            }
        }
        i += 1;
    }
    proof {
        assert(vs.take(i as int) =~= vs);
    }
    r
}

/// The groups of a list of names.
pub fn named_groups(ks: &Vec<String>) -> (r: Vec<Named>)
    ensures
        named_of(r@, text::views(ks@)),
{
    let ghost vs = text::views(ks@);
    let mut names: Vec<String> = Vec::new();
    let mut i: usize = 0;
    proof {
        assert(text::views(names@) =~= Seq::empty());
    }
    while i < ks.len()
        invariant
            i <= ks@.len(),
            vs == text::views(ks@),
            text::ordered(text::views(names@)),
            forall|k: Seq<char>| #[trigger] text::views(names@).contains(k) <==> vs.take(i as int).contains(k),
        decreases ks@.len() - i,
    {
        let ghost n0 = text::views(names@);
        text::insert(&mut names, ks[i].as_str());
        proof {
            let (a, b) = (vs.take(i as int), vs.take(i + 1));
            assert(b =~= a.push(ks@[i as int]@));
            assert forall|k: Seq<char>| #[trigger] text::views(names@).contains(k) <==> b.contains(k) by {
                assert(n0.contains(k) <==> a.contains(k));
                assert(b[i as int] == ks@[i as int]@);
                if a.contains(k) {
                    let j = choose|j: int| 0 <= j < a.len() && a[j] == k;
                    assert(b[j] == k);
                }
                if b.contains(k) {
                    let j = choose|j: int| 0 <= j < b.len() && b[j] == k;
                    if j < i {
                        assert(a[j] == k);
                    }
                }
            }
        }
        i += 1;
    }
    proof {
        assert(vs.take(i as int) =~= vs);
    }
    let mut r: Vec<Named> = Vec::new();
    let ghost ns = text::views(names@);
    let mut j: usize = 0;
    while j < names.len()
        invariant
            j <= names@.len(),
            vs == text::views(ks@),
            ns == text::views(names@),
            group_names(r@) =~= ns.take(j as int),
            forall|g: int| 0 <= g < r@.len() ==> ints((#[trigger] r@[g]).members@) == positions(vs, r@[g].name@),
        decreases names@.len() - j,
    {
        let members: Vec<usize> = places_of(ks, names[j].as_str());
        let ghost r0 = r@;
        r.push(Named { name: names[j].clone(), members });
        proof {
            assert(group_names(r@) =~= group_names(r0).push(ns[j as int]));
        }
        j += 1;
    }
    proof {
        assert(ns.take(j as int) =~= ns);
    }
    r
}

/// How many of the places are marked.
pub open spec fn marked(m: Seq<int>, marks: Seq<bool>) -> nat
    decreases m.len(),
{
    if m.len() == 0 {
        0
    } else {
        marked(m.drop_last(), marks) + if marks[m.last()] {
            1nat
        } else {
            0
        }
    }
}

/// How many of the places are marked.
pub fn count_marked(m: &Vec<usize>, marks: &Vec<bool>) -> (r: usize)
    requires
        forall|i: int| 0 <= i < m@.len() ==> (#[trigger] m@[i]) < marks@.len(),
    ensures
        r == marked(ints(m@), marks@),
        r <= m@.len(),
{
    let ghost p = ints(m@);
    let mut r: usize = 0;
    let mut i: usize = 0;
    proof {
        assert(p.take(0) =~= Seq::empty());
    }
    while i < m.len()
        invariant
            i <= m@.len(),
            r <= i,
            p == ints(m@),
            forall|i: int| 0 <= i < m@.len() ==> (#[trigger] m@[i]) < marks@.len(),
            r == marked(p.take(i as int), marks@),
        decreases m@.len() - i,
    {
        proof {
            assert(p.take(i + 1).drop_last() =~= p.take(i as int));
            assert(p.take(i + 1).last() == m@[i as int]);
        }
        if marks[m[i]] {
            r += 1;
        }
        i += 1;
    }
    proof {
        assert(p.take(i as int) =~= p);
    }
    r
}

} // verus!
