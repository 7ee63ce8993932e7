//! What the calls given to the backend so far amount to. Every call goes through
//! here, where it is both made and accounted for, and is made only when the rules
//! of the backend's memory allow it: sequences are copied whole onto empty ones,
//! and groups continue all their sequences, which hold the same tokens, without
//! gap or overlap.
use vstd::prelude::*;

use crate::calls;
use crate::calls::{Call, Model};
use crate::kv;
use crate::kv::{Backend, Dec, DecodeError};
use crate::memory;

verus! {

/// The model of the backend's memory that the calls so far amount to.
pub struct Ledger {
    /// sequences are numbered from 0 up to this
    pub n_seq: usize,
    /// the tokens on every sequence
    pub held: Ghost<memory::Memory>,
    /// sequences a refused decode may have left anything on
    pub dirty: Ghost<Set<i32>>,
    /// the prompt that each job's row was read after
    pub seen: Ghost<Map<usize, Seq<i32>>>,
    /// the jobs that a row was ever asked for, with the tokens it was asked after
    pub asks: Ghost<Set<(usize, Seq<i32>)>>,
    /// tokens written by the decodes that went through
    pub written: Ghost<nat>,
    /// decodes that went through
    pub passed: Ghost<nat>,
    /// decodes refused
    pub refused: Ghost<nat>,
}

impl Ledger {
    /// `s` is a sequence of the backend.
    pub open spec fn has(&self, s: i32) -> bool {
        0 <= s < self.n_seq
    }

    /// What the calls amount to.
    pub open spec fn model(&self) -> Model {
        Model {
            held: self.held@,
            dirty: self.dirty@,
            seen: self.seen@,
            asks: self.asks@,
            written: self.written@,
            passed: self.passed@,
            refused: self.refused@,
        }
    }

    /// Only the memory differs from `o`.
    pub open spec fn same_tally(&self, o: &Ledger) -> bool {
        &&& self.n_seq == o.n_seq
        &&& self.seen@ == o.seen@
        &&& self.asks@ == o.asks@
        &&& self.written@ == o.written@
        &&& self.passed@ == o.passed@
        &&& self.refused@ == o.refused@
    }

    /// A backend cleared of everything.
    pub fn clear<B: Backend>(b: &mut B, n_seq: usize) -> (l: Ledger)
        ensures
            l.n_seq == n_seq,
            final(b).told() == old(b).told().push(Call::Clear),
            l.model() == calls::after(calls::untouched(), Call::Clear),
            l.held@ == memory::blank(),
            l.dirty@ == Set::<i32>::empty(),
            l.seen@ == Map::<usize, Seq<i32>>::empty(),
            l.written@ == 0,
            l.passed@ == 0,
            l.refused@ == 0,
    {
        b.clear();
        Ledger {
            n_seq,
            held: Ghost(memory::blank()),
            dirty: Ghost(Set::empty()),
            seen: Ghost(Map::empty()),
            asks: Ghost(Set::empty()),
            written: Ghost(0),
            passed: Ghost(0),
            refused: Ghost(0),
        }
    }

    /// Clear the backend of everything; what it did before still counts.
    pub fn restart<B: Backend>(&mut self, b: &mut B)
        ensures
            final(self).n_seq == old(self).n_seq,
            final(b).told() == old(b).told().push(Call::Clear),
            final(self).model() == calls::after(old(self).model(), Call::Clear),
            final(self).held@ == memory::blank(),
            final(self).dirty@ == Set::<i32>::empty(),
            final(self).seen@ == Map::<usize, Seq<i32>>::empty(),
            final(self).asks@ == old(self).asks@,
            final(self).written@ == old(self).written@,
            final(self).passed@ == old(self).passed@,
            final(self).refused@ == old(self).refused@,
    {
        b.clear();
        self.held = Ghost(memory::blank());
        self.dirty = Ghost(Set::empty());
        self.seen = Ghost(Map::empty());
    }

    /// Start over on which jobs were read.
    pub fn forget_reads(&mut self)
        ensures
            final(self).n_seq == old(self).n_seq,
            final(self).model() == calls::unread(old(self).model()),
            final(self).held@ == old(self).held@,
            final(self).dirty@ == old(self).dirty@,
            final(self).seen@ == Map::<usize, Seq<i32>>::empty(),
            final(self).asks@ == old(self).asks@,
            final(self).written@ == old(self).written@,
            final(self).passed@ == old(self).passed@,
            final(self).refused@ == old(self).refused@,
    {
        self.seen = Ghost(Map::empty());
    }

    pub fn rm<B: Backend>(&mut self, b: &mut B, s: i32)
        requires
            old(self).has(s),
        ensures
            final(b).told() == old(b).told().push(Call::Rm(s)),
            final(self).model() == calls::after(old(self).model(), Call::Rm(s)),
            final(self).same_tally(old(self)),
            final(self).held@ == memory::removed(old(self).held@, s),
            final(self).dirty@ == old(self).dirty@.remove(s),
    {
        b.seq_rm(s);
        self.held = Ghost(memory::removed(self.held@, s));
        self.dirty = Ghost(self.dirty@.remove(s));
    }

    pub fn cp<B: Backend>(&mut self, b: &mut B, src: i32, dst: i32, len: usize)
        requires
            old(self).has(src),
            old(self).has(dst),
            !old(self).dirty@.contains(src),
            !old(self).dirty@.contains(dst),
            old(self).held@[src].len() == len,
            old(self).held@[dst].len() == 0,
        ensures
            final(b).told() == old(b).told().push(Call::Cp { src, dst, len }),
            final(self).model() == calls::after(old(self).model(), Call::Cp { src, dst, len }),
            final(self).same_tally(old(self)),
            final(self).held@ == old(self).held@.insert(dst, old(self).held@[src]),
            final(self).dirty@ == old(self).dirty@,
    {
        b.seq_cp(src, dst, len);
        self.held = Ghost(self.held@.insert(dst, self.held@[src]));
    }

    pub fn decode<B: Backend>(
        &mut self,
        b: &mut B,
        groups: &Vec<Dec>,
        rows: &Vec<Vec<usize>>,
        Ghost(on): Ghost<Set<i32>>,
    ) -> (r: Result<(), DecodeError>)
        requires
            memory::within(groups@, on),
            forall|s: i32| on.contains(s) ==> old(self).has(s) && !#[trigger] old(self).dirty@.contains(s),
            memory::decodable(old(self).held@, groups@),
            rows@.len() == groups@.len(),
            forall|g: int|
                0 <= g < groups@.len() && rows@[g]@.len() > 0 ==> (#[trigger] groups@[g]).logits,
        ensures
            final(self).n_seq == old(self).n_seq,
            final(b).told() == old(b).told().push(Call::Decode { groups: groups@, rows: rows@, went: r is Ok }),
            final(self).model() == calls::after(
                old(self).model(),
                Call::Decode { groups: groups@, rows: rows@, went: r is Ok },
            ),
            final(self).dirty@.subset_of(old(self).dirty@.union(on)),
            final(self).asks@ == old(self).asks@.union(memory::asked(old(self).held@, groups@, rows@)),
            match r {
                Ok(_) => {
                    &&& final(self).held@ == memory::decoded(old(self).held@, groups@)
                    &&& final(self).dirty@ == old(self).dirty@
                    &&& final(self).seen@ == memory::heard(old(self).held@, groups@, rows@, old(self).seen@)
                    &&& final(self).written@ == old(self).written@ + memory::written(groups@)
                    &&& final(self).passed@ == old(self).passed@ + 1
                    &&& final(self).refused@ == old(self).refused@
                },
                Err(e) => {
                    &&& kv::refuses::<B>(e)
                    &&& final(self).held@ == old(self).held@
                    &&& final(self).seen@ == calls::unheard(old(self).seen@, rows@)
                    &&& final(self).written@ == old(self).written@
                    &&& final(self).passed@ == old(self).passed@
                    &&& final(self).refused@ == old(self).refused@ + 1
                },
            },
    {
        let ghost b0 = *b;
        let r: Result<(), DecodeError> = b.decode(groups, rows);
        assert(r matches Err(e) ==> b0.decode_fails(e));
        self.asks = Ghost(self.asks@.union(memory::asked(self.held@, groups@, rows@)));
        if r.is_ok() {
            self.seen = Ghost(memory::heard(self.held@, groups@, rows@, self.seen@));
            self.held = Ghost(memory::decoded(self.held@, groups@));
            self.written = Ghost(self.written@ + memory::written(groups@));
            self.passed = Ghost(self.passed@ + 1);
        } else {
            proof {
                assert forall|s: i32| calls::touched(groups@).contains(s) implies on.contains(s) by {
                    let g = choose|g: int| 0 <= g < groups@.len() && (#[trigger] groups@[g]).seqs@.contains(s);
                    let k = choose|k: int| 0 <= k < groups@[g].seqs@.len() && groups@[g].seqs@[k] == s;
                    assert(on.contains(groups@[g].seqs@[k]));
                }
            }
            self.dirty = Ghost(self.dirty@.union(calls::touched(groups@)));
            self.seen = Ghost(calls::unheard(self.seen@, rows@));
            self.refused = Ghost(self.refused@ + 1);
        }
        r
    }
}

} // verus!
