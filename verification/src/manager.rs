//! The population manager: owns every process and the tick counter,
//! drives whole generations (stepping every process and transitively every
//! sibling it spawns until no fork remains), and prunes the population
//! between ticks.

use vstd::prelude::*;
use crate::process::Process;
use crate::script::{Dup, Order, Script};
use crate::selection::{
    best_idx, lemma_best_idx, lemma_sort_desc_props, lemma_stride_count, prune_spec, sort_vec,
    stride,
};
use crate::tick::{
    all_wf, lemma_all_wf_multiset, lemma_forks_measure, lemma_window_done_props,
    lemma_window_forks_wf, lemma_window_full, lemma_window_step, tick_rest, tick_spec, window_done,
    window_forks, window_measure,
};

verus! {

/// The population, in creation order, and the number of completed ticks.
pub struct Manager<C, H, S> {
    vec: Vec<Process<C, H, S>>,
    clock: usize,
}

impl<C, H, S: Script<C, H>> Manager<C, H, S> {
    /// The population, in creation order.
    pub closed spec fn population(self) -> Seq<Process<C, H, S>> {
        self.vec@
    }

    /// How many ticks have completed.
    pub closed spec fn ticks(self) -> int {
        self.clock as int
    }

    /// Every process of the population is well formed.
    pub open spec fn wf(self) -> bool {
        all_wf(self.population())
    }

    /// A manager whose population is one fresh process at the start of the
    /// given script.
    pub fn new(state: C, script: S) -> (m: Self)
        ensures
            m.population().len() == 1,
            m.population()[0].code() == script,
            m.population()[0].cur() == 0,
            m.population()[0].st() == state,
            m.population()[0].carried() is None,
            m.ticks() == 0,
            m.wf(),
    {
        let mut vec: Vec<Process<C, H, S>> = Vec::new();
        vec.push(Process::new(state, script));
        Manager { vec, clock: 0 }
    }

    /// A manager with no processes at all.
    pub fn empty() -> (m: Self)
        ensures
            m.population() == Seq::<Process<C, H, S>>::empty(),
            m.ticks() == 0,
            m.wf(),
    {
        let vec: Vec<Process<C, H, S>> = Vec::new();
        Manager { vec, clock: 0 }
    }

    /// Registers a process at the back of the population.
    pub fn add_process(&mut self, new_process: Process<C, H, S>)
        requires
            new_process.wf(),
        ensures
            final(self).population() == old(self).population().push(new_process),
            final(self).ticks() == old(self).ticks(),
            old(self).wf() ==> final(self).wf(),
    {
        self.vec.push(new_process);
        proof {
            if old(self).wf() {
                assert forall|i: int| 0 <= i < self.vec@.len() implies (
                #[trigger] self.vec@[i]).wf() by {
                    if i < old(self).vec@.len() {
                        assert(self.vec@[i] == old(self).vec@[i]);
                    }
                }
            }
        }
    }

    /// The tick counter.
    pub fn clock(&self) -> (n: usize)
        ensures
            n == self.ticks(),
    {
        self.clock
    }

    /// A read-only view of every process's state, in population order.
    pub fn iter(&self) -> (states: Vec<&C>)
        ensures
            states@.len() == self.population().len(),
            forall|i: int|
                0 <= i < states@.len() ==> states@[i] == (#[trigger] self.population()[i]).st(),
    {
        let mut states: Vec<&C> = Vec::new();
        let mut i: usize = 0;
        while i < self.vec.len()
            invariant
                i <= self.vec@.len(),
                states@.len() == i,
                forall|k: int|
                    0 <= k < i ==> states@[k] == (#[trigger] self.vec@[k]).st(),
            decreases self.vec@.len() - i,
        {
            states.push(self.vec[i].state_ref());
            i = i + 1;
        }
        states
    }
}

impl<C: Dup, H: Dup, S: Script<C, H>> Manager<C, H, S> {
    /// Advances the whole population by one generation: every process, and
    /// transitively every sibling spawned during the tick, runs its
    /// remaining script to completion exactly once.  Siblings are staged
    /// in a fork buffer while a pass is under way, appended after it, and
    /// stepped in the next pass, so the population order reflects creation
    /// order.  Exactly one tick is counted, however many forks occurred.
    pub fn execute(&mut self)
        requires
            old(self).wf(),
            old(self).ticks() < usize::MAX,
        ensures
            final(self).population() == tick_spec(old(self).population()),
            final(self).ticks() == old(self).ticks() + 1,
            final(self).wf(),
    {
        let ghost orig = self.vec@;
        let mut start: usize = 0;
        let mut buffer: Vec<Process<C, H, S>> = Vec::new();
        proof {
            assert(orig.take(0) =~= Seq::empty());
            assert(orig.skip(0) =~= orig);
        }
        loop
            invariant_except_break
                all_wf(self.vec@),
                start <= self.vec@.len(),
                buffer@.len() == 0,
                self.clock == old(self).clock,
                orig == old(self).vec@,
                tick_rest(self.vec@.take(start as int), self.vec@.skip(start as int)) == tick_spec(
                    orig,
                ),
            ensures
                self.vec@ == tick_spec(orig),
                all_wf(self.vec@),
                self.clock == old(self).clock,
            decreases window_measure(self.vec@.skip(start as int)),
        {
            let ghost done0 = self.vec@.take(start as int);
            let ghost w = self.vec@.skip(start as int);
            let mut i: usize = start;
            while i < self.vec.len()
                invariant
                    start <= i <= self.vec@.len(),
                    self.vec@.len() == start + w.len(),
                    self.vec@.take(start as int) == done0,
                    all_wf(self.vec@),
                    all_wf(buffer@),
                    self.clock == old(self).clock,
                    forall|k: int| i <= k < self.vec@.len() ==> #[trigger] self.vec@[k] == w[k
                        - start],
                    forall|k: int| start <= k < i ==> #[trigger] self.vec@[k] == w[k
                        - start].run_done(),
                    buffer@ == window_forks(w.take(i - start)),
                decreases self.vec@.len() - i,
            {
                let ghost prev = self.vec@;
                let ghost p = self.vec@[i as int];
                proof {
                    assert(p == w[i - start]);
                    p.lemma_run_wf();
                }
                Process::execute_fork(&mut self.vec[i], &mut buffer);
                i = i + 1;
                proof {
                    lemma_window_step(w, i - 1 - start);
                    assert(self.vec@.take(start as int) =~= prev.take(start as int));
                    assert(w.take(i - start).drop_last() =~= w.take(i - 1 - start));
                    assert forall|k: int| 0 <= k < self.vec@.len() implies (
                    #[trigger] self.vec@[k]).wf() by {
                        if k != i - 1 {
                            assert(self.vec@[k] == prev[k]);
                        }
                    }
                }
            }
            proof {
                lemma_window_done_props(w);
                lemma_window_full(w);
                assert(w.take(w.len() as int) =~= w);
                assert(buffer@ == window_forks(w));
                assert(self.vec@ =~= done0 + window_done(w));
            }
            if buffer.len() == 0 {
                proof {
                    if w.len() == 0 {
                        assert(self.vec@ =~= done0);
                    }
                    assert(self.vec@ == tick_rest(done0, w));
                }
                break;
            }
            proof {
                lemma_window_forks_wf(w);
                lemma_forks_measure(w);
            }
            let ghost stepped = self.vec@;
            start = self.vec.len();
            self.vec.append(&mut buffer);
            proof {
                assert(self.vec@.take(start as int) =~= stepped);
                assert(self.vec@.skip(start as int) =~= window_forks(w));
                assert(tick_rest(done0, w) == tick_rest(stepped, window_forks(w)));
                assert forall|k: int| 0 <= k < self.vec@.len() implies (
                #[trigger] self.vec@[k]).wf() by {
                    if k < start {
                        assert(self.vec@[k] == stepped[k]);
                    } else {
                        assert(self.vec@[k] == window_forks(w)[k - start]);
                    }
                }
            }
        }
        self.clock = self.clock + 1;
    }
}

impl<C: Dup + Order, H: Dup, S: Script<C, H>> Manager<C, H, S> {
    /// Bounds the population while keeping some representation of
    /// non-elite members: a no-op while the population is not larger than
    /// `range`; otherwise the population is sorted descending by state,
    /// the elite band of width `range + step` (clamped to the population,
    /// so a short suffix is simply empty) is kept in full, and every
    /// `step`-th member of the remainder is appended after it, in order.
    pub fn prune(&mut self, range: usize, step: usize)
        requires
            old(self).wf(),
            step >= 1,
            range + step <= usize::MAX,
        ensures
            final(self).population() == prune_spec(
                old(self).population(),
                range as int,
                step as int,
            ),
            final(self).ticks() == old(self).ticks(),
            final(self).wf(),
    {
        if self.vec.len() > range {
            let ghost orig = self.vec@;
            sort_vec(&mut self.vec);
            proof {
                lemma_sort_desc_props(orig);
                lemma_all_wf_multiset(orig, self.vec@);
            }
            let ghost sorted = self.vec@;
            let cut: usize = if range + step < self.vec.len() {
                range + step
            } else {
                self.vec.len()
            };
            let ghost slen = sorted.len() - cut;
            let mut kept: Vec<Process<C, H, S>> = Vec::new();
            let mut i: usize = cut;
            loop
                invariant_except_break
                    i == cut + kept@.len() * step,
                    kept@.len() > 0 ==> cut + (kept@.len() - 1) * step < sorted.len(),
                invariant
                    cut <= i,
                    step >= 1,
                    self.vec@ == sorted,
                    cut <= sorted.len(),
                    slen == sorted.len() - cut,
                    all_wf(sorted),
                    forall|j: int|
                        0 <= j < kept@.len() ==> #[trigger] kept@[j] == sorted[cut + j * step],
                    all_wf(kept@),
                ensures
                    self.vec@ == sorted,
                    all_wf(kept@),
                    kept@ == stride(sorted.skip(cut as int), step as int),
                decreases sorted.len() - i,
            {
                if i >= self.vec.len() {
                    proof {
                        let count = kept@.len() as int;
                        assert(slen <= count * step);
                        lemma_stride_count(slen, step as int, count);
                        assert forall|j: int|
                            0 <= j < count implies stride(sorted.skip(cut as int), step as int)[j]
                            == kept@[j] by {
                            crate::selection::lemma_stride_index_bound(slen, step as int, j);
                            assert(sorted.skip(cut as int)[j * step] == sorted[cut + j * step]);
                        }
                        assert(kept@ =~= stride(sorted.skip(cut as int), step as int));
                    }
                    break;
                }
                kept.push(self.vec[i].duplicate());
                if self.vec.len() - i <= step {
                    proof {
                        let count = kept@.len() as int;
                        assert((count - 1) * step == count * step - step) by (nonlinear_arith);
                        assert(slen <= count * step);
                        lemma_stride_count(slen, step as int, count);
                        assert forall|j: int|
                            0 <= j < count implies stride(sorted.skip(cut as int), step as int)[j]
                            == kept@[j] by {
                            crate::selection::lemma_stride_index_bound(slen, step as int, j);
                            assert(sorted.skip(cut as int)[j * step] == sorted[cut + j * step]);
                        }
                        assert(kept@ =~= stride(sorted.skip(cut as int), step as int));
                    }
                    break;
                }
                i = i + step;
                proof {
                    let count = kept@.len() as int;
                    assert(count * step == (count - 1) * step + step) by (nonlinear_arith);
                }
            }
            self.vec.truncate(cut);
            self.vec.append(&mut kept);
            proof {
                let out = prune_spec(orig, range as int, step as int);
                assert(sorted.subrange(0, cut as int) =~= sorted.take(cut as int));
                assert(self.vec@ == sorted.take(cut as int) + stride(
                    sorted.skip(cut as int),
                    step as int,
                ));
                assert(self.vec@ == out);
                assert forall|k: int| 0 <= k < self.vec@.len() implies (
                #[trigger] self.vec@[k]).wf() by {
                    let elite = sorted.take(cut as int);
                    if k < elite.len() {
                        assert(self.vec@[k] == sorted[k]);
                    } else {
                        assert(self.vec@[k] == stride(sorted.skip(cut as int), step as int)[k
                            - elite.len()]);
                    }
                }
            }
        }
    }
}

impl<C: Order, H, S: Script<C, H>> Manager<C, H, S> {
    /// The state that ranks highest under the order across the current
    /// population, or nothing when the population is empty.  A pure read;
    /// among equally ranked states the last one wins.
    pub fn best(&self) -> (r: Option<&C>)
        ensures
            match r {
                None => self.population().len() == 0,
                Some(c) => self.population().len() > 0 && c == self.population()[best_idx(
                    self.population(),
                )].st() && (forall|i: int|
                    0 <= i < self.population().len() ==> (#[trigger] self.population()[i]).st().le(
                        *c,
                    )),
            },
    {
        if self.vec.len() == 0 {
            return None;
        }
        let mut bi: usize = 0;
        let mut i: usize = 1;
        while i < self.vec.len()
            invariant
                1 <= i <= self.vec@.len(),
                bi < i,
                bi == best_idx(self.vec@.take(i as int)),
            decreases self.vec@.len() - i,
        {
            let ghost prefix = self.vec@.take(i as int);
            if self.vec[bi].state_ref().leq(self.vec[i].state_ref()) {
                bi = i;
            }
            i = i + 1;
            proof {
                assert(self.vec@.take(i as int).drop_last() =~= prefix);
                assert(self.vec@.take(i as int).last() == self.vec@[i - 1]);
            }
        }
        proof {
            assert(self.vec@.take(self.vec@.len() as int) =~= self.vec@);
            lemma_best_idx(self.vec@);
        }
        Some(self.vec[bi].state_ref())
    }
}

} // verus!
