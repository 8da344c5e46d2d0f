//! A single population member: a state value, a shared reference to its
//! script, a cursor into the script, and the hint carried into the next
//! step.
//!
//! The whole run of a process over the rest of its script is modelled by
//! two specification functions: `run_done`, the process as it stands once
//! the script is consumed and the cursor reset, and `run_forks`, the
//! sibling processes it spawns along the way, in spawn order.

use vstd::prelude::*;
use std::rc::Rc;
use crate::script::{Dup, Script};

verus! {

/// Relies on `Rc::clone`: the clone is a handle to the same allocation, so
/// it equals the original.
#[verifier::external_body]
fn share<T>(rc: &Rc<T>) -> (copy: Rc<T>)
    ensures
        copy == *rc,
{
    Rc::clone(rc)
}

/// One population member.  The script is shared, never copied: forks and
/// the processes of one lineage hold handles to the same allocation.
pub struct Process<C, H, S> {
    script: Rc<S>,
    cursor: usize,
    state: C,
    hint: Option<H>,
}

impl<C, H, S: Script<C, H>> Process<C, H, S> {
    /// The script this process executes.
    pub closed spec fn code(self) -> S {
        *self.script
    }

    /// The cursor: the index of the next step to execute.
    pub closed spec fn cur(self) -> int {
        self.cursor as int
    }

    /// The current state value.
    pub closed spec fn st(self) -> C {
        self.state
    }

    /// The hint carried into the next step, if any.
    pub closed spec fn carried(self) -> Option<H> {
        self.hint
    }

    /// Well-formedness: the cursor lies within the script.
    pub open spec fn wf(self) -> bool {
        0 <= self.cur() <= self.code().steps() <= usize::MAX
    }

    /// How many steps this process still has before the end of its script.
    pub open spec fn headroom(self) -> int {
        if self.cur() <= self.code().steps() {
            self.code().steps() - self.cur()
        } else {
            0
        }
    }

    /// The result of the step at the cursor: new state and emitted hints.
    pub open spec fn step_result(self) -> (C, Seq<H>) {
        self.code().step_spec(self.cur(), self.st(), self.carried())
    }

    /// The process right after executing the step at the cursor: cursor
    /// advanced by one, state mutated, and the first emitted hint carried
    /// (or no hint at all when the step emitted none).
    pub closed spec fn after_step(self) -> Process<C, H, S> {
        let hs = self.step_result().1;
        Process {
            script: self.script,
            cursor: (self.cursor + 1) as usize,
            state: self.step_result().0,
            hint: if hs.len() == 0 {
                None
            } else {
                Some(hs[0])
            },
        }
    }

    /// The siblings spawned by the step at the cursor: one per emitted hint
    /// past the first, each a copy of the process as it stands right after
    /// the step, with that hint installed.
    pub closed spec fn step_forks(self) -> Seq<Process<C, H, S>> {
        let hs = self.step_result().1;
        if hs.len() <= 1 {
            Seq::empty()
        } else {
            Seq::new((hs.len() - 1) as nat, |j: int| Process {
                script: self.script,
                cursor: (self.cursor + 1) as usize,
                state: self.step_result().0,
                hint: Some(hs[j + 1]),
            })
        }
    }

    /// The process once every remaining step has executed and the cursor
    /// has been reset to the start of the script.
    pub closed spec fn run_done(self) -> Process<C, H, S>
        decreases self.code().steps() - self.cur()
            when self.code().steps() <= usize::MAX
    {
        if self.cur() >= self.code().steps() {
            Process { script: self.script, cursor: 0, state: self.state, hint: self.hint }
        } else {
            self.after_step().run_done()
        }
    }

    /// Every sibling this process spawns while consuming the rest of its
    /// script, in spawn order.
    pub closed spec fn run_forks(self) -> Seq<Process<C, H, S>>
        decreases self.code().steps() - self.cur()
            when self.code().steps() <= usize::MAX
    {
        if self.cur() >= self.code().steps() {
            Seq::empty()
        } else {
            self.step_forks() + self.after_step().run_forks()
        }
    }

    /// Creates a process at the start of the given script, with no hint
    /// carried yet.  The script is moved into a fresh shared allocation.
    pub fn new(state: C, script: S) -> (p: Self)
        ensures
            p.code() == script,
            p.cur() == 0,
            p.st() == state,
            p.carried() is None,
            p.wf(),
    {
        proof {
            script.steps_fit();
        }
        Process { script: Rc::new(script), cursor: 0, state, hint: None }
    }

    /// Read-only access to the state value.
    pub fn state_ref(&self) -> (s: &C)
        ensures
            s == self.st(),
    {
        &self.state
    }

    /// Mutable access to the state value; everything else — script,
    /// cursor, carried hint — stays as it was.
    pub fn state_mut(&mut self) -> (s: &mut C)
        ensures
            *s == old(self).st(),
            final(self).st() == *final(s),
            final(self).code() == old(self).code(),
            final(self).cur() == old(self).cur(),
            final(self).carried() == old(self).carried(),
            old(self).wf() ==> final(self).wf(),
    {
        &mut self.state
    }

    /// Installs a hint, overwriting whatever was carried.
    fn set_hint(this: &mut Self, hint: H)
        ensures
            *final(this) == (Process {
                hint: Some(hint),
                ..*old(this)
            }),
    {
        this.hint = Some(hint);
    }
}

impl<C, H, S: Script<C, H>> Process<C, H, S> {
    /// The completed run and every process it leaves behind are well
    /// formed, share the parent's script, and stand at the reset cursor
    /// (the parent itself) or just past the step that spawned them.
    pub proof fn lemma_run_wf(self)
        requires
            self.wf(),
        ensures
            self.run_done().wf(),
            self.run_done().code() == self.code(),
            self.run_done().cur() == 0,
            forall|i: int|
                0 <= i < self.run_forks().len() ==> ((#[trigger] self.run_forks()[i]).wf()
                    && self.run_forks()[i].code() == self.code()),
        decreases self.code().steps() - self.cur(),
    {
        if self.cur() < self.code().steps() {
            self.after_step().lemma_run_wf();
            assert forall|i: int| 0 <= i < self.run_forks().len() implies ((
            #[trigger] self.run_forks()[i]).wf() && self.run_forks()[i].code() == self.code()) by {
                let fk = self.step_forks();
                if i < fk.len() {
                    assert(self.run_forks()[i] == fk[i]);
                } else {
                    assert(self.run_forks()[i] == self.after_step().run_forks()[i - fk.len()]);
                }
            }
        }
    }

    /// A process is exactly its observable parts: two processes that agree
    /// on script, cursor, state and carried hint are the same process, so
    /// every run of the engine is determined by those parts alone.
    pub proof fn lemma_observable_eq(self, other: Process<C, H, S>)
        requires
            self.code() == other.code(),
            self.cur() == other.cur(),
            self.st() == other.st(),
            self.carried() == other.carried(),
        ensures
            self == other,
    {
    }

    /// Fork count: a step that emits `k >= 1` hints spawns exactly `k - 1`
    /// sibling processes and the originating process carries the first
    /// emitted hint onward; a step that emits none spawns none, and the
    /// process carries no hint into its next step.  Each sibling is a copy
    /// of the process as it stands right after the step — same advanced
    /// cursor, same mutated state, shared script — with one of the extra
    /// hints installed.
    pub proof fn lemma_step_fork_count(self)
        requires
            self.wf(),
            self.cur() < self.code().steps(),
        ensures
            self.step_forks().len() == (if self.step_result().1.len() == 0 {
                0int
            } else {
                self.step_result().1.len() - 1
            }),
            self.after_step().carried() == (if self.step_result().1.len() == 0 {
                None::<H>
            } else {
                Some(self.step_result().1[0])
            }),
            self.after_step().cur() == self.cur() + 1,
            self.after_step().st() == self.step_result().0,
            self.after_step().code() == self.code(),
            forall|j: int|
                0 <= j < self.step_forks().len() ==> ((#[trigger] self.step_forks()[j]).carried()
                    == Some(self.step_result().1[j + 1]) && self.step_forks()[j].st()
                    == self.step_result().0 && self.step_forks()[j].cur() == self.cur() + 1
                    && self.step_forks()[j].code() == self.code()),
    {
    }

    /// Every sibling a process spawns starts strictly deeper into the
    /// script than the process stood when the run began.
    pub proof fn lemma_fork_headroom(self)
        requires
            self.wf(),
        ensures
            forall|i: int|
                0 <= i < self.run_forks().len() ==> (#[trigger] self.run_forks()[i]).headroom()
                    < self.headroom(),
        decreases self.code().steps() - self.cur(),
    {
        if self.cur() < self.code().steps() {
            self.lemma_run_wf();
            self.after_step().lemma_fork_headroom();
            assert forall|i: int| 0 <= i < self.run_forks().len() implies (
            #[trigger] self.run_forks()[i]).headroom() < self.headroom() by {
                let fk = self.step_forks();
                if i < fk.len() {
                    assert(self.run_forks()[i] == fk[i]);
                } else {
                    assert(self.run_forks()[i] == self.after_step().run_forks()[i - fk.len()]);
                }
            }
        }
    }
}

impl<C: Dup, H: Dup, S: Script<C, H>> Process<C, H, S> {
    /// Runs every remaining step from the cursor to the end of the script,
    /// then resets the cursor, so the next tick starts the script over.
    /// Each sibling spawned by a branching step is pushed onto `buf` in
    /// spawn order; siblings do not run here.
    pub(crate) fn execute_fork(this: &mut Self, buf: &mut Vec<Process<C, H, S>>)
        requires
            old(this).wf(),
        ensures
            *final(this) == old(this).run_done(),
            final(buf)@ == old(buf)@ + old(this).run_forks(),
    {
        let n = this.script.step_count();
        while this.cursor < n
            invariant
                this.wf(),
                n == this.code().steps(),
                this.run_done() == old(this).run_done(),
                old(buf)@ + old(this).run_forks() == buf@ + this.run_forks(),
            decreases n - this.cursor,
        {
            let ghost pre = *this;
            let hint_in = this.hint.take();
            let mut hints = this.script.run_step(this.cursor, &mut this.state, hint_in);
            this.cursor = this.cursor + 1;

            let k = hints.len();
            let ghost mid = buf@;
            if k > 1 {
                let mut j: usize = 1;
                while j < k
                    invariant
                        1 <= j <= k,
                        k == hints@.len(),
                        k > 1,
                        hints@ == pre.step_result().1,
                        this.script == pre.script,
                        this.cursor == pre.cursor + 1,
                        this.state == pre.step_result().0,
                        buf@ == mid + pre.step_forks().take(j - 1),
                    decreases k - j,
                {
                    let mut sibling = this.duplicate();
                    Process::set_hint(&mut sibling, hints[j].dup());
                    buf.push(sibling);
                    proof {
                        assert(pre.step_forks().take(j as int) =~= pre.step_forks().take(j - 1).push(
                            pre.step_forks()[j - 1],
                        ));
                        assert(buf@ =~= mid + pre.step_forks().take(j as int));
                    }
                    j = j + 1;
                }
            }

            hints.truncate(1);
            this.hint = hints.pop();

            proof {
                assert(*this == pre.after_step());
                if k > 1 {
                    assert(pre.step_forks().len() == k - 1);
                    assert(pre.step_forks().take(k - 1) =~= pre.step_forks());
                } else {
                    assert(pre.step_forks() =~= Seq::empty());
                }
                assert(buf@ =~= mid + pre.step_forks());
                assert(pre.run_done() == pre.after_step().run_done());
                assert(pre.run_forks() == pre.step_forks() + pre.after_step().run_forks());
                assert(old(buf)@ + old(this).run_forks() =~= buf@ + this.run_forks());
            }
        }
        let ghost at_end = *this;
        this.cursor = 0;
        proof {
            assert(at_end.run_forks() =~= Seq::empty());
            assert(buf@ =~= old(buf)@ + old(this).run_forks());
            assert(*this == at_end.run_done());
        }
    }
}

impl<C, H, S: Script<C, H>> Process<C, H, S> {
    /// One full non-branching pass of `code` from step `i`, starting from
    /// state `st` with hint `h`: every step runs once and only the last
    /// hint it emits is carried forward.
    pub closed spec fn simple_from(code: S, i: int, st: C, h: Option<H>) -> (C, Option<H>)
        decreases code.steps() - i
            when code.steps() <= usize::MAX
    {
        if i >= code.steps() {
            (st, h)
        } else {
            let r = code.step_spec(i, st, h);
            Self::simple_from(
                code,
                i + 1,
                r.0,
                if r.1.len() == 0 {
                    None
                } else {
                    Some(r.1.last())
                },
            )
        }
    }

    /// Runs the full script once from its beginning, without any forking
    /// machinery: each step's hints collapse to the last one emitted
    /// (earlier ones are discarded, since there is nothing to distribute
    /// them to).  The cursor is not consulted and not changed.  For
    /// callers whose scripts never branch.
    pub fn execute(this: &mut Self)
        requires
            old(this).wf(),
        ensures
            final(this).st() == Self::simple_from(
                old(this).code(),
                0,
                old(this).st(),
                old(this).carried(),
            ).0,
            final(this).carried() == Self::simple_from(
                old(this).code(),
                0,
                old(this).st(),
                old(this).carried(),
            ).1,
            final(this).code() == old(this).code(),
            final(this).cur() == old(this).cur(),
            final(this).wf(),
    {
        let n = this.script.step_count();
        let mut i: usize = 0;
        while i < n
            invariant
                i <= n,
                this.wf(),
                n == this.code().steps(),
                this.script == old(this).script,
                this.cursor == old(this).cursor,
                Self::simple_from(this.code(), i as int, this.st(), this.carried())
                    == Self::simple_from(
                    old(this).code(),
                    0,
                    old(this).st(),
                    old(this).carried(),
                ),
            decreases n - i,
        {
            let hint_in = this.hint.take();
            let mut hints = this.script.run_step(i, &mut this.state, hint_in);
            this.hint = hints.pop();
            i = i + 1;
        }
    }
}

impl<C: Dup, H: Dup, S: Script<C, H>> Process<C, H, S> {
    /// An exact copy: same shared script handle, same cursor, same state,
    /// same carried hint.
    pub fn duplicate(&self) -> (copy: Self)
        ensures
            copy == *self,
    {
        let hint: Option<H> = match &self.hint {
            Some(h) => Some(h.dup()),
            None => None,
        };
        Process {
            script: share(&self.script),
            cursor: self.cursor,
            state: self.state.dup(),
            hint,
        }
    }
}

} // verus!
