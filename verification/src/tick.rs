//! The population-level model of one tick.
//!
//! A tick advances a whole population by one generation: every process in
//! the active window runs its remaining script to completion, the siblings
//! they spawn form the next window, and so on until a window spawns
//! nothing.  `tick_rest` is that breadth-first recursion as a
//! specification function; termination holds because every sibling starts
//! strictly deeper into its script than the process that spawned it.

use vstd::prelude::*;
use crate::process::Process;
use crate::script::Script;

verus! {

/// All processes in the sequence are well formed.
pub open spec fn all_wf<C, H, S: Script<C, H>>(w: Seq<Process<C, H, S>>) -> bool {
    forall|i: int| 0 <= i < w.len() ==> (#[trigger] w[i]).wf()
}

/// Well-formedness is a property of the contents: any rearrangement of a
/// well-formed population is well formed.
pub(crate) proof fn lemma_all_wf_multiset<C, H, S: Script<C, H>>(
    a: Seq<Process<C, H, S>>,
    b: Seq<Process<C, H, S>>,
)
    requires
        all_wf(a),
        b.to_multiset() == a.to_multiset(),
    ensures
        all_wf(b),
{
    broadcast use vstd::seq_lib::group_to_multiset_ensures;

    assert forall|i: int| 0 <= i < b.len() implies (#[trigger] b[i]).wf() by {
        assert(b.contains(b[i]));
        assert(a.to_multiset().count(b[i]) > 0);
        assert(a.contains(b[i]));
        let j = choose|j: int| 0 <= j < a.len() && a[j] == b[i];
        assert(a[j].wf());
    }
}

/// Each process of the window run to completion, in population order.
pub open spec fn window_done<C, H, S: Script<C, H>>(w: Seq<Process<C, H, S>>) -> Seq<
    Process<C, H, S>,
>
    decreases w.len(),
{
    if w.len() == 0 {
        Seq::empty()
    } else {
        window_done(w.drop_last()).push(w.last().run_done())
    }
}

/// The siblings spawned while the window runs, in spawn order: those of
/// the first process first, then those of the second, and so on.
pub open spec fn window_forks<C, H, S: Script<C, H>>(w: Seq<Process<C, H, S>>) -> Seq<
    Process<C, H, S>,
>
    decreases w.len(),
{
    if w.len() == 0 {
        Seq::empty()
    } else {
        window_forks(w.drop_last()) + w.last().run_forks()
    }
}

/// The greatest headroom over the window; the tick recursion's measure.
pub open spec fn window_measure<C, H, S: Script<C, H>>(w: Seq<Process<C, H, S>>) -> int
    decreases w.len(),
{
    if w.len() == 0 {
        0
    } else {
        let m = window_measure(w.drop_last());
        if w.last().headroom() > m {
            w.last().headroom()
        } else {
            m
        }
    }
}

proof fn lemma_measure_nonneg<C, H, S: Script<C, H>>(w: Seq<Process<C, H, S>>)
    ensures
        window_measure(w) >= 0,
    decreases w.len(),
{
    if w.len() > 0 {
        lemma_measure_nonneg(w.drop_last());
    }
}

proof fn lemma_measure_elem<C, H, S: Script<C, H>>(w: Seq<Process<C, H, S>>, i: int)
    requires
        0 <= i < w.len(),
    ensures
        w[i].headroom() <= window_measure(w),
    decreases w.len(),
{
    if i < w.len() - 1 {
        lemma_measure_elem(w.drop_last(), i);
    }
}

proof fn lemma_measure_bound<C, H, S: Script<C, H>>(w: Seq<Process<C, H, S>>, m: int)
    requires
        m >= 1,
        forall|i: int| 0 <= i < w.len() ==> (#[trigger] w[i]).headroom() < m,
    ensures
        window_measure(w) < m,
    decreases w.len(),
{
    if w.len() > 0 {
        assert(forall|i: int|
            0 <= i < w.len() - 1 ==> (#[trigger] w.drop_last()[i]).headroom() < m);
        lemma_measure_bound(w.drop_last(), m);
    }
}

/// The window's forks are well formed and all strictly below the window's
/// measure.
pub(crate) proof fn lemma_window_forks_wf<C, H, S: Script<C, H>>(w: Seq<Process<C, H, S>>)
    requires
        all_wf(w),
    ensures
        all_wf(window_forks(w)),
        forall|i: int|
            0 <= i < window_forks(w).len() ==> (#[trigger] window_forks(w)[i]).headroom()
                < window_measure(w),
    decreases w.len(),
{
    if w.len() > 0 {
        let head = w.drop_last();
        assert(all_wf(head));
        lemma_window_forks_wf(head);
        assert(w.last().wf());
        w.last().lemma_run_wf();
        w.last().lemma_fork_headroom();
        lemma_measure_elem(w, w.len() - 1);
        assert forall|i: int| 0 <= i < window_forks(w).len() implies ((
        #[trigger] window_forks(w)[i]).wf() && window_forks(w)[i].headroom() < window_measure(w)) by {
            let fh = window_forks(head);
            if i < fh.len() {
                assert(window_forks(w)[i] == fh[i]);
                assert(window_measure(head) <= window_measure(w));
            } else {
                assert(window_forks(w)[i] == w.last().run_forks()[i - fh.len()]);
                assert(w.last().headroom() <= window_measure(w));
            }
        }
    }
}

/// Running one more process extends the completed window by its run and
/// the fork list by its siblings.
pub(crate) proof fn lemma_window_step<C, H, S: Script<C, H>>(w: Seq<Process<C, H, S>>, j: int)
    requires
        0 <= j < w.len(),
    ensures
        window_done(w.take(j + 1)) == window_done(w.take(j)).push(w[j].run_done()),
        window_forks(w.take(j + 1)) == window_forks(w.take(j)) + w[j].run_forks(),
{
    assert(w.take(j + 1).drop_last() =~= w.take(j));
    assert(w.take(j + 1).last() == w[j]);
}

/// The whole window is its own full prefix.
pub(crate) proof fn lemma_window_full<C, H, S: Script<C, H>>(w: Seq<Process<C, H, S>>)
    ensures
        window_done(w.take(w.len() as int)) == window_done(w),
        window_forks(w.take(w.len() as int)) == window_forks(w),
{
    assert(w.take(w.len() as int) =~= w);
}

/// A window that spawns at least one sibling has a strictly larger measure
/// than the window its siblings form: the tick recursion terminates.
pub(crate) proof fn lemma_forks_measure<C, H, S: Script<C, H>>(w: Seq<Process<C, H, S>>)
    requires
        all_wf(w),
        window_forks(w).len() > 0,
    ensures
        0 <= window_measure(window_forks(w)) < window_measure(w),
{
    let fk = window_forks(w);
    lemma_window_forks_wf(w);
    lemma_measure_nonneg(fk);
    assert(fk[0].headroom() >= 0);
    assert(window_measure(w) >= 1);
    lemma_measure_bound(fk, window_measure(w));
}

/// The whole tick, breadth first: `done` already ran, `window` is about to
/// run; the result is the final population, in creation order.
pub open spec fn tick_rest<C, H, S: Script<C, H>>(
    done: Seq<Process<C, H, S>>,
    window: Seq<Process<C, H, S>>,
) -> Seq<Process<C, H, S>>
    decreases window_measure(window)
        when all_wf(window)
        via tick_rest_dec::<C, H, S>
{
    if window.len() == 0 {
        done
    } else if window_forks(window).len() == 0 {
        done + window_done(window)
    } else {
        tick_rest(done + window_done(window), window_forks(window))
    }
}

#[via_fn]
proof fn tick_rest_dec<C, H, S: Script<C, H>>(
    done: Seq<Process<C, H, S>>,
    window: Seq<Process<C, H, S>>,
) {
    if window.len() > 0 && window_forks(window).len() > 0 {
        lemma_forks_measure(window);
        lemma_window_forks_wf(window);
    }
}

/// One full tick of a population: every process present at the start, and
/// transitively every sibling spawned during the tick, runs its script to
/// completion exactly once; originals keep their order, spawned siblings
/// follow in breadth-first creation order.
pub open spec fn tick_spec<C, H, S: Script<C, H>>(pop: Seq<Process<C, H, S>>) -> Seq<
    Process<C, H, S>,
> {
    tick_rest(Seq::empty(), pop)
}

/// Determinism: a tick is a mathematical function of the observable
/// population — the script, cursor, state and carried hint of each member
/// — so repeated runs from identical populations produce identical
/// populations, while `execute` always counts exactly one tick.
pub proof fn lemma_tick_deterministic<C, H, S: Script<C, H>>(
    a: Seq<Process<C, H, S>>,
    b: Seq<Process<C, H, S>>,
)
    requires
        a.len() == b.len(),
        forall|i: int|
            0 <= i < a.len() ==> ((#[trigger] a[i]).code() == (#[trigger] b[i]).code() && a[i].cur()
                == b[i].cur() && a[i].st() == b[i].st() && a[i].carried() == b[i].carried()),
    ensures
        tick_spec(a) == tick_spec(b),
{
    assert forall|i: int| 0 <= i < a.len() implies #[trigger] a[i] == b[i] by {
        a[i].lemma_observable_eq(b[i]);
    }
    assert(a =~= b);
}

/// Completion: after any tick, every process of the resulting population
/// — original or spawned during the tick — is well formed and stands with
/// its cursor reset to the start of its script.
pub proof fn lemma_tick_completion<C, H, S: Script<C, H>>(pop: Seq<Process<C, H, S>>)
    requires
        all_wf(pop),
    ensures
        all_wf(tick_spec(pop)),
        forall|i: int|
            0 <= i < tick_spec(pop).len() ==> (#[trigger] tick_spec(pop)[i]).cur() == 0,
{
    lemma_tick_rest_completion(Seq::empty(), pop);
}

/// After a tick, every process of the population is well formed and its
/// cursor is reset to the start of its script.
proof fn lemma_tick_rest_completion<C, H, S: Script<C, H>>(
    done: Seq<Process<C, H, S>>,
    window: Seq<Process<C, H, S>>,
)
    requires
        all_wf(done),
        all_wf(window),
        forall|i: int| 0 <= i < done.len() ==> (#[trigger] done[i]).cur() == 0,
    ensures
        all_wf(tick_rest(done, window)),
        forall|i: int|
            0 <= i < tick_rest(done, window).len() ==> (#[trigger] tick_rest(done, window)[i]).cur()
                == 0,
    decreases window_measure(window),
{
    lemma_measure_nonneg(window);
    if window.len() == 0 {
    } else {
        let stepped = done + window_done(window);
        lemma_window_done_props(window);
        assert(all_wf(stepped) && forall|i: int|
            0 <= i < stepped.len() ==> (#[trigger] stepped[i]).cur() == 0) by {
            assert forall|i: int| 0 <= i < stepped.len() implies ((#[trigger] stepped[i]).wf()
                && stepped[i].cur() == 0) by {
                if i >= done.len() {
                    assert(stepped[i] == window_done(window)[i - done.len()]);
                }
            }
        }
        if window_forks(window).len() == 0 {
        } else {
            lemma_window_forks_wf(window);
            lemma_forks_measure(window);
            lemma_tick_rest_completion(stepped, window_forks(window));
        }
    }
}

/// The completed window, element by element.
pub(crate) proof fn lemma_window_done_props<C, H, S: Script<C, H>>(w: Seq<Process<C, H, S>>)
    requires
        all_wf(w),
    ensures
        window_done(w).len() == w.len(),
        forall|i: int| 0 <= i < w.len() ==> #[trigger] window_done(w)[i] == w[i].run_done(),
        forall|i: int|
            0 <= i < w.len() ==> ((#[trigger] window_done(w)[i]).wf() && window_done(w)[i].cur()
                == 0),
    decreases w.len(),
{
    if w.len() > 0 {
        lemma_window_done_props(w.drop_last());
        w.last().lemma_run_wf();
        assert forall|i: int| 0 <= i < w.len() implies #[trigger] window_done(w)[i]
            == w[i].run_done() by {
            if i < w.len() - 1 {
                assert(window_done(w)[i] == window_done(w.drop_last())[i]);
                assert(w.drop_last()[i] == w[i]);
            }
        }
    }
}

} // verus!
