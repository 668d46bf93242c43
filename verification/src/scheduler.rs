//! The two process schedulers: weight-based priority interleaving and
//! round-robin interleaving.
//!
//! Both own the shared [`SchedulerCore`] — the universe, the active
//! variables, the pending discards and the spawn buffer — together with a
//! queue of pending processes. They distribute every pending discard to all
//! live processes before any of them runs its next step, they guarantee that
//! the universe and the variable set only ever shrink, and no step of theirs
//! ever drops a pair of a terminal bottom component out of the universe.
//! Their `measure`, the summed potential of the pending processes, strictly
//! decreases whenever a step performs work, which is what lets the reduction
//! drivers run them to quiescence; a step reports zero iterations exactly
//! when no processes remain.

use vstd::prelude::*;

use biodivine_lib_param_bn::symbolic_async_graph::GraphColoredVertices;
use biodivine_lib_param_bn::symbolic_async_graph::SymbolicAsyncGraph;

use crate::process::AnyProcess;
use crate::process::Process;
use crate::process::Scheduler;
use crate::process::SchedulerCore;
use crate::process::lemma_pots_sum_remove;
use crate::process::lemma_pots_sum_zero;
use crate::process::lemma_sound_any_mono;
use crate::process::lemma_weighted_pots_sum_remove;
use crate::process::lemma_weighted_pots_sum_zero;
use crate::process::pots_sum;
use crate::process::weighted_pots_sum;
use crate::reach::bottom_scc;
use crate::reach::vars_ok;
use crate::symbolic::can_post_of;
use crate::symbolic::cv_encoding;
use crate::symbolic::cv_set;
use crate::symbolic::graph_encoding;
use crate::symbolic::graph_vars;

verus! {

/// A scheduler that uses the process "weight" — the symbolic size of its
/// principal set — to always run the currently cheapest process.
pub struct PriorityScheduler {
    core: SchedulerCore,
    processes: Vec<(usize, AnyProcess)>,
}

/// A scheduler that steps every live process once per round.
pub struct RoundRobinScheduler {
    core: SchedulerCore,
    processes: Vec<AnyProcess>,
}

impl PriorityScheduler {
    pub fn new(graph: &SymbolicAsyncGraph, universe: &GraphColoredVertices) -> (r: PriorityScheduler)
        requires
            cv_encoding(*universe) == graph_encoding(*graph),
            cv_set(*universe).finite(),
        ensures
            r.wf(*graph),
            r.universe_set() == cv_set(*universe),
            r.encoding() == graph_encoding(*graph),
            r.measure() == 0,
            r.variable_seq().len() == graph_vars(*graph),
            forall|k: int| 0 <= k < r.variable_seq().len() ==> #[trigger] r.variable_seq()[k] == k,
            forall|x: usize| r.variable_seq().contains(x) <==> (x as nat) < graph_vars(*graph),
    {
        PriorityScheduler { core: SchedulerCore::new(graph, universe), processes: Vec::new() }
    }
}

impl Scheduler for PriorityScheduler {
    closed spec fn universe_set(&self) -> Set<(nat, nat)> {
        self.core.universe_set()
    }

    closed spec fn variable_seq(&self) -> Seq<usize> {
        self.core.variable_seq()
    }

    closed spec fn encoding(&self) -> Seq<nat> {
        self.core.enc()
    }

    closed spec fn measure(&self) -> nat {
        weighted_pots_sum(self.processes@) + pots_sum(self.core.spawned_seq())
    }

    closed spec fn wf(&self, g: SymbolicAsyncGraph) -> bool {
        &&& self.core.wf(g)
        &&& self.core.spawned_seq().len() == 0
        &&& forall|i: int|
            0 <= i < self.processes@.len() ==> (#[trigger] self.processes@[i]).1.wf_any(g)
        &&& forall|i: int|
            0 <= i < self.processes@.len() ==> (#[trigger] self.processes@[i]).1.sound_any(
                g,
                self.core.universe_set(),
                self.core.variable_seq(),
            )
    }

    proof fn wf_facts(&self, g: SymbolicAsyncGraph) {
        self.core.wf_facts(g);
    }

    /// Distribute the pending discards, then run the cheapest process until
    /// it either finishes or grows heavier than its nearest competitor.
    fn step(&mut self, graph: &SymbolicAsyncGraph) -> (iterations: usize) {
        let ghost g = *graph;
        let ghost u_entry = old(self).universe_set();
        let ghost queue_entry = self.processes@;
        let pending = self.core.take_discarded();
        match pending {
            Option::Some(d) => {
                let ghost m_before = weighted_pots_sum(self.processes@);
                let ghost n_before = self.processes@.len();
                let mut remaining: Vec<(usize, AnyProcess)> = Vec::new();
                core::mem::swap(&mut self.processes, &mut remaining);
                while remaining.len() > 0
                    invariant
                        self.wf(g),
                        cv_encoding(d) == graph_encoding(g),
                        cv_set(d).disjoint(self.core.universe_set()),
                        self.core.enc() == old(self).encoding(),
                        self.core.universe_set() == old(self).universe_set(),
                        self.core.variable_seq() == old(self).variable_seq(),
                        self.core.spawned_seq().len() == 0,
                        forall|i: int|
                            0 <= i < remaining@.len() ==> (#[trigger] remaining@[i]).1.wf_any(g),
                        forall|i: int|
                            0 <= i < remaining@.len() ==> (#[trigger] remaining@[i]).1.sound_any(
                                g,
                                self.core.universe_set(),
                                self.core.variable_seq(),
                            ),
                        weighted_pots_sum(self.processes@) + weighted_pots_sum(remaining@)
                            <= m_before,
                        self.processes@.len() + remaining@.len() == n_before,
                    decreases remaining@.len(),
                {
                    let ghost rem_before = remaining@;
                    let pair = remaining.remove(0);
                    let (_, mut p) = pair;
                    proof {
                        lemma_weighted_pots_sum_remove(rem_before, 0);
                        assert(p.wf_any(g) && cv_encoding(d) == graph_encoding(g));
                    }
                    p.discard(&d);
                    let weight = p.weight();
                    let ghost procs_before = self.processes@;
                    let ghost pp = p;
                    self.processes.push((weight, p));
                    proof {
                        assert(self.processes@.drop_last() =~= procs_before);
                        assert(self.processes@.last() == (weight, pp));
                    }
                }
            },
            Option::None => {},
        }
        proof {
            if self.processes@.len() == 0 {
                lemma_weighted_pots_sum_zero(queue_entry);
                lemma_weighted_pots_sum_zero(self.processes@);
            }
        }
        if self.processes.len() == 0 {
            return 0;
        }
        proof {
            lemma_weighted_pots_sum_zero(queue_entry);
        }
        let ghost m_entry = old(self).measure();
        let mut min_idx: usize = 0;
        let mut i: usize = 1;
        while i < self.processes.len()
            invariant
                min_idx < i,
                i <= self.processes@.len(),
            decreases self.processes@.len() - i,
        {
            if self.processes[i].0 < self.processes[min_idx].0 {
                min_idx = i;
            }
            i = i + 1;
        }
        let ghost procs_before = self.processes@;
        let pair = self.processes.remove(min_idx);
        let (_, mut process) = pair;
        proof {
            lemma_weighted_pots_sum_remove(procs_before, min_idx as int);
            assert(procs_before[min_idx as int].1.sound_any(
                g,
                self.core.universe_set(),
                self.core.variable_seq(),
            ));
        }
        let ghost m_rest = weighted_pots_sum(self.processes@);
        let ghost pot0 = process.pot_any();
        let only_process = self.processes.len() == 0;
        let mut target: usize = 0;
        if !only_process {
            target = self.processes[0].0;
            let mut j: usize = 1;
            while j < self.processes.len()
                invariant
                    j <= self.processes@.len(),
                decreases self.processes@.len() - j,
            {
                if self.processes[j].0 < target {
                    target = self.processes[j].0;
                }
                j = j + 1;
            }
        }
        let mut iterations: usize = 0;
        loop
            invariant_except_break
                self.core.spawned_seq().len() == 0,
                process.pot_any() + iterations <= pot0,
                process.sound_any(g, self.core.universe_set(), self.core.variable_seq()),
            invariant
                g == *graph,
                self.core.wf(g),
                self.core.enc() == old(self).encoding(),
                self.core.universe_set().subset_of(old(self).universe_set()),
                forall|x: usize|
                    self.core.variable_seq().contains(x) ==> old(self).variable_seq().contains(x),
                forall|i: int|
                    0 <= i < self.processes@.len() ==> (#[trigger] self.processes@[i]).1.wf_any(g),
                forall|i: int|
                    0 <= i < self.processes@.len() ==> (#[trigger] self.processes@[i]).1.sound_any(
                        g,
                        self.core.universe_set(),
                        self.core.variable_seq(),
                    ),
                forall|w2: Seq<usize>, bs: Set<(nat, nat)>, c: nat|
                    vars_ok(g, w2) && #[trigger] bottom_scc(g, w2, u_entry, bs, c)
                        ==> bs.subset_of(self.core.universe_set()),
                weighted_pots_sum(self.processes@) == m_rest,
                process.wf_any(g),
                m_rest + pot0 <= m_entry,
                m_entry == old(self).measure(),
                u_entry == old(self).universe_set(),
            ensures
                g == *graph,
                self.core.wf(g),
                self.core.enc() == old(self).encoding(),
                self.core.universe_set().subset_of(old(self).universe_set()),
                forall|x: usize|
                    self.core.variable_seq().contains(x) ==> old(self).variable_seq().contains(x),
                forall|i: int|
                    0 <= i < self.processes@.len() ==> (#[trigger] self.processes@[i]).1.wf_any(g),
                forall|i: int|
                    0 <= i < self.processes@.len() ==> (#[trigger] self.processes@[i]).1.sound_any(
                        g,
                        self.core.universe_set(),
                        self.core.variable_seq(),
                    ),
                forall|w2: Seq<usize>, bs: Set<(nat, nat)>, c: nat|
                    vars_ok(g, w2) && #[trigger] bottom_scc(g, w2, u_entry, bs, c)
                        ==> bs.subset_of(self.core.universe_set()),
                weighted_pots_sum(self.processes@) == m_rest,
                pots_sum(self.core.spawned_seq()) + 1 + iterations <= pot0,
                m_rest + pot0 <= m_entry,
                m_entry == old(self).measure(),
                u_entry == old(self).universe_set(),
            decreases process.pot_any(),
        {
            let ghost u_pre = self.core.universe_set();
            let ghost v_pre = self.core.variable_seq();
            let done = process.step(&mut self.core, graph);
            proof {
                assert forall|w2: Seq<usize>, bs: Set<(nat, nat)>, c: nat|
                    vars_ok(g, w2) && #[trigger] bottom_scc(g, w2, u_entry, bs, c) implies
                    bs.subset_of(self.core.universe_set()) by {
                    assert(bs.subset_of(u_pre));
                    assert(bottom_scc(g, w2, u_pre, bs, c));
                }
                assert forall|i: int|
                    0 <= i < self.processes@.len() implies (#[trigger] self.processes@[
                    i]).1.sound_any(g, self.core.universe_set(), self.core.variable_seq()) by {
                    lemma_sound_any_mono(
                        self.processes@[i].1,
                        g,
                        u_pre,
                        self.core.universe_set(),
                        v_pre,
                        self.core.variable_seq(),
                    );
                }
            }
            if done {
                break;
            }
            if iterations < usize::MAX {
                iterations = iterations + 1;
            }
            let weight = process.weight();
            if !only_process && weight > target {
                let ghost procs_now = self.processes@;
                let ghost pp = process;
                self.processes.push((weight, process));
                proof {
                    assert(self.processes@.drop_last() =~= procs_now);
                    assert(self.processes@.last() == (weight, pp));
                }
                return iterations;
            }
        }
        proof {
            self.core.wf_facts(g);
        }
        let ghost u_drain = self.core.universe_set();
        let ghost v_drain = self.core.variable_seq();
        let mut arrivals = self.core.take_spawned();
        let ghost m_done = weighted_pots_sum(self.processes@) + pots_sum(arrivals@);
        while arrivals.len() > 0
            invariant
                g == *graph,
                self.core.wf(g),
                self.core.spawned_seq().len() == 0,
                self.core.enc() == old(self).encoding(),
                self.core.universe_set() == u_drain,
                self.core.variable_seq() == v_drain,
                forall|i: int|
                    0 <= i < self.processes@.len() ==> (#[trigger] self.processes@[i]).1.wf_any(g),
                forall|i: int|
                    0 <= i < self.processes@.len() ==> (#[trigger] self.processes@[i]).1.sound_any(
                        g,
                        self.core.universe_set(),
                        self.core.variable_seq(),
                    ),
                forall|i: int| 0 <= i < arrivals@.len() ==> (#[trigger] arrivals@[i]).wf_any(g),
                forall|i: int|
                    0 <= i < arrivals@.len() ==> (#[trigger] arrivals@[i]).sound_any(
                        g,
                        u_drain,
                        v_drain,
                    ),
                weighted_pots_sum(self.processes@) + pots_sum(arrivals@) == m_done,
                m_done + 1 <= m_entry,
            decreases arrivals@.len(),
        {
            let ghost arr_before = arrivals@;
            let p = arrivals.remove(0);
            proof {
                lemma_pots_sum_remove(arr_before, 0);
            }
            let weight = p.weight();
            let ghost procs_now = self.processes@;
            let ghost pp = p;
            self.processes.push((weight, p));
            proof {
                assert(self.processes@.drop_last() =~= procs_now);
                assert(self.processes@.last() == (weight, pp));
            }
        }
        if iterations == usize::MAX {
            iterations
        } else {
            iterations + 1
        }
    }

    fn finalize(self) -> (r: (GraphColoredVertices, Vec<usize>)) {
        let PriorityScheduler { core, processes } = self;
        core.finalize()
    }

    fn discard_variable(&mut self, variable: usize) {
        proof {
            let g0 = choose|g: SymbolicAsyncGraph|
                #[trigger] old(self).wf(g) && can_post_of(
                    g,
                    variable as nat,
                    old(self).universe_set(),
                ).is_empty();
            assert(old(self).core.wf(g0) && can_post_of(
                g0,
                variable as nat,
                old(self).core.universe_set(),
            ).is_empty());
        }
        let ghost v_before = self.core.variable_seq();
        self.core.discard_variable(variable);
        proof {
            assert forall|g: SymbolicAsyncGraph|
                #[trigger] old(self).wf(g) && can_post_of(
                    g,
                    variable as nat,
                    old(self).universe_set(),
                ).is_empty() implies self.wf(g) by {
                assert forall|i: int|
                    0 <= i < self.processes@.len() implies (#[trigger] self.processes@[
                    i]).1.sound_any(g, self.core.universe_set(), self.core.variable_seq()) by {
                    lemma_sound_any_mono(
                        self.processes@[i].1,
                        g,
                        self.core.universe_set(),
                        self.core.universe_set(),
                        v_before,
                        self.core.variable_seq(),
                    );
                }
            }
        }
    }

    fn discard_states(&mut self, set: &GraphColoredVertices) {
        proof {
            let g0 = choose|g: SymbolicAsyncGraph|
                #[trigger] old(self).wf(g) && cv_encoding(*set) == graph_encoding(g);
            assert(old(self).core.wf(g0) && cv_encoding(*set) == graph_encoding(g0));
        }
        let ghost u_before = self.core.universe_set();
        self.core.discard_states(set);
        proof {
            assert forall|g: SymbolicAsyncGraph| #[trigger] old(self).wf(g) implies self.wf(g) by {
                assert forall|i: int|
                    0 <= i < self.processes@.len() implies (#[trigger] self.processes@[
                    i]).1.sound_any(g, self.core.universe_set(), self.core.variable_seq()) by {
                    lemma_sound_any_mono(
                        self.processes@[i].1,
                        g,
                        u_before,
                        self.core.universe_set(),
                        self.core.variable_seq(),
                        self.core.variable_seq(),
                    );
                }
            }
        }
    }

    fn spawn_process(&mut self, process: AnyProcess) {
        let weight = process.weight();
        let ghost procs_before = self.processes@;
        let ghost pp = process;
        self.processes.push((weight, process));
        proof {
            assert(self.processes@.drop_last() =~= procs_before);
            assert(self.processes@.last() == (weight, pp));
        }
    }

    fn universe(&self) -> (r: &GraphColoredVertices) {
        self.core.universe()
    }

    fn variables(&self) -> (r: &Vec<usize>) {
        self.core.variables()
    }
}

impl RoundRobinScheduler {
    pub fn new(graph: &SymbolicAsyncGraph, universe: &GraphColoredVertices) -> (r: RoundRobinScheduler)
        requires
            cv_encoding(*universe) == graph_encoding(*graph),
            cv_set(*universe).finite(),
        ensures
            r.wf(*graph),
            r.universe_set() == cv_set(*universe),
            r.encoding() == graph_encoding(*graph),
            r.measure() == 0,
            r.variable_seq().len() == graph_vars(*graph),
            forall|k: int| 0 <= k < r.variable_seq().len() ==> #[trigger] r.variable_seq()[k] == k,
            forall|x: usize| r.variable_seq().contains(x) <==> (x as nat) < graph_vars(*graph),
    {
        RoundRobinScheduler { core: SchedulerCore::new(graph, universe), processes: Vec::new() }
    }
}

impl Scheduler for RoundRobinScheduler {
    closed spec fn universe_set(&self) -> Set<(nat, nat)> {
        self.core.universe_set()
    }

    closed spec fn variable_seq(&self) -> Seq<usize> {
        self.core.variable_seq()
    }

    closed spec fn encoding(&self) -> Seq<nat> {
        self.core.enc()
    }

    closed spec fn measure(&self) -> nat {
        pots_sum(self.processes@) + pots_sum(self.core.spawned_seq())
    }

    closed spec fn wf(&self, g: SymbolicAsyncGraph) -> bool {
        &&& self.core.wf(g)
        &&& self.core.spawned_seq().len() == 0
        &&& forall|i: int|
            0 <= i < self.processes@.len() ==> (#[trigger] self.processes@[i]).wf_any(g)
        &&& forall|i: int|
            0 <= i < self.processes@.len() ==> (#[trigger] self.processes@[i]).sound_any(
                g,
                self.core.universe_set(),
                self.core.variable_seq(),
            )
    }

    proof fn wf_facts(&self, g: SymbolicAsyncGraph) {
        self.core.wf_facts(g);
    }

    /// Distribute the pending discards, then step every live process exactly
    /// once and keep the ones that still have work.
    fn step(&mut self, graph: &SymbolicAsyncGraph) -> (iterations: usize) {
        let ghost g = *graph;
        let ghost u_entry = old(self).universe_set();
        let ghost queue_entry = self.processes@;
        let pending = self.core.take_discarded();
        match pending {
            Option::Some(d) => {
                let ghost m_before = pots_sum(self.processes@);
                let ghost n_before = self.processes@.len();
                let mut remaining: Vec<AnyProcess> = Vec::new();
                core::mem::swap(&mut self.processes, &mut remaining);
                while remaining.len() > 0
                    invariant
                        self.wf(g),
                        cv_encoding(d) == graph_encoding(g),
                        cv_set(d).disjoint(self.core.universe_set()),
                        self.core.enc() == old(self).encoding(),
                        self.core.universe_set() == old(self).universe_set(),
                        self.core.variable_seq() == old(self).variable_seq(),
                        self.core.spawned_seq().len() == 0,
                        forall|i: int|
                            0 <= i < remaining@.len() ==> (#[trigger] remaining@[i]).wf_any(g),
                        forall|i: int|
                            0 <= i < remaining@.len() ==> (#[trigger] remaining@[i]).sound_any(
                                g,
                                self.core.universe_set(),
                                self.core.variable_seq(),
                            ),
                        pots_sum(self.processes@) + pots_sum(remaining@) <= m_before,
                        self.processes@.len() + remaining@.len() == n_before,
                    decreases remaining@.len(),
                {
                    let ghost rem_before = remaining@;
                    let mut p = remaining.remove(0);
                    proof {
                        lemma_pots_sum_remove(rem_before, 0);
                        assert(p.wf_any(g) && cv_encoding(d) == graph_encoding(g));
                    }
                    p.discard(&d);
                    let ghost procs_before = self.processes@;
                    let ghost pp = p;
                    self.processes.push(p);
                    proof {
                        assert(self.processes@.drop_last() =~= procs_before);
                        assert(self.processes@.last() == pp);
                    }
                }
            },
            Option::None => {},
        }
        proof {
            lemma_pots_sum_zero(queue_entry);
            lemma_pots_sum_zero(self.processes@);
        }
        let ghost m_entry = old(self).measure();
        let ghost m_pruned = pots_sum(self.processes@);
        let count = self.processes.len();
        let mut drained: Vec<AnyProcess> = Vec::new();
        core::mem::swap(&mut self.processes, &mut drained);
        let ghost total = drained@.len();
        while drained.len() > 0
            invariant
                g == *graph,
                self.core.wf(g),
                self.core.enc() == old(self).encoding(),
                self.core.universe_set().subset_of(old(self).universe_set()),
                forall|x: usize|
                    self.core.variable_seq().contains(x) ==> old(self).variable_seq().contains(x),
                forall|i: int|
                    0 <= i < self.processes@.len() ==> (#[trigger] self.processes@[i]).wf_any(g),
                forall|i: int|
                    0 <= i < self.processes@.len() ==> (#[trigger] self.processes@[i]).sound_any(
                        g,
                        self.core.universe_set(),
                        self.core.variable_seq(),
                    ),
                forall|i: int| 0 <= i < drained@.len() ==> (#[trigger] drained@[i]).wf_any(g),
                forall|i: int|
                    0 <= i < drained@.len() ==> (#[trigger] drained@[i]).sound_any(
                        g,
                        self.core.universe_set(),
                        self.core.variable_seq(),
                    ),
                forall|w2: Seq<usize>, bs: Set<(nat, nat)>, c: nat|
                    vars_ok(g, w2) && #[trigger] bottom_scc(g, w2, u_entry, bs, c)
                        ==> bs.subset_of(self.core.universe_set()),
                drained@.len() <= total,
                pots_sum(self.processes@) + pots_sum(self.core.spawned_seq()) + pots_sum(drained@)
                    + (total - drained@.len()) <= m_pruned,
                m_pruned <= m_entry,
                u_entry == old(self).universe_set(),
            decreases drained@.len(),
        {
            let ghost dr_before = drained@;
            let mut p = drained.remove(0);
            proof {
                lemma_pots_sum_remove(dr_before, 0);
            }
            let ghost u_pre = self.core.universe_set();
            let ghost v_pre = self.core.variable_seq();
            let done = p.step(&mut self.core, graph);
            proof {
                assert forall|w2: Seq<usize>, bs: Set<(nat, nat)>, c: nat|
                    vars_ok(g, w2) && #[trigger] bottom_scc(g, w2, u_entry, bs, c) implies
                    bs.subset_of(self.core.universe_set()) by {
                    assert(bs.subset_of(u_pre));
                    assert(bottom_scc(g, w2, u_pre, bs, c));
                }
                assert forall|i: int|
                    0 <= i < self.processes@.len() implies (#[trigger] self.processes@[
                    i]).sound_any(g, self.core.universe_set(), self.core.variable_seq()) by {
                    lemma_sound_any_mono(
                        self.processes@[i],
                        g,
                        u_pre,
                        self.core.universe_set(),
                        v_pre,
                        self.core.variable_seq(),
                    );
                }
                assert forall|i: int|
                    0 <= i < drained@.len() implies (#[trigger] drained@[i]).sound_any(
                    g,
                    self.core.universe_set(),
                    self.core.variable_seq(),
                ) by {
                    lemma_sound_any_mono(
                        drained@[i],
                        g,
                        u_pre,
                        self.core.universe_set(),
                        v_pre,
                        self.core.variable_seq(),
                    );
                }
            }
            if !done {
                let ghost procs_before = self.processes@;
                let ghost pp = p;
                self.processes.push(p);
                proof {
                    assert(self.processes@.drop_last() =~= procs_before);
                    assert(self.processes@.last() == pp);
                }
            }
        }
        proof {
            self.core.wf_facts(g);
        }
        let ghost u_drain = self.core.universe_set();
        let ghost v_drain = self.core.variable_seq();
        let mut arrivals = self.core.take_spawned();
        while arrivals.len() > 0
            invariant
                g == *graph,
                self.core.wf(g),
                self.core.spawned_seq().len() == 0,
                self.core.enc() == old(self).encoding(),
                self.core.universe_set() == u_drain,
                self.core.variable_seq() == v_drain,
                u_drain.subset_of(old(self).universe_set()),
                forall|x: usize|
                    self.core.variable_seq().contains(x) ==> old(self).variable_seq().contains(x),
                forall|i: int|
                    0 <= i < self.processes@.len() ==> (#[trigger] self.processes@[i]).wf_any(g),
                forall|i: int|
                    0 <= i < self.processes@.len() ==> (#[trigger] self.processes@[i]).sound_any(
                        g,
                        self.core.universe_set(),
                        self.core.variable_seq(),
                    ),
                forall|i: int| 0 <= i < arrivals@.len() ==> (#[trigger] arrivals@[i]).wf_any(g),
                forall|i: int|
                    0 <= i < arrivals@.len() ==> (#[trigger] arrivals@[i]).sound_any(
                        g,
                        u_drain,
                        v_drain,
                    ),
                forall|w2: Seq<usize>, bs: Set<(nat, nat)>, c: nat|
                    vars_ok(g, w2) && #[trigger] bottom_scc(g, w2, u_entry, bs, c)
                        ==> bs.subset_of(self.core.universe_set()),
                pots_sum(self.processes@) + pots_sum(arrivals@) + (total as nat)
                    <= m_pruned,
                m_pruned <= m_entry,
                u_entry == old(self).universe_set(),
            decreases arrivals@.len(),
        {
            let ghost arr_before = arrivals@;
            let p = arrivals.remove(0);
            proof {
                lemma_pots_sum_remove(arr_before, 0);
            }
            let ghost procs_before = self.processes@;
            let ghost pp = p;
            self.processes.push(p);
            proof {
                assert(self.processes@.drop_last() =~= procs_before);
                assert(self.processes@.last() == pp);
            }
        }
        count
    }

    fn finalize(self) -> (r: (GraphColoredVertices, Vec<usize>)) {
        let RoundRobinScheduler { core, processes } = self;
        core.finalize()
    }

    fn discard_variable(&mut self, variable: usize) {
        proof {
            let g0 = choose|g: SymbolicAsyncGraph|
                #[trigger] old(self).wf(g) && can_post_of(
                    g,
                    variable as nat,
                    old(self).universe_set(),
                ).is_empty();
            assert(old(self).core.wf(g0) && can_post_of(
                g0,
                variable as nat,
                old(self).core.universe_set(),
            ).is_empty());
        }
        let ghost v_before = self.core.variable_seq();
        self.core.discard_variable(variable);
        proof {
            assert forall|g: SymbolicAsyncGraph|
                #[trigger] old(self).wf(g) && can_post_of(
                    g,
                    variable as nat,
                    old(self).universe_set(),
                ).is_empty() implies self.wf(g) by {
                assert forall|i: int|
                    0 <= i < self.processes@.len() implies (#[trigger] self.processes@[
                    i]).sound_any(g, self.core.universe_set(), self.core.variable_seq()) by {
                    lemma_sound_any_mono(
                        self.processes@[i],
                        g,
                        self.core.universe_set(),
                        self.core.universe_set(),
                        v_before,
                        self.core.variable_seq(),
                    );
                }
            }
        }
    }

    fn discard_states(&mut self, set: &GraphColoredVertices) {
        proof {
            let g0 = choose|g: SymbolicAsyncGraph|
                #[trigger] old(self).wf(g) && cv_encoding(*set) == graph_encoding(g);
            assert(old(self).core.wf(g0) && cv_encoding(*set) == graph_encoding(g0));
        }
        let ghost u_before = self.core.universe_set();
        self.core.discard_states(set);
        proof {
            assert forall|g: SymbolicAsyncGraph| #[trigger] old(self).wf(g) implies self.wf(g) by {
                assert forall|i: int|
                    0 <= i < self.processes@.len() implies (#[trigger] self.processes@[
                    i]).sound_any(g, self.core.universe_set(), self.core.variable_seq()) by {
                    lemma_sound_any_mono(
                        self.processes@[i],
                        g,
                        u_before,
                        self.core.universe_set(),
                        self.core.variable_seq(),
                        self.core.variable_seq(),
                    );
                }
            }
        }
    }

    fn spawn_process(&mut self, process: AnyProcess) {
        let ghost procs_before = self.processes@;
        let ghost pp = process;
        self.processes.push(process);
        proof {
            assert(self.processes@.drop_last() =~= procs_before);
            assert(self.processes@.last() == pp);
        }
    }

    fn universe(&self) -> (r: &GraphColoredVertices) {
        self.core.universe()
    }

    fn variables(&self) -> (r: &Vec<usize>) {
        self.core.variables()
    }
}

} // verus!
