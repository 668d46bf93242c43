//! Incremental reachability processes and the scheduler interface.
//!
//! A process is one unit of symbolic work: each call to `step` advances it
//! by at most one enlarging symbolic operation. A scheduler owns a
//! collection of processes, arbitrates which of them runs next, and owns the
//! shared universe that the processes shrink. Termination of the whole
//! interleaving is proved through a potential: every process carries a
//! `proc_pot` bound on the work it (and anything it may spawn) can still do,
//! and a scheduler's `measure` sums the potentials of its pending processes.
//! A step that reports more work strictly lowers the potential; a step that
//! retires a process lowers the scheduler's measure even after accounting
//! for the process it may have spawned.

use vstd::prelude::*;
use vstd::set_lib::lemma_len_subset;

use biodivine_lib_param_bn::symbolic_async_graph::GraphColoredVertices;
use biodivine_lib_param_bn::symbolic_async_graph::SymbolicAsyncGraph;

use crate::algorithms::reach_bwd;
use crate::reach::bwd_closed;
use crate::reach::bwd_reach;
use crate::reach::can_step;
use crate::reach::fwd_closed;
use crate::reach::fwd_reach;
use crate::reach::lemma_bwd_reach_extend;
use crate::reach::lemma_bwd_reach_init;
use crate::reach::lemma_fwd_reach_extend;
use crate::reach::lemma_fwd_reach_init;
use crate::reach::bottom_scc;
use crate::reach::covers;
use crate::reach::lemma_chain_retarget;
use crate::reach::lemma_fwd_closed_mono_universe;
use crate::reach::lemma_fwd_closed_mono_vars;
use crate::reach::lemma_scc_misses_bottom_basin;
use crate::reach::lemma_scc_misses_reach_basin;
use crate::reach::linked_via;
use crate::reach::vars_chain;
use crate::reach::lemma_can_post_monotone;
use crate::reach::vars_ok;
use crate::symbolic::can_post_of;
use crate::symbolic::cv_encoding;
use crate::symbolic::cv_set;
use crate::symbolic::graph_encoding;
use crate::symbolic::graph_vars;
use crate::symbolic::set_clone;
use crate::symbolic::set_intersect;
use crate::symbolic::set_is_empty;
use crate::symbolic::set_is_subset;
use crate::symbolic::set_minus;
use crate::symbolic::set_union;
use crate::symbolic::steps_to;
use crate::symbolic::symbolic_size;
use crate::symbolic::var_can_post;
use crate::symbolic::variable_count;
use crate::symbolic::var_post;
use crate::symbolic::var_post_of;
use crate::symbolic::var_pre;
use crate::symbolic::var_pre_of;

verus! {

/// Basic forward reachability process.
pub struct FwdProcess {
    fwd: GraphColoredVertices,
    universe: GraphColoredVertices,
}

/// Basic backward reachability process.
pub struct BwdProcess {
    bwd: GraphColoredVertices,
    universe: GraphColoredVertices,
}

/// Process that computes the set of vertices reachable *after* a transition
/// of one variable fires. Once completed, it eliminates the basin of that
/// set and spawns the `ExtendedComponentProcess`.
pub struct ReachAfterPostProcess {
    variable: usize,
    fwd: FwdProcess,
}

/// Computes the extended component of a forward set and then eliminates the
/// basin of the region *under* this extended component.
pub struct ExtendedComponentProcess {
    variable: usize,
    fwd_set: GraphColoredVertices,
    bwd: BwdProcess,
    base_universe: Ghost<Set<(nat, nat)>>,
    base_variables: Ghost<Seq<usize>>,
}

/// The closed family of processes a scheduler can own.
pub enum AnyProcess {
    Fwd(FwdProcess),
    Bwd(BwdProcess),
    ReachAfterPost(ReachAfterPostProcess),
    ExtendedComponent(ExtendedComponentProcess),
}

/// Manages a collection of processes.
pub trait Scheduler: Sized {
    /// The coloured vertex set still under consideration.
    spec fn universe_set(&self) -> Set<(nat, nat)>;

    /// The transition variables still under consideration.
    spec fn variable_seq(&self) -> Seq<usize>;

    /// The symbolic variable layout of the scheduler's sets.
    spec fn encoding(&self) -> Seq<nat>;

    /// An upper bound on the symbolic iterations the pending processes can
    /// still perform.
    spec fn measure(&self) -> nat;

    /// The scheduler's sets belong to the graph `g` and all its pending
    /// processes are well formed for `g`.
    spec fn wf(&self, g: SymbolicAsyncGraph) -> bool;

    proof fn wf_facts(&self, g: SymbolicAsyncGraph)
        requires
            self.wf(g),
        ensures
            self.universe_set().finite(),
            self.encoding() == graph_encoding(g),
            vars_ok(g, self.variable_seq()),
            covers(g, self.variable_seq(), self.universe_set()),
    ;

    /// Perform a step in some process. Returns the number of symbolic
    /// iterations performed, zero exactly when no processes remain; a
    /// positive count strictly lowers the measure, and no step ever drops a
    /// pair of a terminal component out of the universe.
    fn step(&mut self, graph: &SymbolicAsyncGraph) -> (iterations: usize)
        requires
            old(self).wf(*graph),
        ensures
            final(self).wf(*graph),
            final(self).encoding() == old(self).encoding(),
            final(self).universe_set().subset_of(old(self).universe_set()),
            forall|x: usize|
                final(self).variable_seq().contains(x) ==> old(self).variable_seq().contains(x),
            forall|w2: Seq<usize>, bs: Set<(nat, nat)>, c: nat|
                vars_ok(*graph, w2) && #[trigger] bottom_scc(
                    *graph,
                    w2,
                    old(self).universe_set(),
                    bs,
                    c,
                ) ==> bs.subset_of(final(self).universe_set()),
            final(self).measure() <= old(self).measure(),
            iterations > 0 ==> final(self).measure() < old(self).measure(),
            (iterations == 0) <==> (old(self).measure() == 0),
    ;

    /// Destroy the processes and hand out the universe and variables.
    fn finalize(self) -> (r: (GraphColoredVertices, Vec<usize>))
        ensures
            cv_set(r.0) == self.universe_set(),
            cv_encoding(r.0) == self.encoding(),
            r.1@ == self.variable_seq(),
    ;

    /// No longer use transitions of the given variable, which must no
    /// longer fire anywhere in the universe.
    fn discard_variable(&mut self, variable: usize)
        requires
            exists|g: SymbolicAsyncGraph| #[trigger] old(self).wf(g) && can_post_of(
                g,
                variable as nat,
                old(self).universe_set(),
            ).is_empty(),
        ensures
            forall|g: SymbolicAsyncGraph|
                #[trigger] old(self).wf(g) && can_post_of(
                    g,
                    variable as nat,
                    old(self).universe_set(),
                ).is_empty() ==> final(self).wf(g),
            final(self).universe_set() == old(self).universe_set(),
            final(self).encoding() == old(self).encoding(),
            final(self).measure() == old(self).measure(),
            forall|x: usize|
                final(self).variable_seq().contains(x) ==> (old(self).variable_seq().contains(x)
                    && x != variable),
            forall|x: usize|
                old(self).variable_seq().contains(x) && x != variable
                    ==> final(self).variable_seq().contains(x),
    ;

    /// Remove the given states from consideration.
    fn discard_states(&mut self, set: &GraphColoredVertices)
        requires
            exists|g: SymbolicAsyncGraph| #[trigger] old(self).wf(g) && cv_encoding(*set)
                == graph_encoding(g),
        ensures
            forall|g: SymbolicAsyncGraph| #[trigger] old(self).wf(g) ==> final(self).wf(g),
            final(self).encoding() == old(self).encoding(),
            final(self).variable_seq() == old(self).variable_seq(),
            final(self).universe_set() == old(self).universe_set().difference(cv_set(*set)),
            final(self).measure() <= old(self).measure(),
    ;

    /// Add a new process.
    fn spawn_process(&mut self, process: AnyProcess)
        ensures
            forall|g: SymbolicAsyncGraph|
                #[trigger] old(self).wf(g) && process.wf_any(g) && process.sound_any(
                    g,
                    old(self).universe_set(),
                    old(self).variable_seq(),
                ) ==> final(self).wf(g),
            final(self).encoding() == old(self).encoding(),
            final(self).variable_seq() == old(self).variable_seq(),
            final(self).universe_set() == old(self).universe_set(),
            final(self).measure() == old(self).measure() + process.pot_any(),
    ;

    /// The current universe of the processes.
    fn universe(&self) -> (r: &GraphColoredVertices)
        ensures
            cv_set(*r) == self.universe_set(),
            cv_encoding(*r) == self.encoding(),
    ;

    /// The currently considered transition variables.
    fn variables(&self) -> (r: &Vec<usize>)
        ensures
            r@ == self.variable_seq(),
    ;
}

/// The state that the processes share: the universe, the active variables,
/// the pending discards, and the processes spawned since the scheduler last
/// collected them. Both schedulers own one core; a running process borrows
/// it during a step.
pub struct SchedulerCore {
    active_variables: Vec<usize>,
    universe: GraphColoredVertices,
    discarded: Option<GraphColoredVertices>,
    spawned: Vec<AnyProcess>,
}

impl SchedulerCore {
    /// The coloured vertex set still under consideration.
    pub closed spec fn universe_set(&self) -> Set<(nat, nat)> {
        cv_set(self.universe)
    }

    /// The transition variables still under consideration.
    pub closed spec fn variable_seq(&self) -> Seq<usize> {
        self.active_variables@
    }

    /// The symbolic variable layout of the core's sets.
    pub closed spec fn enc(&self) -> Seq<nat> {
        cv_encoding(self.universe)
    }

    /// The processes spawned and not yet collected by the scheduler.
    pub closed spec fn spawned_seq(&self) -> Seq<AnyProcess> {
        self.spawned@
    }

    pub closed spec fn wf(&self, g: SymbolicAsyncGraph) -> bool {
        &&& cv_encoding(self.universe) == graph_encoding(g)
        &&& cv_set(self.universe).finite()
        &&& vars_ok(g, self.active_variables@)
        &&& covers(g, self.active_variables@, cv_set(self.universe))
        &&& (self.discarded matches Option::Some(d) ==> cv_encoding(d) == graph_encoding(g)
            && cv_set(d).disjoint(cv_set(self.universe)))
        &&& forall|i: int| 0 <= i < self.spawned@.len() ==> (#[trigger] self.spawned@[i]).wf_any(g)
        &&& forall|i: int|
            0 <= i < self.spawned@.len() ==> (#[trigger] self.spawned@[i]).sound_any(
                g,
                cv_set(self.universe),
                self.active_variables@,
            )
    }

    pub proof fn wf_facts(&self, g: SymbolicAsyncGraph)
        requires
            self.wf(g),
        ensures
            self.universe_set().finite(),
            self.enc() == graph_encoding(g),
            vars_ok(g, self.variable_seq()),
            covers(g, self.variable_seq(), self.universe_set()),
            forall|i: int|
                0 <= i < self.spawned_seq().len() ==> (#[trigger] self.spawned_seq()[i]).wf_any(g),
            forall|i: int|
                0 <= i < self.spawned_seq().len() ==> (#[trigger] self.spawned_seq()[i]).sound_any(
                    g,
                    self.universe_set(),
                    self.variable_seq(),
                ),
    {
    }

    pub fn new(graph: &SymbolicAsyncGraph, universe: &GraphColoredVertices) -> (r: SchedulerCore)
        requires
            cv_encoding(*universe) == graph_encoding(*graph),
            cv_set(*universe).finite(),
        ensures
            r.wf(*graph),
            r.universe_set() == cv_set(*universe),
            r.enc() == graph_encoding(*graph),
            r.spawned_seq().len() == 0,
            r.variable_seq().len() == graph_vars(*graph),
            forall|k: int| 0 <= k < r.variable_seq().len() ==> #[trigger] r.variable_seq()[k] == k,
            forall|x: usize| r.variable_seq().contains(x) <==> (x as nat) < graph_vars(*graph),
    {
        let n = crate::algorithms::ascending_variables(variable_count(graph));
        let result = SchedulerCore {
            active_variables: n,
            universe: set_clone(universe),
            discarded: Option::None,
            spawned: Vec::new(),
        };
        proof {
            assert forall|v: usize|
                (v as nat) < graph_vars(*graph) && !result.active_variables@.contains(v) implies
                can_post_of(*graph, v as nat, cv_set(result.universe)).is_empty() by {
                assert(result.active_variables@.contains(v));
            }
        }
        result
    }

    pub fn universe(&self) -> (r: &GraphColoredVertices)
        ensures
            cv_set(*r) == self.universe_set(),
            cv_encoding(*r) == self.enc(),
    {
        &self.universe
    }

    pub fn variables(&self) -> (r: &Vec<usize>)
        ensures
            r@ == self.variable_seq(),
    {
        &self.active_variables
    }

    /// Remove the given states from the universe and remember them so that
    /// the scheduler can distribute the discard to every live process.
    pub fn discard_states(&mut self, set: &GraphColoredVertices)
        requires
            exists|g: SymbolicAsyncGraph| #[trigger] old(self).wf(g) && cv_encoding(*set)
                == graph_encoding(g),
        ensures
            forall|g: SymbolicAsyncGraph| #[trigger] old(self).wf(g) ==> final(self).wf(g),
            final(self).enc() == old(self).enc(),
            final(self).variable_seq() == old(self).variable_seq(),
            final(self).universe_set() == old(self).universe_set().difference(cv_set(*set)),
            final(self).spawned_seq() == old(self).spawned_seq(),
    {
        proof {
            let g0 = choose|g: SymbolicAsyncGraph|
                #[trigger] old(self).wf(g) && cv_encoding(*set) == graph_encoding(g);
            assert(old(self).wf(g0));
        }
        let shrunk = set_minus(&self.universe, set);
        self.universe = shrunk;
        let pending = self.discarded.take();
        match pending {
            Option::Some(d) => {
                self.discarded = Option::Some(set_union(&d, set));
            },
            Option::None => {
                self.discarded = Option::Some(set_clone(set));
            },
        }
        proof {
            assert forall|g: SymbolicAsyncGraph| #[trigger] old(self).wf(g) implies self.wf(g) by {
                vstd::set_lib::lemma_set_subset_finite(
                    cv_set(old(self).universe),
                    cv_set(self.universe),
                );
                assert forall|v: usize|
                    (v as nat) < graph_vars(g) && !self.active_variables@.contains(v) implies
                    can_post_of(g, v as nat, cv_set(self.universe)).is_empty() by {
                    lemma_can_post_monotone(
                        g,
                        v as nat,
                        cv_set(self.universe),
                        cv_set(old(self).universe),
                    );
                }
                assert forall|i: int|
                    0 <= i < self.spawned@.len() implies (#[trigger] self.spawned@[i]).sound_any(
                    g,
                    cv_set(self.universe),
                    self.active_variables@,
                ) by {
                    lemma_sound_any_mono(
                        self.spawned@[i],
                        g,
                        cv_set(old(self).universe),
                        cv_set(self.universe),
                        old(self).active_variables@,
                        self.active_variables@,
                    );
                }
            }
        }
    }

    /// No longer use transitions of the given variable. The variable must no
    /// longer fire anywhere in the universe, so dropping it from the active
    /// list keeps the list covering the universe.
    pub fn discard_variable(&mut self, variable: usize)
        requires
            exists|g: SymbolicAsyncGraph| #[trigger] old(self).wf(g) && can_post_of(
                g,
                variable as nat,
                old(self).universe_set(),
            ).is_empty(),
        ensures
            forall|g: SymbolicAsyncGraph|
                #[trigger] old(self).wf(g) && can_post_of(
                    g,
                    variable as nat,
                    old(self).universe_set(),
                ).is_empty() ==> final(self).wf(g),
            final(self).universe_set() == old(self).universe_set(),
            final(self).enc() == old(self).enc(),
            final(self).spawned_seq() == old(self).spawned_seq(),
            forall|x: usize|
                final(self).variable_seq().contains(x) ==> (old(self).variable_seq().contains(x)
                    && x != variable),
            forall|x: usize|
                old(self).variable_seq().contains(x) && x != variable
                    ==> final(self).variable_seq().contains(x),
    {
        let filtered = crate::algorithms::remove_variable(&self.active_variables, variable);
        let ghost vars_before = self.active_variables@;
        self.active_variables = filtered;
        proof {
            assert forall|x: usize|
                self.variable_seq().contains(x) implies (old(self).variable_seq().contains(x) && x
                != variable) by {
                let k = choose|k: int|
                    0 <= k < self.active_variables@.len() && self.active_variables@[k] == x;
                assert(vars_before.contains(x) && self.active_variables@[k] != variable);
            }
            assert forall|g: SymbolicAsyncGraph|
                #[trigger] old(self).wf(g) && can_post_of(
                    g,
                    variable as nat,
                    old(self).universe_set(),
                ).is_empty() implies self.wf(g) by {
                assert forall|k: int|
                    0 <= k < self.active_variables@.len() implies (
                #[trigger] self.active_variables@[k] as nat) < graph_vars(g) by {
                    assert(vars_before.contains(self.active_variables@[k]));
                    let j = choose|j: int|
                        0 <= j < vars_before.len() && vars_before[j] == self.active_variables@[k];
                    assert((vars_before[j] as nat) < graph_vars(g));
                }
                assert forall|v: usize|
                    (v as nat) < graph_vars(g) && !self.active_variables@.contains(v) implies
                    can_post_of(g, v as nat, cv_set(self.universe)).is_empty() by {
                    if v != variable {
                        assert(!vars_before.contains(v));
                    }
                }
                assert forall|i: int|
                    0 <= i < self.spawned@.len() implies (#[trigger] self.spawned@[i]).sound_any(
                    g,
                    cv_set(self.universe),
                    self.active_variables@,
                ) by {
                    lemma_sound_any_mono(
                        self.spawned@[i],
                        g,
                        cv_set(self.universe),
                        cv_set(self.universe),
                        vars_before,
                        self.active_variables@,
                    );
                }
            }
        }
    }

    /// Hand a follow-up process to the scheduler.
    pub fn spawn(&mut self, process: AnyProcess)
        ensures
            forall|g: SymbolicAsyncGraph|
                #[trigger] old(self).wf(g) && process.wf_any(g) && process.sound_any(
                    g,
                    old(self).universe_set(),
                    old(self).variable_seq(),
                ) ==> final(self).wf(g),
            final(self).enc() == old(self).enc(),
            final(self).variable_seq() == old(self).variable_seq(),
            final(self).universe_set() == old(self).universe_set(),
            final(self).spawned_seq() == old(self).spawned_seq().push(process),
    {
        self.spawned.push(process);
    }

    /// Collect the pending discard set, if any.
    pub fn take_discarded(&mut self) -> (r: Option<GraphColoredVertices>)
        ensures
            forall|g: SymbolicAsyncGraph| #[trigger] old(self).wf(g) ==> final(self).wf(g),
            final(self).enc() == old(self).enc(),
            final(self).variable_seq() == old(self).variable_seq(),
            final(self).universe_set() == old(self).universe_set(),
            final(self).spawned_seq() == old(self).spawned_seq(),
            r matches Option::Some(d) ==> (forall|g: SymbolicAsyncGraph|
                #[trigger] old(self).wf(g) ==> cv_encoding(d) == graph_encoding(g) && cv_set(
                    d,
                ).disjoint(old(self).universe_set())),
    {
        self.discarded.take()
    }

    /// Collect the processes spawned since the last collection.
    pub fn take_spawned(&mut self) -> (r: Vec<AnyProcess>)
        ensures
            forall|g: SymbolicAsyncGraph| #[trigger] old(self).wf(g) ==> final(self).wf(g),
            final(self).enc() == old(self).enc(),
            final(self).variable_seq() == old(self).variable_seq(),
            final(self).universe_set() == old(self).universe_set(),
            final(self).spawned_seq().len() == 0,
            r@ == old(self).spawned_seq(),
            forall|g: SymbolicAsyncGraph|
                #[trigger] old(self).wf(g) ==> forall|i: int|
                    0 <= i < r@.len() ==> (#[trigger] r@[i]).sound_any(
                        g,
                        old(self).universe_set(),
                        old(self).variable_seq(),
                    ),
    {
        let mut drained: Vec<AnyProcess> = Vec::new();
        core::mem::swap(&mut self.spawned, &mut drained);
        drained
    }

    /// Hand out the universe and the surviving variables.
    pub fn finalize(self) -> (r: (GraphColoredVertices, Vec<usize>))
        ensures
            cv_set(r.0) == self.universe_set(),
            cv_encoding(r.0) == self.enc(),
            r.1@ == self.variable_seq(),
    {
        (self.universe, self.active_variables)
    }
}

/// Process is one unit of work that can be executed via a scheduler. While a
/// process runs one step it borrows the scheduler's shared core; it may
/// shrink the universe and the variables and spawn a follow-up process, and
/// it never grows either.
pub trait Process: Sized {
    fn step(&mut self, scheduler: &mut SchedulerCore, graph: &SymbolicAsyncGraph) -> (done: bool)
        requires
            old(self).proc_wf(*graph),
            old(scheduler).wf(*graph),
            old(self).sound(*graph, old(scheduler).universe_set(), old(scheduler).variable_seq()),
        ensures
            final(self).proc_wf(*graph),
            final(scheduler).wf(*graph),
            final(scheduler).enc() == old(scheduler).enc(),
            final(scheduler).universe_set().subset_of(old(scheduler).universe_set()),
            forall|x: usize|
                final(scheduler).variable_seq().contains(x) ==> old(
                    scheduler,
                ).variable_seq().contains(x),
            forall|w2: Seq<usize>, bs: Set<(nat, nat)>, c: nat|
                vars_ok(*graph, w2) && #[trigger] bottom_scc(
                    *graph,
                    w2,
                    old(scheduler).universe_set(),
                    bs,
                    c,
                ) ==> bs.subset_of(final(scheduler).universe_set()),
            !done ==> *final(scheduler) == *old(scheduler) && final(self).proc_pot() < old(
                self,
            ).proc_pot() && final(self).sound(
                *graph,
                old(scheduler).universe_set(),
                old(scheduler).variable_seq(),
            ),
            done ==> pots_sum(final(scheduler).spawned_seq()) + 1 <= pots_sum(
                old(scheduler).spawned_seq(),
            ) + old(self).proc_pot(),
    ;

    /// A "weight" of a process is the symbolic size of its memory.
    fn weight(&self) -> usize;

    /// Mark the given set of states as no longer necessary for
    /// consideration.
    fn discard_states(&mut self, set: &GraphColoredVertices)
        requires
            exists|g: SymbolicAsyncGraph| #[trigger] old(self).proc_wf(g) && cv_encoding(*set)
                == graph_encoding(g),
        ensures
            forall|g: SymbolicAsyncGraph| #[trigger] old(self).proc_wf(g) ==> final(self).proc_wf(g),
            final(self).proc_pot() <= old(self).proc_pot(),
    ;

    /// The process is well formed for the graph `g`.
    spec fn proc_wf(&self, g: SymbolicAsyncGraph) -> bool;

    /// The process never discards a pair of a terminal component of the
    /// universe `u` while `w` lists the variables still in use.
    spec fn sound(&self, g: SymbolicAsyncGraph, u: Set<(nat, nat)>, w: Seq<usize>) -> bool;

    /// The process's termination potential.
    spec fn proc_pot(&self) -> nat;
}

impl FwdProcess {
    /// The forward reach set built so far.
    pub closed spec fn reach_spec(&self) -> Set<(nat, nat)> {
        cv_set(self.fwd)
    }

    /// The universe this process is restricted to.
    pub closed spec fn universe_spec(&self) -> Set<(nat, nat)> {
        cv_set(self.universe)
    }

    /// The symbolic variable layout of this process's sets.
    pub closed spec fn enc_spec(&self) -> Seq<nat> {
        cv_encoding(self.fwd)
    }

    pub closed spec fn wf_for(&self, g: SymbolicAsyncGraph) -> bool {
        &&& cv_encoding(self.fwd) == graph_encoding(g)
        &&& cv_encoding(self.universe) == graph_encoding(g)
        &&& cv_set(self.fwd).finite()
        &&& cv_set(self.universe).finite()
        &&& cv_set(self.fwd).subset_of(cv_set(self.universe))
    }

    /// Work still possible: the part of the universe not yet reached, plus
    /// one for the completing step.
    pub closed spec fn pot(&self) -> nat {
        cv_set(self.universe).difference(cv_set(self.fwd)).len() + 1
    }

    pub fn new(initial: &GraphColoredVertices, universe: &GraphColoredVertices) -> (r: FwdProcess)
        requires
            cv_encoding(*initial) == cv_encoding(*universe),
            cv_set(*universe).finite(),
        ensures
            r.reach_spec() == cv_set(*initial).intersect(cv_set(*universe)),
            r.universe_spec() == cv_set(*universe),
            forall|g: SymbolicAsyncGraph|
                cv_encoding(*universe) == graph_encoding(g) ==> #[trigger] r.wf_for(g),
    {
        let fwd = set_intersect(initial, universe);
        let universe = set_clone(universe);
        proof {
            vstd::set_lib::lemma_set_subset_finite(cv_set(universe), cv_set(fwd));
        }
        FwdProcess { fwd, universe }
    }

    pub fn reach_set(&self) -> (r: &GraphColoredVertices)
        ensures
            cv_set(*r) == self.reach_spec(),
            cv_encoding(*r) == self.enc_spec(),
    {
        &self.fwd
    }

    /// One saturation sweep: scan the variables from the highest index down
    /// and apply the first enlarging image found; report completion when no
    /// variable enlarges the reach set.
    pub fn advance(&mut self, variables: &Vec<usize>, graph: &SymbolicAsyncGraph) -> (done: bool)
        requires
            old(self).wf_for(*graph),
            vars_ok(*graph, variables@),
        ensures
            final(self).wf_for(*graph),
            final(self).universe_spec() == old(self).universe_spec(),
            final(self).enc_spec() == old(self).enc_spec(),
            old(self).reach_spec().subset_of(final(self).reach_spec()),
            final(self).reach_spec().subset_of(
                fwd_reach(*graph, variables@, old(self).reach_spec(), old(self).universe_spec()),
            ),
            done ==> *final(self) == *old(self) && fwd_closed(
                *graph,
                variables@,
                old(self).universe_spec(),
                old(self).reach_spec(),
            ),
            !done ==> final(self).pot() < old(self).pot() && !fwd_closed(
                *graph,
                variables@,
                old(self).universe_spec(),
                old(self).reach_spec(),
            ),
    {
        let ghost g = *graph;
        let ghost vars = variables@;
        let ghost init = cv_set(self.fwd);
        let ghost u = cv_set(self.universe);
        proof {
            lemma_fwd_reach_init(g, vars, init, u);
        }
        if variables.len() == 0 {
            proof {
                assert forall|a: (nat, nat), b: (nat, nat)|
                    init.contains(a) && u.contains(b) && #[trigger] can_step(g, vars, a, b)
                    implies init.contains(b) by {
                    let i = choose|i: int|
                        0 <= i < vars.len() && #[trigger] steps_to(g, vars[i] as nat, a, b);
                }
            }
            return true;
        }
        let mut i_var: usize = variables.len() - 1;
        loop
            invariant
                g == *graph,
                vars == variables@,
                vars.len() >= 1,
                vars_ok(g, vars),
                i_var < vars.len(),
                self.wf_for(g),
                *self == *old(self),
                cv_set(self.fwd) == init,
                cv_set(self.universe) == u,
                forall|j: int|
                    i_var < j < vars.len() ==> var_post_of(g, #[trigger] vars[j] as nat,
                    init).intersect(u).subset_of(init),
            ensures
                *self == *old(self),
                fwd_closed(g, vars, u, init),
            decreases i_var,
        {
            let variable = variables[i_var];
            let image = var_post(graph, variable, &self.fwd);
            let bounded = set_intersect(&image, &self.universe);
            let fresh = set_minus(&bounded, &self.fwd);
            if !set_is_empty(&fresh) {
                proof {
                    let fresh_set = cv_set(fresh);
                    let v = vars[i_var as int] as nat;
                    assert forall|b: (nat, nat)| fresh_set.contains(b) implies fwd_reach(
                        g,
                        vars,
                        init,
                        u,
                    ).contains(b) by {
                        assert(var_post_of(g, v, init).contains(b));
                        let a = choose|a: (nat, nat)| init.contains(a) && steps_to(g, v, a, b);
                        assert(steps_to(g, vars[i_var as int] as nat, a, b));
                        assert(can_step(g, vars, a, b));
                        lemma_fwd_reach_init(g, vars, init, u);
                        lemma_fwd_reach_extend(g, vars, init, u, a, b);
                    }
                    let b = fresh_set.choose();
                    assert(fresh_set.contains(b));
                    vstd::set_lib::lemma_set_subset_finite(u, fresh_set);
                    vstd::set_lib::lemma_set_union_finite_iff(init, fresh_set);
                    vstd::set_lib::lemma_set_subset_finite(u, u.difference(init));
                    assert(u.difference(init.union(fresh_set)).subset_of(u.difference(init)));
                    assert(u.difference(init).contains(b));
                    assert(!u.difference(init.union(fresh_set)).contains(b));
                    u.difference(init.union(fresh_set)).lemma_subset_not_in_lt(
                        u.difference(init),
                        b,
                    );
                    assert(var_post_of(g, v, init).contains(b));
                    let a2 = choose|a2: (nat, nat)| init.contains(a2) && steps_to(g, v, a2, b);
                    assert(steps_to(g, vars[i_var as int] as nat, a2, b));
                    assert(init.contains(a2) && u.contains(b) && can_step(g, vars, a2, b)
                        && !init.contains(b));
                    assert(!fwd_closed(g, vars, u, init));
                }
                proof {
                    lemma_fwd_reach_init(g, vars, init, u);
                }
                self.fwd = set_union(&self.fwd, &fresh);
                return false;
            }
            proof {
                let v = vars[i_var as int] as nat;
                assert forall|b: (nat, nat)|
                    var_post_of(g, v, init).intersect(u).contains(b) implies init.contains(b) by {
                    assert(!cv_set(fresh).contains(b));
                }
            }
            if i_var == 0 {
                proof {
                    assert forall|a: (nat, nat), b: (nat, nat)|
                        init.contains(a) && u.contains(b) && #[trigger] can_step(g, vars, a, b)
                        implies init.contains(b) by {
                        let i = choose|i: int|
                            0 <= i < vars.len() && #[trigger] steps_to(g, vars[i] as nat, a, b);
                        assert(var_post_of(g, vars[i] as nat, init).contains(b));
                        assert(var_post_of(g, vars[i] as nat, init).intersect(u).subset_of(init));
                    }
                }
                break;
            }
            i_var = i_var - 1;
        }
        true
    }

    /// Subtract `set` from both the reach set and the universe, so that the
    /// search never expands into eliminated territory.
    pub(crate) fn discard(&mut self, set: &GraphColoredVertices)
        requires
            exists|g: SymbolicAsyncGraph| #[trigger] old(self).wf_for(g) && cv_encoding(*set)
                == graph_encoding(g),
        ensures
            forall|g: SymbolicAsyncGraph| #[trigger] old(self).wf_for(g) ==> final(self).wf_for(g),
            final(self).pot() <= old(self).pot(),
            final(self).reach_spec() == old(self).reach_spec().difference(cv_set(*set)),
            final(self).universe_spec() == old(self).universe_spec().difference(cv_set(*set)),
            final(self).enc_spec() == old(self).enc_spec(),
    {
        proof {
            let g0 = choose|g: SymbolicAsyncGraph|
                #[trigger] old(self).wf_for(g) && cv_encoding(*set) == graph_encoding(g);
            assert(old(self).wf_for(g0));
        }
        let ghost before = *self;
        self.shrink(set);
        proof {
            assert forall|g: SymbolicAsyncGraph| #[trigger] before.wf_for(g) implies self.wf_for(
                g,
            ) by {
                vstd::set_lib::lemma_set_subset_finite(cv_set(before.fwd), cv_set(self.fwd));
                vstd::set_lib::lemma_set_subset_finite(
                    cv_set(before.universe),
                    cv_set(self.universe),
                );
            }
            let g0 = choose|g: SymbolicAsyncGraph|
                #[trigger] before.wf_for(g) && cv_encoding(*set) == graph_encoding(g);
            assert(before.wf_for(g0));
            assert(cv_set(self.universe).difference(cv_set(self.fwd)).subset_of(
                cv_set(before.universe).difference(cv_set(before.fwd)),
            ));
            vstd::set_lib::lemma_set_subset_finite(
                cv_set(before.universe),
                cv_set(before.universe).difference(cv_set(before.fwd)),
            );
            lemma_len_subset(
                cv_set(self.universe).difference(cv_set(self.fwd)),
                cv_set(before.universe).difference(cv_set(before.fwd)),
            );
        }
    }

    fn shrink(&mut self, set: &GraphColoredVertices)
        requires
            cv_encoding(*set) == cv_encoding(old(self).fwd),
            cv_encoding(old(self).fwd) == cv_encoding(old(self).universe),
        ensures
            final(self).reach_spec() == old(self).reach_spec().difference(cv_set(*set)),
            final(self).universe_spec() == old(self).universe_spec().difference(cv_set(*set)),
            cv_encoding(final(self).fwd) == cv_encoding(old(self).fwd),
            cv_encoding(final(self).universe) == cv_encoding(old(self).universe),
    {
        self.fwd = set_minus(&self.fwd, set);
        self.universe = set_minus(&self.universe, set);
    }
}

impl BwdProcess {
    /// The backward reach set built so far.
    pub closed spec fn reach_spec(&self) -> Set<(nat, nat)> {
        cv_set(self.bwd)
    }

    /// The universe this process is restricted to.
    pub closed spec fn universe_spec(&self) -> Set<(nat, nat)> {
        cv_set(self.universe)
    }

    /// The symbolic variable layout of this process's sets.
    pub closed spec fn enc_spec(&self) -> Seq<nat> {
        cv_encoding(self.bwd)
    }

    pub closed spec fn wf_for(&self, g: SymbolicAsyncGraph) -> bool {
        &&& cv_encoding(self.bwd) == graph_encoding(g)
        &&& cv_encoding(self.universe) == graph_encoding(g)
        &&& cv_set(self.bwd).finite()
        &&& cv_set(self.universe).finite()
        &&& cv_set(self.bwd).subset_of(cv_set(self.universe))
    }

    /// Work still possible: the part of the universe not yet reached, plus
    /// one for the completing step.
    pub closed spec fn pot(&self) -> nat {
        cv_set(self.universe).difference(cv_set(self.bwd)).len() + 1
    }

    pub fn new(initial: &GraphColoredVertices, universe: &GraphColoredVertices) -> (r: BwdProcess)
        requires
            cv_encoding(*initial) == cv_encoding(*universe),
            cv_set(*universe).finite(),
        ensures
            r.reach_spec() == cv_set(*initial).intersect(cv_set(*universe)),
            r.universe_spec() == cv_set(*universe),
            forall|g: SymbolicAsyncGraph|
                cv_encoding(*universe) == graph_encoding(g) ==> #[trigger] r.wf_for(g),
    {
        let bwd = set_intersect(initial, universe);
        let universe = set_clone(universe);
        proof {
            vstd::set_lib::lemma_set_subset_finite(cv_set(universe), cv_set(bwd));
        }
        BwdProcess { bwd, universe }
    }

    pub fn reach_set(&self) -> (r: &GraphColoredVertices)
        ensures
            cv_set(*r) == self.reach_spec(),
            cv_encoding(*r) == self.enc_spec(),
    {
        &self.bwd
    }

    /// One saturation sweep over the preimages, mirroring
    /// [`FwdProcess::advance`].
    pub fn advance(&mut self, variables: &Vec<usize>, graph: &SymbolicAsyncGraph) -> (done: bool)
        requires
            old(self).wf_for(*graph),
            vars_ok(*graph, variables@),
        ensures
            final(self).wf_for(*graph),
            final(self).universe_spec() == old(self).universe_spec(),
            final(self).enc_spec() == old(self).enc_spec(),
            old(self).reach_spec().subset_of(final(self).reach_spec()),
            final(self).reach_spec().subset_of(
                bwd_reach(*graph, variables@, old(self).reach_spec(), old(self).universe_spec()),
            ),
            done ==> *final(self) == *old(self) && bwd_closed(
                *graph,
                variables@,
                old(self).universe_spec(),
                old(self).reach_spec(),
            ),
            !done ==> final(self).pot() < old(self).pot() && !bwd_closed(
                *graph,
                variables@,
                old(self).universe_spec(),
                old(self).reach_spec(),
            ),
    {
        let ghost g = *graph;
        let ghost vars = variables@;
        let ghost init = cv_set(self.bwd);
        let ghost u = cv_set(self.universe);
        proof {
            lemma_bwd_reach_init(g, vars, init, u);
        }
        if variables.len() == 0 {
            proof {
                assert forall|a: (nat, nat), b: (nat, nat)|
                    init.contains(b) && u.contains(a) && #[trigger] can_step(g, vars, a, b)
                    implies init.contains(a) by {
                    let i = choose|i: int|
                        0 <= i < vars.len() && #[trigger] steps_to(g, vars[i] as nat, a, b);
                }
            }
            return true;
        }
        let mut i_var: usize = variables.len() - 1;
        loop
            invariant
                g == *graph,
                vars == variables@,
                vars.len() >= 1,
                vars_ok(g, vars),
                i_var < vars.len(),
                self.wf_for(g),
                *self == *old(self),
                cv_set(self.bwd) == init,
                cv_set(self.universe) == u,
                forall|j: int|
                    i_var < j < vars.len() ==> var_pre_of(g, #[trigger] vars[j] as nat,
                    init).intersect(u).subset_of(init),
            ensures
                *self == *old(self),
                bwd_closed(g, vars, u, init),
            decreases i_var,
        {
            let variable = variables[i_var];
            let image = var_pre(graph, variable, &self.bwd);
            let bounded = set_intersect(&image, &self.universe);
            let fresh = set_minus(&bounded, &self.bwd);
            if !set_is_empty(&fresh) {
                proof {
                    let fresh_set = cv_set(fresh);
                    let v = vars[i_var as int] as nat;
                    assert forall|a: (nat, nat)| fresh_set.contains(a) implies bwd_reach(
                        g,
                        vars,
                        init,
                        u,
                    ).contains(a) by {
                        assert(var_pre_of(g, v, init).contains(a));
                        let b = choose|b: (nat, nat)| init.contains(b) && steps_to(g, v, a, b);
                        assert(steps_to(g, vars[i_var as int] as nat, a, b));
                        assert(can_step(g, vars, a, b));
                        lemma_bwd_reach_init(g, vars, init, u);
                        lemma_bwd_reach_extend(g, vars, init, u, a, b);
                    }
                    let a = fresh_set.choose();
                    assert(fresh_set.contains(a));
                    vstd::set_lib::lemma_set_subset_finite(u, fresh_set);
                    vstd::set_lib::lemma_set_union_finite_iff(init, fresh_set);
                    vstd::set_lib::lemma_set_subset_finite(u, u.difference(init));
                    assert(u.difference(init.union(fresh_set)).subset_of(u.difference(init)));
                    assert(u.difference(init).contains(a));
                    assert(!u.difference(init.union(fresh_set)).contains(a));
                    u.difference(init.union(fresh_set)).lemma_subset_not_in_lt(
                        u.difference(init),
                        a,
                    );
                    let b2 = choose|b2: (nat, nat)| init.contains(b2) && steps_to(g, v, a, b2);
                    assert(steps_to(g, vars[i_var as int] as nat, a, b2));
                    assert(init.contains(b2) && u.contains(a) && can_step(g, vars, a, b2)
                        && !init.contains(a));
                }
                proof {
                    lemma_bwd_reach_init(g, vars, init, u);
                }
                self.bwd = set_union(&self.bwd, &fresh);
                return false;
            }
            proof {
                let v = vars[i_var as int] as nat;
                assert forall|a: (nat, nat)|
                    var_pre_of(g, v, init).intersect(u).contains(a) implies init.contains(a) by {
                    assert(!cv_set(fresh).contains(a));
                }
            }
            if i_var == 0 {
                proof {
                    assert forall|a: (nat, nat), b: (nat, nat)|
                        init.contains(b) && u.contains(a) && #[trigger] can_step(g, vars, a, b)
                        implies init.contains(a) by {
                        let i = choose|i: int|
                            0 <= i < vars.len() && #[trigger] steps_to(g, vars[i] as nat, a, b);
                        assert(var_pre_of(g, vars[i] as nat, init).contains(a));
                        assert(var_pre_of(g, vars[i] as nat, init).intersect(u).subset_of(init));
                    }
                }
                break;
            }
            i_var = i_var - 1;
        }
        true
    }

    /// Subtract `set` from both the reach set and the universe, so that the
    /// search never expands into eliminated territory.
    pub(crate) fn discard(&mut self, set: &GraphColoredVertices)
        requires
            exists|g: SymbolicAsyncGraph| #[trigger] old(self).wf_for(g) && cv_encoding(*set)
                == graph_encoding(g),
        ensures
            forall|g: SymbolicAsyncGraph| #[trigger] old(self).wf_for(g) ==> final(self).wf_for(g),
            final(self).pot() <= old(self).pot(),
            final(self).reach_spec() == old(self).reach_spec().difference(cv_set(*set)),
            final(self).universe_spec() == old(self).universe_spec().difference(cv_set(*set)),
            final(self).enc_spec() == old(self).enc_spec(),
    {
        proof {
            let g0 = choose|g: SymbolicAsyncGraph|
                #[trigger] old(self).wf_for(g) && cv_encoding(*set) == graph_encoding(g);
            assert(old(self).wf_for(g0));
        }
        let ghost before = *self;
        self.shrink(set);
        proof {
            assert forall|g: SymbolicAsyncGraph| #[trigger] before.wf_for(g) implies self.wf_for(
                g,
            ) by {
                vstd::set_lib::lemma_set_subset_finite(cv_set(before.bwd), cv_set(self.bwd));
                vstd::set_lib::lemma_set_subset_finite(
                    cv_set(before.universe),
                    cv_set(self.universe),
                );
            }
            let g0 = choose|g: SymbolicAsyncGraph|
                #[trigger] before.wf_for(g) && cv_encoding(*set) == graph_encoding(g);
            assert(before.wf_for(g0));
            assert(cv_set(self.universe).difference(cv_set(self.bwd)).subset_of(
                cv_set(before.universe).difference(cv_set(before.bwd)),
            ));
            vstd::set_lib::lemma_set_subset_finite(
                cv_set(before.universe),
                cv_set(before.universe).difference(cv_set(before.bwd)),
            );
            lemma_len_subset(
                cv_set(self.universe).difference(cv_set(self.bwd)),
                cv_set(before.universe).difference(cv_set(before.bwd)),
            );
        }
    }

    fn shrink(&mut self, set: &GraphColoredVertices)
        requires
            cv_encoding(*set) == cv_encoding(old(self).bwd),
            cv_encoding(old(self).bwd) == cv_encoding(old(self).universe),
        ensures
            final(self).reach_spec() == old(self).reach_spec().difference(cv_set(*set)),
            final(self).universe_spec() == old(self).universe_spec().difference(cv_set(*set)),
            cv_encoding(final(self).bwd) == cv_encoding(old(self).bwd),
            cv_encoding(final(self).universe) == cv_encoding(old(self).universe),
    {
        self.bwd = set_minus(&self.bwd, set);
        self.universe = set_minus(&self.universe, set);
    }
}

impl ReachAfterPostProcess {
    pub closed spec fn wf_for(&self, g: SymbolicAsyncGraph) -> bool {
        &&& self.fwd.wf_for(g)
        &&& (self.variable as nat) < graph_vars(g)
    }

    /// The forward reach set built so far.
    pub closed spec fn reach_spec(&self) -> Set<(nat, nat)> {
        self.fwd.reach_spec()
    }

    /// The universe the inner forward search is restricted to.
    pub closed spec fn universe_spec(&self) -> Set<(nat, nat)> {
        self.fwd.universe_spec()
    }

    /// The process never lost sight of the scheduler's universe `u`: the
    /// inner search is scoped to a superset of it, so a completed reach set
    /// is closed relative to `u` as well.
    pub closed spec fn sound_for(&self, g: SymbolicAsyncGraph, u: Set<(nat, nat)>, w: Seq<usize>) -> bool {
        u.subset_of(self.fwd.universe_spec())
    }

    /// Work still possible: the inner forward search, plus enough slack to
    /// cover the `ExtendedComponentProcess` spawned on completion.
    pub closed spec fn pot(&self) -> nat {
        self.fwd.pot() + cv_set(self.fwd.universe).len() + 2
    }

    pub fn new(
        variable: usize,
        graph: &SymbolicAsyncGraph,
        universe: &GraphColoredVertices,
    ) -> (r: ReachAfterPostProcess)
        requires
            (variable as nat) < graph_vars(*graph),
            cv_encoding(*universe) == graph_encoding(*graph),
            cv_set(*universe).finite(),
        ensures
            r.wf_for(*graph),
            r.reach_spec() == can_post_of(*graph, variable as nat, cv_set(*universe)).intersect(
                cv_set(*universe),
            ),
            r.universe_spec() == cv_set(*universe),
            forall|u2: Set<(nat, nat)>, w2: Seq<usize>|
                u2.subset_of(cv_set(*universe)) ==> #[trigger] r.sound_for(*graph, u2, w2),
    {
        let seed = var_can_post(graph, variable, universe);
        ReachAfterPostProcess { variable, fwd: FwdProcess::new(&seed, universe) }
    }

    /// Forward the discard to the inner forward search.
    pub(crate) fn discard(&mut self, set: &GraphColoredVertices)
        requires
            exists|g: SymbolicAsyncGraph| #[trigger] old(self).wf_for(g) && cv_encoding(*set)
                == graph_encoding(g),
        ensures
            forall|g: SymbolicAsyncGraph| #[trigger] old(self).wf_for(g) ==> final(self).wf_for(g),
            final(self).pot() <= old(self).pot(),
            forall|g: SymbolicAsyncGraph, u: Set<(nat, nat)>, w: Seq<usize>|
                #[trigger] old(self).sound_for(g, u, w) && u.disjoint(cv_set(*set))
                    ==> final(self).sound_for(g, u, w),
    {
        proof {
            let g0 = choose|g: SymbolicAsyncGraph|
                #[trigger] old(self).wf_for(g) && cv_encoding(*set) == graph_encoding(g);
            assert(old(self).fwd.wf_for(g0) && cv_encoding(*set) == graph_encoding(g0));
        }
        self.fwd.discard(set);
        proof {
            let g0 = choose|g: SymbolicAsyncGraph|
                #[trigger] old(self).wf_for(g) && cv_encoding(*set) == graph_encoding(g);
            assert(old(self).fwd.wf_for(g0));
            lemma_len_subset(self.fwd.universe_spec(), old(self).fwd.universe_spec());
        }
    }
}

impl ExtendedComponentProcess {
    pub closed spec fn wf_for(&self, g: SymbolicAsyncGraph) -> bool {
        &&& self.bwd.wf_for(g)
        &&& (self.variable as nat) < graph_vars(g)
        &&& cv_encoding(self.fwd_set) == graph_encoding(g)
        &&& cv_set(self.fwd_set).finite()
    }

    /// The forward set whose extended component is being carved out.
    pub closed spec fn component_spec(&self) -> Set<(nat, nat)> {
        cv_set(self.fwd_set)
    }

    /// The extended component built so far.
    pub closed spec fn extended_spec(&self) -> Set<(nat, nat)> {
        self.bwd.reach_spec()
    }

    /// The universe the inner backward search is restricted to.
    pub closed spec fn scope_spec(&self) -> Set<(nat, nat)> {
        self.bwd.universe_spec()
    }

    /// The forward set was completed against the remembered base universe
    /// and variables, of which the scheduler's current universe `u` and
    /// variables `w` are a shrinkage; and no pair of `u` inside the forward
    /// set ever left the inner search's scope.
    pub closed spec fn sound_for(&self, g: SymbolicAsyncGraph, u: Set<(nat, nat)>, w: Seq<usize>) -> bool {
        &&& fwd_closed(g, self.base_variables@, self.base_universe@, cv_set(self.fwd_set))
        &&& u.subset_of(self.base_universe@)
        &&& (forall|x: usize| w.contains(x) ==> self.base_variables@.contains(x))
        &&& u.intersect(cv_set(self.fwd_set)).subset_of(self.bwd.universe_spec())
    }

    /// Work still possible: the inner backward search.
    pub closed spec fn pot(&self) -> nat {
        self.bwd.pot()
    }

    pub fn new(
        variable: usize,
        fwd_set: &GraphColoredVertices,
        universe: &GraphColoredVertices,
        graph: &SymbolicAsyncGraph,
        base_variables: Ghost<Seq<usize>>,
    ) -> (r: ExtendedComponentProcess)
        requires
            (variable as nat) < graph_vars(*graph),
            cv_encoding(*fwd_set) == graph_encoding(*graph),
            cv_set(*fwd_set).finite(),
            cv_encoding(*universe) == graph_encoding(*graph),
            fwd_closed(*graph, base_variables@, cv_set(*universe), cv_set(*fwd_set)),
        ensures
            r.wf_for(*graph),
            r.pot() <= cv_set(*fwd_set).len() + 1,
            r.component_spec() == cv_set(*fwd_set),
            r.scope_spec() == cv_set(*fwd_set),
            r.extended_spec() == can_post_of(*graph, variable as nat, cv_set(*universe)).intersect(
                cv_set(*fwd_set),
            ),
            forall|u2: Set<(nat, nat)>, w2: Seq<usize>|
                u2.subset_of(cv_set(*universe)) && (forall|x: usize|
                    w2.contains(x) ==> base_variables@.contains(x)) ==> #[trigger] r.sound_for(
                    *graph,
                    u2,
                    w2,
                ),
    {
        let seed = var_can_post(graph, variable, universe);
        let bwd = BwdProcess::new(&seed, fwd_set);
        proof {
            lemma_len_subset(cv_set(*fwd_set).difference(bwd.reach_spec()), cv_set(*fwd_set));
        }
        ExtendedComponentProcess {
            variable,
            fwd_set: set_clone(fwd_set),
            bwd,
            base_universe: Ghost(cv_set(*universe)),
            base_variables,
        }
    }

    /// Forward the discard to the inner backward search.
    pub(crate) fn discard(&mut self, set: &GraphColoredVertices)
        requires
            exists|g: SymbolicAsyncGraph| #[trigger] old(self).wf_for(g) && cv_encoding(*set)
                == graph_encoding(g),
        ensures
            forall|g: SymbolicAsyncGraph| #[trigger] old(self).wf_for(g) ==> final(self).wf_for(g),
            final(self).pot() <= old(self).pot(),
            forall|g: SymbolicAsyncGraph, u: Set<(nat, nat)>, w: Seq<usize>|
                #[trigger] old(self).sound_for(g, u, w) && u.disjoint(cv_set(*set))
                    ==> final(self).sound_for(g, u, w),
    {
        proof {
            let g0 = choose|g: SymbolicAsyncGraph|
                #[trigger] old(self).wf_for(g) && cv_encoding(*set) == graph_encoding(g);
            assert(old(self).bwd.wf_for(g0) && cv_encoding(*set) == graph_encoding(g0));
        }
        self.bwd.discard(set);
    }
}

impl AnyProcess {
    pub open spec fn wf_any(&self, g: SymbolicAsyncGraph) -> bool {
        match self {
            AnyProcess::Fwd(p) => p.wf_for(g),
            AnyProcess::Bwd(p) => p.wf_for(g),
            AnyProcess::ReachAfterPost(p) => p.wf_for(g),
            AnyProcess::ExtendedComponent(p) => p.wf_for(g),
        }
    }

    pub open spec fn pot_any(&self) -> nat {
        match self {
            AnyProcess::Fwd(p) => p.pot(),
            AnyProcess::Bwd(p) => p.pot(),
            AnyProcess::ReachAfterPost(p) => p.pot(),
            AnyProcess::ExtendedComponent(p) => p.pot(),
        }
    }

    /// The process will never discard a pair of a terminal component out of
    /// the universe `u`, given that `w` lists the variables still in use.
    /// The plain searches never discard at all; the two reduction stages
    /// carry what their basin eliminations rest on.
    pub open spec fn sound_any(&self, g: SymbolicAsyncGraph, u: Set<(nat, nat)>, w: Seq<usize>) -> bool {
        match self {
            AnyProcess::Fwd(p) => true,
            AnyProcess::Bwd(p) => true,
            AnyProcess::ReachAfterPost(p) => p.sound_for(g, u, w),
            AnyProcess::ExtendedComponent(p) => p.sound_for(g, u, w),
        }
    }

    /// Forward the discard to the carried process.
    pub(crate) fn discard(&mut self, set: &GraphColoredVertices)
        requires
            exists|g: SymbolicAsyncGraph| #[trigger] old(self).wf_any(g) && cv_encoding(*set)
                == graph_encoding(g),
        ensures
            forall|g: SymbolicAsyncGraph| #[trigger] old(self).wf_any(g) ==> final(self).wf_any(g),
            final(self).pot_any() <= old(self).pot_any(),
            forall|g: SymbolicAsyncGraph, u: Set<(nat, nat)>, w: Seq<usize>|
                #[trigger] old(self).sound_any(g, u, w) && u.disjoint(cv_set(*set))
                    ==> final(self).sound_any(g, u, w),
    {
        proof {
            let g0 = choose|g: SymbolicAsyncGraph|
                #[trigger] old(self).wf_any(g) && cv_encoding(*set) == graph_encoding(g);
            assert(old(self).wf_any(g0));
        }
        match self {
            AnyProcess::Fwd(p) => p.discard(set),
            AnyProcess::Bwd(p) => p.discard(set),
            AnyProcess::ReachAfterPost(p) => p.discard(set),
            AnyProcess::ExtendedComponent(p) => p.discard(set),
        }
    }
}

/// What well-formedness of a forward process gives its callers.
pub proof fn lemma_fwd_wf(p: &FwdProcess, g: SymbolicAsyncGraph)
    requires
        p.wf_for(g),
    ensures
        p.enc_spec() == graph_encoding(g),
        p.reach_spec().finite(),
        p.universe_spec().finite(),
        p.reach_spec().subset_of(p.universe_spec()),
{
}

/// The combined potential of a sequence of processes.
pub open spec fn pots_sum(s: Seq<AnyProcess>) -> nat
    decreases s.len(),
{
    if s.len() == 0 {
        0
    } else {
        pots_sum(s.drop_last()) + s.last().pot_any()
    }
}

/// The combined potential of a sequence of weighted processes.
pub open spec fn weighted_pots_sum(s: Seq<(usize, AnyProcess)>) -> nat
    decreases s.len(),
{
    if s.len() == 0 {
        0
    } else {
        weighted_pots_sum(s.drop_last()) + s.last().1.pot_any()
    }
}

/// Removing one process splits the combined potential.
pub proof fn lemma_pots_sum_remove(s: Seq<AnyProcess>, i: int)
    requires
        0 <= i < s.len(),
    ensures
        pots_sum(s) == pots_sum(s.remove(i)) + s[i].pot_any(),
    decreases s.len(),
{
    if i == s.len() - 1 {
        assert(s.remove(i) =~= s.drop_last());
    } else {
        assert(s.remove(i).drop_last() =~= s.drop_last().remove(i));
        assert(s.remove(i).last() == s.last());
        lemma_pots_sum_remove(s.drop_last(), i);
    }
}

/// Soundness of a pending process survives shrinking the universe and the
/// variable list.
pub proof fn lemma_sound_any_mono(
    p: AnyProcess,
    g: SymbolicAsyncGraph,
    u: Set<(nat, nat)>,
    u_small: Set<(nat, nat)>,
    w: Seq<usize>,
    w_small: Seq<usize>,
)
    requires
        p.sound_any(g, u, w),
        u_small.subset_of(u),
        forall|x: usize| w_small.contains(x) ==> w.contains(x),
    ensures
        p.sound_any(g, u_small, w_small),
{
    match p {
        AnyProcess::Fwd(q) => {},
        AnyProcess::Bwd(q) => {},
        AnyProcess::ReachAfterPost(q) => {},
        AnyProcess::ExtendedComponent(q) => {},
    }
}

/// A process always has at least one unit of potential, so a sequence's
/// combined potential vanishes exactly when the sequence is empty.
pub proof fn lemma_pots_sum_zero(s: Seq<AnyProcess>)
    ensures
        (pots_sum(s) == 0) <==> (s.len() == 0),
    decreases s.len(),
{
    if s.len() > 0 {
        assert(s.last().pot_any() >= 1) by {
            match s.last() {
                AnyProcess::Fwd(p) => {},
                AnyProcess::Bwd(p) => {},
                AnyProcess::ReachAfterPost(p) => {},
                AnyProcess::ExtendedComponent(p) => {},
            }
        }
    }
}

/// The weighted form of [`lemma_pots_sum_zero`].
pub proof fn lemma_weighted_pots_sum_zero(s: Seq<(usize, AnyProcess)>)
    ensures
        (weighted_pots_sum(s) == 0) <==> (s.len() == 0),
    decreases s.len(),
{
    if s.len() > 0 {
        assert(s.last().1.pot_any() >= 1) by {
            match s.last().1 {
                AnyProcess::Fwd(p) => {},
                AnyProcess::Bwd(p) => {},
                AnyProcess::ReachAfterPost(p) => {},
                AnyProcess::ExtendedComponent(p) => {},
            }
        }
    }
}

impl Process for FwdProcess {
    open spec fn proc_wf(&self, g: SymbolicAsyncGraph) -> bool {
        self.wf_for(g)
    }

    open spec fn proc_pot(&self) -> nat {
        self.pot()
    }

    open spec fn sound(&self, g: SymbolicAsyncGraph, u: Set<(nat, nat)>, w: Seq<usize>) -> bool {
        true
    }

    fn step(&mut self, scheduler: &mut SchedulerCore, graph: &SymbolicAsyncGraph) -> (done: bool) {
        proof {
            scheduler.wf_facts(*graph);
        }
        self.advance(scheduler.variables(), graph)
    }

    fn weight(&self) -> usize {
        symbolic_size(&self.fwd)
    }

    fn discard_states(&mut self, set: &GraphColoredVertices) {
        self.discard(set);
    }
}

impl Process for BwdProcess {
    open spec fn proc_wf(&self, g: SymbolicAsyncGraph) -> bool {
        self.wf_for(g)
    }

    open spec fn proc_pot(&self) -> nat {
        self.pot()
    }

    open spec fn sound(&self, g: SymbolicAsyncGraph, u: Set<(nat, nat)>, w: Seq<usize>) -> bool {
        true
    }

    fn step(&mut self, scheduler: &mut SchedulerCore, graph: &SymbolicAsyncGraph) -> (done: bool) {
        proof {
            scheduler.wf_facts(*graph);
        }
        self.advance(scheduler.variables(), graph)
    }

    fn weight(&self) -> usize {
        symbolic_size(&self.bwd)
    }

    fn discard_states(&mut self, set: &GraphColoredVertices) {
        self.discard(set);
    }
}

impl Process for ReachAfterPostProcess {
    open spec fn proc_wf(&self, g: SymbolicAsyncGraph) -> bool {
        self.wf_for(g)
    }

    open spec fn proc_pot(&self) -> nat {
        self.pot()
    }

    open spec fn sound(&self, g: SymbolicAsyncGraph, u: Set<(nat, nat)>, w: Seq<usize>) -> bool {
        self.sound_for(g, u, w)
    }

    /// Advance the forward search. On completion, discard the basin of the
    /// reached set and spawn the extended-component stage.
    fn step(&mut self, scheduler: &mut SchedulerCore, graph: &SymbolicAsyncGraph) -> (done: bool) {
        let ghost g = *graph;
        let ghost u_entry = scheduler.universe_set();
        let ghost v_now = scheduler.variable_seq();
        proof {
            scheduler.wf_facts(*graph);
        }
        if self.fwd.advance(scheduler.variables(), graph) {
            proof {
                lemma_len_subset(self.fwd.reach_spec(), self.fwd.universe_spec());
                lemma_fwd_closed_mono_universe(
                    g,
                    v_now,
                    self.fwd.universe_spec(),
                    u_entry,
                    self.fwd.reach_spec(),
                );
            }
            if !set_is_subset(scheduler.universe(), self.fwd.reach_set()) {
                let basin_all = reach_bwd(
                    graph,
                    scheduler.variables(),
                    self.fwd.reach_set(),
                    scheduler.universe(),
                );
                let basin = set_minus(&basin_all, self.fwd.reach_set());
                if !set_is_empty(&basin) {
                    proof {
                        assert(scheduler.wf(*graph) && cv_encoding(basin) == graph_encoding(
                            *graph,
                        ));
                    }
                    scheduler.discard_states(&basin);
                    proof {
                        assert forall|w2: Seq<usize>, bs: Set<(nat, nat)>, c: nat|
                            vars_ok(g, w2) && #[trigger] bottom_scc(g, w2, u_entry, bs, c) implies
                            bs.subset_of(scheduler.universe_set()) by {
                            assert forall|a: (nat, nat), b: (nat, nat)|
                                #![trigger bs.contains(a), bs.contains(b)]
                                bs.contains(a) && bs.contains(b) implies linked_via(
                                g,
                                v_now,
                                bs,
                                a,
                                b,
                            ) by {
                                assert(linked_via(g, w2, bs, a, b));
                                let p = choose|p: Seq<(nat, nat)>|
                                    #[trigger] vars_chain(g, w2, bs, p) && p.first() == a
                                        && p.last() == b;
                                lemma_chain_retarget(g, w2, v_now, u_entry, bs, p);
                                assert(vars_chain(g, v_now, bs, p));
                            }
                            lemma_scc_misses_reach_basin(
                                g,
                                v_now,
                                u_entry,
                                self.fwd.reach_spec(),
                                bs,
                            );
                            assert forall|e: (nat, nat)| bs.contains(e) implies
                                scheduler.universe_set().contains(e) by {
                                assert(!cv_set(basin).contains(e));
                            }
                        }
                    }
                }
            }
            proof {
                scheduler.wf_facts(*graph);
                lemma_fwd_closed_mono_universe(
                    g,
                    v_now,
                    u_entry,
                    scheduler.universe_set(),
                    self.fwd.reach_spec(),
                );
            }
            let ghost spawned_before = scheduler.spawned_seq();
            let ec = ExtendedComponentProcess::new(
                self.variable,
                self.fwd.reach_set(),
                scheduler.universe(),
                graph,
                Ghost(v_now),
            );
            let ghost ec_snapshot = ec;
            scheduler.spawn(AnyProcess::ExtendedComponent(ec));
            proof {
                assert(scheduler.spawned_seq().drop_last() =~= spawned_before);
                assert(scheduler.spawned_seq().last() == AnyProcess::ExtendedComponent(
                    ec_snapshot,
                ));
            }
            true
        } else {
            false
        }
    }

    fn weight(&self) -> usize {
        self.fwd.weight()
    }

    fn discard_states(&mut self, set: &GraphColoredVertices) {
        self.discard(set);
    }
}

impl Process for ExtendedComponentProcess {
    open spec fn proc_wf(&self, g: SymbolicAsyncGraph) -> bool {
        self.wf_for(g)
    }

    open spec fn proc_pot(&self) -> nat {
        self.pot()
    }

    open spec fn sound(&self, g: SymbolicAsyncGraph, u: Set<(nat, nat)>, w: Seq<usize>) -> bool {
        self.sound_for(g, u, w)
    }

    /// Advance the backward search inside the forward set. On completion,
    /// discard the basin of the bottom region and retire the variable if it
    /// can no longer fire anywhere in the universe.
    fn step(&mut self, scheduler: &mut SchedulerCore, graph: &SymbolicAsyncGraph) -> (done: bool) {
        let ghost g = *graph;
        let ghost u_entry = scheduler.universe_set();
        let ghost v_now = scheduler.variable_seq();
        proof {
            scheduler.wf_facts(*graph);
        }
        if self.bwd.advance(scheduler.variables(), graph) {
            proof {
                lemma_fwd_closed_mono_vars(
                    g,
                    self.base_variables@,
                    v_now,
                    self.base_universe@,
                    cv_set(self.fwd_set),
                );
                lemma_fwd_closed_mono_universe(
                    g,
                    v_now,
                    self.base_universe@,
                    u_entry,
                    cv_set(self.fwd_set),
                );
            }
            let bottom = set_minus(&self.fwd_set, self.bwd.reach_set());
            if !set_is_empty(&bottom) {
                proof {
                    vstd::set_lib::lemma_set_subset_finite(cv_set(self.fwd_set), cv_set(bottom));
                }
                let basin_all = reach_bwd(
                    graph,
                    scheduler.variables(),
                    &bottom,
                    scheduler.universe(),
                );
                let basin = set_minus(&basin_all, &bottom);
                if !set_is_empty(&basin) {
                    proof {
                        assert(scheduler.wf(*graph) && cv_encoding(basin) == graph_encoding(
                            *graph,
                        ));
                    }
                    scheduler.discard_states(&basin);
                    proof {
                        assert forall|w2: Seq<usize>, bs: Set<(nat, nat)>, c: nat|
                            vars_ok(g, w2) && #[trigger] bottom_scc(g, w2, u_entry, bs, c) implies
                            bs.subset_of(scheduler.universe_set()) by {
                            assert forall|a: (nat, nat), b: (nat, nat)|
                                #![trigger bs.contains(a), bs.contains(b)]
                                bs.contains(a) && bs.contains(b) implies linked_via(
                                g,
                                v_now,
                                bs,
                                a,
                                b,
                            ) by {
                                assert(linked_via(g, w2, bs, a, b));
                                let p = choose|p: Seq<(nat, nat)>|
                                    #[trigger] vars_chain(g, w2, bs, p) && p.first() == a
                                        && p.last() == b;
                                lemma_chain_retarget(g, w2, v_now, u_entry, bs, p);
                                assert(vars_chain(g, v_now, bs, p));
                            }
                            lemma_scc_misses_bottom_basin(
                                g,
                                v_now,
                                u_entry,
                                cv_set(self.fwd_set),
                                self.bwd.reach_spec(),
                                self.bwd.universe_spec(),
                                bs,
                            );
                            assert forall|e: (nat, nat)| bs.contains(e) implies
                                scheduler.universe_set().contains(e) by {
                                assert(!cv_set(basin).contains(e));
                            }
                        }
                    }
                }
            }
            proof {
                scheduler.wf_facts(*graph);
            }
            let still_firing = var_can_post(graph, self.variable, scheduler.universe());
            if set_is_empty(&still_firing) {
                proof {
                    assert(scheduler.wf(*graph) && can_post_of(
                        g,
                        self.variable as nat,
                        scheduler.universe_set(),
                    ).is_empty());
                }
                scheduler.discard_variable(self.variable);
            }
            true
        } else {
            false
        }
    }

    fn weight(&self) -> usize {
        self.bwd.weight()
    }

    fn discard_states(&mut self, set: &GraphColoredVertices) {
        self.discard(set);
    }
}

impl Process for AnyProcess {
    open spec fn proc_wf(&self, g: SymbolicAsyncGraph) -> bool {
        self.wf_any(g)
    }

    open spec fn proc_pot(&self) -> nat {
        self.pot_any()
    }

    open spec fn sound(&self, g: SymbolicAsyncGraph, u: Set<(nat, nat)>, w: Seq<usize>) -> bool {
        self.sound_any(g, u, w)
    }

    fn step(&mut self, scheduler: &mut SchedulerCore, graph: &SymbolicAsyncGraph) -> (done: bool) {
        match self {
            AnyProcess::Fwd(p) => p.step(scheduler, graph),
            AnyProcess::Bwd(p) => p.step(scheduler, graph),
            AnyProcess::ReachAfterPost(p) => p.step(scheduler, graph),
            AnyProcess::ExtendedComponent(p) => p.step(scheduler, graph),
        }
    }

    fn weight(&self) -> usize {
        match self {
            AnyProcess::Fwd(p) => p.weight(),
            AnyProcess::Bwd(p) => p.weight(),
            AnyProcess::ReachAfterPost(p) => p.weight(),
            AnyProcess::ExtendedComponent(p) => p.weight(),
        }
    }

    fn discard_states(&mut self, set: &GraphColoredVertices) {
        proof {
            let g0 = choose|g: SymbolicAsyncGraph|
                #[trigger] old(self).wf_any(g) && cv_encoding(*set) == graph_encoding(g);
            assert(old(self).wf_any(g0) && cv_encoding(*set) == graph_encoding(g0));
        }
        match self {
            AnyProcess::Fwd(p) => p.discard(set),
            AnyProcess::Bwd(p) => p.discard(set),
            AnyProcess::ReachAfterPost(p) => p.discard(set),
            AnyProcess::ExtendedComponent(p) => p.discard(set),
        }
    }
}

/// Removing one weighted process splits the combined potential.
pub proof fn lemma_weighted_pots_sum_remove(s: Seq<(usize, AnyProcess)>, i: int)
    requires
        0 <= i < s.len(),
    ensures
        weighted_pots_sum(s) == weighted_pots_sum(s.remove(i)) + s[i].1.pot_any(),
    decreases s.len(),
{
    if i == s.len() - 1 {
        assert(s.remove(i) =~= s.drop_last());
    } else {
        assert(s.remove(i).drop_last() =~= s.drop_last().remove(i));
        assert(s.remove(i).last() == s.last());
        lemma_weighted_pots_sum_remove(s.drop_last(), i);
    }
}

} // verus!
