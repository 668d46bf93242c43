//! The saturating reachability kernels, the transition guided reduction
//! drivers, and the attractor search over the reduced universe.

use vstd::prelude::*;
use vstd::set_lib::lemma_len_subset;

use biodivine_lib_param_bn::symbolic_async_graph::GraphColoredVertices;
use biodivine_lib_param_bn::symbolic_async_graph::SymbolicAsyncGraph;

use crate::reach::can_step;
use crate::reach::fwd_closed;
use crate::reach::fwd_reach;
use crate::reach::bwd_closed;
use crate::reach::bwd_reach;
use crate::reach::lemma_can_post_monotone;
use crate::reach::lemma_nonempty_witness;
use crate::reach::lemma_bwd_reach_bound;
use crate::reach::lemma_bwd_reach_extend;
use crate::reach::lemma_bwd_reach_init;
use crate::reach::lemma_bwd_reach_minimal;
use crate::reach::lemma_fwd_reach_bound;
use crate::reach::lemma_fwd_reach_extend;
use crate::reach::lemma_fwd_reach_init;
use crate::reach::lemma_fwd_reach_minimal;
use crate::reach::bottom_scc;
use crate::reach::covers;
use crate::reach::lemma_chain_retarget;
use crate::reach::lemma_bwd_reach_closed;
use crate::reach::lemma_fwd_reach_closed;
use crate::reach::lemma_scc_misses_bottom_basin;
use crate::reach::lemma_scc_misses_reach_basin;
use crate::reach::linked_via;
use crate::reach::vars_chain;
use crate::reach::vars_post_closed;
use crate::reach::lemma_can_step_any;
use crate::reach::colour_connected;
use crate::reach::lemma_attractor_connected;
use crate::reach::lemma_bottom_scc_step;
use crate::reach::pivot_basin;
use crate::reach::pivot_component;
use crate::reach::terminal_colours;
use crate::reach::vars_ok;
use crate::process::AnyProcess;
use crate::process::FwdProcess;
use crate::process::ReachAfterPostProcess;
use crate::process::Scheduler;
use crate::process::lemma_fwd_wf;
use crate::scheduler::PriorityScheduler;
use crate::scheduler::RoundRobinScheduler;
use crate::symbolic::any_step;
use crate::symbolic::can_post_of;
use crate::symbolic::colour_set;
use crate::symbolic::colours_is_empty;
use crate::symbolic::colours_minus;
use crate::symbolic::colours_of;
use crate::symbolic::cv_encoding;
use crate::symbolic::cv_set;
use crate::symbolic::graph_encoding;
use crate::symbolic::graph_unit;
use crate::symbolic::graph_vars;
use crate::symbolic::pick_vertex;
use crate::symbolic::post_all;
use crate::symbolic::post_closed;
use crate::symbolic::post_of;
use crate::symbolic::restrict_colours;
use crate::symbolic::set_clone;
use crate::symbolic::set_colours;
use crate::symbolic::set_intersect;
use crate::symbolic::set_intersect_colours;
use crate::symbolic::set_is_empty;
use crate::symbolic::set_is_subset;
use crate::symbolic::set_minus;
use crate::symbolic::set_union;
use crate::symbolic::steps_to;
use crate::symbolic::var_can_post;
use crate::symbolic::var_post;
use crate::symbolic::var_post_of;
use crate::symbolic::var_pre;
use crate::symbolic::var_pre_of;
use crate::symbolic::unit_set;
use crate::symbolic::variable_count;

verus! {

/// Performs a saturating forwards reachability search: the least superset of
/// `initial` that absorbs every transition of `variables` landing in
/// `universe`. Saturation exhausts the highest-indexed productive variable
/// before broadening, but the result is the unique fixed point regardless.
pub fn reach_fwd(
    graph: &SymbolicAsyncGraph,
    variables: &Vec<usize>,
    initial: &GraphColoredVertices,
    universe: &GraphColoredVertices,
) -> (r: GraphColoredVertices)
    requires
        vars_ok(*graph, variables@),
        cv_encoding(*initial) == graph_encoding(*graph),
        cv_encoding(*universe) == graph_encoding(*graph),
        cv_set(*initial).finite(),
        cv_set(*universe).finite(),
    ensures
        cv_set(r) == fwd_reach(*graph, variables@, cv_set(*initial), cv_set(*universe)),
        cv_encoding(r) == graph_encoding(*graph),
        cv_set(r).finite(),
{
    let ghost g = *graph;
    let ghost vars = variables@;
    let ghost init = cv_set(*initial);
    let ghost u = cv_set(*universe);
    let ghost total = init.union(u);
    let mut result = set_clone(initial);
    proof {
        lemma_fwd_reach_init(g, vars, init, u);
    }
    if variables.len() == 0 {
        proof {
            lemma_fwd_reach_minimal(g, vars, init, u, init);
            assert(cv_set(result) == fwd_reach(g, vars, init, u));
        }
        return result;
    }
    let last_variable: usize = variables.len() - 1;
    let mut active_variable: usize = last_variable;
    proof {
        vstd::set_lib::lemma_set_union_finite_iff(init, u);
    }
    loop
        invariant
            g == *graph,
            vars_ok(g, vars),
            vars == variables@,
            vars.len() >= 1,
            last_variable == vars.len() - 1,
            active_variable <= last_variable,
            init == cv_set(*initial),
            u == cv_set(*universe),
            total == init.union(u),
            init.finite(),
            u.finite(),
            total.finite(),
            cv_encoding(*universe) == graph_encoding(g),
            cv_encoding(result) == graph_encoding(g),
            cv_set(result).finite(),
            init.subset_of(cv_set(result)),
            cv_set(result).subset_of(total),
            cv_set(result).subset_of(fwd_reach(g, vars, init, u)),
            forall|j: int|
                active_variable < j < vars.len() ==> var_post_of(g, #[trigger] vars[j] as nat,
                cv_set(result)).intersect(u).subset_of(cv_set(result)),
        ensures
            fwd_closed(g, vars, u, cv_set(result)),
        decreases total.len() - cv_set(result).len(), active_variable,
    {
        let variable = variables[active_variable];
        let image = var_post(graph, variable, &result);
        let bounded = set_intersect(&image, universe);
        let fresh = set_minus(&bounded, &result);
        if !set_is_empty(&fresh) {
            proof {
                let old_set = cv_set(result);
                let fresh_set = cv_set(fresh);
                let v = vars[active_variable as int] as nat;
                assert(fresh_set.subset_of(u));
                vstd::set_lib::lemma_set_subset_finite(u, fresh_set);
                assert forall|b: (nat, nat)| fresh_set.contains(b) implies fwd_reach(
                    g,
                    vars,
                    init,
                    u,
                ).contains(b) by {
                    assert(var_post_of(g, v, old_set).contains(b));
                    let a = choose|a: (nat, nat)| old_set.contains(a) && steps_to(g, v, a, b);
                    assert(steps_to(g, vars[active_variable as int] as nat, a, b));
                    assert(can_step(g, vars, a, b));
                    lemma_fwd_reach_extend(g, vars, init, u, a, b);
                }
                let b = fresh_set.choose();
                assert(fresh_set.contains(b));
                vstd::set_lib::lemma_set_union_finite_iff(old_set, fresh_set);
                old_set.lemma_subset_not_in_lt(old_set.union(fresh_set), b);
                lemma_len_subset(old_set.union(fresh_set), total);
            }
            result = set_union(&result, &fresh);
            active_variable = last_variable;
        } else {
            proof {
                let v = vars[active_variable as int] as nat;
                assert forall|b: (nat, nat)|
                    var_post_of(g, v, cv_set(result)).intersect(u).contains(b) implies cv_set(
                    result,
                ).contains(b) by {
                    assert(!cv_set(fresh).contains(b));
                }
            }
            if active_variable == 0 {
                proof {
                    assert forall|a: (nat, nat), b: (nat, nat)|
                        cv_set(result).contains(a) && u.contains(b) && #[trigger] can_step(
                            g,
                            vars,
                            a,
                            b,
                        ) implies cv_set(result).contains(b) by {
                        let i = choose|i: int|
                            0 <= i < vars.len() && #[trigger] steps_to(g, vars[i] as nat, a, b);
                        assert(var_post_of(g, vars[i] as nat, cv_set(result)).contains(b));
                        assert(var_post_of(g, vars[i] as nat, cv_set(result)).intersect(u).subset_of(
                            cv_set(result),
                        ));
                    }
                }
                break;
            } else {
                active_variable = active_variable - 1;
            }
        }
    }
    proof {
        lemma_fwd_reach_minimal(g, vars, init, u, cv_set(result));
        lemma_fwd_reach_bound(g, vars, init, u);
        assert(cv_set(result) == fwd_reach(g, vars, init, u));
    }
    result
}

/// Performs a saturating backwards reachability search: the least superset
/// of `initial` that absorbs, backwards, every transition of `variables`
/// starting in `universe`.
pub fn reach_bwd(
    graph: &SymbolicAsyncGraph,
    variables: &Vec<usize>,
    initial: &GraphColoredVertices,
    universe: &GraphColoredVertices,
) -> (r: GraphColoredVertices)
    requires
        vars_ok(*graph, variables@),
        cv_encoding(*initial) == graph_encoding(*graph),
        cv_encoding(*universe) == graph_encoding(*graph),
        cv_set(*initial).finite(),
        cv_set(*universe).finite(),
    ensures
        cv_set(r) == bwd_reach(*graph, variables@, cv_set(*initial), cv_set(*universe)),
        cv_encoding(r) == graph_encoding(*graph),
        cv_set(r).finite(),
{
    let ghost g = *graph;
    let ghost vars = variables@;
    let ghost init = cv_set(*initial);
    let ghost u = cv_set(*universe);
    let ghost total = init.union(u);
    let mut result = set_clone(initial);
    proof {
        lemma_bwd_reach_init(g, vars, init, u);
    }
    if variables.len() == 0 {
        proof {
            lemma_bwd_reach_minimal(g, vars, init, u, init);
            assert(cv_set(result) == bwd_reach(g, vars, init, u));
        }
        return result;
    }
    let last_variable: usize = variables.len() - 1;
    let mut active_variable: usize = last_variable;
    proof {
        vstd::set_lib::lemma_set_union_finite_iff(init, u);
    }
    loop
        invariant
            g == *graph,
            vars_ok(g, vars),
            vars == variables@,
            vars.len() >= 1,
            last_variable == vars.len() - 1,
            active_variable <= last_variable,
            init == cv_set(*initial),
            u == cv_set(*universe),
            total == init.union(u),
            init.finite(),
            u.finite(),
            total.finite(),
            cv_encoding(*universe) == graph_encoding(g),
            cv_encoding(result) == graph_encoding(g),
            cv_set(result).finite(),
            init.subset_of(cv_set(result)),
            cv_set(result).subset_of(total),
            cv_set(result).subset_of(bwd_reach(g, vars, init, u)),
            forall|j: int|
                active_variable < j < vars.len() ==> var_pre_of(g, #[trigger] vars[j] as nat,
                cv_set(result)).intersect(u).subset_of(cv_set(result)),
        ensures
            bwd_closed(g, vars, u, cv_set(result)),
        decreases total.len() - cv_set(result).len(), active_variable,
    {
        let variable = variables[active_variable];
        let image = var_pre(graph, variable, &result);
        let bounded = set_intersect(&image, universe);
        let fresh = set_minus(&bounded, &result);
        if !set_is_empty(&fresh) {
            proof {
                let old_set = cv_set(result);
                let fresh_set = cv_set(fresh);
                let v = vars[active_variable as int] as nat;
                assert(fresh_set.subset_of(u));
                vstd::set_lib::lemma_set_subset_finite(u, fresh_set);
                assert forall|a: (nat, nat)| fresh_set.contains(a) implies bwd_reach(
                    g,
                    vars,
                    init,
                    u,
                ).contains(a) by {
                    assert(var_pre_of(g, v, old_set).contains(a));
                    let b = choose|b: (nat, nat)| old_set.contains(b) && steps_to(g, v, a, b);
                    assert(steps_to(g, vars[active_variable as int] as nat, a, b));
                    assert(can_step(g, vars, a, b));
                    lemma_bwd_reach_extend(g, vars, init, u, a, b);
                }
                let a = fresh_set.choose();
                assert(fresh_set.contains(a));
                vstd::set_lib::lemma_set_union_finite_iff(old_set, fresh_set);
                old_set.lemma_subset_not_in_lt(old_set.union(fresh_set), a);
                lemma_len_subset(old_set.union(fresh_set), total);
            }
            result = set_union(&result, &fresh);
            active_variable = last_variable;
        } else {
            proof {
                let v = vars[active_variable as int] as nat;
                assert forall|a: (nat, nat)|
                    var_pre_of(g, v, cv_set(result)).intersect(u).contains(a) implies cv_set(
                    result,
                ).contains(a) by {
                    assert(!cv_set(fresh).contains(a));
                }
            }
            if active_variable == 0 {
                proof {
                    assert forall|a: (nat, nat), b: (nat, nat)|
                        cv_set(result).contains(b) && u.contains(a) && #[trigger] can_step(
                            g,
                            vars,
                            a,
                            b,
                        ) implies cv_set(result).contains(a) by {
                        let i = choose|i: int|
                            0 <= i < vars.len() && #[trigger] steps_to(g, vars[i] as nat, a, b);
                        assert(var_pre_of(g, vars[i] as nat, cv_set(result)).contains(a));
                        assert(var_pre_of(g, vars[i] as nat, cv_set(result)).intersect(u).subset_of(
                            cv_set(result),
                        ));
                    }
                }
                break;
            } else {
                active_variable = active_variable - 1;
            }
        }
    }
    proof {
        lemma_bwd_reach_minimal(g, vars, init, u, cv_set(result));
        lemma_bwd_reach_bound(g, vars, init, u);
        assert(cv_set(result) == bwd_reach(g, vars, init, u));
    }
    result
}

/// The variable list `0, 1, ..., n - 1`.
pub(crate) fn ascending_variables(n: usize) -> (r: Vec<usize>)
    ensures
        r@.len() == n as nat,
        forall|k: int| 0 <= k < n ==> r@[k] == k,
        forall|x: usize| r@.contains(x) <==> (x as nat) < n as nat,
{
    let mut ascending: Vec<usize> = Vec::new();
    for i in 0..n
        invariant
            ascending@.len() == i,
            forall|k: int| 0 <= k < i ==> ascending@[k] == k,
    {
        ascending.push(i);
    }
    proof {
        assert forall|x: usize| ascending@.contains(x) <==> (x as nat) < n as nat by {
            if (x as nat) < n as nat {
                assert(ascending@[x as int] == x);
            }
            if ascending@.contains(x) {
                let k = choose|k: int| 0 <= k < ascending@.len() && ascending@[k] == x;
            }
        }
    }
    ascending
}

/// Returns `vars` with every occurrence of `v` removed; the order of the
/// remaining entries is kept.
pub(crate) fn remove_variable(vars: &Vec<usize>, v: usize) -> (r: Vec<usize>)
    ensures
        !r@.contains(v),
        forall|k: int| 0 <= k < r@.len() ==> vars@.contains(#[trigger] r@[k]) && r@[k] != v,
        forall|x: usize| vars@.contains(x) && x != v ==> r@.contains(x),
{
    let mut kept: Vec<usize> = Vec::new();
    let n = vars.len();
    for i in 0..n
        invariant
            n == vars@.len(),
            forall|k: int| 0 <= k < kept@.len() ==> vars@.contains(#[trigger] kept@[k]) && kept@[k]
                != v,
            forall|k: int| 0 <= k < i ==> (vars@[k] == v || kept@.contains(#[trigger] vars@[k])),
    {
        let x = vars[i];
        if x != v {
            let ghost old_kept = kept@;
            kept.push(x);
            proof {
                assert(vars@.contains(x)) by {
                    assert(vars@[i as int] == x);
                }
                assert forall|k: int| 0 <= k < i + 1 implies (vars@[k] == v || kept@.contains(
                    #[trigger] vars@[k],
                )) by {
                    vstd::seq_lib::lemma_seq_contains_after_push(old_kept, x, vars@[k]);
                }
            }
        }
    }
    proof {
        if kept@.contains(v) {
            let k = choose|k: int| 0 <= k < kept@.len() && kept@[k] == v;
        }
        assert forall|x: usize| vars@.contains(x) && x != v implies kept@.contains(x) by {
            let k = choose|k: int| 0 <= k < vars@.len() && vars@[k] == x;
            assert(vars@[k] == v || kept@.contains(vars@[k]));
        }
    }
    kept
}

/// Performs transition guided reduction with each elimination step executed
/// sequentially, one variable after the other. The returned universe is a
/// subset of the one given; every variable left out of the returned list can
/// no longer fire anywhere in the returned universe.
pub fn sequential_reduction(
    graph: &SymbolicAsyncGraph,
    universe: GraphColoredVertices,
) -> (r: (GraphColoredVertices, Vec<usize>))
    requires
        cv_encoding(universe) == graph_encoding(*graph),
        cv_set(universe).finite(),
    ensures
        cv_set(r.0).subset_of(cv_set(universe)),
        cv_set(r.0).finite(),
        cv_encoding(r.0) == graph_encoding(*graph),
        vars_ok(*graph, r.1@),
        covers(*graph, r.1@, cv_set(r.0)),
        forall|w: Seq<usize>, bs: Set<(nat, nat)>, c0: nat|
            vars_ok(*graph, w) && #[trigger] bottom_scc(*graph, w, cv_set(universe), bs, c0)
                ==> bs.subset_of(cv_set(r.0)),
{
    let ghost g = *graph;
    let ghost u0 = cv_set(universe);
    let n = variable_count(graph);
    let mut active: Vec<usize> = ascending_variables(n);
    let mut current = universe;
    for v in 0..n
        invariant
            g == *graph,
            n as nat == graph_vars(g),
            cv_encoding(current) == graph_encoding(g),
            cv_set(current).finite(),
            cv_set(current).subset_of(u0),
            vars_ok(g, active@),
            covers(g, active@, cv_set(current)),
            forall|w: Seq<usize>, bs: Set<(nat, nat)>, c0: nat|
                vars_ok(g, w) && #[trigger] bottom_scc(g, w, u0, bs, c0) ==> bs.subset_of(
                    cv_set(current),
                ),
    {
        let ghost old_universe = cv_set(current);
        let can_post = var_can_post(graph, v, &current);
        proof {
            vstd::set_lib::lemma_set_subset_finite(cv_set(current), cv_set(can_post));
        }
        let reach_from_post = reach_fwd(graph, &active, &can_post, &current);
        proof {
            lemma_fwd_reach_bound(g, active@, cv_set(can_post), cv_set(current));
        }
        if !set_is_subset(&current, &reach_from_post) {
            let reach_bwd_set = reach_bwd(graph, &active, &reach_from_post, &current);
            let reach_basin = set_minus(&reach_bwd_set, &reach_from_post);
            if !set_is_empty(&reach_basin) {
                let ghost before = cv_set(current);
                current = set_minus(&current, &reach_basin);
                proof {
                    assert forall|x: usize|
                        (x as nat) < graph_vars(g) && !active@.contains(x) implies can_post_of(
                        g,
                        x as nat,
                        cv_set(current),
                    ).is_empty() by {
                        lemma_can_post_monotone(g, x as nat, cv_set(current), before);
                    }
                    assert forall|w: Seq<usize>, bs: Set<(nat, nat)>, c0: nat|
                        vars_ok(g, w) && #[trigger] bottom_scc(g, w, u0, bs, c0) implies
                        bs.subset_of(cv_set(current)) by {
                        assert(bs.subset_of(before));
                        assert forall|a: (nat, nat), b: (nat, nat)|
                            #![trigger bs.contains(a), bs.contains(b)]
                            bs.contains(a) && bs.contains(b) implies linked_via(
                            g,
                            active@,
                            bs,
                            a,
                            b,
                        ) by {
                            assert(linked_via(g, w, bs, a, b));
                            let p = choose|p: Seq<(nat, nat)>|
                                #[trigger] vars_chain(g, w, bs, p) && p.first() == a && p.last()
                                    == b;
                            lemma_chain_retarget(g, w, active@, before, bs, p);
                            assert(vars_chain(g, active@, bs, p));
                        }
                        lemma_fwd_reach_closed(g, active@, cv_set(can_post), before);
                        lemma_scc_misses_reach_basin(
                            g,
                            active@,
                            before,
                            fwd_reach(g, active@, cv_set(can_post), before),
                            bs,
                        );
                        assert forall|e: (nat, nat)| bs.contains(e) implies cv_set(
                            current,
                        ).contains(e) by {
                            assert(!bwd_reach(
                                g,
                                active@,
                                fwd_reach(g, active@, cv_set(can_post), before),
                                before,
                            ).difference(fwd_reach(g, active@, cv_set(can_post), before)).contains(
                                e,
                            ));
                        }
                    }
                }
            }
        }
        let post_extended = reach_bwd(graph, &active, &can_post, &reach_from_post);
        let bottom = set_minus(&reach_from_post, &post_extended);
        if !set_is_empty(&bottom) {
            let bottom_bwd = reach_bwd(graph, &active, &bottom, &current);
            let bottom_basin = set_minus(&bottom_bwd, &bottom);
            if !set_is_empty(&bottom_basin) {
                let ghost before = cv_set(current);
                current = set_minus(&current, &bottom_basin);
                proof {
                    assert forall|x: usize|
                        (x as nat) < graph_vars(g) && !active@.contains(x) implies can_post_of(
                        g,
                        x as nat,
                        cv_set(current),
                    ).is_empty() by {
                        lemma_can_post_monotone(g, x as nat, cv_set(current), before);
                    }
                    let fwdset = cv_set(reach_from_post);
                    assert(fwd_closed(g, active@, before, fwdset)) by {
                        lemma_fwd_reach_closed(g, active@, cv_set(can_post), old_universe);
                        assert forall|a: (nat, nat), b: (nat, nat)|
                            fwdset.contains(a) && before.contains(b) && #[trigger] can_step(
                                g,
                                active@,
                                a,
                                b,
                            ) implies fwdset.contains(b) by {
                            assert(old_universe.contains(b));
                        }
                    }
                    assert forall|w: Seq<usize>, bs: Set<(nat, nat)>, c0: nat|
                        vars_ok(g, w) && #[trigger] bottom_scc(g, w, u0, bs, c0) implies
                        bs.subset_of(cv_set(current)) by {
                        assert(bs.subset_of(before));
                        assert forall|a: (nat, nat), b: (nat, nat)|
                            #![trigger bs.contains(a), bs.contains(b)]
                            bs.contains(a) && bs.contains(b) implies linked_via(
                            g,
                            active@,
                            bs,
                            a,
                            b,
                        ) by {
                            assert(linked_via(g, w, bs, a, b));
                            let p = choose|p: Seq<(nat, nat)>|
                                #[trigger] vars_chain(g, w, bs, p) && p.first() == a && p.last()
                                    == b;
                            lemma_chain_retarget(g, w, active@, before, bs, p);
                            assert(vars_chain(g, active@, bs, p));
                        }
                        lemma_bwd_reach_closed(g, active@, cv_set(can_post), fwdset);
                        lemma_scc_misses_bottom_basin(
                            g,
                            active@,
                            before,
                            fwdset,
                            bwd_reach(g, active@, cv_set(can_post), fwdset),
                            fwdset,
                            bs,
                        );
                        assert forall|e: (nat, nat)| bs.contains(e) implies cv_set(
                            current,
                        ).contains(e) by {
                            assert(!bwd_reach(
                                g,
                                active@,
                                fwdset.difference(bwd_reach(g, active@, cv_set(can_post), fwdset)),
                                before,
                            ).difference(
                                fwdset.difference(bwd_reach(g, active@, cv_set(can_post), fwdset)),
                            ).contains(e));
                        }
                    }
                }
            }
        }
        let still_firing = var_can_post(graph, v, &current);
        if set_is_empty(&still_firing) {
            active = remove_variable(&active, v);
        }
    }
    (current, active)
}

/// Symbolic decomposition of the universe into attractors: repeatedly pick a
/// pivot, compute its basin and its forward component inside the basin, keep
/// the component for the colours under which it has no outgoing transition,
/// and drop the whole basin from the universe. Every returned set is
/// nonempty, lies inside the given universe, is closed under all transitions
/// of the graph, and the returned sets are pairwise disjoint.
pub fn find_attractors(
    graph: &SymbolicAsyncGraph,
    variables: &Vec<usize>,
    universe: GraphColoredVertices,
) -> (r: Vec<GraphColoredVertices>)
    requires
        vars_ok(*graph, variables@),
        cv_encoding(universe) == graph_encoding(*graph),
        cv_set(universe).finite(),
    ensures
        forall|i: int|
            0 <= i < r@.len() ==> !cv_set(#[trigger] r@[i]).is_empty() && cv_set(
                r@[i],
            ).subset_of(cv_set(universe)) && post_closed(*graph, cv_set(r@[i]))
                && colour_connected(*graph, cv_set(r@[i])) && cv_set(r@[i]).finite()
                && cv_encoding(r@[i]) == graph_encoding(*graph),
        forall|i: int, j: int|
            0 <= i < j < r@.len() ==> cv_set(#[trigger] r@[i]).disjoint(cv_set(#[trigger] r@[j])),
        forall|bs: Set<(nat, nat)>, c0: nat|
            #[trigger] bottom_scc(*graph, variables@, cv_set(universe), bs, c0) ==> exists|i: int|
                0 <= i < r@.len() && bs.subset_of(cv_set(#[trigger] r@[i])),
{
    let ghost g = *graph;
    let ghost vars = variables@;
    let ghost u0 = cv_set(universe);
    let mut remaining = universe;
    let mut result: Vec<GraphColoredVertices> = Vec::new();
    loop
        invariant
            g == *graph,
            vars == variables@,
            vars_ok(g, vars),
            u0.finite(),
            cv_encoding(remaining) == graph_encoding(g),
            cv_set(remaining).finite(),
            cv_set(remaining).subset_of(u0),
            forall|i: int|
                0 <= i < result@.len() ==> !cv_set(#[trigger] result@[i]).is_empty() && cv_set(
                    result@[i],
                ).subset_of(u0) && post_closed(g, cv_set(result@[i])) && colour_connected(
                    g,
                    cv_set(result@[i]),
                ) && cv_set(result@[i]).finite() && cv_encoding(result@[i]) == graph_encoding(g),
            forall|i: int|
                0 <= i < result@.len() ==> cv_set(#[trigger] result@[i]).disjoint(
                    cv_set(remaining),
                ),
            forall|i: int, j: int|
                0 <= i < j < result@.len() ==> cv_set(#[trigger] result@[i]).disjoint(
                    cv_set(#[trigger] result@[j]),
                ),
            forall|bs: Set<(nat, nat)>, c0: nat|
                #[trigger] bottom_scc(g, vars, u0, bs, c0) ==> (bs.subset_of(cv_set(remaining))
                    || exists|i: int|
                    0 <= i < result@.len() && bs.subset_of(cv_set(#[trigger] result@[i]))),
        ensures
            cv_set(remaining).is_empty(),
        decreases cv_set(remaining).len(),
    {
        if set_is_empty(&remaining) {
            break;
        }
        let pivot = pick_vertex(&remaining);
        let basin = reach_bwd(graph, variables, &pivot, &remaining);
        let component = reach_fwd(graph, variables, &pivot, &basin);
        proof {
            lemma_bwd_reach_init(g, vars, cv_set(pivot), cv_set(remaining));
            lemma_bwd_reach_bound(g, vars, cv_set(pivot), cv_set(remaining));
            lemma_fwd_reach_bound(g, vars, cv_set(pivot), cv_set(basin));
            assert(cv_set(basin).subset_of(cv_set(remaining)));
            assert(cv_set(component).subset_of(cv_set(basin)));
        }
        let all_post = post_all(graph, &component);
        let outside = set_minus(&all_post, &component);
        let exit_colours = set_colours(&outside);
        let component_colours = set_colours(&component);
        let terminal = colours_minus(&component_colours, &exit_colours);
        let ghost old_results = result@;
        if !colours_is_empty(&terminal) {
            let attractor = set_intersect_colours(&component, &terminal);
            proof {
                let comp = cv_set(component);
                let att = cv_set(attractor);
                let term = colour_set(terminal);
                assert forall|a: (nat, nat), b: (nat, nat)|
                    att.contains(a) && #[trigger] any_step(g, a, b) implies att.contains(b) by {
                    let v = choose|v: nat| v < graph_vars(g) && steps_to(g, v, a, b);
                    assert(steps_to(g, v, a, b));
                    assert(comp.contains(a));
                    assert(post_of(g, comp).contains(b));
                    assert(b.1 == a.1);
                    if !comp.contains(b) {
                        assert(cv_set(outside).contains(b));
                        assert(colours_of(cv_set(outside)).contains(b.1));
                        assert(!term.contains(b.1));
                        assert(term.contains(a.1));
                        assert(false);
                    }
                    assert(term.contains(b.1));
                }
                assert(post_closed(g, att));
                lemma_attractor_connected(g, vars, cv_set(pivot), cv_set(remaining), term);
                assert(colour_connected(g, att));
                lemma_nonempty_witness(term);
                let c = term.choose();
                assert(colours_of(comp).contains(c));
                let w = choose|w: (nat, nat)| comp.contains(w) && w.1 == c;
                assert(att.contains(w));
                assert(!att.is_empty());
                assert(att.subset_of(u0));
                vstd::set_lib::lemma_set_subset_finite(cv_set(remaining), att);
                assert forall|i: int|
                    0 <= i < result@.len() implies cv_set(#[trigger] result@[i]).disjoint(att) by {
                    assert(cv_set(result@[i]).disjoint(cv_set(remaining)));
                }
            }
            result.push(attractor);
            proof {
                assert(cv_set(result@[result@.len() - 1]).subset_of(cv_set(basin)));
                assert(cv_set(result@[result@.len() - 1]) == restrict_colours(
                    cv_set(component),
                    colour_set(terminal),
                ));
            }
        }
        let ghost before = cv_set(remaining);
        remaining = set_minus(&remaining, &basin);
        proof {
            lemma_nonempty_witness(before);
            let a = before.choose();
            assert(colours_of(before).contains(a.1));
            assert(colours_of(cv_set(pivot)).contains(a.1));
            let w = choose|w: (nat, nat)| cv_set(pivot).contains(w) && w.1 == a.1;
            assert(cv_set(basin).contains(w));
            assert(before.contains(w));
            cv_set(remaining).lemma_subset_not_in_lt(before, w);
            assert forall|i: int|
                0 <= i < result@.len() implies cv_set(#[trigger] result@[i]).disjoint(
                cv_set(remaining),
            ) by {
                if i < old_results.len() {
                    assert(result@[i] == old_results[i]);
                    assert(cv_set(result@[i]).disjoint(before));
                } else {
                    assert(cv_set(result@[i]).subset_of(cv_set(basin)));
                }
            }
            assert(cv_set(basin) == pivot_basin(g, vars, cv_set(pivot), before));
            assert(cv_set(component) == pivot_component(g, vars, cv_set(pivot), before));
            assert(colour_set(terminal) == terminal_colours(g, cv_set(component)));
            assert forall|bs: Set<(nat, nat)>, c0: nat|
                #[trigger] bottom_scc(g, vars, u0, bs, c0) implies (bs.subset_of(cv_set(remaining))
                || exists|i: int|
                0 <= i < result@.len() && bs.subset_of(cv_set(#[trigger] result@[i]))) by {
                if bs.subset_of(before) {
                    lemma_bottom_scc_step(g, vars, cv_set(pivot), before, bs, c0);
                    if bs.disjoint(pivot_basin(g, vars, cv_set(pivot), before)) {
                        assert forall|e: (nat, nat)| bs.contains(e) implies cv_set(
                            remaining,
                        ).contains(e) by {
                            assert(before.contains(e) && !cv_set(basin).contains(e));
                        }
                    } else {
                        assert(terminal_colours(
                            g,
                            pivot_component(g, vars, cv_set(pivot), before),
                        ).contains(c0));
                        assert(!colour_set(terminal).is_empty());
                        let i = old_results.len() as int;
                        assert(bs.subset_of(cv_set(result@[i])));
                    }
                } else {
                    let i = choose|i: int|
                        0 <= i < old_results.len() && bs.subset_of(cv_set(#[trigger] old_results[i]));
                    assert(result@[i] == old_results[i]);
                    assert(bs.subset_of(cv_set(result@[i])));
                }
            }
        }
    }
    proof {
        assert forall|bs: Set<(nat, nat)>, c0: nat|
            #[trigger] bottom_scc(g, vars, u0, bs, c0) implies exists|i: int|
            0 <= i < result@.len() && bs.subset_of(cv_set(#[trigger] result@[i])) by {
            if bs.subset_of(cv_set(remaining)) {
                lemma_nonempty_witness(bs);
                assert(cv_set(remaining).contains(bs.choose()));
                assert(false);
            }
        }
    }
    result
}


/// Performs transition guided reduction with the processes interleaved by
/// weight-based priority: the cheapest symbolic representation runs first.
/// The returned universe is a subset of the one given and the returned
/// variables name variables of the graph.
pub fn priority_reduction(
    graph: &SymbolicAsyncGraph,
    universe: &GraphColoredVertices,
) -> (r: (GraphColoredVertices, Vec<usize>))
    requires
        cv_encoding(*universe) == graph_encoding(*graph),
        cv_set(*universe).finite(),
    ensures
        cv_set(r.0).subset_of(cv_set(*universe)),
        cv_set(r.0).finite(),
        cv_encoding(r.0) == graph_encoding(*graph),
        vars_ok(*graph, r.1@),
        covers(*graph, r.1@, cv_set(r.0)),
        forall|w: Seq<usize>, bs: Set<(nat, nat)>, c0: nat|
            vars_ok(*graph, w) && #[trigger] bottom_scc(*graph, w, cv_set(*universe), bs, c0)
                ==> bs.subset_of(cv_set(r.0)),
{
    let ghost g = *graph;
    let ghost u0 = cv_set(*universe);
    let mut scheduler = PriorityScheduler::new(graph, universe);
    let n = variable_count(graph);
    for variable in 0..n
        invariant
            g == *graph,
            n as nat == graph_vars(g),
            scheduler.wf(g),
            scheduler.encoding() == graph_encoding(g),
            scheduler.universe_set() == u0,
            u0 == cv_set(*universe),
    {
        proof {
            scheduler.wf_facts(g);
        }
        let process = ReachAfterPostProcess::new(variable, graph, scheduler.universe());
        proof {
            assert(AnyProcess::ReachAfterPost(process).wf_any(g));
            assert(AnyProcess::ReachAfterPost(process).sound_any(
                g,
                scheduler.universe_set(),
                scheduler.variable_seq(),
            ));
        }
        scheduler.spawn_process(AnyProcess::ReachAfterPost(process));
    }
    loop
        invariant
            g == *graph,
            scheduler.wf(g),
            scheduler.encoding() == graph_encoding(g),
            scheduler.universe_set().subset_of(u0),
            u0 == cv_set(*universe),
            forall|w: Seq<usize>, bs: Set<(nat, nat)>, c0: nat|
                vars_ok(g, w) && #[trigger] bottom_scc(g, w, u0, bs, c0) ==> bs.subset_of(
                    scheduler.universe_set(),
                ),
        decreases scheduler.measure(),
    {
        let ghost u_pre = scheduler.universe_set();
        let steps = scheduler.step(graph);
        proof {
            assert forall|w: Seq<usize>, bs: Set<(nat, nat)>, c0: nat|
                vars_ok(g, w) && #[trigger] bottom_scc(g, w, u0, bs, c0) implies bs.subset_of(
                scheduler.universe_set(),
            ) by {
                assert(bs.subset_of(u_pre));
                assert(bottom_scc(g, w, u_pre, bs, c0));
            }
        }
        if steps == 0 {
            break;
        }
    }
    proof {
        scheduler.wf_facts(g);
    }
    scheduler.finalize()
}

/// Performs transition guided reduction with the processes interleaved
/// round-robin: every live process advances once per round.
pub fn round_robin_reduction(
    graph: &SymbolicAsyncGraph,
    universe: &GraphColoredVertices,
) -> (r: (GraphColoredVertices, Vec<usize>))
    requires
        cv_encoding(*universe) == graph_encoding(*graph),
        cv_set(*universe).finite(),
    ensures
        cv_set(r.0).subset_of(cv_set(*universe)),
        cv_set(r.0).finite(),
        cv_encoding(r.0) == graph_encoding(*graph),
        vars_ok(*graph, r.1@),
        covers(*graph, r.1@, cv_set(r.0)),
        forall|w: Seq<usize>, bs: Set<(nat, nat)>, c0: nat|
            vars_ok(*graph, w) && #[trigger] bottom_scc(*graph, w, cv_set(*universe), bs, c0)
                ==> bs.subset_of(cv_set(r.0)),
{
    let ghost g = *graph;
    let ghost u0 = cv_set(*universe);
    let mut scheduler = RoundRobinScheduler::new(graph, universe);
    let n = variable_count(graph);
    for variable in 0..n
        invariant
            g == *graph,
            n as nat == graph_vars(g),
            scheduler.wf(g),
            scheduler.encoding() == graph_encoding(g),
            scheduler.universe_set() == u0,
            u0 == cv_set(*universe),
    {
        proof {
            scheduler.wf_facts(g);
        }
        let process = ReachAfterPostProcess::new(variable, graph, scheduler.universe());
        proof {
            assert(AnyProcess::ReachAfterPost(process).wf_any(g));
            assert(AnyProcess::ReachAfterPost(process).sound_any(
                g,
                scheduler.universe_set(),
                scheduler.variable_seq(),
            ));
        }
        scheduler.spawn_process(AnyProcess::ReachAfterPost(process));
    }
    loop
        invariant
            g == *graph,
            scheduler.wf(g),
            scheduler.encoding() == graph_encoding(g),
            scheduler.universe_set().subset_of(u0),
            u0 == cv_set(*universe),
            forall|w: Seq<usize>, bs: Set<(nat, nat)>, c0: nat|
                vars_ok(g, w) && #[trigger] bottom_scc(g, w, u0, bs, c0) ==> bs.subset_of(
                    scheduler.universe_set(),
                ),
        decreases scheduler.measure(),
    {
        let ghost u_pre = scheduler.universe_set();
        let steps = scheduler.step(graph);
        proof {
            assert forall|w: Seq<usize>, bs: Set<(nat, nat)>, c0: nat|
                vars_ok(g, w) && #[trigger] bottom_scc(g, w, u0, bs, c0) implies bs.subset_of(
                scheduler.universe_set(),
            ) by {
                assert(bs.subset_of(u_pre));
                assert(bottom_scc(g, w, u_pre, bs, c0));
            }
        }
        if steps == 0 {
            break;
        }
    }
    proof {
        scheduler.wf_facts(g);
    }
    scheduler.finalize()
}

/// Run a forward reachability process to completion in lock step with a
/// subset test against `bwd_set`: report failure as soon as the reach set
/// leaves `bwd_set`, and success once the reach set is complete while still
/// inside it.
fn lockstep_fwd(
    fwd: &mut FwdProcess,
    bwd_set: &GraphColoredVertices,
    variables: &Vec<usize>,
    graph: &SymbolicAsyncGraph,
) -> (terminal: bool)
    requires
        old(fwd).wf_for(*graph),
        vars_ok(*graph, variables@),
        cv_encoding(*bwd_set) == graph_encoding(*graph),
    ensures
        final(fwd).wf_for(*graph),
        final(fwd).universe_spec() == old(fwd).universe_spec(),
        old(fwd).reach_spec().subset_of(final(fwd).reach_spec()),
        terminal ==> final(fwd).reach_spec().subset_of(cv_set(*bwd_set)) && fwd_closed(
            *graph,
            variables@,
            old(fwd).universe_spec(),
            final(fwd).reach_spec(),
        ),
{
    let ghost g = *graph;
    let ghost vars = variables@;
    let ghost u = old(fwd).universe_spec();
    let ghost seed = old(fwd).reach_spec();
    loop
        invariant
            g == *graph,
            vars == variables@,
            vars_ok(g, vars),
            fwd.wf_for(g),
            fwd.universe_spec() == u,
            seed.subset_of(fwd.reach_spec()),
            u == old(fwd).universe_spec(),
            seed == old(fwd).reach_spec(),
            cv_encoding(*bwd_set) == graph_encoding(g),
        ensures
            fwd.wf_for(g),
            fwd.universe_spec() == u,
            seed.subset_of(fwd.reach_spec()),
            fwd.reach_spec().subset_of(cv_set(*bwd_set)),
            fwd_closed(g, vars, u, fwd.reach_spec()),
        decreases fwd.pot(),
    {
        proof {
            lemma_fwd_wf(fwd, g);
        }
        if !set_is_subset(fwd.reach_set(), bwd_set) {
            return false;
        }
        if fwd.advance(variables, graph) {
            break;
        }
    }
    true
}

/// Exhaustive search for the attractors of the universe that runs the
/// forward search and the subset test against the pivot's basin in lock
/// step: as soon as the forward reach leaves the basin, the component cannot
/// be terminal and the iteration moves on. Every returned set is nonempty,
/// lies inside the given universe, absorbs every transition of `variables`
/// that stays in the unit space, and the returned sets are pairwise
/// disjoint.
pub fn find_attractors_lockstep(
    graph: &SymbolicAsyncGraph,
    variables: &Vec<usize>,
    universe: GraphColoredVertices,
) -> (r: Vec<GraphColoredVertices>)
    requires
        vars_ok(*graph, variables@),
        cv_encoding(universe) == graph_encoding(*graph),
        cv_set(universe).finite(),
        cv_set(universe).subset_of(graph_unit(*graph)),
    ensures
        forall|i: int|
            0 <= i < r@.len() ==> !cv_set(#[trigger] r@[i]).is_empty() && cv_set(
                r@[i],
            ).subset_of(cv_set(universe)) && vars_post_closed(
                *graph,
                variables@,
                cv_set(r@[i]),
            ) && cv_set(r@[i]).finite() && cv_encoding(r@[i]) == graph_encoding(*graph),
        forall|i: int, j: int|
            0 <= i < j < r@.len() ==> cv_set(#[trigger] r@[i]).disjoint(cv_set(#[trigger] r@[j])),
{
    let ghost g = *graph;
    let ghost vars = variables@;
    let ghost u0 = cv_set(universe);
    let unit = unit_set(graph);
    let mut remaining = universe;
    let mut result: Vec<GraphColoredVertices> = Vec::new();
    loop
        invariant
            g == *graph,
            vars == variables@,
            vars_ok(g, vars),
            u0.finite(),
            u0.subset_of(graph_unit(g)),
            cv_encoding(unit) == graph_encoding(g),
            cv_set(unit) == graph_unit(g),
            cv_set(unit).finite(),
            post_closed(g, graph_unit(g)),
            cv_encoding(remaining) == graph_encoding(g),
            cv_set(remaining).finite(),
            cv_set(remaining).subset_of(u0),
            forall|i: int|
                0 <= i < result@.len() ==> !cv_set(#[trigger] result@[i]).is_empty() && cv_set(
                    result@[i],
                ).subset_of(u0) && vars_post_closed(g, vars, cv_set(result@[i])) && cv_set(
                    result@[i],
                ).finite() && cv_encoding(result@[i]) == graph_encoding(g),
            forall|i: int|
                0 <= i < result@.len() ==> cv_set(#[trigger] result@[i]).disjoint(
                    cv_set(remaining),
                ),
            forall|i: int, j: int|
                0 <= i < j < result@.len() ==> cv_set(#[trigger] result@[i]).disjoint(
                    cv_set(#[trigger] result@[j]),
                ),
        decreases cv_set(remaining).len(),
    {
        if set_is_empty(&remaining) {
            break;
        }
        let pivot = pick_vertex(&remaining);
        let bwd_set = reach_bwd(graph, variables, &pivot, &remaining);
        proof {
            lemma_bwd_reach_init(g, vars, cv_set(pivot), cv_set(remaining));
            lemma_bwd_reach_bound(g, vars, cv_set(pivot), cv_set(remaining));
            assert(cv_set(pivot).intersect(cv_set(unit)) =~= cv_set(pivot));
        }
        let mut fwd = FwdProcess::new(&pivot, &unit);
        let is_terminal = lockstep_fwd(&mut fwd, &bwd_set, variables, graph);
        let ghost old_results_len = result@.len();
        if is_terminal {
            let component = set_clone(fwd.reach_set());
            proof {
                lemma_fwd_wf(&fwd, g);
                assert forall|a: (nat, nat), b: (nat, nat)|
                    cv_set(component).contains(a) && #[trigger] can_step(g, vars, a, b) implies
                    cv_set(component).contains(b) by {
                    lemma_can_step_any(g, vars, a, b);
                    assert(graph_unit(g).contains(a));
                    assert(graph_unit(g).contains(b));
                }
                lemma_nonempty_witness(cv_set(remaining));
                let a = cv_set(remaining).choose();
                assert(colours_of(cv_set(remaining)).contains(a.1));
                assert(colours_of(cv_set(pivot)).contains(a.1));
                let w = choose|w: (nat, nat)| cv_set(pivot).contains(w) && w.1 == a.1;
                assert(cv_set(component).contains(w));
                assert(!cv_set(component).is_empty());
                assert(cv_set(component).subset_of(cv_set(remaining)));
                assert forall|i: int|
                    0 <= i < result@.len() implies cv_set(#[trigger] result@[i]).disjoint(
                    cv_set(component),
                ) by {
                    assert(cv_set(result@[i]).disjoint(cv_set(remaining)));
                }
            }
            result.push(component);
            proof {
                assert(cv_set(result@[result@.len() - 1]).subset_of(cv_set(bwd_set)));
            }
        }
        let ghost before = cv_set(remaining);
        remaining = set_minus(&remaining, &bwd_set);
        proof {
            lemma_nonempty_witness(before);
            let a = before.choose();
            assert(colours_of(before).contains(a.1));
            assert(colours_of(cv_set(pivot)).contains(a.1));
            let w = choose|w: (nat, nat)| cv_set(pivot).contains(w) && w.1 == a.1;
            assert(cv_set(bwd_set).contains(w));
            assert(before.contains(w));
            cv_set(remaining).lemma_subset_not_in_lt(before, w);
            assert forall|i: int|
                0 <= i < result@.len() implies cv_set(#[trigger] result@[i]).disjoint(
                cv_set(remaining),
            ) by {
                if i < old_results_len {
                    assert(cv_set(result@[i]).disjoint(before));
                } else {
                    assert(cv_set(result@[i]).subset_of(cv_set(bwd_set)));
                }
            }
        }
    }
    result
}

} // verus!
