//! The meaning of saturating reachability.
//!
//! Reachability inside a universe is specified by transition chains: a pair
//! `b` is forward-reachable from `initial` within `universe` when some chain
//! of asynchronous transitions leads from a pair of `initial` to `b` and
//! every pair after the first lies in `universe`. The saturation kernels in
//! [`crate::algorithms`] and the incremental processes in [`crate::process`]
//! are verified against this definition through the closure lemmas below.

use vstd::prelude::*;

use biodivine_lib_param_bn::symbolic_async_graph::SymbolicAsyncGraph;

use crate::symbolic::any_step;
use crate::symbolic::can_post_of;
use crate::symbolic::colours_of;
use crate::symbolic::post_of;
use crate::symbolic::restrict_colours;
use crate::symbolic::graph_vars;
use crate::symbolic::post_closed;
use crate::symbolic::steps_to;

verus! {

/// A nonempty set holds its chosen element.
pub proof fn lemma_nonempty_witness<A>(s: Set<A>)
    requires
        !s.is_empty(),
    ensures
        s.contains(s.choose()),
{
    if !s.contains(s.choose()) {
        assert forall|x: A| !s.contains(x) by {
            if s.contains(x) {
                assert(s.contains(s.choose()));
            }
        }
        assert(s =~= Set::<A>::empty());
    }
}

/// A variable that cannot fire anywhere in a universe cannot fire anywhere
/// in a subset of it.
pub proof fn lemma_can_post_monotone(
    g: SymbolicAsyncGraph,
    v: nat,
    small: Set<(nat, nat)>,
    big: Set<(nat, nat)>,
)
    requires
        small.subset_of(big),
        can_post_of(g, v, big).is_empty(),
    ensures
        can_post_of(g, v, small).is_empty(),
{
    assert forall|a: (nat, nat)| !can_post_of(g, v, small).contains(a) by {
        if can_post_of(g, v, small).contains(a) {
            assert(can_post_of(g, v, big).contains(a));
        }
    }
    assert(can_post_of(g, v, small) =~= Set::<(nat, nat)>::empty());
}

/// Every entry of `vars` names a variable of the graph.
pub open spec fn vars_ok(g: SymbolicAsyncGraph, vars: Seq<usize>) -> bool {
    forall|i: int| 0 <= i < vars.len() ==> (#[trigger] vars[i] as nat) < graph_vars(g)
}

/// Some variable of `vars` moves `a` to `b` in one transition.
pub open spec fn can_step(g: SymbolicAsyncGraph, vars: Seq<usize>, a: (nat, nat), b: (nat, nat)) -> bool {
    exists|i: int| 0 <= i < vars.len() && #[trigger] steps_to(g, vars[i] as nat, a, b)
}

/// Consecutive entries of `p` are joined by transitions of `vars`.
pub open spec fn is_chain(g: SymbolicAsyncGraph, vars: Seq<usize>, p: Seq<(nat, nat)>) -> bool {
    forall|i: int| 1 <= i < p.len() ==> #[trigger] can_step(g, vars, p[i - 1], p[i])
}

/// A forward trace: a non-empty chain whose every pair after the first lies
/// in `u`. The first pair is the seed and may lie outside `u`.
pub open spec fn fwd_trace(
    g: SymbolicAsyncGraph,
    vars: Seq<usize>,
    u: Set<(nat, nat)>,
    p: Seq<(nat, nat)>,
) -> bool {
    &&& p.len() >= 1
    &&& is_chain(g, vars, p)
    &&& forall|i: int| 1 <= i < p.len() ==> u.contains(#[trigger] p[i])
}

/// Everything forward-reachable from `init` along `vars` inside `u`.
pub open spec fn fwd_reach(
    g: SymbolicAsyncGraph,
    vars: Seq<usize>,
    init: Set<(nat, nat)>,
    u: Set<(nat, nat)>,
) -> Set<(nat, nat)> {
    Set::new(
        |b: (nat, nat)|
            exists|p: Seq<(nat, nat)>|
                #[trigger] fwd_trace(g, vars, u, p) && init.contains(p.first()) && p.last() == b,
    )
}

/// A backward trace: a non-empty chain whose every pair before the last lies
/// in `u`. The last pair is the seed and may lie outside `u`.
pub open spec fn bwd_trace(
    g: SymbolicAsyncGraph,
    vars: Seq<usize>,
    u: Set<(nat, nat)>,
    p: Seq<(nat, nat)>,
) -> bool {
    &&& p.len() >= 1
    &&& is_chain(g, vars, p)
    &&& forall|i: int| 0 <= i < p.len() - 1 ==> u.contains(#[trigger] p[i])
}

/// Everything backward-reachable from `init` along `vars` inside `u`.
pub open spec fn bwd_reach(
    g: SymbolicAsyncGraph,
    vars: Seq<usize>,
    init: Set<(nat, nat)>,
    u: Set<(nat, nat)>,
) -> Set<(nat, nat)> {
    Set::new(
        |a: (nat, nat)|
            exists|p: Seq<(nat, nat)>|
                #[trigger] bwd_trace(g, vars, u, p) && init.contains(p.last()) && p.first() == a,
    )
}

/// `r` absorbs every transition of `vars` that lands in `u`.
pub open spec fn fwd_closed(
    g: SymbolicAsyncGraph,
    vars: Seq<usize>,
    u: Set<(nat, nat)>,
    r: Set<(nat, nat)>,
) -> bool {
    forall|a: (nat, nat), b: (nat, nat)|
        r.contains(a) && u.contains(b) && #[trigger] can_step(g, vars, a, b) ==> r.contains(b)
}

/// `r` absorbs, backwards, every transition of `vars` that starts in `u`.
pub open spec fn bwd_closed(
    g: SymbolicAsyncGraph,
    vars: Seq<usize>,
    u: Set<(nat, nat)>,
    r: Set<(nat, nat)>,
) -> bool {
    forall|a: (nat, nat), b: (nat, nat)|
        r.contains(b) && u.contains(a) && #[trigger] can_step(g, vars, a, b) ==> r.contains(a)
}

/// The seeds are forward-reachable: a one-pair trace witnesses each of them.
pub proof fn lemma_fwd_reach_init(
    g: SymbolicAsyncGraph,
    vars: Seq<usize>,
    init: Set<(nat, nat)>,
    u: Set<(nat, nat)>,
)
    ensures
        init.subset_of(fwd_reach(g, vars, init, u)),
{
    assert forall|b: (nat, nat)| init.contains(b) implies fwd_reach(g, vars, init, u).contains(b) by {
        let p = seq![b];
        assert(fwd_trace(g, vars, u, p) && init.contains(p.first()) && p.last() == b);
    }
}

/// The seeds are backward-reachable: a one-pair trace witnesses each of them.
pub proof fn lemma_bwd_reach_init(
    g: SymbolicAsyncGraph,
    vars: Seq<usize>,
    init: Set<(nat, nat)>,
    u: Set<(nat, nat)>,
)
    ensures
        init.subset_of(bwd_reach(g, vars, init, u)),
{
    assert forall|a: (nat, nat)| init.contains(a) implies bwd_reach(g, vars, init, u).contains(a) by {
        let p = seq![a];
        assert(bwd_trace(g, vars, u, p) && init.contains(p.last()) && p.first() == a);
    }
}

/// Forward reachability never leaves `init.union(u)`.
pub proof fn lemma_fwd_reach_bound(
    g: SymbolicAsyncGraph,
    vars: Seq<usize>,
    init: Set<(nat, nat)>,
    u: Set<(nat, nat)>,
)
    ensures
        fwd_reach(g, vars, init, u).subset_of(init.union(u)),
{
    assert forall|b: (nat, nat)| fwd_reach(g, vars, init, u).contains(b) implies init.union(
        u,
    ).contains(b) by {
        let p = choose|p: Seq<(nat, nat)>|
            #[trigger] fwd_trace(g, vars, u, p) && init.contains(p.first()) && p.last() == b;
        if p.len() == 1 {
            assert(b == p.first());
        } else {
            assert(u.contains(p[p.len() - 1]));
        }
    }
}

/// Backward reachability never leaves `init.union(u)`.
pub proof fn lemma_bwd_reach_bound(
    g: SymbolicAsyncGraph,
    vars: Seq<usize>,
    init: Set<(nat, nat)>,
    u: Set<(nat, nat)>,
)
    ensures
        bwd_reach(g, vars, init, u).subset_of(init.union(u)),
{
    assert forall|a: (nat, nat)| bwd_reach(g, vars, init, u).contains(a) implies init.union(
        u,
    ).contains(a) by {
        let p = choose|p: Seq<(nat, nat)>|
            #[trigger] bwd_trace(g, vars, u, p) && init.contains(p.last()) && p.first() == a;
        if p.len() == 1 {
            assert(a == p.last());
        } else {
            assert(u.contains(p[0]));
        }
    }
}

/// A transition of `vars` out of a forward-reachable set that lands in `u`
/// lands in the forward-reachable set: the witnessing trace grows by one.
pub proof fn lemma_fwd_reach_extend(
    g: SymbolicAsyncGraph,
    vars: Seq<usize>,
    init: Set<(nat, nat)>,
    u: Set<(nat, nat)>,
    a: (nat, nat),
    b: (nat, nat),
)
    requires
        fwd_reach(g, vars, init, u).contains(a),
        u.contains(b),
        can_step(g, vars, a, b),
    ensures
        fwd_reach(g, vars, init, u).contains(b),
{
    let p = choose|p: Seq<(nat, nat)>|
        #[trigger] fwd_trace(g, vars, u, p) && init.contains(p.first()) && p.last() == a;
    let q = p.push(b);
    assert(q.last() == b);
    assert forall|i: int| 1 <= i < q.len() implies #[trigger] can_step(g, vars, q[i - 1], q[i]) by {
        if i < p.len() {
            assert(can_step(g, vars, p[i - 1], p[i]));
            assert(q[i - 1] == p[i - 1] && q[i] == p[i]);
        } else {
            assert(q[i - 1] == p[p.len() - 1] && q[i] == b);
        }
    }
    assert(fwd_trace(g, vars, u, q) && init.contains(q.first()) && q.last() == b);
}

/// A transition of `vars` from a pair of `u` into a backward-reachable set
/// makes that pair backward-reachable: the witnessing trace grows by one.
pub proof fn lemma_bwd_reach_extend(
    g: SymbolicAsyncGraph,
    vars: Seq<usize>,
    init: Set<(nat, nat)>,
    u: Set<(nat, nat)>,
    a: (nat, nat),
    b: (nat, nat),
)
    requires
        bwd_reach(g, vars, init, u).contains(b),
        u.contains(a),
        can_step(g, vars, a, b),
    ensures
        bwd_reach(g, vars, init, u).contains(a),
{
    let p = choose|p: Seq<(nat, nat)>|
        #[trigger] bwd_trace(g, vars, u, p) && init.contains(p.last()) && p.first() == b;
    let q = seq![a].add(p);
    assert(q.first() == a && q.last() == p.last());
    assert forall|i: int| 1 <= i < q.len() implies #[trigger] can_step(g, vars, q[i - 1], q[i]) by {
        if i == 1 {
            assert(q[0] == a && q[1] == b);
        } else {
            let j = i - 1;
            assert(can_step(g, vars, p[j - 1], p[j]));
            assert(q[i - 1] == p[j - 1] && q[i] == p[j]);
        }
    }
    assert forall|i: int| 0 <= i < q.len() - 1 implies u.contains(#[trigger] q[i]) by {
        if i > 0 {
            assert(q[i] == p[i - 1]);
        }
    }
    assert(bwd_trace(g, vars, u, q) && init.contains(q.last()) && q.first() == a);
}

/// Every forward trace from the seeds ends inside a forward-closed superset
/// of the seeds. Induction on the length of the trace.
proof fn lemma_fwd_trace_in_closed(
    g: SymbolicAsyncGraph,
    vars: Seq<usize>,
    u: Set<(nat, nat)>,
    r: Set<(nat, nat)>,
    p: Seq<(nat, nat)>,
)
    requires
        fwd_trace(g, vars, u, p),
        r.contains(p.first()),
        fwd_closed(g, vars, u, r),
    ensures
        r.contains(p.last()),
    decreases p.len(),
{
    if p.len() > 1 {
        let q = p.drop_last();
        assert forall|i: int| 1 <= i < q.len() implies #[trigger] can_step(g, vars, q[i - 1], q[i]) by {
            assert(can_step(g, vars, p[i - 1], p[i]));
            assert(q[i - 1] == p[i - 1] && q[i] == p[i]);
        }
        assert(fwd_trace(g, vars, u, q));
        lemma_fwd_trace_in_closed(g, vars, u, r, q);
        let j = p.len() - 1;
        assert(can_step(g, vars, p[j - 1], p[j]));
        assert(r.contains(q.last()) && q.last() == p[j - 1]);
        assert(u.contains(p[j]));
        assert(p.last() == p[j]);
    }
}

/// A forward-closed superset of the seeds holds everything forward-reachable.
pub proof fn lemma_fwd_reach_minimal(
    g: SymbolicAsyncGraph,
    vars: Seq<usize>,
    init: Set<(nat, nat)>,
    u: Set<(nat, nat)>,
    r: Set<(nat, nat)>,
)
    requires
        init.subset_of(r),
        fwd_closed(g, vars, u, r),
    ensures
        fwd_reach(g, vars, init, u).subset_of(r),
{
    assert forall|b: (nat, nat)| fwd_reach(g, vars, init, u).contains(b) implies r.contains(b) by {
        let p = choose|p: Seq<(nat, nat)>|
            #[trigger] fwd_trace(g, vars, u, p) && init.contains(p.first()) && p.last() == b;
        lemma_fwd_trace_in_closed(g, vars, u, r, p);
    }
}

/// Every backward trace to the seeds starts inside a backward-closed
/// superset of the seeds. Induction on the length of the trace.
proof fn lemma_bwd_trace_in_closed(
    g: SymbolicAsyncGraph,
    vars: Seq<usize>,
    u: Set<(nat, nat)>,
    r: Set<(nat, nat)>,
    p: Seq<(nat, nat)>,
)
    requires
        bwd_trace(g, vars, u, p),
        r.contains(p.last()),
        bwd_closed(g, vars, u, r),
    ensures
        r.contains(p.first()),
    decreases p.len(),
{
    if p.len() > 1 {
        let q = p.drop_first();
        assert forall|i: int| 1 <= i < q.len() implies #[trigger] can_step(g, vars, q[i - 1], q[i]) by {
            let j = i + 1;
            assert(can_step(g, vars, p[j - 1], p[j]));
            assert(q[i - 1] == p[j - 1] && q[i] == p[j]);
        }
        assert forall|i: int| 0 <= i < q.len() - 1 implies u.contains(#[trigger] q[i]) by {
            assert(q[i] == p[i + 1]);
        }
        assert(q.last() == p.last());
        assert(bwd_trace(g, vars, u, q));
        lemma_bwd_trace_in_closed(g, vars, u, r, q);
        let j: int = 1;
        assert(can_step(g, vars, p[j - 1], p[j]));
        assert(q.first() == p[j]);
        assert(u.contains(p[j - 1]) && p.first() == p[j - 1]);
    }
}

/// A backward-closed superset of the seeds holds everything
/// backward-reachable.
pub proof fn lemma_bwd_reach_minimal(
    g: SymbolicAsyncGraph,
    vars: Seq<usize>,
    init: Set<(nat, nat)>,
    u: Set<(nat, nat)>,
    r: Set<(nat, nat)>,
)
    requires
        init.subset_of(r),
        bwd_closed(g, vars, u, r),
    ensures
        bwd_reach(g, vars, init, u).subset_of(r),
{
    assert forall|a: (nat, nat)| bwd_reach(g, vars, init, u).contains(a) implies r.contains(a) by {
        let p = choose|p: Seq<(nat, nat)>|
            #[trigger] bwd_trace(g, vars, u, p) && init.contains(p.last()) && p.first() == a;
        lemma_bwd_trace_in_closed(g, vars, u, r, p);
    }
}

/// A chain of graph transitions that never leaves `x`.
pub open spec fn internal_chain(
    g: SymbolicAsyncGraph,
    x: Set<(nat, nat)>,
    p: Seq<(nat, nat)>,
) -> bool {
    &&& p.len() >= 1
    &&& forall|i: int| 0 <= i < p.len() ==> x.contains(#[trigger] p[i])
    &&& forall|i: int| 1 <= i < p.len() ==> #[trigger] any_step(g, p[i - 1], p[i])
}

/// `b` can be reached from `a` by graph transitions that stay inside `x`.
pub open spec fn linked_in(
    g: SymbolicAsyncGraph,
    x: Set<(nat, nat)>,
    a: (nat, nat),
    b: (nat, nat),
) -> bool {
    exists|p: Seq<(nat, nat)>|
        #[trigger] internal_chain(g, x, p) && p.first() == a && p.last() == b
}

/// Any two pairs of `x` that share a colour are joined, in both directions,
/// by trajectories that never leave `x`: restricted to each of its colours,
/// `x` is strongly connected.
pub open spec fn colour_connected(g: SymbolicAsyncGraph, x: Set<(nat, nat)>) -> bool {
    forall|a: (nat, nat), b: (nat, nat)|
        #![trigger x.contains(a), x.contains(b)]
        x.contains(a) && x.contains(b) && a.1 == b.1 ==> linked_in(g, x, a, b)
}

/// The colour never changes along a chain.
pub proof fn lemma_chain_colour(g: SymbolicAsyncGraph, vars: Seq<usize>, p: Seq<(nat, nat)>, i: int)
    requires
        is_chain(g, vars, p),
        0 <= i < p.len(),
    ensures
        p[i].1 == p[0].1,
    decreases i,
{
    if i > 0 {
        lemma_chain_colour(g, vars, p, i - 1);
        assert(can_step(g, vars, p[i - 1], p[i]));
        let j = choose|j: int| 0 <= j < vars.len() && #[trigger] steps_to(g, vars[j] as nat, p[i - 1], p[i]);
    }
}

/// A step of a listed variable is a step of the graph.
pub proof fn lemma_can_step_any(
    g: SymbolicAsyncGraph,
    vars: Seq<usize>,
    a: (nat, nat),
    b: (nat, nat),
)
    requires
        vars_ok(g, vars),
        can_step(g, vars, a, b),
    ensures
        any_step(g, a, b),
{
    let j = choose|j: int| 0 <= j < vars.len() && #[trigger] steps_to(g, vars[j] as nat, a, b);
    assert((vars[j] as nat) < graph_vars(g));
}

/// Every pair of the forward-reachable set is the end of a trace all of
/// whose entries are themselves forward-reachable.
pub proof fn lemma_fwd_reach_trace_inside(
    g: SymbolicAsyncGraph,
    vars: Seq<usize>,
    init: Set<(nat, nat)>,
    u: Set<(nat, nat)>,
    b: (nat, nat),
) -> (p: Seq<(nat, nat)>)
    requires
        fwd_reach(g, vars, init, u).contains(b),
    ensures
        fwd_trace(g, vars, u, p),
        init.contains(p.first()),
        p.last() == b,
        forall|i: int| 0 <= i < p.len() ==> fwd_reach(g, vars, init, u).contains(#[trigger] p[i]),
{
    let p = choose|p: Seq<(nat, nat)>|
        #[trigger] fwd_trace(g, vars, u, p) && init.contains(p.first()) && p.last() == b;
    assert forall|i: int| 0 <= i < p.len() implies fwd_reach(g, vars, init, u).contains(
        #[trigger] p[i],
    ) by {
        let q = p.subrange(0, i + 1);
        assert forall|k: int| 1 <= k < q.len() implies #[trigger] can_step(g, vars, q[k - 1], q[k]) by {
            assert(can_step(g, vars, p[k - 1], p[k]));
            assert(q[k - 1] == p[k - 1] && q[k] == p[k]);
        }
        assert forall|k: int| 1 <= k < q.len() implies u.contains(#[trigger] q[k]) by {
            assert(u.contains(p[k]));
        }
        assert(fwd_trace(g, vars, u, q));
        assert(q.first() == p.first() && q.last() == p[i]);
    }
    p
}

/// A chain that starts inside a set closed under all graph transitions never
/// leaves it.
pub proof fn lemma_chain_stays_in_closed(
    g: SymbolicAsyncGraph,
    vars: Seq<usize>,
    x: Set<(nat, nat)>,
    p: Seq<(nat, nat)>,
    i: int,
)
    requires
        vars_ok(g, vars),
        is_chain(g, vars, p),
        0 <= i < p.len(),
        x.contains(p.first()),
        post_closed(g, x),
    ensures
        x.contains(p[i]),
    decreases i,
{
    if i > 0 {
        lemma_chain_stays_in_closed(g, vars, x, p, i - 1);
        assert(can_step(g, vars, p[i - 1], p[i]));
        lemma_can_step_any(g, vars, p[i - 1], p[i]);
    }
}

/// Chains inside `x` compose: one from `a` to `m` and one from `m` to `b`
/// join into one from `a` to `b`.
pub proof fn lemma_linked_in_trans(
    g: SymbolicAsyncGraph,
    x: Set<(nat, nat)>,
    a: (nat, nat),
    m: (nat, nat),
    b: (nat, nat),
)
    requires
        linked_in(g, x, a, m),
        linked_in(g, x, m, b),
    ensures
        linked_in(g, x, a, b),
{
    let p = choose|p: Seq<(nat, nat)>|
        #[trigger] internal_chain(g, x, p) && p.first() == a && p.last() == m;
    let q = choose|q: Seq<(nat, nat)>|
        #[trigger] internal_chain(g, x, q) && q.first() == m && q.last() == b;
    let r = p + q.drop_first();
    assert forall|i: int| 0 <= i < r.len() implies x.contains(#[trigger] r[i]) by {
        if i < p.len() {
            assert(r[i] == p[i]);
        } else {
            assert(r[i] == q[i - p.len() + 1]);
        }
    }
    assert forall|i: int| 1 <= i < r.len() implies #[trigger] any_step(g, r[i - 1], r[i]) by {
        if i < p.len() {
            assert(any_step(g, p[i - 1], p[i]));
            assert(r[i - 1] == p[i - 1] && r[i] == p[i]);
        } else if i == p.len() {
            let j: int = 1;
            assert(any_step(g, q[j - 1], q[j]));
            assert(r[i - 1] == p[p.len() - 1] && p[p.len() - 1] == m && m == q[0]);
            assert(r[i] == q[1]);
        } else {
            let j = i - p.len() + 1;
            assert(any_step(g, q[j - 1], q[j]));
            assert(r[i - 1] == q[j - 1] && r[i] == q[j]);
        }
    }
    if q.len() == 1 {
        assert(r =~= p);
        assert(r.first() == a && r.last() == m && m == b);
    } else {
        assert(r.first() == a && r.last() == q[q.len() - 1]);
    }
    assert(internal_chain(g, x, r) && r.first() == a && r.last() == b);
}

/// The heart of the attractor search: the forward closure of a pivot inside
/// the pivot's own basin, restricted to colours under which it cannot be
/// left, is strongly connected colour by colour. Every pair reaches its
/// colour's pivot vertex backwards through the closed set, and every pair is
/// reached from that pivot vertex forwards through the component.
pub proof fn lemma_attractor_connected(
    g: SymbolicAsyncGraph,
    vars: Seq<usize>,
    piv: Set<(nat, nat)>,
    remaining: Set<(nat, nat)>,
    term: Set<nat>,
)
    requires
        vars_ok(g, vars),
        piv.subset_of(remaining),
        forall|c: nat, x1: nat, x2: nat|
            #![trigger piv.contains((x1, c)), piv.contains((x2, c))]
            piv.contains((x1, c)) && piv.contains((x2, c)) ==> x1 == x2,
        post_closed(
            g,
            crate::symbolic::restrict_colours(
                fwd_reach(g, vars, piv, bwd_reach(g, vars, piv, remaining)),
                term,
            ),
        ),
    ensures
        colour_connected(
            g,
            crate::symbolic::restrict_colours(
                fwd_reach(g, vars, piv, bwd_reach(g, vars, piv, remaining)),
                term,
            ),
        ),
{
    let basin = bwd_reach(g, vars, piv, remaining);
    let comp = fwd_reach(g, vars, piv, basin);
    let att = crate::symbolic::restrict_colours(comp, term);
    lemma_bwd_reach_init(g, vars, piv, remaining);
    lemma_bwd_reach_bound(g, vars, piv, remaining);
    lemma_fwd_reach_bound(g, vars, piv, basin);
    assert forall|a: (nat, nat), b: (nat, nat)|
        #![trigger att.contains(a), att.contains(b)]
        att.contains(a) && att.contains(b) && a.1 == b.1 implies linked_in(g, att, a, b) by {
        let c = a.1;
        // Backwards: `a` walks inside `att` to the pivot vertex of colour `c`.
        assert(basin.contains(a));
        let q = choose|q: Seq<(nat, nat)>|
            #[trigger] bwd_trace(g, vars, remaining, q) && piv.contains(q.last()) && q.first() == a;
        assert forall|i: int| 0 <= i < q.len() implies att.contains(#[trigger] q[i]) by {
            lemma_chain_stays_in_closed(g, vars, att, q, i);
        }
        assert forall|i: int| 1 <= i < q.len() implies #[trigger] any_step(g, q[i - 1], q[i]) by {
            assert(can_step(g, vars, q[i - 1], q[i]));
            lemma_can_step_any(g, vars, q[i - 1], q[i]);
        }
        lemma_chain_colour(g, vars, q, q.len() - 1);
        assert(q.last().1 == c);
        assert(internal_chain(g, att, q));
        let pivot_pair = q.last();
        assert(linked_in(g, att, a, pivot_pair));
        // Forwards: `b` is reached from the pivot vertex of colour `c`
        // through the component.
        let p = lemma_fwd_reach_trace_inside(g, vars, piv, basin, b);
        lemma_chain_colour(g, vars, p, p.len() - 1);
        assert(p.last().1 == c && p[0].1 == p.last().1);
        assert forall|i: int| 0 <= i < p.len() implies att.contains(#[trigger] p[i]) by {
            assert(comp.contains(p[i]));
            lemma_chain_colour(g, vars, p, i);
            assert(term.contains(c));
        }
        assert forall|i: int| 1 <= i < p.len() implies #[trigger] any_step(g, p[i - 1], p[i]) by {
            assert(can_step(g, vars, p[i - 1], p[i]));
            lemma_can_step_any(g, vars, p[i - 1], p[i]);
        }
        assert(internal_chain(g, att, p));
        assert(linked_in(g, att, p.first(), b));
        // Both ends of the detour are the same pivot vertex.
        assert(piv.contains((pivot_pair.0, c)) && piv.contains((p.first().0, c)));
        assert(pivot_pair == p.first());
        lemma_linked_in_trans(g, att, a, pivot_pair, b);
    }
}

/// A chain of transitions of the listed variables that never leaves `x`.
pub open spec fn vars_chain(
    g: SymbolicAsyncGraph,
    vars: Seq<usize>,
    x: Set<(nat, nat)>,
    p: Seq<(nat, nat)>,
) -> bool {
    &&& p.len() >= 1
    &&& is_chain(g, vars, p)
    &&& forall|i: int| 0 <= i < p.len() ==> x.contains(#[trigger] p[i])
}

/// `b` can be reached from `a` by transitions of `vars` that stay inside `x`.
pub open spec fn linked_via(
    g: SymbolicAsyncGraph,
    vars: Seq<usize>,
    x: Set<(nat, nat)>,
    a: (nat, nat),
    b: (nat, nat),
) -> bool {
    exists|p: Seq<(nat, nat)>|
        #[trigger] vars_chain(g, vars, x, p) && p.first() == a && p.last() == b
}

/// Every pair of `x` holds the colour `c`.
pub open spec fn single_colour(x: Set<(nat, nat)>, c: nat) -> bool {
    forall|a: (nat, nat)| x.contains(a) ==> (#[trigger] a.1) == c
}

/// A terminal bottom strongly connected component within `u` for colour `c`:
/// nonempty, inside `u`, of that one colour, with no outgoing transition of
/// any variable of the graph, and strongly connected through itself by
/// transitions of the listed variables.
pub open spec fn bottom_scc(
    g: SymbolicAsyncGraph,
    vars: Seq<usize>,
    u: Set<(nat, nat)>,
    x: Set<(nat, nat)>,
    c: nat,
) -> bool {
    &&& !x.is_empty()
    &&& x.subset_of(u)
    &&& single_colour(x, c)
    &&& post_closed(g, x)
    &&& forall|a: (nat, nat), b: (nat, nat)|
        #![trigger x.contains(a), x.contains(b)]
        x.contains(a) && x.contains(b) ==> linked_via(g, vars, x, a, b)
}

/// The basin explored by one round of the attractor search.
pub open spec fn pivot_basin(
    g: SymbolicAsyncGraph,
    vars: Seq<usize>,
    piv: Set<(nat, nat)>,
    remaining: Set<(nat, nat)>,
) -> Set<(nat, nat)> {
    bwd_reach(g, vars, piv, remaining)
}

/// The component explored by one round of the attractor search.
pub open spec fn pivot_component(
    g: SymbolicAsyncGraph,
    vars: Seq<usize>,
    piv: Set<(nat, nat)>,
    remaining: Set<(nat, nat)>,
) -> Set<(nat, nat)> {
    fwd_reach(g, vars, piv, pivot_basin(g, vars, piv, remaining))
}

/// The colours under which a component has no outgoing transition at all.
pub open spec fn terminal_colours(g: SymbolicAsyncGraph, comp: Set<(nat, nat)>) -> Set<nat> {
    colours_of(comp).difference(colours_of(post_of(g, comp).difference(comp)))
}

/// One round of the attractor search never splits a terminal bottom
/// component: either the component misses the pivot's basin entirely and
/// survives in the remaining universe, or the pivot of its colour lies
/// inside it, the explored component coincides with it on that colour, the
/// colour is recognised as terminal, and the whole component is captured by
/// the set appended to the result.
pub proof fn lemma_bottom_scc_step(
    g: SymbolicAsyncGraph,
    vars: Seq<usize>,
    piv: Set<(nat, nat)>,
    remaining: Set<(nat, nat)>,
    x: Set<(nat, nat)>,
    c: nat,
)
    requires
        vars_ok(g, vars),
        piv.subset_of(remaining),
        forall|c0: nat, x1: nat, x2: nat|
            #![trigger piv.contains((x1, c0)), piv.contains((x2, c0))]
            piv.contains((x1, c0)) && piv.contains((x2, c0)) ==> x1 == x2,
        single_colour(x, c),
        post_closed(g, x),
        forall|a: (nat, nat), b: (nat, nat)|
            #![trigger x.contains(a), x.contains(b)]
            x.contains(a) && x.contains(b) ==> linked_via(g, vars, x, a, b),
        x.subset_of(remaining),
    ensures
        x.disjoint(pivot_basin(g, vars, piv, remaining)) || (terminal_colours(
            g,
            pivot_component(g, vars, piv, remaining),
        ).contains(c) && x.subset_of(
            restrict_colours(
                pivot_component(g, vars, piv, remaining),
                terminal_colours(g, pivot_component(g, vars, piv, remaining)),
            ),
        )),
{
    let basin = pivot_basin(g, vars, piv, remaining);
    let comp = pivot_component(g, vars, piv, remaining);
    let term = terminal_colours(g, comp);
    if exists|s: (nat, nat)| x.contains(s) && basin.contains(s) {
        let s = choose|s: (nat, nat)| x.contains(s) && basin.contains(s);
        let q = choose|q: Seq<(nat, nat)>|
            #[trigger] bwd_trace(g, vars, remaining, q) && piv.contains(q.last()) && q.first() == s;
        lemma_chain_stays_in_closed(g, vars, x, q, q.len() - 1);
        lemma_chain_colour(g, vars, q, q.len() - 1);
        let pv = q.last();
        assert(x.contains(pv) && piv.contains(pv) && pv.1 == c);
        // Everything in `x` reaches the pivot pair, so `x` lies in the basin.
        assert forall|b: (nat, nat)| x.contains(b) implies basin.contains(b) by {
            assert(linked_via(g, vars, x, b, pv));
            let p = choose|p: Seq<(nat, nat)>|
                #[trigger] vars_chain(g, vars, x, p) && p.first() == b && p.last() == pv;
            assert forall|i: int| 0 <= i < p.len() - 1 implies remaining.contains(#[trigger] p[i]) by {
                assert(x.contains(p[i]));
            }
            assert(bwd_trace(g, vars, remaining, p) && piv.contains(p.last()) && p.first() == b);
        }
        // The explored component, restricted to `c`, stays inside `x`.
        assert forall|y: (nat, nat)| comp.contains(y) && (#[trigger] y.1) == c implies x.contains(
            y,
        ) by {
            let p = lemma_fwd_reach_trace_inside(g, vars, piv, basin, y);
            lemma_chain_colour(g, vars, p, p.len() - 1);
            assert(piv.contains((p[0].0, c)) && piv.contains((pv.0, c)));
            assert(p[0] == pv);
            lemma_chain_stays_in_closed(g, vars, x, p, p.len() - 1);
        }
        // And `x` is forward-reachable from the pivot pair inside the basin.
        assert forall|b: (nat, nat)| x.contains(b) implies comp.contains(b) by {
            assert(linked_via(g, vars, x, pv, b));
            let p = choose|p: Seq<(nat, nat)>|
                #[trigger] vars_chain(g, vars, x, p) && p.first() == pv && p.last() == b;
            assert forall|i: int| 1 <= i < p.len() implies basin.contains(#[trigger] p[i]) by {
                assert(x.contains(p[i]));
            }
            assert(fwd_trace(g, vars, basin, p) && piv.contains(p.first()) && p.last() == b);
        }
        // The colour is terminal: it occurs in the component, and every
        // transition out of the component under it would leave `x`.
        assert(comp.contains(pv) && pv.1 == c);
        assert(colours_of(comp).contains(c));
        if colours_of(post_of(g, comp).difference(comp)).contains(c) {
            let y = choose|y: (nat, nat)|
                post_of(g, comp).difference(comp).contains(y) && (#[trigger] y.1) == c;
            let (v, a): (nat, (nat, nat)) = choose|v: nat, a: (nat, nat)|
                v < graph_vars(g) && comp.contains(a) && #[trigger] steps_to(g, v, a, y);
            assert(a.1 == y.1);
            assert(x.contains(a));
            assert(any_step(g, a, y));
            assert(x.contains(y));
            assert(comp.contains(y));
            assert(false);
        }
        assert(term.contains(c));
        assert forall|b: (nat, nat)| x.contains(b) implies restrict_colours(comp, term).contains(
            b,
        ) by {
            assert(comp.contains(b) && b.1 == c);
        }
    } else {
        assert forall|a: (nat, nat)| x.contains(a) implies !basin.contains(a) by {
            if basin.contains(a) {
                assert(x.contains(a) && basin.contains(a));
            }
        }
    }
}

/// The forward-reachable set absorbs every transition of `vars` that lands
/// in `u`.
pub proof fn lemma_fwd_reach_closed(
    g: SymbolicAsyncGraph,
    vars: Seq<usize>,
    init: Set<(nat, nat)>,
    u: Set<(nat, nat)>,
)
    ensures
        fwd_closed(g, vars, u, fwd_reach(g, vars, init, u)),
{
    assert forall|a: (nat, nat), b: (nat, nat)|
        fwd_reach(g, vars, init, u).contains(a) && u.contains(b) && #[trigger] can_step(
            g,
            vars,
            a,
            b,
        ) implies fwd_reach(g, vars, init, u).contains(b) by {
        lemma_fwd_reach_extend(g, vars, init, u, a, b);
    }
}

/// The backward-reachable set absorbs, backwards, every transition of
/// `vars` that starts in `u`.
pub proof fn lemma_bwd_reach_closed(
    g: SymbolicAsyncGraph,
    vars: Seq<usize>,
    init: Set<(nat, nat)>,
    u: Set<(nat, nat)>,
)
    ensures
        bwd_closed(g, vars, u, bwd_reach(g, vars, init, u)),
{
    assert forall|a: (nat, nat), b: (nat, nat)|
        bwd_reach(g, vars, init, u).contains(b) && u.contains(a) && #[trigger] can_step(
            g,
            vars,
            a,
            b,
        ) implies bwd_reach(g, vars, init, u).contains(a) by {
        lemma_bwd_reach_extend(g, vars, init, u, a, b);
    }
}

/// A chain through `u` that starts inside a forward-closed set stays inside
/// it.
pub proof fn lemma_chain_in_fwd_closed(
    g: SymbolicAsyncGraph,
    vars: Seq<usize>,
    u: Set<(nat, nat)>,
    s: Set<(nat, nat)>,
    p: Seq<(nat, nat)>,
    i: int,
)
    requires
        is_chain(g, vars, p),
        0 <= i < p.len(),
        forall|k: int| 0 <= k < p.len() ==> u.contains(#[trigger] p[k]),
        s.contains(p.first()),
        fwd_closed(g, vars, u, s),
    ensures
        s.contains(p[i]),
    decreases i,
{
    if i > 0 {
        lemma_chain_in_fwd_closed(g, vars, u, s, p, i - 1);
        assert(can_step(g, vars, p[i - 1], p[i]));
    }
}

/// A chain through `u` that ends inside a backward-closed set starts inside
/// it.
pub proof fn lemma_chain_into_bwd_closed(
    g: SymbolicAsyncGraph,
    vars: Seq<usize>,
    u: Set<(nat, nat)>,
    s: Set<(nat, nat)>,
    p: Seq<(nat, nat)>,
    i: int,
)
    requires
        is_chain(g, vars, p),
        0 <= i < p.len(),
        forall|k: int| 0 <= k < p.len() ==> u.contains(#[trigger] p[k]),
        s.contains(p.last()),
        bwd_closed(g, vars, u, s),
    ensures
        s.contains(p[i]),
    decreases p.len() - i,
{
    if i < p.len() - 1 {
        lemma_chain_into_bwd_closed(g, vars, u, s, p, i + 1);
        let j = i + 1;
        assert(can_step(g, vars, p[j - 1], p[j]));
    }
}

/// The variable list `active` covers `u`: a variable missing from it cannot
/// fire anywhere in `u`.
pub open spec fn covers(g: SymbolicAsyncGraph, active: Seq<usize>, u: Set<(nat, nat)>) -> bool {
    forall|v: usize|
        (v as nat) < graph_vars(g) && !active.contains(v) ==> can_post_of(
            g,
            v as nat,
            u,
        ).is_empty()
}

/// A chain through a subset of `u` built from any legal variable list is
/// also a chain of a list that covers `u`: every variable that actually
/// fires inside `u` is on the covering list.
pub proof fn lemma_chain_retarget(
    g: SymbolicAsyncGraph,
    w: Seq<usize>,
    active: Seq<usize>,
    u: Set<(nat, nat)>,
    x: Set<(nat, nat)>,
    p: Seq<(nat, nat)>,
)
    requires
        vars_ok(g, w),
        covers(g, active, u),
        x.subset_of(u),
        forall|k: int| 0 <= k < p.len() ==> x.contains(#[trigger] p[k]),
        is_chain(g, w, p),
    ensures
        is_chain(g, active, p),
{
    assert forall|i: int| 1 <= i < p.len() implies #[trigger] can_step(g, active, p[i - 1], p[i]) by {
        assert(can_step(g, w, p[i - 1], p[i]));
        let j = choose|j: int|
            0 <= j < w.len() && #[trigger] steps_to(g, w[j] as nat, p[i - 1], p[i]);
        let v = w[j];
        assert(crate::symbolic::can_fire(g, v as nat, p[i - 1]));
        assert(can_post_of(g, v as nat, u).contains(p[i - 1]));
        assert(active.contains(v)) by {
            if !active.contains(v) {
                assert(can_post_of(g, v as nat, u).is_empty());
            }
        }
        let k = choose|k: int| 0 <= k < active.len() && active[k] == v;
        assert(steps_to(g, active[k] as nat, p[i - 1], p[i]));
    }
}

/// Eliminating the proper basin of a forward-closed reach set never touches
/// a terminal component: a terminal component that can reach the set must
/// already lie inside it.
pub proof fn lemma_scc_misses_reach_basin(
    g: SymbolicAsyncGraph,
    active: Seq<usize>,
    u: Set<(nat, nat)>,
    fwdset: Set<(nat, nat)>,
    x: Set<(nat, nat)>,
)
    requires
        vars_ok(g, active),
        post_closed(g, x),
        x.subset_of(u),
        forall|a: (nat, nat), b: (nat, nat)|
            #![trigger x.contains(a), x.contains(b)]
            x.contains(a) && x.contains(b) ==> linked_via(g, active, x, a, b),
        fwd_closed(g, active, u, fwdset),
    ensures
        x.disjoint(bwd_reach(g, active, fwdset, u).difference(fwdset)),
{
    assert forall|b: (nat, nat)|
        x.contains(b) && bwd_reach(g, active, fwdset, u).contains(b) implies fwdset.contains(
        b,
    ) by {
        let q = choose|q: Seq<(nat, nat)>|
            #[trigger] bwd_trace(g, active, u, q) && fwdset.contains(q.last()) && q.first() == b;
        lemma_chain_stays_in_closed(g, active, x, q, q.len() - 1);
        let f = q.last();
        assert(x.contains(f) && fwdset.contains(f));
        assert(linked_via(g, active, x, f, b));
        let p = choose|p: Seq<(nat, nat)>|
            #[trigger] vars_chain(g, active, x, p) && p.first() == f && p.last() == b;
        assert forall|k: int| 0 <= k < p.len() implies u.contains(#[trigger] p[k]) by {
            assert(x.contains(p[k]));
        }
        lemma_chain_in_fwd_closed(g, active, u, fwdset, p, p.len() - 1);
    }
    assert forall|a: (nat, nat)| x.contains(a) implies !bwd_reach(
        g,
        active,
        fwdset,
        u,
    ).difference(fwdset).contains(a) by {
        if bwd_reach(g, active, fwdset, u).contains(a) {
            assert(fwdset.contains(a));
        }
    }
}

/// Eliminating the proper basin of the bottom region under an extended
/// component never touches a terminal component: a terminal component that
/// can reach the bottom region must already lie inside it.
pub proof fn lemma_scc_misses_bottom_basin(
    g: SymbolicAsyncGraph,
    active: Seq<usize>,
    u: Set<(nat, nat)>,
    fwdset: Set<(nat, nat)>,
    extended: Set<(nat, nat)>,
    u_bwd: Set<(nat, nat)>,
    x: Set<(nat, nat)>,
)
    requires
        vars_ok(g, active),
        post_closed(g, x),
        x.subset_of(u),
        forall|a: (nat, nat), b: (nat, nat)|
            #![trigger x.contains(a), x.contains(b)]
            x.contains(a) && x.contains(b) ==> linked_via(g, active, x, a, b),
        fwd_closed(g, active, u, fwdset),
        bwd_closed(g, active, u_bwd, extended),
        u.intersect(fwdset).subset_of(u_bwd),
    ensures
        x.disjoint(
            bwd_reach(g, active, fwdset.difference(extended), u).difference(
                fwdset.difference(extended),
            ),
        ),
{
    let bottom = fwdset.difference(extended);
    assert forall|b: (nat, nat)|
        x.contains(b) && bwd_reach(g, active, bottom, u).contains(b) implies bottom.contains(
        b,
    ) by {
        let q = choose|q: Seq<(nat, nat)>|
            #[trigger] bwd_trace(g, active, u, q) && bottom.contains(q.last()) && q.first() == b;
        lemma_chain_stays_in_closed(g, active, x, q, q.len() - 1);
        let t = q.last();
        assert(x.contains(t) && fwdset.contains(t) && !extended.contains(t));
        assert(linked_via(g, active, x, t, b));
        let p = choose|p: Seq<(nat, nat)>|
            #[trigger] vars_chain(g, active, x, p) && p.first() == t && p.last() == b;
        assert forall|k: int| 0 <= k < p.len() implies u.contains(#[trigger] p[k]) by {
            assert(x.contains(p[k]));
        }
        lemma_chain_in_fwd_closed(g, active, u, fwdset, p, p.len() - 1);
        assert(fwdset.contains(b));
        if extended.contains(b) {
            assert forall|k: int| 0 <= k < p.len() implies u_bwd.contains(#[trigger] p[k]) by {
                lemma_chain_in_fwd_closed(g, active, u, fwdset, p, k);
                assert(u.intersect(fwdset).contains(p[k]));
            }
            lemma_chain_into_bwd_closed(g, active, u_bwd, extended, p, 0);
            assert(extended.contains(t));
            assert(false);
        }
    }
    assert forall|a: (nat, nat)| x.contains(a) implies !bwd_reach(
        g,
        active,
        bottom,
        u,
    ).difference(bottom).contains(a) by {
        if bwd_reach(g, active, bottom, u).contains(a) {
            assert(bottom.contains(a));
        }
    }
}

/// Soundness of reduction for the surviving variables: a variable that can
/// still fire somewhere inside a subset of the reduced universe is still on
/// the reduced variable list.
pub proof fn lemma_covered_support(
    g: SymbolicAsyncGraph,
    active: Seq<usize>,
    u: Set<(nat, nat)>,
    x: Set<(nat, nat)>,
    v: usize,
    a: (nat, nat),
)
    requires
        covers(g, active, u),
        x.subset_of(u),
        x.contains(a),
        (v as nat) < graph_vars(g),
        crate::symbolic::can_fire(g, v as nat, a),
    ensures
        active.contains(v),
{
    if !active.contains(v) {
        assert(can_post_of(g, v as nat, u).contains(a));
        assert(can_post_of(g, v as nat, u).is_empty());
    }
}

/// `r` absorbs every transition of `vars` outright.
pub open spec fn vars_post_closed(
    g: SymbolicAsyncGraph,
    vars: Seq<usize>,
    r: Set<(nat, nat)>,
) -> bool {
    forall|a: (nat, nat), b: (nat, nat)|
        r.contains(a) && #[trigger] can_step(g, vars, a, b) ==> r.contains(b)
}

/// Forward closure survives shrinking the universe.
pub proof fn lemma_fwd_closed_mono_universe(
    g: SymbolicAsyncGraph,
    vars: Seq<usize>,
    u: Set<(nat, nat)>,
    u_small: Set<(nat, nat)>,
    r: Set<(nat, nat)>,
)
    requires
        fwd_closed(g, vars, u, r),
        u_small.subset_of(u),
    ensures
        fwd_closed(g, vars, u_small, r),
{
}

/// Forward closure survives dropping variables from the list.
pub proof fn lemma_fwd_closed_mono_vars(
    g: SymbolicAsyncGraph,
    vars: Seq<usize>,
    vars_small: Seq<usize>,
    u: Set<(nat, nat)>,
    r: Set<(nat, nat)>,
)
    requires
        fwd_closed(g, vars, u, r),
        forall|x: usize| vars_small.contains(x) ==> vars.contains(x),
    ensures
        fwd_closed(g, vars_small, u, r),
{
    assert forall|a: (nat, nat), b: (nat, nat)|
        r.contains(a) && u.contains(b) && #[trigger] can_step(g, vars_small, a, b) implies
        r.contains(b) by {
        let i = choose|i: int|
            0 <= i < vars_small.len() && #[trigger] steps_to(g, vars_small[i] as nat, a, b);
        assert(vars.contains(vars_small[i]));
        let j = choose|j: int| 0 <= j < vars.len() && vars[j] == vars_small[i];
        assert(steps_to(g, vars[j] as nat, a, b));
        assert(can_step(g, vars, a, b));
    }
}

/// On a universe of one colour the pivot is a single pair, so a terminal
/// bottom component that can reach it contains it, coincides with the
/// pivot's forward closure over the transition-closed unit space, and lies
/// inside the pivot's basin: the lock-step search recognises it as terminal
/// and captures it whole.
pub proof fn lemma_lockstep_captures(
    g: SymbolicAsyncGraph,
    vars: Seq<usize>,
    piv: Set<(nat, nat)>,
    remaining: Set<(nat, nat)>,
    u: Set<(nat, nat)>,
    bs: Set<(nat, nat)>,
    c: nat,
)
    requires
        vars_ok(g, vars),
        piv.subset_of(remaining),
        forall|c0: nat, x1: nat, x2: nat|
            #![trigger piv.contains((x1, c0)), piv.contains((x2, c0))]
            piv.contains((x1, c0)) && piv.contains((x2, c0)) ==> x1 == x2,
        single_colour(remaining, c),
        remaining.subset_of(u),
        post_closed(g, u),
        bs.subset_of(remaining),
        single_colour(bs, c),
        post_closed(g, bs),
        forall|a: (nat, nat), b: (nat, nat)|
            #![trigger bs.contains(a), bs.contains(b)]
            bs.contains(a) && bs.contains(b) ==> linked_via(g, vars, bs, a, b),
    ensures
        bs.disjoint(bwd_reach(g, vars, piv, remaining)) || (fwd_reach(g, vars, piv, u) == bs
            && fwd_reach(g, vars, piv, u).subset_of(bwd_reach(g, vars, piv, remaining))),
{
    let basin = bwd_reach(g, vars, piv, remaining);
    let x = fwd_reach(g, vars, piv, u);
    if exists|s: (nat, nat)| bs.contains(s) && basin.contains(s) {
        let s = choose|s: (nat, nat)| bs.contains(s) && basin.contains(s);
        let q = choose|q: Seq<(nat, nat)>|
            #[trigger] bwd_trace(g, vars, remaining, q) && piv.contains(q.last()) && q.first() == s;
        lemma_chain_stays_in_closed(g, vars, bs, q, q.len() - 1);
        let pv = q.last();
        assert(bs.contains(pv) && piv.contains(pv) && pv.1 == c);
        // Everything of `bs` is forward-reachable from the pivot inside `u`.
        assert forall|b: (nat, nat)| bs.contains(b) implies x.contains(b) by {
            assert(linked_via(g, vars, bs, pv, b));
            let p = choose|p: Seq<(nat, nat)>|
                #[trigger] vars_chain(g, vars, bs, p) && p.first() == pv && p.last() == b;
            assert forall|i: int| 1 <= i < p.len() implies u.contains(#[trigger] p[i]) by {
                assert(bs.contains(p[i]) && remaining.contains(p[i]));
            }
            assert(fwd_trace(g, vars, u, p) && piv.contains(p.first()) && p.last() == b);
        }
        // And the forward closure never leaves `bs`: every trace starts at a
        // pivot pair, which by the single colour and the per-colour
        // uniqueness of the pivot is the pair found above.
        assert forall|y: (nat, nat)| x.contains(y) implies bs.contains(y) by {
            let p = lemma_fwd_reach_trace_inside(g, vars, piv, u, y);
            assert(remaining.contains(p[0]) && p[0].1 == c);
            assert(piv.contains((p[0].0, c)) && piv.contains((pv.0, c)));
            assert(p[0] == pv);
            lemma_chain_stays_in_closed(g, vars, bs, p, p.len() - 1);
        }
        // Finally the closure sits inside the pivot's basin.
        assert forall|b: (nat, nat)| x.contains(b) implies basin.contains(b) by {
            assert(linked_via(g, vars, bs, b, pv));
            let p = choose|p: Seq<(nat, nat)>|
                #[trigger] vars_chain(g, vars, bs, p) && p.first() == b && p.last() == pv;
            assert forall|i: int| 0 <= i < p.len() - 1 implies remaining.contains(
                #[trigger] p[i],
            ) by {
                assert(bs.contains(p[i]));
            }
            assert(bwd_trace(g, vars, remaining, p) && piv.contains(p.last()) && p.first() == b);
        }
        assert(x =~= bs);
    } else {
        assert forall|a: (nat, nat)| bs.contains(a) implies !basin.contains(a) by {
            if basin.contains(a) {
                assert(bs.contains(a) && basin.contains(a));
            }
        }
    }
}

} // verus!
