//! Trusted façade over the symbolic representation of an asynchronous
//! Boolean network.
//!
//! The verified algorithms in this crate manipulate coloured vertex sets:
//! sets of (state, colour) pairs stored as binary decision diagrams by
//! `biodivine_lib_param_bn`. This module gives those values a mathematical
//! meaning — a state is abstracted as a `nat`, a colour as a `nat`, a
//! coloured set as a `Set<(nat, nat)>` — and declares, for every operation
//! the algorithms need, a wrapper whose contract states what the operation
//! returns in terms of that meaning. The wrappers are the only trusted code
//! in the crate; everything built on top of them is verified.

use vstd::prelude::*;

use biodivine_lib_param_bn::VariableId;
use biodivine_lib_param_bn::symbolic_async_graph::GraphColoredVertices;
use biodivine_lib_param_bn::symbolic_async_graph::GraphColors;
use biodivine_lib_param_bn::symbolic_async_graph::SymbolicAsyncGraph;

verus! {

#[verifier::external_type_specification]
#[verifier::external_body]
pub struct ExGraphColoredVertices(GraphColoredVertices);

#[verifier::external_type_specification]
#[verifier::external_body]
pub struct ExGraphColors(GraphColors);

#[verifier::external_type_specification]
#[verifier::external_body]
pub struct ExSymbolicAsyncGraph(SymbolicAsyncGraph);

/// The coloured vertex set encoded by a symbolic set: all (state, colour)
/// pairs whose valuation satisfies the underlying BDD.
pub uninterp spec fn cv_set(s: GraphColoredVertices) -> Set<(nat, nat)>;

/// The symbolic variable layout of a set: how many BDD variables it uses and
/// which of them stand for states and for colours. Two sets can be combined,
/// and a set can be handed to a graph operation, only when the layouts agree.
pub uninterp spec fn cv_encoding(s: GraphColoredVertices) -> Seq<nat>;

/// The colour set encoded by a symbolic colour set.
pub uninterp spec fn colour_set(c: GraphColors) -> Set<nat>;

/// The symbolic variable layout of a colour set.
pub uninterp spec fn colour_encoding(c: GraphColors) -> Seq<nat>;

/// The part of a set's variable layout that describes its colours; it is
/// all that a colour set projected out of the set retains.
pub uninterp spec fn colour_part(enc: Seq<nat>) -> Seq<nat>;

/// The asynchronous transition relation of a graph: under colour `c`, firing
/// the update function of variable `v` moves state `x` to state `y`.
pub uninterp spec fn graph_step(g: SymbolicAsyncGraph, v: nat, c: nat, x: nat, y: nat) -> bool;

/// The number of network variables of a graph.
pub uninterp spec fn graph_vars(g: SymbolicAsyncGraph) -> nat;

/// The unit coloured vertex set of a graph: every state combined with every
/// colour admitted by the network's parameter constraints.
pub uninterp spec fn graph_unit(g: SymbolicAsyncGraph) -> Set<(nat, nat)>;

/// The symbolic variable layout shared by all sets created from a graph.
pub uninterp spec fn graph_encoding(g: SymbolicAsyncGraph) -> Seq<nat>;

/// One asynchronous transition: firing variable `v` moves the pair `a` to
/// the pair `b`. The colour never changes along a transition.
pub open spec fn steps_to(g: SymbolicAsyncGraph, v: nat, a: (nat, nat), b: (nat, nat)) -> bool {
    a.1 == b.1 && graph_step(g, v, a.1, a.0, b.0)
}

/// Successors of `s` under transitions that fire variable `v`.
pub open spec fn var_post_of(g: SymbolicAsyncGraph, v: nat, s: Set<(nat, nat)>) -> Set<(nat, nat)> {
    Set::new(|b: (nat, nat)| exists|a: (nat, nat)| s.contains(a) && steps_to(g, v, a, b))
}

/// Predecessors of `s` under transitions that fire variable `v`.
pub open spec fn var_pre_of(g: SymbolicAsyncGraph, v: nat, s: Set<(nat, nat)>) -> Set<(nat, nat)> {
    Set::new(|a: (nat, nat)| exists|b: (nat, nat)| s.contains(b) && steps_to(g, v, a, b))
}

/// The pair `a` has at least one outgoing transition that fires variable `v`.
pub open spec fn can_fire(g: SymbolicAsyncGraph, v: nat, a: (nat, nat)) -> bool {
    exists|y: nat| graph_step(g, v, a.1, a.0, y)
}

/// The subset of `s` from which variable `v` can fire.
pub open spec fn can_post_of(g: SymbolicAsyncGraph, v: nat, s: Set<(nat, nat)>) -> Set<(nat, nat)> {
    Set::new(|a: (nat, nat)| s.contains(a) && can_fire(g, v, a))
}

/// Successors of `s` under transitions of any variable of the graph.
pub open spec fn post_of(g: SymbolicAsyncGraph, s: Set<(nat, nat)>) -> Set<(nat, nat)> {
    Set::new(
        |b: (nat, nat)|
            exists|v: nat, a: (nat, nat)| v < graph_vars(g) && s.contains(a) && steps_to(g, v, a, b),
    )
}

/// Some variable of the graph moves `a` to `b` in one transition.
pub open spec fn any_step(g: SymbolicAsyncGraph, a: (nat, nat), b: (nat, nat)) -> bool {
    exists|v: nat| v < graph_vars(g) && steps_to(g, v, a, b)
}

/// No transition of any variable of the graph leaves `x`: once inside, a
/// trajectory can never escape.
pub open spec fn post_closed(g: SymbolicAsyncGraph, x: Set<(nat, nat)>) -> bool {
    forall|a: (nat, nat), b: (nat, nat)|
        x.contains(a) && #[trigger] any_step(g, a, b) ==> x.contains(b)
}

/// The colours that occur in a coloured vertex set.
pub open spec fn colours_of(s: Set<(nat, nat)>) -> Set<nat> {
    Set::new(|c: nat| exists|a: (nat, nat)| s.contains(a) && a.1 == c)
}

/// The subset of `s` whose colour lies in `cs`.
pub open spec fn restrict_colours(s: Set<(nat, nat)>, cs: Set<nat>) -> Set<(nat, nat)> {
    Set::new(|a: (nat, nat)| s.contains(a) && cs.contains(a.1))
}

/// Relies on the `union` method of `biodivine_std::traits::Set`: the
/// disjunction of the two BDDs, hence the union of the encoded sets.
#[verifier::external_body]
pub(crate) fn set_union(a: &GraphColoredVertices, b: &GraphColoredVertices) -> (r: GraphColoredVertices)
    requires
        cv_encoding(*a) == cv_encoding(*b),
    ensures
        cv_set(r) == cv_set(*a).union(cv_set(*b)),
        cv_encoding(r) == cv_encoding(*a),
{
    biodivine_lib_param_bn::biodivine_std::traits::Set::union(a, b)
}

/// Relies on the `intersect` method of `biodivine_std::traits::Set`: the
/// conjunction of the two BDDs, hence the intersection of the encoded sets.
#[verifier::external_body]
pub(crate) fn set_intersect(a: &GraphColoredVertices, b: &GraphColoredVertices) -> (r: GraphColoredVertices)
    requires
        cv_encoding(*a) == cv_encoding(*b),
    ensures
        cv_set(r) == cv_set(*a).intersect(cv_set(*b)),
        cv_encoding(r) == cv_encoding(*a),
{
    biodivine_lib_param_bn::biodivine_std::traits::Set::intersect(a, b)
}

/// Relies on the `minus` method of `biodivine_std::traits::Set`: the
/// and-not of the two BDDs, hence the difference of the encoded sets.
#[verifier::external_body]
pub(crate) fn set_minus(a: &GraphColoredVertices, b: &GraphColoredVertices) -> (r: GraphColoredVertices)
    requires
        cv_encoding(*a) == cv_encoding(*b),
    ensures
        cv_set(r) == cv_set(*a).difference(cv_set(*b)),
        cv_encoding(r) == cv_encoding(*a),
{
    biodivine_lib_param_bn::biodivine_std::traits::Set::minus(a, b)
}

/// Relies on the `is_empty` method of `biodivine_std::traits::Set`: BDDs are
/// canonical, so a set is empty exactly when its BDD is the false constant.
#[verifier::external_body]
pub(crate) fn set_is_empty(a: &GraphColoredVertices) -> (r: bool)
    ensures
        r == cv_set(*a).is_empty(),
{
    biodivine_lib_param_bn::biodivine_std::traits::Set::is_empty(a)
}

/// Relies on the `is_subset` method of `biodivine_std::traits::Set`: the
/// and-not of the two BDDs is the false constant exactly when the first
/// encoded set is contained in the second.
#[verifier::external_body]
pub(crate) fn set_is_subset(a: &GraphColoredVertices, b: &GraphColoredVertices) -> (r: bool)
    requires
        cv_encoding(*a) == cv_encoding(*b),
    ensures
        r == cv_set(*a).subset_of(cv_set(*b)),
{
    biodivine_lib_param_bn::biodivine_std::traits::Set::is_subset(a, b)
}

/// Relies on `Clone` for `GraphColoredVertices`: a clone encodes the same set.
#[verifier::external_body]
pub(crate) fn set_clone(a: &GraphColoredVertices) -> (r: GraphColoredVertices)
    ensures
        cv_set(r) == cv_set(*a),
        cv_encoding(r) == cv_encoding(*a),
{
    a.clone()
}

/// Relies on `GraphColoredVertices::symbolic_size`: the node count of the
/// BDD, a cost measure with no semantic content.
#[verifier::external_body]
pub(crate) fn symbolic_size(a: &GraphColoredVertices) -> usize {
    a.symbolic_size()
}

/// Relies on `GraphColoredVertices::pick_vertex`, documented as picking
/// exactly one vertex for every colour of the set: the result is inside the
/// set, keeps exactly the colours of the set, and holds one vertex per colour.
#[verifier::external_body]
pub(crate) fn pick_vertex(s: &GraphColoredVertices) -> (r: GraphColoredVertices)
    ensures
        cv_set(r).subset_of(cv_set(*s)),
        cv_encoding(r) == cv_encoding(*s),
        colours_of(cv_set(r)) == colours_of(cv_set(*s)),
        forall|c: nat, x1: nat, x2: nat|
            #![trigger cv_set(r).contains((x1, c)), cv_set(r).contains((x2, c))]
            cv_set(r).contains((x1, c)) && cv_set(r).contains((x2, c)) ==> x1 == x2,
        cv_set(r).finite(),
{
    s.pick_vertex()
}

/// Relies on `GraphColoredVertices::colors`: the existential projection of
/// the set onto its colour variables.
#[verifier::external_body]
pub(crate) fn set_colours(s: &GraphColoredVertices) -> (r: GraphColors)
    ensures
        colour_set(r) == colours_of(cv_set(*s)),
        colour_encoding(r) == colour_part(cv_encoding(*s)),
        colour_set(r).finite(),
{
    s.colors()
}

/// Relies on `GraphColoredVertices::intersect_colors`: the conjunction of a
/// set with a colour set keeps the pairs whose colour lies in the colour set.
#[verifier::external_body]
pub(crate) fn set_intersect_colours(s: &GraphColoredVertices, c: &GraphColors) -> (r: GraphColoredVertices)
    requires
        colour_part(cv_encoding(*s)) == colour_encoding(*c),
    ensures
        cv_set(r) == restrict_colours(cv_set(*s), colour_set(*c)),
        cv_encoding(r) == cv_encoding(*s),
{
    s.intersect_colors(c)
}

/// Relies on the `minus` method of `biodivine_std::traits::Set` for
/// `GraphColors`: the difference of the encoded colour sets.
#[verifier::external_body]
pub(crate) fn colours_minus(a: &GraphColors, b: &GraphColors) -> (r: GraphColors)
    requires
        colour_encoding(*a) == colour_encoding(*b),
    ensures
        colour_set(r) == colour_set(*a).difference(colour_set(*b)),
        colour_encoding(r) == colour_encoding(*a),
{
    biodivine_lib_param_bn::biodivine_std::traits::Set::minus(a, b)
}

/// Relies on the `is_empty` method of `biodivine_std::traits::Set` for
/// `GraphColors`: by canonicity, empty exactly when the BDD is false.
#[verifier::external_body]
pub(crate) fn colours_is_empty(a: &GraphColors) -> (r: bool)
    ensures
        r == colour_set(*a).is_empty(),
{
    biodivine_lib_param_bn::biodivine_std::traits::Set::is_empty(a)
}

/// Relies on `SymbolicAsyncGraph::num_vars`: the number of network variables.
#[verifier::external_body]
pub fn variable_count(g: &SymbolicAsyncGraph) -> (r: usize)
    ensures
        r as nat == graph_vars(*g),
{
    g.num_vars()
}

/// Relies on `SymbolicAsyncGraph::mk_unit_colored_vertices`: the full
/// coloured state space admitted by the network's parameter constraints,
/// which is a finite set. No transition leaves it: a transition keeps the
/// colour and maps a state to a state, the standard constructor's unit set
/// is the product of all states with the admitted colours, and `restrict`
/// conjoins every transition with its unit set on both the source and the
/// target side.
#[verifier::external_body]
pub fn unit_set(g: &SymbolicAsyncGraph) -> (r: GraphColoredVertices)
    ensures
        cv_set(r) == graph_unit(*g),
        cv_encoding(r) == graph_encoding(*g),
        cv_set(r).finite(),
        post_closed(*g, cv_set(r)),
{
    g.mk_unit_colored_vertices()
}

/// Relies on `SymbolicAsyncGraph::var_post`, documented as
/// `VarPost(v, X) = { (y, c) | exists x. (x, c) in X and x steps to y by v }`;
/// a BDD-encoded set is finite.
#[verifier::external_body]
pub(crate) fn var_post(g: &SymbolicAsyncGraph, v: usize, s: &GraphColoredVertices) -> (r: GraphColoredVertices)
    requires
        (v as nat) < graph_vars(*g),
        cv_encoding(*s) == graph_encoding(*g),
    ensures
        cv_set(r) == var_post_of(*g, v as nat, cv_set(*s)),
        forall|b: (nat, nat)| #[trigger]
            cv_set(r).contains(b) ==> exists|x: nat|
                cv_set(*s).contains((x, b.1)) && graph_step(*g, v as nat, b.1, x, b.0),
        cv_encoding(r) == graph_encoding(*g),
        cv_set(r).finite(),
{
    g.var_post(VariableId::from_index(v), s)
}

/// Relies on `SymbolicAsyncGraph::var_pre`, documented as
/// `VarPre(v, X) = { (x, c) | exists y. (y, c) in X and x steps to y by v }`;
/// a BDD-encoded set is finite.
#[verifier::external_body]
pub(crate) fn var_pre(g: &SymbolicAsyncGraph, v: usize, s: &GraphColoredVertices) -> (r: GraphColoredVertices)
    requires
        (v as nat) < graph_vars(*g),
        cv_encoding(*s) == graph_encoding(*g),
    ensures
        cv_set(r) == var_pre_of(*g, v as nat, cv_set(*s)),
        cv_encoding(r) == graph_encoding(*g),
        cv_set(r).finite(),
{
    g.var_pre(VariableId::from_index(v), s)
}

/// Relies on `SymbolicAsyncGraph::var_can_post`, documented as
/// `VarCanPost(v, X) = { (x, c) in X | exists y. x steps to y by v }`.
#[verifier::external_body]
pub(crate) fn var_can_post(g: &SymbolicAsyncGraph, v: usize, s: &GraphColoredVertices) -> (r: GraphColoredVertices)
    requires
        (v as nat) < graph_vars(*g),
        cv_encoding(*s) == graph_encoding(*g),
    ensures
        cv_set(r) == can_post_of(*g, v as nat, cv_set(*s)),
        cv_encoding(r) == graph_encoding(*g),
{
    g.var_can_post(VariableId::from_index(v), s)
}

/// Relies on `SymbolicAsyncGraph::post`: the union of `var_post` over all
/// network variables; a BDD-encoded set is finite.
#[verifier::external_body]
pub(crate) fn post_all(g: &SymbolicAsyncGraph, s: &GraphColoredVertices) -> (r: GraphColoredVertices)
    requires
        cv_encoding(*s) == graph_encoding(*g),
    ensures
        cv_set(r) == post_of(*g, cv_set(*s)),
        cv_encoding(r) == graph_encoding(*g),
        cv_set(r).finite(),
{
    g.post(s)
}

} // verus!
