//! The composition graph's store: a `petgraph` graph whose nodes carry nothing
//! and whose links carry the amount of a portion.
//!
//! Verus does not look inside the graph. What it knows of one is the number of
//! its nodes, the sequence of its links, `(from, to, weight)` by position, the
//! order in which the links that leave a node are walked, and of each
//! operation what is declared here.

use petgraph::algo::is_cyclic_directed;
use petgraph::graph::EdgeIndex;
use petgraph::graph::Graph;
use petgraph::graph::NodeIndex;
use petgraph::visit::EdgeRef;
use petgraph::Directed;
use vstd::prelude::*;

verus! {

/// `petgraph::graph::Graph`, which Verus carries as it is.
#[verifier::external_type_specification]
#[verifier::external_body]
#[verifier::reject_recursive_types(N)]
#[verifier::reject_recursive_types(E)]
#[verifier::reject_recursive_types(Ty)]
#[verifier::reject_recursive_types(Ix)]
pub struct ExGraph<N, E, Ty, Ix>(Graph<N, E, Ty, Ix>);

/// `petgraph::Directed`, the mark of a graph whose links have a direction.
#[verifier::external_type_specification]
#[verifier::external_body]
pub struct ExDirected(Directed);

/// The number of nodes of the graph; its nodes are `0 .. graph_order(g)`.
pub uninterp spec fn graph_order(g: Graph<(), i64, Directed, u32>) -> nat;

/// The links of the graph by position: `(from, to, weight)`.
pub uninterp spec fn graph_links(g: Graph<(), i64, Directed, u32>) -> Seq<(usize, usize, i64)>;

/// The positions of the links that leave `node`, in the order in which
/// `Graph::edges` walks them: the link that was added last comes first.
pub uninterp spec fn graph_leaving(g: Graph<(), i64, Directed, u32>, node: usize) -> Seq<usize>;

/// The most nodes, and the most links, that a graph indexed by `u32` takes.
pub const GRAPH_LIMIT: usize = 0xffff_ffff;

/// The links as pairs of nodes, without their weights.
pub open spec fn endpoints(links: Seq<(usize, usize, i64)>) -> Seq<(int, int)> {
    Seq::new(links.len(), |k: int| (links[k].0 as int, links[k].1 as int))
}

/// The sequence without the element at `k`, whose place the last element takes.
pub open spec fn swap_removed<A>(s: Seq<A>, k: int) -> Seq<A> {
    s.update(k, s.last()).drop_last()
}

/// `out` holds each link that leaves `node` once, as `(position, to, weight)`,
/// in whatever order.
pub open spec fn lists_outgoing(
    links: Seq<(usize, usize, i64)>,
    node: usize,
    out: Seq<(usize, usize, i64)>,
) -> bool {
    &&& forall|j: int|
        0 <= j < out.len() ==> (#[trigger] out[j]).0 < links.len() && links[out[j].0 as int] == (
            node,
            out[j].1,
            out[j].2,
        )
    &&& forall|i: int, j: int| 0 <= i < j < out.len() ==> (#[trigger] out[i]).0 != (#[trigger] out[j]).0
    &&& forall|k: int|
        0 <= k < links.len() && (#[trigger] links[k]).0 == node ==> exists|j: int|
            0 <= j < out.len() && (#[trigger] out[j]).0 == k
}

/// The positions that `out` lists.
pub open spec fn positions(out: Seq<(usize, usize, i64)>) -> Seq<int> {
    Seq::new(out.len(), |j: int| out[j].0 as int)
}

/// The positions that `out` lists, as the graph counts them.
pub open spec fn spots(out: Seq<(usize, usize, i64)>) -> Seq<usize> {
    Seq::new(out.len(), |j: int| out[j].0)
}

/// Whether a position is another one than `position`.
pub open spec fn other_than(position: usize) -> spec_fn(usize) -> bool {
    |p: usize| p != position
}

/// A position as it is once the link at `last` has moved to `position`.
pub open spec fn moved_to(last: usize, position: usize) -> spec_fn(usize) -> usize {
    |p: usize|
        if p == last {
            position
        } else {
            p
        }
}

/// The order in which links are walked, once the link at `position` has left
/// and the link at `last` has taken its position: the others keep their turn.
pub open spec fn leaving_without(order: Seq<usize>, position: usize, last: usize) -> Seq<usize> {
    order.filter(other_than(position)).map_values(moved_to(last, position))
}

/// A walking order that lists positions up to `last` lists, once the link at
/// `position` has left, positions below `last`.
pub proof fn lemma_leaving_bounded(order: Seq<usize>, position: usize, last: usize)
    requires
        position <= last,
        forall|j: int| 0 <= j < order.len() ==> #[trigger] order[j] <= last,
    ensures
        forall|j: int|
            0 <= j < leaving_without(order, position, last).len() ==> #[trigger] leaving_without(
                order,
                position,
                last,
            )[j] < last,
{
    let kept = order.filter(other_than(position));
    assert forall|j: int| 0 <= j < leaving_without(order, position, last).len() implies #[trigger] leaving_without(
        order,
        position,
        last,
    )[j] < last by {
        order.lemma_filter_pred(other_than(position), j);
        assert(kept.contains(kept[j]));
        order.lemma_filter_contains_rev(other_than(position), kept[j]);
        let i = choose|i: int| 0 <= i < order.len() && order[i] == kept[j];
        assert(order[i] <= last);
    }
}

/// A link that is put in behind the others and taken out again leaves the
/// walking order as it was.
pub proof fn lemma_leaving_back(order: Seq<usize>, last: usize)
    requires
        forall|j: int| 0 <= j < order.len() ==> #[trigger] order[j] < last,
    ensures
        leaving_without(order, last, last) == order,
        leaving_without(seq![last] + order, last, last) == order,
{
    reveal_with_fuel(Seq::filter, 2);
    let keep = other_than(last);
    crate::selection::lemma_filter_all(order, keep);
    Seq::filter_distributes_over_add(seq![last], order, keep);
    assert(seq![last].drop_last() =~= Seq::<usize>::empty());
    assert(!keep(seq![last].last()));
    assert(seq![last].filter(keep) =~= Seq::<usize>::empty());
    assert((seq![last] + order).filter(keep) =~= order);
    assert(order.map_values(moved_to(last, last)) =~= order);
}

/// `Graph::new`: a graph without nodes or links.
#[verifier::external_body]
pub(crate) fn graph_new() -> (g: Graph<(), i64, Directed, u32>)
    ensures
        graph_order(g) == 0,
        graph_links(g) == Seq::<(usize, usize, i64)>::empty(),
{
    Graph::new()
}

/// `Graph::edge_count`: the number of links.
#[verifier::external_body]
pub(crate) fn graph_size(g: &Graph<(), i64, Directed, u32>) -> (size: usize)
    ensures
        size == graph_links(*g).len(),
{
    g.edge_count()
}

/// `Graph::add_node`: the new node comes behind the others, no link leaves it,
/// and no link changes. The call panics on a graph that is full, which
/// `requires` leaves out.
#[verifier::external_body]
pub(crate) fn graph_add_node(g: &mut Graph<(), i64, Directed, u32>) -> (node: usize)
    requires
        graph_order(*old(g)) < GRAPH_LIMIT,
    ensures
        node == graph_order(*old(g)),
        graph_order(*final(g)) == graph_order(*old(g)) + 1,
        graph_links(*final(g)) == graph_links(*old(g)),
        graph_leaving(*final(g), node) == Seq::<usize>::empty(),
        forall|n: usize|
            n < graph_order(*old(g)) ==> #[trigger] graph_leaving(*final(g), n) == graph_leaving(
                *old(g),
                n,
            ),
{
    g.add_node(()).index()
}

/// `Graph::add_edge`: the new link comes behind the others, parallel links are
/// kept, and the result is its position. Among the links that leave `from` it
/// is walked first. The call panics where a node does not exist or the graph
/// is full of links, which `requires` leaves out.
#[verifier::external_body]
pub(crate) fn graph_add_link(
    g: &mut Graph<(), i64, Directed, u32>,
    from: usize,
    to: usize,
    weight: i64,
) -> (position: usize)
    requires
        from < graph_order(*old(g)),
        to < graph_order(*old(g)),
        graph_links(*old(g)).len() < GRAPH_LIMIT,
    ensures
        position == graph_links(*old(g)).len(),
        graph_links(*final(g)) == graph_links(*old(g)).push((from, to, weight)),
        graph_order(*final(g)) == graph_order(*old(g)),
        forall|n: usize|
            n < graph_order(*old(g)) ==> #[trigger] graph_leaving(*final(g), n) == (if n == from {
                seq![position] + graph_leaving(*old(g), n)
            } else {
                graph_leaving(*old(g), n)
            }),
{
    g.add_edge(NodeIndex::new(from), NodeIndex::new(to), weight).index()
}

/// `Graph::remove_edge`: the link at `position` leaves, the last link takes its
/// position, and the result is the weight of the link that left. The links
/// that stay are walked in the order they had.
#[verifier::external_body]
pub(crate) fn graph_remove_link(g: &mut Graph<(), i64, Directed, u32>, position: usize) -> (weight:
    Option<i64>)
    requires
        position < graph_links(*old(g)).len(),
    ensures
        weight == Some(graph_links(*old(g))[position as int].2),
        graph_links(*final(g)) == swap_removed(graph_links(*old(g)), position as int),
        graph_order(*final(g)) == graph_order(*old(g)),
        forall|n: usize|
            n < graph_order(*old(g)) ==> #[trigger] graph_leaving(*final(g), n) == leaving_without(
                graph_leaving(*old(g), n),
                position,
                (graph_links(*old(g)).len() - 1) as usize,
            ),
{
    g.remove_edge(EdgeIndex::new(position))
}

/// `Graph::edges`: the links that leave `node`, each once, in the order in
/// which the graph walks them.
#[verifier::external_body]
pub(crate) fn graph_outgoing(g: &Graph<(), i64, Directed, u32>, node: usize) -> (out: Vec<
    (usize, usize, i64),
>)
    requires
        node < graph_order(*g),
    ensures
        lists_outgoing(graph_links(*g), node, out@),
        spots(out@) == graph_leaving(*g, node),
{
    g.edges(NodeIndex::new(node)).map(|e| (e.id().index(), e.target().index(), *e.weight())).collect()
}

/// `Graph::edge_references`: all links, in the order of their positions.
#[verifier::external_body]
pub(crate) fn graph_all_links(g: &Graph<(), i64, Directed, u32>) -> (all: Vec<(usize, usize, i64)>)
    ensures
        all@ == graph_links(*g),
{
    g.edge_references().map(|e| (e.source().index(), e.target().index(), *e.weight())).collect()
}

/// `petgraph::algo::is_cyclic_directed`: whether the graph contains a directed
/// cycle.
#[verifier::external_body]
pub(crate) fn graph_is_cyclic(g: &Graph<(), i64, Directed, u32>) -> (cyclic: bool)
    ensures
        cyclic == crate::cycles::has_cycle(endpoints(graph_links(*g))),
{
    is_cyclic_directed(g)
}

/// `Clone::clone` of a graph: the same nodes and links at the same positions,
/// walked in the same order.
#[verifier::external_body]
pub(crate) fn graph_clone(g: &Graph<(), i64, Directed, u32>) -> (copy: Graph<(), i64, Directed, u32>)
    ensures
        graph_order(copy) == graph_order(*g),
        graph_links(copy) == graph_links(*g),
        forall|n: usize|
            n < graph_order(*g) ==> #[trigger] graph_leaving(copy, n) == graph_leaving(*g, n),
{
    g.clone()
}

} // verus!
