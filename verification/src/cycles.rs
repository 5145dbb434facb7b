//! Walks, cycles and rankings of a directed multigraph.
//!
//! A graph is given by its links alone: link `k` runs from `links[k].0` to
//! `links[k].1`. Nodes are plain integers, so the same theory serves for a
//! graph over node handles and for one over item identifiers.

use vstd::prelude::*;

verus! {

/// `walk` lists positions of links, and each link ends where the next one starts.
pub open spec fn chained(links: Seq<(int, int)>, walk: Seq<int>) -> bool {
    &&& forall|i: int| 0 <= i < walk.len() ==> 0 <= #[trigger] walk[i] < links.len()
    &&& forall|i: int| 0 < i < walk.len() ==> links[walk[i - 1]].1 == links[#[trigger] walk[i]].0
}

/// `walk` is a non-empty chain of links that ends where it started.
pub open spec fn closes(links: Seq<(int, int)>, walk: Seq<int>) -> bool {
    &&& walk.len() > 0
    &&& chained(links, walk)
    &&& links[walk.last()].1 == links[walk[0]].0
}

/// The graph contains a directed cycle (a self-loop counts).
pub open spec fn has_cycle(links: Seq<(int, int)>) -> bool {
    exists|walk: Seq<int>| closes(links, walk)
}

/// `walk` is a non-empty chain of links from `from` to `to`.
pub open spec fn leads(links: Seq<(int, int)>, walk: Seq<int>, from: int, to: int) -> bool {
    &&& walk.len() > 0
    &&& chained(links, walk)
    &&& links[walk[0]].0 == from
    &&& links[walk.last()].1 == to
}

/// `to` can be reached from `from` along zero or more links.
pub open spec fn reaches(links: Seq<(int, int)>, from: int, to: int) -> bool {
    from == to || exists|walk: Seq<int>| leads(links, walk, from, to)
}

/// `rank` strictly falls along every link.
pub open spec fn ranks(links: Seq<(int, int)>, rank: spec_fn(int) -> nat) -> bool {
    forall|k: int| 0 <= k < links.len() ==> rank((#[trigger] links[k]).0) > rank(links[k].1)
}

/// Some ranking of the nodes strictly falls along every link.
pub open spec fn ranked(links: Seq<(int, int)>) -> bool {
    exists|rank: spec_fn(int) -> nat| ranks(links, rank)
}

/// A ranking of the graph, where one exists.
pub open spec fn ranking(links: Seq<(int, int)>) -> spec_fn(int) -> nat {
    choose|rank: spec_fn(int) -> nat| ranks(links, rank)
}

/// The rank of `node` under the chosen ranking; it falls along every link of a
/// ranked graph, which makes it a measure for recursion over an acyclic graph.
pub open spec fn height(links: Seq<(int, int)>, node: int) -> nat {
    ranking(links)(node)
}

/// Two graphs with as many links agree on which link ends where which starts.
pub open spec fn same_joints(one: Seq<(int, int)>, other: Seq<(int, int)>) -> bool {
    &&& one.len() == other.len()
    &&& forall|j: int, k: int|
        0 <= j < one.len() && 0 <= k < one.len() ==> (#[trigger] one[j].1 == #[trigger] one[k].0
            <==> other[j].1 == other[k].0)
}

/// A graph without links has no cycle.
pub proof fn lemma_empty_acyclic(links: Seq<(int, int)>)
    requires
        links.len() == 0,
    ensures
        !has_cycle(links),
{
    if has_cycle(links) {
        let walk = choose|walk: Seq<int>| closes(links, walk);
        assert(0 <= walk[0] < links.len());
    }
}

/// A chain in a graph is a chain in any graph that extends it.
pub proof fn lemma_chained_extends(short: Seq<(int, int)>, long: Seq<(int, int)>, walk: Seq<int>)
    requires
        chained(short, walk),
        short.len() <= long.len(),
        forall|k: int| 0 <= k < short.len() ==> short[k] == long[k],
    ensures
        chained(long, walk),
{
    assert forall|i: int| 0 < i < walk.len() implies long[walk[i - 1]].1 == long[#[trigger] walk[i]].0 by {
        assert(0 <= walk[i - 1] < short.len());
        assert(0 <= walk[i] < short.len());
    }
}

/// A cycle stays a cycle when links are added behind the others.
pub proof fn lemma_cycle_extends(short: Seq<(int, int)>, long: Seq<(int, int)>)
    requires
        has_cycle(short),
        short.len() <= long.len(),
        forall|k: int| 0 <= k < short.len() ==> short[k] == long[k],
    ensures
        has_cycle(long),
{
    let walk = choose|walk: Seq<int>| closes(short, walk);
    lemma_chained_extends(short, long, walk);
    assert(0 <= walk[0] < short.len());
    assert(0 <= walk[walk.len() - 1] < short.len());
    assert(closes(long, walk));
}

/// A cycle among links that are all links of another graph is a cycle of that
/// graph: `place` says where each of them stands there.
pub proof fn lemma_cycle_maps(part: Seq<(int, int)>, links: Seq<(int, int)>, place: spec_fn(int) -> int)
    requires
        has_cycle(part),
        forall|i: int|
            0 <= i < part.len() ==> 0 <= #[trigger] place(i) < links.len() && links[place(i)] == part[i],
    ensures
        has_cycle(links),
{
    let walk = choose|walk: Seq<int>| closes(part, walk);
    let moved = Seq::new(walk.len(), |i: int| place(walk[i]));
    assert forall|i: int| 0 <= i < moved.len() implies 0 <= #[trigger] moved[i] < links.len() by {
        assert(0 <= walk[i] < part.len());
    }
    assert forall|i: int| 0 < i < moved.len() implies links[moved[i - 1]].1 == links[#[trigger] moved[i]].0 by {
        assert(0 <= walk[i - 1] < part.len());
        assert(0 <= walk[i] < part.len());
        assert(part[walk[i - 1]].1 == part[walk[i]].0);
    }
    assert(0 <= walk[0] < part.len());
    assert(0 <= walk[walk.len() - 1] < part.len());
    assert(moved.last() == place(walk.last()));
    assert(closes(links, moved));
}

/// Whatever the target of link `k` reaches, its source reaches too.
pub proof fn lemma_step_reaches(links: Seq<(int, int)>, k: int, to: int)
    requires
        0 <= k < links.len(),
        reaches(links, links[k].1, to),
    ensures
        reaches(links, links[k].0, to),
{
    if links[k].1 == to {
        let walk = seq![k];
        assert(leads(links, walk, links[k].0, to));
    } else {
        let tail = choose|walk: Seq<int>| leads(links, walk, links[k].1, to);
        let walk = seq![k] + tail;
        assert forall|i: int| 0 <= i < walk.len() implies 0 <= #[trigger] walk[i] < links.len() by {
            if i > 0 {
                assert(walk[i] == tail[i - 1]);
            }
        }
        assert forall|i: int| 0 < i < walk.len() implies links[walk[i - 1]].1 == links[#[trigger] walk[i]].0 by {
            assert(walk[i] == tail[i - 1]);
            if i > 1 {
                assert(walk[i - 1] == tail[i - 2]);
            }
        }
        assert(walk.last() == tail.last());
        assert(leads(links, walk, links[k].0, to));
    }
}

/// A node that reaches another one does so through one of its own links.
pub proof fn lemma_reaches_first_step(links: Seq<(int, int)>, from: int, to: int) -> (k: int)
    requires
        reaches(links, from, to),
        from != to,
    ensures
        0 <= k < links.len(),
        links[k].0 == from,
        reaches(links, links[k].1, to),
{
    let walk = choose|walk: Seq<int>| leads(links, walk, from, to);
    let k = walk[0];
    if walk.len() > 1 {
        let tail = walk.subrange(1, walk.len() as int);
        assert forall|i: int| 0 <= i < tail.len() implies 0 <= #[trigger] tail[i] < links.len() by {
            assert(tail[i] == walk[i + 1]);
        }
        assert forall|i: int| 0 < i < tail.len() implies links[tail[i - 1]].1 == links[#[trigger] tail[i]].0 by {
            assert(tail[i] == walk[i + 1]);
            assert(tail[i - 1] == walk[i]);
        }
        assert(tail[0] == walk[1]);
        assert(tail.last() == walk.last());
        assert(leads(links, tail, links[k].1, to));
    }
    k
}

/// Along a chain of links the rank falls from the first source to the last target.
pub proof fn lemma_rank_falls(links: Seq<(int, int)>, rank: spec_fn(int) -> nat, walk: Seq<int>)
    requires
        ranks(links, rank),
        walk.len() > 0,
        chained(links, walk),
    ensures
        rank(links[walk[0]].0) > rank(links[walk.last()].1),
    decreases walk.len(),
{
    let last = walk.last();
    assert(0 <= last < links.len());
    assert(rank(links[last].0) > rank(links[last].1));
    if walk.len() > 1 {
        let front = walk.drop_last();
        assert forall|i: int| 0 <= i < front.len() implies 0 <= #[trigger] front[i] < links.len() by {
            assert(front[i] == walk[i]);
        }
        assert forall|i: int| 0 < i < front.len() implies links[front[i - 1]].1 == links[#[trigger] front[i]].0 by {
            assert(front[i] == walk[i]);
            assert(front[i - 1] == walk[i - 1]);
        }
        lemma_rank_falls(links, rank, front);
        assert(front[0] == walk[0]);
        assert(front.last() == walk[walk.len() - 2]);
        assert(links[walk[walk.len() - 2]].1 == links[walk[walk.len() - 1]].0);
    }
}

/// A graph without a cycle has a ranking.
pub proof fn lemma_acyclic_ranked(links: Seq<(int, int)>)
    requires
        !has_cycle(links),
    ensures
        ranked(links),
    decreases links.len(),
{
    if links.len() == 0 {
        let rank = |x: int| 0nat;
        assert(ranks(links, rank));
    } else {
        let rest = links.drop_last();
        let last = links.len() - 1;
        let a = links[last].0;
        let b = links[last].1;
        if has_cycle(rest) {
            lemma_cycle_extends(rest, links);
        }
        lemma_acyclic_ranked(rest);
        let low = ranking(rest);
        let lift = low(b) + 1;
        let rank = |x: int|
            if reaches(rest, x, a) {
                (low(x) + lift) as nat
            } else {
                low(x)
            };
        if reaches(rest, b, a) {
            if b == a {
                let walk = seq![last];
                assert(closes(links, walk));
            } else {
                let path = choose|walk: Seq<int>| leads(rest, walk, b, a);
                lemma_chained_extends(rest, links, path);
                let walk = path.push(last);
                assert(0 <= path[0] < rest.len());
                assert(0 <= path[path.len() - 1] < rest.len());
                assert forall|i: int| 0 <= i < walk.len() implies 0 <= #[trigger] walk[i] < links.len() by {
                    if i < path.len() {
                        assert(walk[i] == path[i]);
                    }
                }
                assert forall|i: int| 0 < i < walk.len() implies links[walk[i - 1]].1 == links[#[trigger] walk[i]].0 by {
                    if i < path.len() {
                        assert(walk[i] == path[i]);
                        assert(walk[i - 1] == path[i - 1]);
                    } else {
                        assert(walk[i - 1] == path.last());
                    }
                }
                assert(walk[0] == path[0]);
                assert(closes(links, walk));
            }
            assert(false);
        }
        assert forall|k: int| 0 <= k < links.len() implies rank((#[trigger] links[k]).0) > rank(
            links[k].1,
        ) by {
            if k < last {
                assert(links[k] == rest[k]);
                assert(low(rest[k].0) > low(rest[k].1));
                if reaches(rest, rest[k].1, a) {
                    lemma_step_reaches(rest, k, a);
                }
            }
        }
        assert(ranks(links, rank));
    }
}

/// In a graph without a cycle the height falls along every link.
pub proof fn lemma_height_falls(links: Seq<(int, int)>, k: int)
    requires
        !has_cycle(links),
        0 <= k < links.len(),
    ensures
        height(links, links[k].1) < height(links, links[k].0),
{
    lemma_acyclic_ranked(links);
}

/// Whether a graph has a cycle depends only on which link ends where which starts.
pub proof fn lemma_joints_decide(one: Seq<(int, int)>, other: Seq<(int, int)>)
    requires
        same_joints(one, other),
    ensures
        has_cycle(one) == has_cycle(other),
{
    if has_cycle(one) {
        let walk = choose|walk: Seq<int>| closes(one, walk);
        lemma_closes_carries(one, other, walk);
    }
    if has_cycle(other) {
        let walk = choose|walk: Seq<int>| closes(other, walk);
        assert(same_joints(other, one));
        lemma_closes_carries(other, one, walk);
    }
}

proof fn lemma_closes_carries(one: Seq<(int, int)>, other: Seq<(int, int)>, walk: Seq<int>)
    requires
        same_joints(one, other),
        closes(one, walk),
    ensures
        closes(other, walk),
{
    assert forall|i: int| 0 < i < walk.len() implies other[walk[i - 1]].1 == other[#[trigger] walk[i]].0 by {
        assert(0 <= walk[i - 1] < one.len());
        assert(0 <= walk[i] < one.len());
        assert(one[walk[i - 1]].1 == one[walk[i]].0);
    }
    assert(0 <= walk[0] < one.len());
    assert(0 <= walk[walk.len() - 1] < one.len());
}

} // verus!
