//! The portions of an inventory: putting them in, finding them and taking
//! them out.

use crate::error::InventoryError;
use crate::model::composition::leaving;
use crate::model::composition::sourced_in;
use crate::model::inventory::Inventory;
use crate::model::portion::Portion;
use crate::selection::enumerates;
use crate::selection::lemma_listed_filter;
use crate::selection::listed;
use crate::topology::graph_add_link;
use crate::topology::graph_is_cyclic;
use crate::topology::graph_leaving;
use crate::topology::leaving_without;
use crate::topology::lemma_leaving_back;
use crate::topology::lemma_leaving_bounded;
use crate::topology::graph_links;
use crate::topology::graph_order;
use crate::topology::graph_outgoing;
use crate::topology::graph_remove_link;
use crate::topology::graph_size;
use crate::topology::lists_outgoing;
use crate::topology::positions;
use crate::topology::spots;
use crate::topology::swap_removed;
use crate::topology::GRAPH_LIMIT;
use vstd::prelude::*;
use vstd::seq_lib::lemma_multiset_commutative;

verus! {

impl Inventory {
    /// The links that leave a node are the portions that leave its item.
    pub(super) proof fn lemma_outgoing(&self, node: usize, out: Seq<(usize, usize, i64)>)
        requires
            self.wf(),
            self.live(node),
            lists_outgoing(graph_links(self.graph), node, out),
        ensures
            enumerates(
                self@.portions.len(),
                self@.leaves(self.records@[node as int].id),
                positions(out),
            ),
            forall|j: int|
                0 <= j < out.len() ==> {
                    &&& self.live((#[trigger] out[j]).1)
                    &&& 0 <= out[j].0 < self@.portions.len()
                    &&& self@.portions[out[j].0 as int] == Portion {
                        source_id: self.records@[node as int].id,
                        component_id: self.records@[out[j].1 as int].id,
                        amount: out[j].2,
                    }
                },
    {
        let links = graph_links(self.graph);
        let id = self.records@[node as int].id;
        let at = positions(out);
        let pick = self@.leaves(id);
        self.lemma_live_item(node);
        assert forall|j: int| 0 <= j < out.len() implies {
            &&& self.live((#[trigger] out[j]).1)
            &&& 0 <= out[j].0 < self@.portions.len()
            &&& self@.portions[out[j].0 as int] == Portion {
                source_id: id,
                component_id: self.records@[out[j].1 as int].id,
                amount: out[j].2,
            }
        } by {
            let k = out[j].0 as int;
            assert(links[k] == (node, out[j].1, out[j].2));
            assert(self.live(links[k].1));
        }
        assert forall|j: int| 0 <= j < at.len() implies 0 <= #[trigger] at[j] < self@.portions.len()
            && pick(at[j]) by {
            assert(out[j].0 < links.len());
        }
        assert forall|i: int, j: int| 0 <= i < j < at.len() implies at[i] != at[j] by {
            assert(out[i].0 != out[j].0);
        }
        assert forall|k: int| 0 <= k < self@.portions.len() && #[trigger] pick(k) implies at.contains(
            k,
        ) by {
            assert(self.live(links[k].0));
            self.lemma_live_nodes(links[k].0, node);
            assert(links[k].0 == node);
            let j = choose|j: int| 0 <= j < out.len() && (#[trigger] out[j]).0 == k;
            assert(at[j] == k);
        }
    }

    /// Puts a portion in behind the others, with no look at cycles, and returns
    /// its position.
    pub(super) fn add_portion(&mut self, portion: Portion) -> (added: Result<usize, InventoryError>)
        requires
            old(self).settled(),
        ensures
            final(self).settled(),
            final(self).handles() == old(self).handles(),
            final(self).issued() == old(self).issued(),
            final(self).records == old(self).records,
            final(self).nodes == old(self).nodes,
            graph_order(final(self).graph) == graph_order(old(self).graph),
            match old(self)@.portion_fault(portion) {
                Some(e) => {
                    &&& added == Err::<usize, InventoryError>(e)
                    &&& final(self).graph == old(self).graph
                },
                None => {
                    &&& added == Ok::<usize, InventoryError>(old(self)@.portions.len() as usize)
                    &&& final(self)@ == old(self)@.with_portion(portion)
                    &&& graph_links(final(self).graph).len() == graph_links(old(self).graph).len() + 1
                    &&& graph_links(final(self).graph).drop_last() == graph_links(old(self).graph)
                    &&& forall|n: usize|
                        n < old(self).records@.len() ==> #[trigger] graph_leaving(final(self).graph, n)
                            == (if n == old(self).node_of(portion.source_id) {
                            seq![old(self)@.portions.len() as usize] + graph_leaving(old(self).graph, n)
                        } else {
                            graph_leaving(old(self).graph, n)
                        })
                    &&& forall|other: u128| #[trigger]
                        final(self).leaving(other) == (if other == portion.source_id {
                            seq![old(self)@.portions.len() as usize] + old(self).leaving(other)
                        } else {
                            old(self).leaving(other)
                        })
                },
            },
    {
        let source = match self.locate(portion.source_id) {
            Some(node) => node,
            None => {
                return Err(InventoryError::NotFound(portion.source_id));
            },
        };
        let component = match self.locate(portion.component_id) {
            Some(node) => node,
            None => {
                return Err(InventoryError::NotFound(portion.component_id));
            },
        };
        if portion.amount < 0 {
            return Err(InventoryError::InvalidAmount);
        }
        proof {
            self.lemma_links();
        }
        if graph_size(&self.graph) >= GRAPH_LIMIT {
            return Err(InventoryError::CapacityExceeded);
        }
        let position = graph_add_link(&mut self.graph, source, component, portion.amount);
        proof {
            let before = old(self);
            let links = graph_links(self.graph);
            assert(links == graph_links(before.graph).push((source, component, portion.amount)));
            assert(links.drop_last() =~= graph_links(before.graph));
            assert forall|k: int| 0 <= k < links.len() implies before.live((#[trigger] links[k]).0)
                && before.live(links[k].1) by {
                if k < links.len() - 1 {
                    assert(links[k] == graph_links(before.graph)[k]);
                }
            }
            self.lemma_links_live(before);
            assert(self.coherent());
            assert(self@.items =~= before@.items);
            assert(self@.portions =~= before@.portions.push(portion)) by {
                assert forall|k: int| 0 <= k < before@.portions.len() implies self@.portions[k]
                    == before@.portions[k] by {
                    assert(links[k] == graph_links(before.graph)[k]);
                }
            }
            assert(self@ == before@.with_portion(portion));
            assert(self.handles() =~= before.handles());
            before@.lemma_with_portion_valid(portion);
            assert forall|other: u128| #[trigger] self.leaving(other) == (if other == portion.source_id {
                seq![before@.portions.len() as usize] + before.leaving(other)
            } else {
                before.leaving(other)
            }) by {
                if before@.has_item(other) {
                    let i = before@.position(other);
                    before.lemma_entry(i);
                    if other != portion.source_id {
                        before.lemma_live_nodes(before.node_of(other), source);
                    }
                }
            }
        }
        Ok(position)
    }

    /// Takes the last link out of the graph again.
    pub(super) fn detach_last(&mut self)
        requires
            graph_links(old(self).graph).len() > 0,
        ensures
            graph_links(final(self).graph) == graph_links(old(self).graph).drop_last(),
            graph_order(final(self).graph) == graph_order(old(self).graph),
            final(self).records == old(self).records,
            final(self).nodes == old(self).nodes,
            forall|n: usize|
                n < graph_order(old(self).graph) ==> #[trigger] graph_leaving(final(self).graph, n)
                    == leaving_without(
                    graph_leaving(old(self).graph, n),
                    (graph_links(old(self).graph).len() - 1) as usize,
                    (graph_links(old(self).graph).len() - 1) as usize,
                ),
    {
        let last = graph_size(&self.graph) - 1;
        let _ = graph_remove_link(&mut self.graph, last);
        proof {
            let links = graph_links(old(self).graph);
            assert(crate::topology::swap_removed(links, last as int) =~= links.drop_last());
        }
    }

    /// A portion that was put in behind the others and taken out again leaves
    /// the inventory as it was.
    pub(super) proof fn lemma_taken_back(&self, with: &Inventory, before: &Inventory, source: usize)
        requires
            before.wf(),
            self.records == before.records,
            self.nodes == before.nodes,
            graph_order(self.graph) == graph_order(before.graph),
            graph_links(self.graph) == graph_links(before.graph),
            forall|n: usize|
                n < before.records@.len() ==> #[trigger] graph_leaving(with.graph, n) == (if n == source {
                    seq![graph_links(before.graph).len() as usize] + graph_leaving(before.graph, n)
                } else {
                    graph_leaving(before.graph, n)
                }),
            forall|n: usize|
                n < before.records@.len() ==> #[trigger] graph_leaving(self.graph, n) == leaving_without(
                    graph_leaving(with.graph, n),
                    graph_links(before.graph).len() as usize,
                    graph_links(before.graph).len() as usize,
                ),
        ensures
            self.wf(),
            self.same_as(before),
    {
        let last = graph_links(before.graph).len() as usize;
        assert forall|n: usize| n < before.records@.len() implies #[trigger] graph_leaving(self.graph, n)
            == graph_leaving(before.graph, n) by {
            let order = graph_leaving(before.graph, n);
            assert forall|j: int| 0 <= j < order.len() implies #[trigger] order[j] < last by {
                assert(graph_leaving(before.graph, n)[j] < graph_links(before.graph).len());
            }
            lemma_leaving_back(order, last);
            assert(graph_leaving(with.graph, n) == graph_leaving(with.graph, n));
        }
        self.lemma_restored(before);
    }

    /// Takes the link at `position` out of the graph; the last link takes its
    /// position.
    pub(super) fn unlink(&mut self, position: usize)
        requires
            old(self).wf(),
            position < graph_links(old(self).graph).len(),
        ensures
            final(self).wf(),
            final(self)@ == old(self)@.without_portion(position as int),
            final(self).handles() == old(self).handles(),
            final(self).issued() == old(self).issued(),
            final(self).records == old(self).records,
            final(self).nodes == old(self).nodes,
            graph_links(final(self).graph) == swap_removed(graph_links(old(self).graph), position as int),
            forall|other: u128| #[trigger]
                final(self).leaving(other) == leaving_without(
                    old(self).leaving(other),
                    position,
                    (old(self)@.portions.len() - 1) as usize,
                ),
    {
        proof {
            self.lemma_links();
        }
        let _ = graph_remove_link(&mut self.graph, position);
        proof {
            let before = old(self);
            let links = graph_links(self.graph);
            let was = graph_links(before.graph);
            let last = was.len() - 1;
            assert forall|k: int| 0 <= k < links.len() implies before.live((#[trigger] links[k]).0)
                && before.live(links[k].1) by {
                let k0 = if k == position { last } else { k };
                assert(links[k] == was[k0]);
            }
            self.lemma_links_live(before);
            assert forall|n: usize, j: int|
                n < self.records@.len() && 0 <= j < graph_leaving(self.graph, n).len() implies (
            #[trigger] graph_leaving(self.graph, n)[j]) < links.len() by {
                let order = graph_leaving(before.graph, n);
                assert forall|i: int| 0 <= i < order.len() implies #[trigger] order[i] <= last by {
                    assert(graph_leaving(before.graph, n)[i] < was.len());
                }
                lemma_leaving_bounded(order, position, last as usize);
            }
            assert(self.coherent());
            assert(self@.items =~= before@.items);
            assert(self@.portions =~= swap_removed(before@.portions, position as int)) by {
                assert forall|k: int| 0 <= k < links.len() implies self@.portions[k] == swap_removed(
                    before@.portions,
                    position as int,
                )[k] by {
                    let k0 = if k == position { last } else { k };
                    assert(links[k] == was[k0]);
                }
            }
            assert(self.handles() =~= before.handles());
            before@.lemma_without_portion_valid(position as int);
            assert forall|other: u128| #[trigger] self.leaving(other) == leaving_without(
                before.leaving(other),
                position,
                (before@.portions.len() - 1) as usize,
            ) by {
                if before@.has_item(other) {
                    before.lemma_entry(before@.position(other));
                } else {
                    reveal(Seq::filter);
                    assert(leaving_without(Seq::<usize>::empty(), position, last as usize)
                        =~= Seq::<usize>::empty());
                }
            }
        }
    }

    /// Adds a portion behind the others and returns its position, unless an end
    /// is no item, the amount is negative, or the portion would close a cycle:
    /// then the inventory stays as it was, and the same call on it is refused
    /// in the same way.
    pub fn create_portion(&mut self, source_id: u128, component_id: u128, amount: i64) -> (created:
        Result<usize, InventoryError>)
        requires
            old(self).wf(),
        ensures
            final(self).wf(),
            final(self)@.acyclic(),
            final(self).handles() == old(self).handles(),
            final(self).issued() == old(self).issued(),
            match old(self)@.portion_refusal(Portion { source_id, component_id, amount }) {
                Some(e) => {
                    &&& created == Err::<usize, InventoryError>(e)
                    &&& final(self).same_as(old(self))
                    &&& final(self)@.portion_refusal(Portion { source_id, component_id, amount })
                        == Some(e)
                },
                None => {
                    &&& created == Ok::<usize, InventoryError>(old(self)@.portions.len() as usize)
                    &&& final(self)@ == old(self)@.with_portion(
                        Portion { source_id, component_id, amount },
                    )
                    &&& forall|other: u128| #[trigger]
                        final(self).leaving(other) == (if other == source_id {
                            seq![old(self)@.portions.len() as usize] + old(self).leaving(other)
                        } else {
                            old(self).leaving(other)
                        })
                },
            },
    {
        let portion = Portion::of(source_id, component_id, amount);
        match self.add_portion(portion) {
            Err(e) => {
                proof {
                    self.lemma_restored(old(self));
                }
                Err(e)
            },
            Ok(position) => {
                let ghost with = *self;
                proof {
                    self.lemma_links();
                    old(self).lemma_links();
                }
                if graph_is_cyclic(&self.graph) {
                    self.detach_last();
                    proof {
                        self.lemma_taken_back(&with, old(self), old(self).node_of(source_id));
                    }
                    Err(InventoryError::CycleWouldForm(source_id, component_id))
                } else {
                    Ok(position)
                }
            },
        }
    }

    /// Whether a portion from `source_id` to `component_id` would close a
    /// cycle. The portion is put in, the graph is searched, and the portion is
    /// taken out again: the inventory is left as it was.
    pub fn test_portion(&mut self, source_id: u128, component_id: u128, amount: i64) -> (tested:
        Result<bool, InventoryError>)
        requires
            old(self).wf(),
        ensures
            final(self).wf(),
            final(self).same_as(old(self)),
            tested == match old(self)@.portion_refusal(Portion { source_id, component_id, amount }) {
                Some(InventoryError::CycleWouldForm(_, _)) => Ok::<bool, InventoryError>(true),
                Some(e) => Err::<bool, InventoryError>(e),
                None => Ok::<bool, InventoryError>(false),
            },
    {
        let portion = Portion::of(source_id, component_id, amount);
        match self.add_portion(portion) {
            Err(e) => {
                proof {
                    self.lemma_restored(old(self));
                }
                Err(e)
            },
            Ok(_) => {
                let ghost with = *self;
                proof {
                    self.lemma_links();
                    old(self).lemma_links();
                }
                let cyclic = graph_is_cyclic(&self.graph);
                self.detach_last();
                proof {
                    self.lemma_taken_back(&with, old(self), old(self).node_of(source_id));
                }
                Ok(cyclic)
            },
        }
    }

    /// The position and the amount of a portion from `source_id` to
    /// `component_id`.
    fn find_link(&self, source_id: u128, component_id: u128) -> (found: Result<
        (usize, i64),
        InventoryError,
    >)
        requires
            self.wf(),
        ensures
            match found {
                Ok((position, amount)) => {
                    &&& self@.portion_miss(source_id, component_id) is None
                    &&& position < self@.portions.len()
                    &&& self@.portions.len() == graph_links(self.graph).len()
                    &&& self@.portions[position as int] == Portion { source_id, component_id, amount }
                },
                Err(e) => self@.portion_miss(source_id, component_id) == Some(e),
            },
    {
        let source = match self.locate(source_id) {
            Some(node) => node,
            None => {
                return Err(InventoryError::NotFound(source_id));
            },
        };
        let component = match self.locate(component_id) {
            Some(node) => node,
            None => {
                return Err(InventoryError::NotFound(component_id));
            },
        };
        let out = graph_outgoing(&self.graph, source);
        proof {
            self.lemma_outgoing(source, out@);
            self.lemma_links();
        }
        let mut j: usize = 0;
        while j < out.len()
            invariant
                self.wf(),
                self.live(source),
                self.live(component),
                self@.has_item(source_id),
                self@.has_item(component_id),
                self.records@[source as int].id == source_id,
                self.records@[component as int].id == component_id,
                lists_outgoing(graph_links(self.graph), source, out@),
                j <= out@.len(),
                forall|i: int| 0 <= i < j ==> (#[trigger] out@[i]).1 != component,
            decreases out@.len() - j,
        {
            let (position, target, amount) = out[j];
            if target == component {
                proof {
                    self.lemma_outgoing(source, out@);
                    assert(out@[j as int].0 == position);
                    self.lemma_links();
                    assert(self@.portions[position as int] == Portion { source_id, component_id, amount });
                    assert(self@.has_portion(source_id, component_id));
                }
                return Ok((position, amount));
            }
            j += 1;
        }
        proof {
            if self@.has_portion(source_id, component_id) {
                let k = choose|k: int|
                    0 <= k < self@.portions.len() && (#[trigger] self@.portions[k]).source_id == source_id
                        && self@.portions[k].component_id == component_id;
                let links = graph_links(self.graph);
                assert(self.live(links[k].0) && self.live(links[k].1));
                self.lemma_live_nodes(links[k].0, source);
                self.lemma_live_nodes(links[k].1, component);
                let i = choose|i: int| 0 <= i < out@.len() && (#[trigger] out@[i]).0 == k;
                assert(links[out@[i].0 as int] == (source, out@[i].1, out@[i].2));
                assert(out@[i].1 == component);
            }
        }
        Err(InventoryError::NotFound(component_id))
    }

    /// A portion from `source_id` to `component_id`.
    pub fn get_portion(&self, source_id: u128, component_id: u128) -> (found: Result<
        Portion,
        InventoryError,
    >)
        requires
            self.wf(),
        ensures
            match found {
                Ok(portion) => {
                    &&& self@.portion_miss(source_id, component_id) is None
                    &&& portion.source_id == source_id
                    &&& portion.component_id == component_id
                    &&& self@.portions.contains(portion)
                },
                Err(e) => self@.portion_miss(source_id, component_id) == Some(e),
            },
    {
        match self.find_link(source_id, component_id) {
            Ok((position, amount)) => {
                proof {
                    assert(self@.portions[position as int] == Portion { source_id, component_id, amount });
                }
                Ok(Portion::of(source_id, component_id, amount))
            },
            Err(e) => Err(e),
        }
    }

    /// The portions that leave the item at `node`, in the order in which the
    /// graph walks them.
    fn portions_at(&self, node: usize) -> (list: Vec<Portion>)
        requires
            self.wf(),
            self.live(node),
        ensures
            list@ == self.portions_of(self.records@[node as int].id),
            list@.to_multiset() == self@.outgoing(self.records@[node as int].id).to_multiset(),
    {
        let out = graph_outgoing(&self.graph, node);
        let ghost at = positions(out@);
        let ghost id = self.records@[node as int].id;
        proof {
            self.lemma_outgoing(node, out@);
            self.lemma_live_item(node);
        }
        let mut list: Vec<Portion> = Vec::new();
        let mut j: usize = 0;
        while j < out.len()
            invariant
                self.wf(),
                self.live(node),
                id == self.records@[node as int].id,
                at == positions(out@),
                lists_outgoing(graph_links(self.graph), node, out@),
                j <= out@.len(),
                list@.len() == j,
                forall|i: int| 0 <= i < j ==> #[trigger] list@[i] == self@.portions[at[i]],
            decreases out@.len() - j,
        {
            let (_, target, weight) = out[j];
            proof {
                self.lemma_outgoing(node, out@);
                assert(out@[j as int].1 == target);
                self.lemma_live_item(target);
            }
            list.push(Portion::of(self.records[node].id, self.records[target].id, weight));
            j += 1;
        }
        proof {
            let all = self@.portions;
            assert(list@ =~= listed(all, at));
            assert(self.leaving(id) == spots(out@));
            assert(list@ =~= self.portions_of(id));
            assert forall|i: int| 0 <= i < at.len() implies 0 <= #[trigger] at[i] < all.len() && (
            leaving(id))(all[at[i]]) by {
                assert((self@.leaves(id))(at[i]));
            }
            assert forall|k: int| 0 <= k < all.len() && (leaving(id))(#[trigger] all[k]) implies at.contains(
                k,
            ) by {
                assert((self@.leaves(id))(k));
            }
            lemma_listed_filter(all, leaving(id), at);
        }
        list
    }

    /// All portions, item by item in the order of the items, and for each item
    /// in the order of `get_portions`.
    pub fn get_all_portions(&self) -> (portions: Vec<Portion>)
        requires
            self.wf(),
        ensures
            portions@ == self.all_portions(),
            portions@.to_multiset() == self@.portions.to_multiset(),
    {
        let nodes = self.get_nodes();
        let mut portions: Vec<Portion> = Vec::new();
        let mut i: usize = 0;
        proof {
            self.lemma_links();
            self@.lemma_sourced_ends();
        }
        while i < nodes.len()
            invariant
                self.wf(),
                nodes@ == self.handles(),
                nodes@.len() == self@.items.len(),
                i <= nodes@.len(),
                portions@ == self.gathered(i as nat),
                portions@.to_multiset() == self@.portions.filter(
                    sourced_in(self@.items, i as int),
                ).to_multiset(),
            decreases nodes@.len() - i,
        {
            let node = nodes[i];
            proof {
                self.lemma_handle(i as int);
                self@.lemma_sourced_next(i as int);
            }
            let ghost so_far = portions@;
            let mut list = self.portions_at(node);
            let ghost more = list@;
            portions.append(&mut list);
            proof {
                lemma_multiset_commutative(so_far, more);
            }
            i += 1;
        }
        proof {
            self@.lemma_sourced_ends();
        }
        portions
    }

    /// The portions that leave the item `id`: the one that was added last comes
    /// first.
    pub fn get_portions(&self, id: u128) -> (portions: Result<Vec<Portion>, InventoryError>)
        requires
            self.wf(),
        ensures
            match portions {
                Ok(list) => {
                    &&& self@.has_item(id)
                    &&& list@ == self.portions_of(id)
                    &&& list@.to_multiset() == self@.outgoing(id).to_multiset()
                },
                Err(e) => !self@.has_item(id) && e == InventoryError::NotFound(id),
            },
    {
        match self.locate(id) {
            Some(node) => Ok(self.portions_at(node)),
            None => Err(InventoryError::NotFound(id)),
        }
    }

    /// Removes a portion from `source_id` to `component_id` and returns the
    /// position that it had; the last portion takes that position.
    pub fn remove_portion(&mut self, source_id: u128, component_id: u128) -> (removed: Result<
        usize,
        InventoryError,
    >)
        requires
            old(self).wf(),
        ensures
            final(self).wf(),
            final(self).handles() == old(self).handles(),
            final(self).issued() == old(self).issued(),
            match removed {
                Ok(position) => {
                    &&& old(self)@.portion_miss(source_id, component_id) is None
                    &&& position < old(self)@.portions.len()
                    &&& old(self)@.portions[position as int].source_id == source_id
                    &&& old(self)@.portions[position as int].component_id == component_id
                    &&& final(self)@ == old(self)@.without_portion(position as int)
                    &&& forall|other: u128| #[trigger]
                        final(self).leaving(other) == leaving_without(
                            old(self).leaving(other),
                            position,
                            (old(self)@.portions.len() - 1) as usize,
                        )
                },
                Err(e) => {
                    &&& old(self)@.portion_miss(source_id, component_id) == Some(e)
                    &&& final(self).same_as(old(self))
                },
            },
    {
        match self.find_link(source_id, component_id) {
            Ok((position, _)) => {
                self.unlink(position);
                Ok(position)
            },
            Err(e) => Err(e),
        }
    }
}

} // verus!
