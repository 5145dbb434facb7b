//! The inventory: it owns the items and the portions between them, keeps the
//! portions free of cycles, and rolls totals up along them.

mod portions;
mod totals;

use crate::cycles::has_cycle;
use crate::cycles::lemma_joints_decide;
use crate::cycles::same_joints;
use crate::database::AppData;
use crate::error::InventoryError;
use crate::index::index_clone;
use crate::index::index_entries;
use crate::index::index_get;
use crate::index::index_insert;
use crate::index::index_new;
use crate::index::index_shift_remove;
use crate::index::index_values;
use crate::index::lacks_key;
use crate::model::composition::clear_of;
use crate::model::composition::Composition;
use crate::model::item::Item;
use crate::model::item::ItemView;
use crate::model::portion::Portion;
use crate::selection::lemma_filter_all;
use crate::selection::lemma_picked_without;
use crate::selection::picked;
use crate::selection::lemma_filter_swap_removed;
use crate::topology::endpoints;
use crate::topology::graph_add_node;
use crate::topology::graph_all_links;
use crate::topology::graph_clone;
use crate::topology::graph_is_cyclic;
use crate::topology::graph_leaving;
use crate::topology::graph_links;
use crate::topology::graph_new;
use crate::topology::graph_order;
use crate::topology::GRAPH_LIMIT;
use indexmap::IndexMap;
use petgraph::graph::Graph;
use petgraph::Directed;
use std::hash::RandomState;
use vstd::prelude::*;

verus! {

/// The items of a stock and the portions in which they are composed of each
/// other.
///
/// Each item that was ever added has a node of its own in the graph and a
/// record at the node's place; the index leads from the identifier of each
/// addressable item to its node. An item that was removed keeps its node, with
/// no link on it, and loses its entry in the index.
///
/// The view holds the items in their order and the portions by position.
/// Beside it, `leaving` tells in which order the portions of an item are
/// handed out, `handles` the node of each item, and `issued` how many nodes
/// there are.
pub struct Inventory {
    records: Vec<Item>,
    graph: Graph<(), i64, Directed, u32>,
    nodes: IndexMap<u128, usize, RandomState>,
}

impl View for Inventory {
    type V = Composition;

    closed spec fn view(&self) -> Composition {
        let entries = index_entries(self.nodes);
        let links = graph_links(self.graph);
        Composition {
            items: Seq::new(entries.len(), |i: int| self.records@[entries[i].1 as int]@),
            portions: Seq::new(
                links.len(),
                |k: int|
                    Portion {
                        source_id: self.records@[links[k].0 as int].id,
                        component_id: self.records@[links[k].1 as int].id,
                        amount: links[k].2,
                    },
            ),
        }
    }
}

impl Inventory {
    /// The node is that of an addressable item.
    closed spec fn live(&self, node: usize) -> bool {
        exists|i: int|
            0 <= i < index_entries(self.nodes).len() && (#[trigger] index_entries(self.nodes)[i]).1
                == node
    }

    /// Records, graph and index fit together.
    pub closed spec fn coherent(&self) -> bool {
        let entries = index_entries(self.nodes);
        let links = graph_links(self.graph);
        &&& graph_order(self.graph) == self.records@.len()
        &&& entries.len() <= self.records@.len() <= GRAPH_LIMIT
        &&& forall|i: int|
            0 <= i < entries.len() ==> (#[trigger] entries[i]).1 < self.records@.len()
                && self.records@[entries[i].1 as int].id == entries[i].0
        &&& forall|k: int|
            0 <= k < links.len() ==> self.live((#[trigger] links[k]).0) && self.live(links[k].1)
        &&& forall|n: usize, j: int|
            n < self.records@.len() && 0 <= j < graph_leaving(self.graph, n).len() ==> (
            #[trigger] graph_leaving(self.graph, n)[j]) < links.len()
    }

    /// The parts of the inventory fit together and what it holds is sound.
    pub open spec fn settled(&self) -> bool {
        self.coherent() && self@.sound()
    }

    /// The inventory is well formed: its parts fit together and what it holds
    /// is a valid composition.
    pub open spec fn wf(&self) -> bool {
        self.settled() && self@.acyclic()
    }

    /// The node of each addressable item, in the order of the items.
    pub closed spec fn handles(&self) -> Seq<usize> {
        Seq::new(index_entries(self.nodes).len(), |i: int| index_entries(self.nodes)[i].1)
    }

    /// How many nodes were handed out, to items that are addressable and to
    /// items that were removed.
    pub closed spec fn issued(&self) -> nat {
        self.records@.len()
    }

    /// The node of the item `id`.
    closed spec fn node_of(&self, id: u128) -> usize {
        index_entries(self.nodes)[self@.position(id)].1
    }

    /// The positions of the portions that leave the item `id`, in the order in
    /// which they are handed out: the portion that was added last comes first.
    /// Nothing leaves what is no item.
    pub closed spec fn leaving(&self, id: u128) -> Seq<usize> {
        if self@.has_item(id) {
            graph_leaving(self.graph, self.node_of(id))
        } else {
            Seq::empty()
        }
    }

    /// The portions that leave the item `id`, in the order in which they are
    /// handed out.
    pub open spec fn portions_of(&self, id: u128) -> Seq<Portion> {
        picked(self@.portions, self.leaving(id))
    }

    /// The portions of the first `upto` items, item by item.
    pub open spec fn gathered(&self, upto: nat) -> Seq<Portion>
        decreases upto,
    {
        if upto == 0 || upto > self@.items.len() {
            Seq::empty()
        } else {
            self.gathered((upto - 1) as nat) + self.portions_of(self@.items[upto - 1].id)
        }
    }

    /// All portions, item by item in the order of the items, and for each item
    /// in the order in which its portions are handed out.
    pub open spec fn all_portions(&self) -> Seq<Portion> {
        self.gathered(self@.items.len())
    }

    /// Both inventories hold the same composition on the same nodes and hand
    /// the portions out in the same order.
    pub open spec fn same_as(&self, other: &Inventory) -> bool {
        &&& self@ == other@
        &&& self.handles() == other.handles()
        &&& self.issued() == other.issued()
        &&& forall|id: u128| #[trigger] self.leaving(id) == other.leaving(id)
    }

    /// Why an item cannot be added, if it cannot: the item is refused for what
    /// it holds, or the graph has no node left for it.
    pub open spec fn item_refusal(&self, item: ItemView) -> Option<InventoryError> {
        if self@.item_refusal(item) is Some {
            self@.item_refusal(item)
        } else if self.issued() >= GRAPH_LIMIT {
            Some(InventoryError::CapacityExceeded)
        } else {
            None
        }
    }

    /// Inventories with the same index have the same addressable nodes.
    proof fn lemma_live_same(&self, other: &Inventory)
        requires
            index_entries(self.nodes) == index_entries(other.nodes),
        ensures
            forall|node: usize| self.live(node) == other.live(node),
    {
        assert forall|node: usize| self.live(node) == other.live(node) by {
            if self.live(node) {
                let i = choose|i: int|
                    0 <= i < index_entries(self.nodes).len() && (#[trigger] index_entries(
                        self.nodes,
                    )[i]).1 == node;
                assert(index_entries(other.nodes)[i].1 == node);
            }
            if other.live(node) {
                let i = choose|i: int|
                    0 <= i < index_entries(other.nodes).len() && (#[trigger] index_entries(
                        other.nodes,
                    )[i]).1 == node;
                assert(index_entries(self.nodes)[i].1 == node);
            }
        }
    }

    /// Two nodes of addressable items with one identifier are one node.
    proof fn lemma_live_nodes(&self, one: usize, other: usize)
        requires
            self.coherent(),
            forall|i: int, j: int|
                0 <= i < j < self@.items.len() ==> (#[trigger] self@.items[i]).id != (
                #[trigger] self@.items[j]).id,
            self.live(one),
            self.live(other),
        ensures
            one < self.records@.len(),
            other < self.records@.len(),
            self.records@[one as int].id == self.records@[other as int].id <==> one == other,
    {
        let entries = index_entries(self.nodes);
        let i = choose|i: int| 0 <= i < entries.len() && (#[trigger] entries[i]).1 == one;
        let j = choose|j: int| 0 <= j < entries.len() && (#[trigger] entries[j]).1 == other;
        assert(self@.items[i].id == entries[i].0);
        assert(self@.items[j].id == entries[j].0);
        if i < j {
            assert(self@.items[i].id != self@.items[j].id);
        }
        if j < i {
            assert(self@.items[j].id != self@.items[i].id);
        }
    }

    /// The links of the graph, as pairs of nodes, join as the portions do.
    proof fn lemma_links(&self)
        requires
            self.coherent(),
            forall|i: int, j: int|
                0 <= i < j < self@.items.len() ==> (#[trigger] self@.items[i]).id != (
                #[trigger] self@.items[j]).id,
        ensures
            self@.portions.len() == graph_links(self.graph).len(),
            self@.items.len() == index_entries(self.nodes).len(),
            same_joints(endpoints(graph_links(self.graph)), self@.links()),
            has_cycle(endpoints(graph_links(self.graph))) == has_cycle(self@.links()),
    {
        let entries = index_entries(self.nodes);
        let links = graph_links(self.graph);
        let one = endpoints(links);
        let other = self@.links();
        assert forall|j: int, k: int| 0 <= j < one.len() && 0 <= k < one.len() implies (
        #[trigger] one[j].1 == #[trigger] one[k].0 <==> other[j].1 == other[k].0) by {
            assert(self.live(links[j].1));
            assert(self.live(links[k].0));
            self.lemma_live_nodes(links[j].1, links[k].0);
        }
        lemma_joints_decide(one, other);
    }

    /// Entry `i` of the index is item `i` of the composition.
    proof fn lemma_entry(&self, i: int)
        requires
            self.settled(),
            0 <= i < index_entries(self.nodes).len(),
        ensures
            self@.items.len() == index_entries(self.nodes).len(),
            self@.items[i] == self.records@[index_entries(self.nodes)[i].1 as int]@,
            self@.items[i].id == index_entries(self.nodes)[i].0,
            self@.has_item(index_entries(self.nodes)[i].0),
            self@.position(index_entries(self.nodes)[i].0) == i,
            self.handles()[i] == index_entries(self.nodes)[i].1,
            self.live(index_entries(self.nodes)[i].1),
    {
        self@.lemma_position(i);
    }

    /// The positions at which the portions of an item are handed out are
    /// positions of portions.
    proof fn lemma_leaving_in_range(&self, id: u128)
        requires
            self.settled(),
        ensures
            forall|j: int|
                0 <= j < self.leaving(id).len() ==> (#[trigger] self.leaving(id)[j])
                    < self@.portions.len(),
    {
        if self@.has_item(id) {
            self.lemma_entry(self@.position(id));
        }
    }

    /// Handle `i` is the node of item `i`.
    proof fn lemma_handle(&self, i: int)
        requires
            self.settled(),
            0 <= i < self@.items.len(),
        ensures
            self.handles().len() == self@.items.len(),
            self.live(self.handles()[i]),
            self.handles()[i] < self.records@.len(),
            self.records@[self.handles()[i] as int].id == self@.items[i].id,
    {
        self.lemma_entry(i);
    }

    /// An identifier that the index lacks is that of no item.
    proof fn lemma_absent(&self, id: u128)
        requires
            self.settled(),
            lacks_key(index_entries(self.nodes), id),
        ensures
            !self@.has_item(id),
    {
        if self@.has_item(id) {
            let i = self@.position(id);
            self.lemma_entry(i);
        }
    }

    /// A node of an addressable item holds that item.
    proof fn lemma_live_item(&self, node: usize)
        requires
            self.settled(),
            self.live(node),
        ensures
            node < self.records@.len(),
            self@.has_item(self.records@[node as int].id),
            self@.item(self.records@[node as int].id) == self.records@[node as int]@,
            self.node_of(self.records@[node as int].id) == node,
    {
        let entries = index_entries(self.nodes);
        let i = choose|i: int| 0 <= i < entries.len() && (#[trigger] entries[i]).1 == node;
        self.lemma_entry(i);
    }

    /// A node of an addressable item other than the one at place `at` of the
    /// index has an entry at another place.
    proof fn lemma_survivor(&self, node: usize, at: int)
        requires
            self.settled(),
            self.live(node),
            0 <= at < index_entries(self.nodes).len(),
            index_entries(self.nodes)[at].1 != node,
        ensures
            exists|a: int|
                0 <= a < index_entries(self.nodes).len() && a != at && (#[trigger] index_entries(
                    self.nodes,
                )[a]).1 == node,
    {
        let entries = index_entries(self.nodes);
        let a = choose|a: int| 0 <= a < entries.len() && (#[trigger] entries[a]).1 == node;
        assert(a != at);
    }

    /// Inventories with the same items on the same nodes, and with graphs that
    /// walk the links of each node in the same order, hand the portions out in
    /// the same order.
    proof fn lemma_leaving_same(&self, before: &Inventory)
        requires
            before.settled(),
            index_entries(self.nodes) == index_entries(before.nodes),
            self@.items == before@.items,
            forall|n: usize|
                n < before.records@.len() ==> #[trigger] graph_leaving(self.graph, n) == graph_leaving(
                    before.graph,
                    n,
                ),
        ensures
            forall|id: u128| #[trigger] self.leaving(id) == before.leaving(id),
    {
        assert forall|id: u128| #[trigger] self.leaving(id) == before.leaving(id) by {
            if before@.has_item(id) {
                before.lemma_entry(before@.position(id));
            }
        }
    }

    /// The links of an inventory lie on addressable nodes where they lie on
    /// nodes that were addressable in an inventory with the same index.
    proof fn lemma_links_live(&self, before: &Inventory)
        requires
            index_entries(self.nodes) == index_entries(before.nodes),
            forall|k: int|
                0 <= k < graph_links(self.graph).len() ==> before.live(
                    (#[trigger] graph_links(self.graph)[k]).0,
                ) && before.live(graph_links(self.graph)[k].1),
        ensures
            forall|k: int|
                0 <= k < graph_links(self.graph).len() ==> self.live(
                    (#[trigger] graph_links(self.graph)[k]).0,
                ) && self.live(graph_links(self.graph)[k].1),
    {
        self.lemma_live_same(before);
    }

    /// Where the graph keeps its links, every record keeps its identifier and
    /// every addressable node stays addressable, the links lie on addressable
    /// nodes and the portions are what they were.
    proof fn lemma_kept(&self, before: &Inventory)
        requires
            before.settled(),
            graph_links(self.graph) == graph_links(before.graph),
            before.records@.len() <= self.records@.len(),
            forall|n: int|
                0 <= n < before.records@.len() ==> (#[trigger] self.records@[n]).id
                    == before.records@[n].id,
            forall|n: usize| before.live(n) ==> self.live(n),
        ensures
            self@.portions == before@.portions,
            forall|k: int|
                0 <= k < graph_links(self.graph).len() ==> self.live(
                    (#[trigger] graph_links(self.graph)[k]).0,
                ) && self.live(graph_links(self.graph)[k].1),
    {
        let links = graph_links(self.graph);
        assert forall|k: int| 0 <= k < links.len() implies self.live((#[trigger] links[k]).0)
            && self.live(links[k].1) && self@.portions[k] == before@.portions[k] by {
            assert(before.live(links[k].0) && before.live(links[k].1));
            before.lemma_live_nodes(links[k].0, links[k].1);
        }
        assert(self@.portions =~= before@.portions);
    }

    /// An inventory whose records and index are those of a well-formed one,
    /// with a graph of the same nodes and links that are walked in the same
    /// order, is that inventory again.
    proof fn lemma_restored(&self, before: &Inventory)
        requires
            before.wf(),
            self.records == before.records,
            self.nodes == before.nodes,
            graph_order(self.graph) == graph_order(before.graph),
            graph_links(self.graph) == graph_links(before.graph),
            forall|n: usize|
                n < before.records@.len() ==> #[trigger] graph_leaving(self.graph, n) == graph_leaving(
                    before.graph,
                    n,
                ),
        ensures
            self.wf(),
            self.same_as(before),
    {
        assert(self@.items =~= before@.items);
        assert(self@.portions =~= before@.portions);
        assert(self.handles() =~= before.handles());
        self.lemma_live_same(before);
        self.lemma_leaving_same(before);
    }

    /// An inventory without items.
    pub fn new() -> (inventory: Self)
        ensures
            inventory.wf(),
            inventory@ == Composition::empty(),
            inventory.handles() == Seq::<usize>::empty(),
            inventory.issued() == 0,
            forall|id: u128| #[trigger] inventory.leaving(id) == Seq::<usize>::empty(),
    {
        let inventory = Inventory { records: Vec::new(), graph: graph_new(), nodes: index_new() };
        proof {
            assert(inventory@.items =~= Seq::empty());
            assert(inventory@.portions =~= Seq::empty());
            assert(inventory.handles() =~= Seq::empty());
            inventory.lemma_links();
            crate::cycles::lemma_empty_acyclic(inventory@.links());
        }
        inventory
    }

    /// The node of the item `id`, for use inside the inventory.
    fn locate(&self, id: u128) -> (found: Option<usize>)
        requires
            self.settled(),
        ensures
            match found {
                Some(node) => {
                    &&& self@.has_item(id)
                    &&& self.live(node)
                    &&& node < self.records@.len()
                    &&& self.records@[node as int]@ == self@.item(id)
                    &&& self.records@[node as int].id == id
                    &&& index_entries(self.nodes)[self@.position(id)] == (id, node)
                },
                None => !self@.has_item(id) && lacks_key(index_entries(self.nodes), id),
            },
    {
        let found = index_get(&self.nodes, id);
        proof {
            match found {
                Some(node) => {
                    let i = choose|i: int|
                        0 <= i < index_entries(self.nodes).len() && #[trigger] index_entries(
                            self.nodes,
                        )[i] == (id, node);
                    self.lemma_entry(i);
                },
                None => {
                    self.lemma_absent(id);
                },
            }
        }
        found
    }

    /// The node of the item `id`.
    pub fn get_node(&self, id: u128) -> (found: Result<usize, InventoryError>)
        requires
            self.wf(),
        ensures
            match found {
                Ok(node) => self@.has_item(id) && node == self.handles()[self@.position(id)],
                Err(e) => !self@.has_item(id) && e == InventoryError::NotFound(id),
            },
    {
        match self.locate(id) {
            Some(node) => Ok(node),
            None => Err(InventoryError::NotFound(id)),
        }
    }

    /// The nodes of the addressable items, in the order of the items.
    pub fn get_nodes(&self) -> (nodes: Vec<usize>)
        requires
            self.wf(),
        ensures
            nodes@ == self.handles(),
    {
        let nodes = index_values(&self.nodes);
        proof {
            assert(nodes@ =~= self.handles());
        }
        nodes
    }

    /// A copy of the item `id`.
    pub fn get_item(&self, id: u128) -> (found: Result<Item, InventoryError>)
        requires
            self.wf(),
        ensures
            match found {
                Ok(item) => self@.has_item(id) && item@ == self@.item(id),
                Err(e) => !self@.has_item(id) && e == InventoryError::NotFound(id),
            },
    {
        match self.locate(id) {
            Some(node) => Ok(self.records[node].clone()),
            None => Err(InventoryError::NotFound(id)),
        }
    }

    /// Copies of the addressable items, in the order in which they were added.
    pub fn list_item(&self) -> (items: Vec<Item>)
        requires
            self.wf(),
        ensures
            items@.len() == self@.items.len(),
            forall|i: int| 0 <= i < items@.len() ==> (#[trigger] items@[i])@ == self@.items[i],
    {
        let nodes = index_values(&self.nodes);
        let mut items: Vec<Item> = Vec::new();
        let mut i: usize = 0;
        while i < nodes.len()
            invariant
                self.wf(),
                i <= nodes@.len(),
                nodes@.len() == index_entries(self.nodes).len(),
                forall|j: int| 0 <= j < nodes@.len() ==> #[trigger] nodes@[j] == index_entries(self.nodes)[j].1,
                items@.len() == i,
                forall|j: int| 0 <= j < i ==> (#[trigger] items@[j])@ == self@.items[j],
            decreases nodes@.len() - i,
        {
            proof {
                self.lemma_entry(i as int);
            }
            let node = nodes[i];
            items.push(self.records[node].clone());
            i += 1;
        }
        proof {
            if nodes@.len() > 0 {
                self.lemma_entry(0);
            }
        }
        items
    }

    /// Adds an item behind the others, on a node of its own, and returns its
    /// identifier. An item with a negative amount or price, or with the
    /// identifier of an item that is there, is refused.
    pub fn add_item(&mut self, item: Item) -> (added: Result<u128, InventoryError>)
        requires
            old(self).wf(),
        ensures
            final(self).wf(),
            match old(self).item_refusal(item@) {
                Some(e) => added == Err::<u128, InventoryError>(e) && final(self).same_as(old(self)),
                None => {
                    &&& added == Ok::<u128, InventoryError>(item.id)
                    &&& final(self)@ == old(self)@.with_item(item@)
                    &&& final(self).handles() == old(self).handles().push(old(self).issued() as usize)
                    &&& final(self).issued() == old(self).issued() + 1
                    &&& forall|other: u128| #[trigger] final(self).leaving(other) == old(self).leaving(other)
                },
            },
    {
        if item.amount < 0 {
            return Err(InventoryError::InvalidAmount);
        }
        if item.price < 0 {
            return Err(InventoryError::InvalidPrice);
        }
        let id = item.id;
        if self.locate(id).is_some() {
            return Err(InventoryError::DuplicateId(id));
        }
        if self.records.len() >= GRAPH_LIMIT {
            return Err(InventoryError::CapacityExceeded);
        }
        let ghost shown = item@;
        let node = graph_add_node(&mut self.graph);
        self.records.push(item);
        index_insert(&mut self.nodes, id, node);
        proof {
            let before = old(self);
            let entries = index_entries(self.nodes);
            let links = graph_links(self.graph);
            assert(entries == index_entries(before.nodes).push((id, node)));
            assert forall|i: int| 0 <= i < entries.len() implies (#[trigger] entries[i]).1
                < self.records@.len() && self.records@[entries[i].1 as int].id == entries[i].0 by {
                if i < entries.len() - 1 {
                    assert(entries[i] == index_entries(before.nodes)[i]);
                }
            }
            assert forall|n: usize| before.live(n) implies self.live(n) by {
                let i = choose|i: int|
                    0 <= i < index_entries(before.nodes).len() && (#[trigger] index_entries(
                        before.nodes,
                    )[i]).1 == n;
                assert(entries[i].1 == n);
            }
            self.lemma_kept(before);
            assert(self.coherent());
            assert(self@.items =~= before@.items.push(shown)) by {
                assert forall|i: int| 0 <= i < before@.items.len() implies self@.items[i]
                    == before@.items[i] by {
                    assert(entries[i] == index_entries(before.nodes)[i]);
                }
            }
            assert(self@ == before@.with_item(shown));
            assert(self.handles() =~= before.handles().push(before.issued() as usize));
            before@.lemma_with_item_valid(shown);
            assert forall|other: u128| #[trigger] self.leaving(other) == before.leaving(other) by {
                if before@.has_item(other) {
                    let i = before@.position(other);
                    before.lemma_entry(i);
                    assert(self@.items[i].id == other);
                    self.lemma_entry(i);
                    assert(entries[i] == index_entries(before.nodes)[i]);
                } else if other == id {
                    let i = entries.len() - 1;
                    assert(self@.items[i].id == other);
                    self.lemma_entry(i);
                } else if self@.has_item(other) {
                    let i = self@.position(other);
                    assert(before@.items[i].id == other);
                }
            }
        }
        Ok(id)
    }

    /// Puts in the place of the item `id` what `update_fn` makes of it, with the
    /// identifier kept. An item with a negative amount or price is refused.
    pub fn update_item<F: FnOnce(Item) -> Item>(&mut self, id: u128, update_fn: F) -> (updated: Result<
        (),
        InventoryError,
    >)
        requires
            old(self).wf(),
            old(self)@.has_item(id) ==> forall|stored: Item|
                stored@ == old(self)@.item(id) ==> #[trigger] update_fn.requires((stored,)),
        ensures
            final(self).wf(),
            final(self).handles() == old(self).handles(),
            final(self).issued() == old(self).issued(),
            forall|other: u128| #[trigger] final(self).leaving(other) == old(self).leaving(other),
            !old(self)@.has_item(id) ==> updated == Err::<(), InventoryError>(
                InventoryError::NotFound(id),
            ) && final(self)@ == old(self)@,
            old(self)@.has_item(id) ==> exists|stored: Item, changed: Item|
                {
                    &&& stored@ == old(self)@.item(id)
                    &&& #[trigger] update_fn.ensures((stored,), changed)
                    &&& if changed.amount < 0 {
                        &&& updated == Err::<(), InventoryError>(InventoryError::InvalidAmount)
                        &&& final(self)@ == old(self)@
                    } else if changed.price < 0 {
                        &&& updated == Err::<(), InventoryError>(InventoryError::InvalidPrice)
                        &&& final(self)@ == old(self)@
                    } else {
                        &&& updated == Ok::<(), InventoryError>(())
                        &&& final(self)@ == old(self)@.with_changed(id, ItemView { id, ..changed@ })
                    }
                },
    {
        let node = match self.locate(id) {
            Some(node) => node,
            None => {
                return Err(InventoryError::NotFound(id));
            },
        };
        let stored = self.records[node].clone();
        let ghost given = stored;
        let changed = update_fn(stored);
        let ghost made = changed;
        if changed.amount < 0 {
            assert(update_fn.ensures((given,), made));
            return Err(InventoryError::InvalidAmount);
        }
        if changed.price < 0 {
            assert(update_fn.ensures((given,), made));
            return Err(InventoryError::InvalidPrice);
        }
        let kept = Item { id, name: changed.name, amount: changed.amount, price: changed.price };
        self.records[node] = kept;
        proof {
            let before = old(self);
            let entries = index_entries(self.nodes);
            let links = graph_links(self.graph);
            let at = before@.position(id);
            self.lemma_live_same(before);
            self.lemma_kept(before);
            assert(self.coherent());
            assert(self@.items =~= before@.items.update(at, ItemView { id, ..made@ })) by {
                assert forall|i: int| 0 <= i < entries.len() implies self@.items[i]
                    == before@.items.update(at, ItemView { id, ..made@ })[i] by {
                    before.lemma_entry(i);
                    if entries[i].1 == node {
                        assert(i == at);
                    }
                }
            }
            assert(self.handles() =~= before.handles());
            before@.lemma_with_changed_valid(id, ItemView { id, ..made@ });
            assert(update_fn.ensures((given,), made));
            assert forall|other: u128| #[trigger] self.leaving(other) == before.leaving(other) by {
                if before@.has_item(other) {
                    let i = before@.position(other);
                    before.lemma_entry(i);
                    assert(self@.items[i].id == other);
                    self.lemma_entry(i);
                } else if self@.has_item(other) {
                    let i = self@.position(other);
                    assert(before@.items[i].id == other);
                }
            }
        }
        Ok(())
    }

    /// Removes the item `id` and with it every portion that lies on it. The
    /// other items keep their order; the other portions may change places, and
    /// those of each item are handed out in the order they had.
    pub fn remove_item(&mut self, id: u128) -> (removed: Result<(), InventoryError>)
        requires
            old(self).wf(),
        ensures
            final(self).wf(),
            final(self).issued() == old(self).issued(),
            match removed {
                Ok(_) => {
                    &&& old(self)@.has_item(id)
                    &&& !final(self)@.has_item(id)
                    &&& final(self)@.items == old(self)@.without_item(id).items
                    &&& final(self)@.portions.to_multiset() == old(self)@.without_item(
                        id,
                    ).portions.to_multiset()
                    &&& final(self).handles() == old(self).handles().remove(old(self)@.position(id))
                    &&& forall|other: u128|
                        other != id ==> #[trigger] final(self).portions_of(other) == old(self).portions_of(
                            other,
                        ).filter(clear_of(id))
                },
                Err(e) => {
                    &&& !old(self)@.has_item(id)
                    &&& e == InventoryError::NotFound(id)
                    &&& final(self).same_as(old(self))
                },
            },
    {
        let node = match self.locate(id) {
            Some(node) => node,
            None => {
                return Err(InventoryError::NotFound(id));
            },
        };
        let all = graph_all_links(&self.graph);
        let ghost keep = clear_of(id);
        let mut k: usize = all.len();
        while k > 0
            invariant
                self.wf(),
                self.records == old(self).records,
                self.nodes == old(self).nodes,
                self.handles() == old(self).handles(),
                self@.items == old(self)@.items,
                keep == clear_of(id),
                self.live(node),
                self.records@[node as int].id == id,
                k <= graph_links(self.graph).len() <= all@.len(),
                forall|i: int| 0 <= i < k ==> #[trigger] graph_links(self.graph)[i] == all@[i],
                forall|i: int|
                    k <= i < graph_links(self.graph).len() ==> (#[trigger] graph_links(self.graph)[i]).0
                        != node && graph_links(self.graph)[i].1 != node,
                self@.portions.filter(keep).to_multiset() == old(self)@.portions.filter(
                    keep,
                ).to_multiset(),
                forall|other: u128| #[trigger]
                    self.portions_of(other).filter(keep) == old(self).portions_of(other).filter(keep),
            decreases k,
        {
            k -= 1;
            let (from, to, _) = all[k];
            let ghost now = *self;
            proof {
                self.lemma_links();
                assert(graph_links(self.graph)[k as int] == (from, to, all@[k as int].2));
            }
            if from == node || to == node {
                self.unlink(k);
                proof {
                    let was = graph_links(now.graph);
                    let links = graph_links(self.graph);
                    assert(!keep(now@.portions[k as int]));
                    lemma_filter_swap_removed(now@.portions, keep, k as int);
                    assert forall|other: u128| #[trigger]
                        self.portions_of(other).filter(keep) == now.portions_of(other).filter(keep) by {
                        now.lemma_leaving_in_range(other);
                        lemma_picked_without(
                            now@.portions,
                            now.leaving(other),
                            k,
                            (now@.portions.len() - 1) as usize,
                            keep,
                        );
                    }
                    assert forall|i: int| k <= i < links.len() implies (#[trigger] links[i]).0 != node
                        && links[i].1 != node by {
                        let i0 = if i == k { was.len() - 1 } else { i };
                        assert(links[i] == was[i0]);
                    }
                }
            }
        }
        let ghost bare = *self;
        proof {
            self.lemma_links();
            let links = graph_links(self.graph);
            assert forall|i: int| 0 <= i < self@.portions.len() implies keep(
                #[trigger] self@.portions[i],
            ) by {
                assert(self.live(links[i].0) && self.live(links[i].1));
                self.lemma_live_nodes(links[i].0, node);
                self.lemma_live_nodes(links[i].1, node);
            }
            lemma_filter_all(self@.portions, keep);
        }
        let _ = index_shift_remove(&mut self.nodes, id);
        proof {
            let was = index_entries(bare.nodes);
            let entries = index_entries(self.nodes);
            let links = graph_links(self.graph);
            let at = bare@.position(id);
            let i = choose|i: int|
                0 <= i < was.len() && #[trigger] was[i] == (id, was[i].1) && entries == was.remove(i);
            bare.lemma_entry(i);
            assert(i == at);
            assert(was[at].1 == node);
            assert forall|j: int| 0 <= j < entries.len() implies (#[trigger] entries[j]).1
                < self.records@.len() && self.records@[entries[j].1 as int].id == entries[j].0 by {
                let j0 = if j < at { j } else { j + 1 };
                assert(entries[j] == was[j0]);
            }
            assert forall|k: int| 0 <= k < links.len() implies self.live((#[trigger] links[k]).0)
                && self.live(links[k].1) by {
                bare.lemma_survivor(links[k].0, at);
                bare.lemma_survivor(links[k].1, at);
                let a = choose|a: int| 0 <= a < was.len() && a != at && (#[trigger] was[a]).1 == links[k].0;
                let a1 = if a < at { a } else { a - 1 };
                assert(entries[a1].1 == links[k].0);
                let b = choose|b: int| 0 <= b < was.len() && b != at && (#[trigger] was[b]).1 == links[k].1;
                let b1 = if b < at { b } else { b - 1 };
                assert(entries[b1].1 == links[k].1);
            }
            assert(self.coherent());
            assert(self@.items =~= bare@.items.remove(at)) by {
                assert forall|j: int| 0 <= j < entries.len() implies self@.items[j] == bare@.items.remove(
                    at,
                )[j] by {
                    let j0 = if j < at { j } else { j + 1 };
                    assert(entries[j] == was[j0]);
                }
            }
            assert(self@.portions =~= bare@.portions);
            assert(self.handles() =~= bare.handles().remove(at));
            bare@.lemma_without_free_item_valid(id);
            assert forall|other: u128| other != id implies #[trigger] self.portions_of(other)
                == old(self).portions_of(other).filter(keep) by {
                bare.lemma_leaving_in_range(other);
                if bare@.has_item(other) {
                    let j0 = bare@.position(other);
                    bare.lemma_entry(j0);
                    let j = if j0 < at { j0 } else { j0 - 1 };
                    assert(entries[j] == was[j0]);
                    assert(self@.items[j].id == other);
                    self.lemma_entry(j);
                } else if self@.has_item(other) {
                    let j = self@.position(other);
                    let j0 = if j < at { j } else { j + 1 };
                    assert(self@.items[j] == bare@.items[j0]);
                }
                assert(self.leaving(other) == bare.leaving(other));
                assert forall|i: int| 0 <= i < bare.portions_of(other).len() implies keep(
                    #[trigger] bare.portions_of(other)[i],
                ) by {
                    assert(keep(bare@.portions[bare.leaving(other)[i] as int]));
                }
                lemma_filter_all(bare.portions_of(other), keep);
            }
            if self@.has_item(id) {
                let j = self@.position(id);
                let j0 = if j < at { j } else { j + 1 };
                assert(self@.items[j] == bare@.items[j0]);
                bare@.lemma_position(j0);
            }
        }
        Ok(())
    }

    /// Builds an inventory from a saved composition: all items are added, then
    /// all portions are put in with no look at cycles, and the graph is
    /// searched once at the end. A portion that names an item that is not among
    /// the items is a dangling reference.
    pub fn try_from(data: AppData) -> (built: Result<Self, InventoryError>)
        ensures
            match data@.rebuilt() {
                Ok(composition) => {
                    &&& built is Ok
                    &&& built->Ok_0.wf()
                    &&& built->Ok_0@ == composition
                    &&& composition == data@
                    &&& built->Ok_0.handles() == Seq::new(composition.items.len(), |i: int| i as usize)
                    &&& built->Ok_0.issued() == composition.items.len()
                    &&& forall|id: u128| #[trigger]
                        built->Ok_0.leaving(id) == data@.stacked(id, data@.portions.len())
                },
                Err(e) => built is Err && built->Err_0 == e,
            },
    {
        let mut inventory = Inventory::new();
        let mut i: usize = 0;
        while i < data.items.len()
            invariant
                inventory.wf(),
                inventory.issued() == inventory@.items.len(),
                inventory.handles() == Seq::new(inventory@.items.len(), |i: int| i as usize),
                inventory@.portions.len() == 0,
                forall|id: u128| #[trigger] inventory.leaving(id) == Seq::<usize>::empty(),
                i <= data.items@.len(),
                Composition::stocked(data@.items, i as nat) == Ok::<Composition, InventoryError>(
                    inventory@,
                ),
            decreases data.items@.len() - i,
        {
            let item = data.items[i].clone();
            proof {
                assert(data@.items[i as int] == item@);
            }
            match inventory.add_item(item) {
                Err(e) => {
                    proof {
                        Composition::lemma_stocked_fails(
                            data@.items,
                            (i + 1) as nat,
                            data@.items.len(),
                        );
                    }
                    return Err(e);
                },
                Ok(_) => {},
            }
            i += 1;
        }
        let ghost stock = inventory@;
        let mut k: usize = 0;
        while k < data.portions.len()
            invariant
                inventory.settled(),
                inventory@.items == stock.items,
                inventory.issued() == stock.items.len(),
                inventory.handles() == Seq::new(stock.items.len(), |i: int| i as usize),
                forall|id: u128| #[trigger] inventory.leaving(id) == inventory@.stacked(id, k as nat),
                inventory@.portions.len() == k,
                k <= data.portions@.len(),
                Composition::stocked(data@.items, data@.items.len()) == Ok::<
                    Composition,
                    InventoryError,
                >(stock),
                stock.joined(data@.portions, k as nat) == Ok::<Composition, InventoryError>(inventory@),
            decreases data.portions@.len() - k,
        {
            let portion = data.portions[k];
            let ghost so_far = inventory@;
            proof {
                assert forall|id: u128| so_far.with_portion(portion).stacked(id, (k + 1) as nat) == (
                if id == portion.source_id {
                    seq![k] + so_far.stacked(id, k as nat)
                } else {
                    so_far.stacked(id, k as nat)
                }) by {
                    so_far.lemma_stacked_stays(portion, id, k as nat);
                }
            }
            match inventory.add_portion(portion) {
                Err(InventoryError::NotFound(_)) => {
                    proof {
                        stock.lemma_joined_fails(
                            data@.portions,
                            (k + 1) as nat,
                            data@.portions.len(),
                        );
                    }
                    return Err(InventoryError::DanglingReference);
                },
                Err(e) => {
                    proof {
                        stock.lemma_joined_fails(
                            data@.portions,
                            (k + 1) as nat,
                            data@.portions.len(),
                        );
                    }
                    return Err(e);
                },
                Ok(_) => {},
            }
            k += 1;
        }
        proof {
            inventory.lemma_links();
        }
        if graph_is_cyclic(&inventory.graph) {
            return Err(InventoryError::CyclicData);
        }
        proof {
            data@.lemma_rebuilt_ok();
        }
        Ok(inventory)
    }
}

impl Default for Inventory {
    /// An inventory without items.
    fn default() -> (inventory: Self)
        ensures
            inventory.wf(),
            inventory@ == Composition::empty(),
            inventory.handles() == Seq::<usize>::empty(),
            inventory.issued() == 0,
            forall|id: u128| #[trigger] inventory.leaving(id) == Seq::<usize>::empty(),
    {
        Inventory::new()
    }
}

impl Clone for Inventory {
    /// A copy that holds the same composition on the same nodes.
    fn clone(&self) -> (copy: Self)
        ensures
            copy@ == self@,
            self.wf() ==> copy.wf() && copy.same_as(self),
    {
        let mut records: Vec<Item> = Vec::new();
        let mut i: usize = 0;
        while i < self.records.len()
            invariant
                i <= self.records@.len(),
                records@.len() == i,
                forall|j: int| 0 <= j < i ==> #[trigger] records@[j] == self.records@[j],
            decreases self.records@.len() - i,
        {
            records.push(self.records[i].clone());
            i += 1;
        }
        let copy = Inventory { records, graph: graph_clone(&self.graph), nodes: index_clone(&self.nodes) };
        proof {
            assert(copy.records@ =~= self.records@);
            assert(copy@.items =~= self@.items);
            assert(copy@.portions =~= self@.portions);
            assert(copy.handles() =~= self.handles());
            if self.wf() {
                copy.lemma_live_same(self);
                assert(copy.coherent());
                copy.lemma_leaving_same(self);
            }
        }
        copy
    }
}

} // verus!
