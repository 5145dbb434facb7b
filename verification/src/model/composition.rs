//! The composition of an inventory as a mathematical value: its items and its
//! portions, what may be done to them, and what comes of saving them and
//! building them again.

use crate::cycles::closes;
use crate::cycles::has_cycle;
use crate::cycles::lemma_chained_extends;
use crate::cycles::height;
use crate::cycles::leads;
use crate::cycles::lemma_acyclic_ranked;
use crate::cycles::lemma_cycle_maps;
use crate::cycles::lemma_height_falls;
use crate::cycles::lemma_rank_falls;
use crate::cycles::lemma_reaches_first_step;
use crate::cycles::lemma_step_reaches;
use crate::cycles::ranking;
use crate::cycles::reaches;
use crate::error::InventoryError;
use crate::model::item::ItemView;
use crate::model::portion::Portion;
use crate::selection::lemma_filter_all;
use crate::selection::lemma_filter_count;
use crate::topology::swap_removed;
use crate::topology::GRAPH_LIMIT;
use vstd::prelude::*;

verus! {

/// What an inventory holds: the addressable items in the order in which they
/// were added, and the portions by position.
pub struct Composition {
    pub items: Seq<ItemView>,
    pub portions: Seq<Portion>,
}

/// Whether a portion leaves the item `id`.
pub open spec fn leaving(id: u128) -> spec_fn(Portion) -> bool {
    |portion: Portion| portion.source_id == id
}

/// Whether a portion lies on neither side on the item `id`.
pub open spec fn clear_of(id: u128) -> spec_fn(Portion) -> bool {
    |portion: Portion| !portion.touches(id)
}

/// Whether a portion leaves one of the first `upto` of these items.
pub open spec fn sourced_in(items: Seq<ItemView>, upto: int) -> spec_fn(Portion) -> bool {
    |portion: Portion|
        exists|j: int| 0 <= j < upto && j < items.len() && (#[trigger] items[j]).id == portion.source_id
}

impl Composition {
    /// The composition without items or portions.
    pub open spec fn empty() -> Composition {
        Composition { items: Seq::empty(), portions: Seq::empty() }
    }

    /// An item with this identifier is addressable.
    pub open spec fn has_item(self, id: u128) -> bool {
        exists|i: int| 0 <= i < self.items.len() && (#[trigger] self.items[i]).id == id
    }

    /// The place of the item with this identifier among the items.
    pub open spec fn position(self, id: u128) -> int {
        choose|i: int| 0 <= i < self.items.len() && (#[trigger] self.items[i]).id == id
    }

    /// The item with this identifier.
    pub open spec fn item(self, id: u128) -> ItemView {
        self.items[self.position(id)]
    }

    /// A portion from `source_id` to `component_id` exists.
    pub open spec fn has_portion(self, source_id: u128, component_id: u128) -> bool {
        exists|k: int|
            0 <= k < self.portions.len() && (#[trigger] self.portions[k]).source_id == source_id
                && self.portions[k].component_id == component_id
    }

    /// The portions that leave the item `id`, in the order of their positions.
    pub open spec fn outgoing(self, id: u128) -> Seq<Portion> {
        self.portions.filter(leaving(id))
    }

    /// No portion leaves the item.
    pub open spec fn is_leaf(self, id: u128) -> bool {
        forall|k: int| 0 <= k < self.portions.len() ==> (#[trigger] self.portions[k]).source_id != id
    }

    /// The portions as links between identifiers.
    pub open spec fn links(self) -> Seq<(int, int)> {
        Seq::new(self.portions.len(), |k: int| self.portions[k].link())
    }

    /// The positions, among the first `upto` portions, of those that leave the
    /// item `id`, the last first.
    pub open spec fn stacked(self, id: u128, upto: nat) -> Seq<usize>
        decreases upto,
    {
        if upto == 0 || upto > self.portions.len() {
            Seq::empty()
        } else if self.portions[upto - 1].source_id == id {
            seq![(upto - 1) as usize] + self.stacked(id, (upto - 1) as nat)
        } else {
            self.stacked(id, (upto - 1) as nat)
        }
    }

    /// The portions form no cycle.
    pub open spec fn acyclic(self) -> bool {
        !has_cycle(self.links())
    }

    /// The item `id` consumes the item `other`, directly or through other items,
    /// or is that item.
    pub open spec fn uses(self, id: u128, other: u128) -> bool {
        reaches(self.links(), id as int, other as int)
    }

    /// A measure that falls along every portion, from source to component.
    pub open spec fn depth(self, id: u128) -> nat {
        height(self.links(), id as int)
    }

    /// What holds of every inventory whether or not its portions form a cycle:
    /// no two items share an identifier, no amount or price is negative, every
    /// portion joins two addressable items, and there are no more items or
    /// portions than the graph takes.
    pub open spec fn sound(self) -> bool {
        &&& self.items.len() <= GRAPH_LIMIT
        &&& self.portions.len() <= GRAPH_LIMIT
        &&& forall|i: int, j: int|
            0 <= i < j < self.items.len() ==> (#[trigger] self.items[i]).id != (
            #[trigger] self.items[j]).id
        &&& forall|i: int|
            0 <= i < self.items.len() ==> (#[trigger] self.items[i]).amount >= 0
                && self.items[i].price >= 0
        &&& forall|k: int|
            0 <= k < self.portions.len() ==> self.has_item((#[trigger] self.portions[k]).source_id)
                && self.has_item(self.portions[k].component_id) && self.portions[k].amount >= 0
    }

    /// What holds of every inventory: it is sound and its portions form no
    /// cycle.
    pub open spec fn valid(self) -> bool {
        self.sound() && self.acyclic()
    }

    /// The composition with one more item, behind the others.
    pub open spec fn with_item(self, item: ItemView) -> Composition {
        Composition { items: self.items.push(item), portions: self.portions }
    }

    /// The composition with `item` in the place of the item `id`.
    pub open spec fn with_changed(self, id: u128, item: ItemView) -> Composition {
        Composition { items: self.items.update(self.position(id), item), portions: self.portions }
    }

    /// The composition without the item `id` and without the portions that lie
    /// on it, the other portions in the order they had.
    pub open spec fn without_item(self, id: u128) -> Composition {
        Composition {
            items: self.items.remove(self.position(id)),
            portions: self.portions.filter(clear_of(id)),
        }
    }

    /// The composition with one more portion, behind the others.
    pub open spec fn with_portion(self, portion: Portion) -> Composition {
        Composition { items: self.items, portions: self.portions.push(portion) }
    }

    /// The composition with the portion at `position` taken out and the last
    /// portion put in its place.
    pub open spec fn without_portion(self, position: int) -> Composition {
        Composition { items: self.items, portions: swap_removed(self.portions, position) }
    }

    /// Why an item cannot be added, if it cannot: a negative amount or price, or
    /// an identifier that an item has already.
    pub open spec fn item_refusal(self, item: ItemView) -> Option<InventoryError> {
        if item.amount < 0 {
            Some(InventoryError::InvalidAmount)
        } else if item.price < 0 {
            Some(InventoryError::InvalidPrice)
        } else if self.has_item(item.id) {
            Some(InventoryError::DuplicateId(item.id))
        } else {
            None
        }
    }

    /// Why a portion cannot be put in, whatever it would do to the graph: an end
    /// that is no item, a negative amount, or no room for another portion.
    pub open spec fn portion_fault(self, portion: Portion) -> Option<InventoryError> {
        if !self.has_item(portion.source_id) {
            Some(InventoryError::NotFound(portion.source_id))
        } else if !self.has_item(portion.component_id) {
            Some(InventoryError::NotFound(portion.component_id))
        } else if portion.amount < 0 {
            Some(InventoryError::InvalidAmount)
        } else if self.portions.len() >= GRAPH_LIMIT {
            Some(InventoryError::CapacityExceeded)
        } else {
            None
        }
    }

    /// Why a portion cannot be added, if it cannot: a fault of the portion, or a
    /// cycle that it would close.
    pub open spec fn portion_refusal(self, portion: Portion) -> Option<InventoryError> {
        if self.portion_fault(portion) is Some {
            self.portion_fault(portion)
        } else if !self.with_portion(portion).acyclic() {
            Some(InventoryError::CycleWouldForm(portion.source_id, portion.component_id))
        } else {
            None
        }
    }

    /// Why no portion from `source_id` to `component_id` is found, if none is:
    /// an end that is no item, or two items that no portion joins.
    pub open spec fn portion_miss(self, source_id: u128, component_id: u128) -> Option<InventoryError> {
        if !self.has_item(source_id) {
            Some(InventoryError::NotFound(source_id))
        } else if !self.has_item(component_id) {
            Some(InventoryError::NotFound(component_id))
        } else if !self.has_portion(source_id, component_id) {
            Some(InventoryError::NotFound(component_id))
        } else {
            None
        }
    }

    /// Why an item of a saved composition cannot be taken in, if it cannot: the
    /// item is refused for what it holds, or there is no room for another item.
    pub open spec fn item_fault(self, item: ItemView) -> Option<InventoryError> {
        if self.item_refusal(item) is Some {
            self.item_refusal(item)
        } else if self.items.len() >= GRAPH_LIMIT {
            Some(InventoryError::CapacityExceeded)
        } else {
            None
        }
    }

    /// Why a portion of a saved composition cannot be taken in, if it cannot:
    /// as for any portion, but an end that is no item is a dangling reference.
    pub open spec fn link_fault(self, portion: Portion) -> Option<InventoryError> {
        match self.portion_fault(portion) {
            Some(InventoryError::NotFound(_)) => Some(InventoryError::DanglingReference),
            other => other,
        }
    }

    /// What comes of taking in the first `upto` of these items one by one: a
    /// composition with those items, or the error of the first that is refused.
    pub open spec fn stocked(items: Seq<ItemView>, upto: nat) -> Result<Composition, InventoryError>
        decreases upto,
    {
        if upto == 0 {
            Ok(Composition::empty())
        } else {
            match Composition::stocked(items, (upto - 1) as nat) {
                Err(e) => Err(e),
                Ok(so_far) => match so_far.item_fault(items[upto - 1]) {
                    Some(e) => Err(e),
                    None => Ok(so_far.with_item(items[upto - 1])),
                },
            }
        }
    }

    /// What comes of taking in the first `upto` of these portions one by one,
    /// with no look at cycles: this composition with those portions, or the
    /// error of the first that is refused.
    pub open spec fn joined(self, portions: Seq<Portion>, upto: nat) -> Result<Composition, InventoryError>
        decreases upto,
    {
        if upto == 0 {
            Ok(self)
        } else {
            match self.joined(portions, (upto - 1) as nat) {
                Err(e) => Err(e),
                Ok(so_far) => match so_far.link_fault(portions[upto - 1]) {
                    Some(e) => Err(e),
                    None => Ok(so_far.with_portion(portions[upto - 1])),
                },
            }
        }
    }

    /// What comes of building an inventory from a saved composition: all items
    /// are taken in, then all portions, and the result must have no cycle.
    pub open spec fn rebuilt(self) -> Result<Composition, InventoryError> {
        match Composition::stocked(self.items, self.items.len()) {
            Err(e) => Err(e),
            Ok(stock) => match stock.joined(self.portions, self.portions.len()) {
                Err(e) => Err(e),
                Ok(all) => if all.acyclic() {
                    Ok(all)
                } else {
                    Err(InventoryError::CyclicData)
                },
            },
        }
    }
}

impl Composition {
    /// In a valid composition the place of an item is the place where its
    /// identifier stands.
    pub proof fn lemma_position(self, i: int)
        requires
            self.sound(),
            0 <= i < self.items.len(),
        ensures
            self.has_item(self.items[i].id),
            self.position(self.items[i].id) == i,
            self.item(self.items[i].id) == self.items[i],
    {
        let id = self.items[i].id;
        let j = self.position(id);
        assert(0 <= j < self.items.len() && self.items[j].id == id);
        if j < i {
            assert(self.items[j].id != self.items[i].id);
        }
        if i < j {
            assert(self.items[i].id != self.items[j].id);
        }
    }

    /// An item that is there is there with one more item.
    pub proof fn lemma_has_item_stays(self, item: ItemView, id: u128)
        requires
            self.has_item(id),
        ensures
            self.with_item(item).has_item(id),
    {
        let i = self.position(id);
        assert(self.with_item(item).items[i].id == id);
    }

    /// A composition stays sound with one more item that is not refused, and
    /// gets no cycle by it.
    pub proof fn lemma_with_item_valid(self, item: ItemView)
        requires
            self.sound(),
            self.item_fault(item) is None,
        ensures
            self.with_item(item).sound(),
            self.with_item(item).acyclic() == self.acyclic(),
    {
        let more = self.with_item(item);
        assert forall|k: int| 0 <= k < more.portions.len() implies more.has_item(
            (#[trigger] more.portions[k]).source_id,
        ) && more.has_item(more.portions[k].component_id) && more.portions[k].amount >= 0 by {
            let p = self.portions[k];
            self.lemma_has_item_stays(item, p.source_id);
            self.lemma_has_item_stays(item, p.component_id);
        }
        assert(more.links() =~= self.links());
    }

    /// A valid composition stays valid with another item in the place of one,
    /// if it keeps the identifier and neither its amount nor its price is
    /// negative.
    pub proof fn lemma_with_changed_valid(self, id: u128, item: ItemView)
        requires
            self.valid(),
            self.has_item(id),
            item.id == id,
            item.amount >= 0,
            item.price >= 0,
        ensures
            self.with_changed(id, item).valid(),
    {
        let other = self.with_changed(id, item);
        let at = self.position(id);
        assert forall|i: int| 0 <= i < other.items.len() implies (#[trigger] other.items[i]).id
            == self.items[i].id by {}
        assert forall|k: int| 0 <= k < other.portions.len() implies other.has_item(
            (#[trigger] other.portions[k]).source_id,
        ) && other.has_item(other.portions[k].component_id) && other.portions[k].amount >= 0 by {
            let p = self.portions[k];
            assert(self.has_item(p.source_id) && self.has_item(p.component_id));
            let i = self.position(p.source_id);
            assert(other.items[i].id == p.source_id);
            let j = self.position(p.component_id);
            assert(other.items[j].id == p.component_id);
        }
        assert(other.links() =~= self.links());
    }

    /// A valid composition stays valid without one of its items, if no portion
    /// lies on that item.
    pub proof fn lemma_without_free_item_valid(self, id: u128)
        requires
            self.valid(),
            self.has_item(id),
            forall|k: int| 0 <= k < self.portions.len() ==> !(#[trigger] self.portions[k]).touches(id),
        ensures
            (Composition { items: self.items.remove(self.position(id)), portions: self.portions }).valid(),
    {
        let at = self.position(id);
        let less = Composition { items: self.items.remove(at), portions: self.portions };
        assert forall|i: int, j: int| 0 <= i < j < less.items.len() implies (#[trigger] less.items[i]).id
            != (#[trigger] less.items[j]).id by {
            let i0 = if i < at { i } else { i + 1 };
            let j0 = if j < at { j } else { j + 1 };
            assert(less.items[i] == self.items[i0] && less.items[j] == self.items[j0]);
        }
        assert forall|i: int| 0 <= i < less.items.len() implies (#[trigger] less.items[i]).amount >= 0
            && less.items[i].price >= 0 by {
            let i0 = if i < at { i } else { i + 1 };
            assert(less.items[i] == self.items[i0]);
        }
        assert forall|k: int| 0 <= k < less.portions.len() implies less.has_item(
            (#[trigger] less.portions[k]).source_id,
        ) && less.has_item(less.portions[k].component_id) && less.portions[k].amount >= 0 by {
            let p = self.portions[k];
            assert(less.portions[k] == p);
            assert(!p.touches(id));
            assert(self.has_item(p.source_id) && self.has_item(p.component_id) && p.amount >= 0);
            let i = self.position(p.source_id);
            let i1 = if i < at { i } else { i - 1 };
            assert(less.items[i1].id == less.portions[k].source_id);
            let j = self.position(p.component_id);
            let j1 = if j < at { j } else { j - 1 };
            assert(less.items[j1].id == less.portions[k].component_id);
        }
        assert(less.links() =~= self.links());
    }

    /// A composition stays sound with one more portion that has no fault.
    pub proof fn lemma_with_portion_valid(self, portion: Portion)
        requires
            self.sound(),
            self.portion_fault(portion) is None,
        ensures
            self.with_portion(portion).sound(),
    {
        let more = self.with_portion(portion);
        assert forall|k: int| 0 <= k < more.portions.len() implies more.has_item(
            (#[trigger] more.portions[k]).source_id,
        ) && more.has_item(more.portions[k].component_id) && more.portions[k].amount >= 0 by {
            let p = more.portions[k];
            if k < self.portions.len() {
                assert(p == self.portions[k]);
            } else {
                assert(p == portion);
            }
            assert(self.has_item(p.source_id) && self.has_item(p.component_id));
            let i = self.position(p.source_id);
            assert(more.items[i].id == p.source_id);
            let j = self.position(p.component_id);
            assert(more.items[j].id == p.component_id);
        }
    }

    /// A valid composition stays valid without one of its portions.
    pub proof fn lemma_without_portion_valid(self, position: int)
        requires
            self.valid(),
            0 <= position < self.portions.len(),
        ensures
            self.without_portion(position).valid(),
    {
        let less = self.without_portion(position);
        let last = self.portions.len() - 1;
        let place = |i: int| if i == position { last } else { i };
        assert forall|k: int| 0 <= k < less.portions.len() implies less.portions[k]
            == self.portions[place(k)] by {}
        assert forall|k: int| 0 <= k < less.portions.len() implies less.has_item(
            (#[trigger] less.portions[k]).source_id,
        ) && less.has_item(less.portions[k].component_id) && less.portions[k].amount >= 0 by {
            let p = self.portions[place(k)];
            assert(less.portions[k] == p);
            assert(self.has_item(p.source_id) && self.has_item(p.component_id));
            let i = self.position(p.source_id);
            assert(less.items[i].id == p.source_id);
            let j = self.position(p.component_id);
            assert(less.items[j].id == p.component_id);
        }
        if has_cycle(less.links()) {
            assert forall|i: int| 0 <= i < less.links().len() implies 0 <= #[trigger] place(i)
                < self.links().len() && self.links()[place(i)] == less.links()[i] by {
                assert(less.portions[i] == self.portions[place(i)]);
            }
            lemma_cycle_maps(less.links(), self.links(), place);
        }
    }

    /// What a component uses, the source of the portion uses.
    pub proof fn lemma_uses_step(self, k: int, other: u128)
        requires
            0 <= k < self.portions.len(),
            self.uses(self.portions[k].component_id, other),
        ensures
            self.uses(self.portions[k].source_id, other),
    {
        assert(self.links()[k] == self.portions[k].link());
        lemma_step_reaches(self.links(), k, other as int);
    }

    /// An item that uses another one does so through one of its own portions.
    pub proof fn lemma_uses_first(self, id: u128, other: u128) -> (k: int)
        requires
            self.uses(id, other),
            id != other,
        ensures
            0 <= k < self.portions.len(),
            self.portions[k].source_id == id,
            self.uses(self.portions[k].component_id, other),
    {
        let k = lemma_reaches_first_step(self.links(), id as int, other as int);
        assert(self.links()[k] == self.portions[k].link());
        k
    }

    /// In a composition without a cycle no component uses the source of its
    /// portion.
    pub proof fn lemma_no_way_back(self, k: int)
        requires
            self.acyclic(),
            0 <= k < self.portions.len(),
        ensures
            !self.uses(self.portions[k].component_id, self.portions[k].source_id),
            self.depth(self.portions[k].component_id) < self.depth(self.portions[k].source_id),
    {
        let links = self.links();
        let source = self.portions[k].source_id as int;
        let component = self.portions[k].component_id as int;
        assert(links[k] == self.portions[k].link());
        lemma_height_falls(links, k);
        if reaches(links, component, source) {
            lemma_acyclic_ranked(links);
            if component != source {
                let walk = choose|walk: Seq<int>| leads(links, walk, component, source);
                lemma_rank_falls(links, ranking(links), walk);
            }
        }
    }

    /// A composition with the items of a valid one and with the same portions,
    /// in whatever order, is valid.
    pub proof fn lemma_rearranged_valid(self, other: Composition)
        requires
            self.valid(),
            other.items == self.items,
            other.portions.to_multiset() == self.portions.to_multiset(),
        ensures
            other.valid(),
    {
        self.portions.to_multiset_ensures();
        other.portions.to_multiset_ensures();
        assert forall|k: int| 0 <= k < other.portions.len() implies self.portions.contains(
            #[trigger] other.portions[k],
        ) by {
            assert(other.portions.contains(other.portions[k]));
            assert(other.portions.to_multiset().count(other.portions[k]) > 0);
            assert(self.portions.to_multiset().count(other.portions[k]) > 0);
        }
        assert forall|k: int| 0 <= k < other.portions.len() implies other.has_item(
            (#[trigger] other.portions[k]).source_id,
        ) && other.has_item(other.portions[k].component_id) && other.portions[k].amount >= 0 by {
            let p = other.portions[k];
            assert(self.portions.contains(p));
            let at = choose|at: int| 0 <= at < self.portions.len() && self.portions[at] == p;
            assert(self.has_item(self.portions[at].source_id));
        }
        if has_cycle(other.links()) {
            let place = |i: int|
                choose|at: int| 0 <= at < self.portions.len() && self.portions[at] == other.portions[i];
            assert forall|i: int| 0 <= i < other.links().len() implies 0 <= #[trigger] place(i)
                < self.links().len() && self.links()[place(i)] == other.links()[i] by {
                assert(self.portions.contains(other.portions[i]));
            }
            lemma_cycle_maps(other.links(), self.links(), place);
        }
    }

    /// The portions that leave one of the first `upto` items and those that
    /// leave the next item are the portions that leave one of the first
    /// `upto + 1` items.
    pub proof fn lemma_sourced_next(self, upto: int)
        requires
            self.sound(),
            0 <= upto < self.items.len(),
        ensures
            self.portions.filter(sourced_in(self.items, upto)).to_multiset().add(
                self.outgoing(self.items[upto].id).to_multiset(),
            ) == self.portions.filter(sourced_in(self.items, upto + 1)).to_multiset(),
    {
        let id = self.items[upto].id;
        let so_far = sourced_in(self.items, upto);
        let next = sourced_in(self.items, upto + 1);
        let one = self.portions.filter(so_far).to_multiset();
        let other = self.portions.filter(leaving(id)).to_multiset();
        let both = self.portions.filter(next).to_multiset();
        assert forall|x: Portion| one.add(other).count(x) == both.count(x) by {
            lemma_filter_count(self.portions, so_far, x);
            lemma_filter_count(self.portions, leaving(id), x);
            lemma_filter_count(self.portions, next, x);
            if so_far(x) {
                let j = choose|j: int|
                    0 <= j < upto && j < self.items.len() && (#[trigger] self.items[j]).id == x.source_id;
                assert(self.items[j].id != self.items[upto].id);
                assert(next(x));
            }
            if (leaving(id))(x) {
                assert(self.items[upto].id == x.source_id);
                assert(next(x));
            }
            if next(x) {
                let j = choose|j: int|
                    0 <= j < upto + 1 && j < self.items.len() && (#[trigger] self.items[j]).id
                        == x.source_id;
                if j < upto {
                    assert(so_far(x));
                }
            }
        }
        assert(one.add(other) =~= both);
    }

    /// No portion leaves one of no items, and every portion leaves one of all
    /// items.
    pub proof fn lemma_sourced_ends(self)
        requires
            self.sound(),
        ensures
            self.portions.filter(sourced_in(self.items, 0)).to_multiset() == Seq::<Portion>::empty().to_multiset(),
            self.portions.filter(sourced_in(self.items, self.items.len() as int)) == self.portions,
    {
        let none = sourced_in(self.items, 0);
        let all = sourced_in(self.items, self.items.len() as int);
        assert forall|x: Portion| self.portions.filter(none).to_multiset().count(x) == Seq::<
            Portion,
        >::empty().to_multiset().count(x) by {
            lemma_filter_count(self.portions, none, x);
            Seq::<Portion>::empty().to_multiset_ensures();
            assert(!Seq::<Portion>::empty().contains(x));
        }
        assert(self.portions.filter(none).to_multiset() =~= Seq::<Portion>::empty().to_multiset());
        assert forall|k: int| 0 <= k < self.portions.len() implies all(#[trigger] self.portions[k]) by {
            let id = self.portions[k].source_id;
            assert(self.has_item(id));
            let j = self.position(id);
            assert(self.items[j].id == id);
        }
        lemma_filter_all(self.portions, all);
    }

    /// One more portion behind the others changes nothing in the positions of
    /// the portions before it.
    pub proof fn lemma_stacked_stays(self, portion: Portion, id: u128, upto: nat)
        requires
            upto <= self.portions.len(),
        ensures
            self.with_portion(portion).stacked(id, upto) == self.stacked(id, upto),
        decreases upto,
    {
        if upto > 0 {
            self.lemma_stacked_stays(portion, id, (upto - 1) as nat);
            assert(self.with_portion(portion).portions[upto - 1] == self.portions[upto - 1]);
        }
    }

    /// Once an item is refused, the items that follow change nothing.
    pub proof fn lemma_stocked_fails(items: Seq<ItemView>, at: nat, upto: nat)
        requires
            Composition::stocked(items, at) is Err,
            at <= upto,
        ensures
            Composition::stocked(items, upto) == Composition::stocked(items, at),
        decreases upto,
    {
        if at < upto {
            Composition::lemma_stocked_fails(items, at, (upto - 1) as nat);
        }
    }

    /// Once a portion is refused, the portions that follow change nothing.
    pub proof fn lemma_joined_fails(self, portions: Seq<Portion>, at: nat, upto: nat)
        requires
            self.joined(portions, at) is Err,
            at <= upto,
        ensures
            self.joined(portions, upto) == self.joined(portions, at),
        decreases upto,
    {
        if at < upto {
            self.lemma_joined_fails(portions, at, (upto - 1) as nat);
        }
    }

    /// The items of a sound composition are all taken in, one by one.
    pub proof fn lemma_stocked(self, upto: nat)
        requires
            self.sound(),
            upto <= self.items.len(),
        ensures
            Composition::stocked(self.items, upto) == Ok::<Composition, InventoryError>(
                Composition { items: self.items.take(upto as int), portions: Seq::empty() },
            ),
        decreases upto,
    {
        if upto == 0 {
            assert(self.items.take(0) =~= Seq::empty());
        } else {
            self.lemma_stocked((upto - 1) as nat);
            let so_far = Composition { items: self.items.take(upto - 1), portions: Seq::empty() };
            let item = self.items[upto - 1];
            if so_far.has_item(item.id) {
                let i = so_far.position(item.id);
                assert(self.items[i].id != self.items[upto - 1].id);
            }
            assert(so_far.with_item(item).items =~= self.items.take(upto as int));
        }
    }

    /// The portions of a sound composition are all taken in, one by one.
    pub proof fn lemma_joined(self, upto: nat)
        requires
            self.sound(),
            upto <= self.portions.len(),
        ensures
            (Composition { items: self.items, portions: Seq::empty() }).joined(self.portions, upto) == Ok::<
                Composition,
                InventoryError,
            >(Composition { items: self.items, portions: self.portions.take(upto as int) }),
        decreases upto,
    {
        if upto == 0 {
            assert(self.portions.take(0) =~= Seq::empty());
        } else {
            self.lemma_joined((upto - 1) as nat);
            let so_far = Composition { items: self.items, portions: self.portions.take(upto - 1) };
            let portion = self.portions[upto - 1];
            assert(self.has_item(portion.source_id) && self.has_item(portion.component_id));
            let i = self.position(portion.source_id);
            assert(so_far.items[i].id == portion.source_id);
            let j = self.position(portion.component_id);
            assert(so_far.items[j].id == portion.component_id);
            assert(so_far.with_portion(portion).portions =~= self.portions.take(upto as int));
        }
    }

    /// Where all of the first `upto` items are taken in, the result holds them
    /// and nothing else, and is sound.
    pub proof fn lemma_stocked_ok(items: Seq<ItemView>, upto: nat)
        requires
            upto <= items.len(),
            Composition::stocked(items, upto) is Ok,
        ensures
            Composition::stocked(items, upto) == Ok::<Composition, InventoryError>(
                Composition { items: items.take(upto as int), portions: Seq::empty() },
            ),
            (Composition { items: items.take(upto as int), portions: Seq::empty() }).sound(),
        decreases upto,
    {
        if upto == 0 {
            assert(items.take(0) =~= Seq::empty());
        } else {
            Composition::lemma_stocked_ok(items, (upto - 1) as nat);
            let so_far = Composition { items: items.take(upto - 1), portions: Seq::empty() };
            so_far.lemma_with_item_valid(items[upto - 1]);
            assert(so_far.with_item(items[upto - 1]).items =~= items.take(upto as int));
        }
    }

    /// Where all of the first `upto` portions are taken in by a sound
    /// composition without portions, the result holds its items and those
    /// portions, and is sound.
    pub proof fn lemma_joined_ok(self, portions: Seq<Portion>, upto: nat)
        requires
            self.sound(),
            self.portions.len() == 0,
            upto <= portions.len(),
            self.joined(portions, upto) is Ok,
        ensures
            self.joined(portions, upto) == Ok::<Composition, InventoryError>(
                Composition { items: self.items, portions: portions.take(upto as int) },
            ),
            (Composition { items: self.items, portions: portions.take(upto as int) }).sound(),
        decreases upto,
    {
        if upto == 0 {
            assert(portions.take(0) =~= self.portions);
        } else {
            self.lemma_joined_ok(portions, (upto - 1) as nat);
            let so_far = Composition { items: self.items, portions: portions.take(upto - 1) };
            so_far.lemma_with_portion_valid(portions[upto - 1]);
            assert(so_far.with_portion(portions[upto - 1]).portions =~= portions.take(upto as int));
        }
    }

    /// What is built from a saved composition is that composition, and it is
    /// valid: whoever gets an inventory from `Inventory::try_from` knows what
    /// it holds.
    pub proof fn lemma_rebuilt_ok(self)
        requires
            self.rebuilt() is Ok,
        ensures
            self.rebuilt() == Ok::<Composition, InventoryError>(self),
            self.valid(),
    {
        Composition::lemma_stocked_ok(self.items, self.items.len());
        assert(self.items.take(self.items.len() as int) =~= self.items);
        let stock = Composition { items: self.items, portions: Seq::empty() };
        stock.lemma_joined_ok(self.portions, self.portions.len());
        assert(self.portions.take(self.portions.len() as int) =~= self.portions);
    }

    /// A portion between two items that would close a cycle is refused for
    /// that, wherever the portion has no fault of its own: its amount is not
    /// negative and there is room for it.
    pub proof fn lemma_cycle_refused(self, portion: Portion)
        requires
            self.valid(),
            self.portion_fault(portion) is None,
            self.uses(portion.component_id, portion.source_id),
        ensures
            self.portion_refusal(portion) == Some(
                InventoryError::CycleWouldForm(portion.source_id, portion.component_id),
            ),
            !self.with_portion(portion).acyclic(),
    {
        let more = self.with_portion(portion);
        let links = more.links();
        let last = self.portions.len() as int;
        assert(links[last] == portion.link());
        if portion.component_id == portion.source_id {
            let walk = seq![last];
            assert(closes(links, walk));
        } else {
            let path = choose|walk: Seq<int>|
                leads(self.links(), walk, portion.component_id as int, portion.source_id as int);
            assert forall|k: int| 0 <= k < self.links().len() implies self.links()[k] == links[k] by {
                assert(more.portions[k] == self.portions[k]);
            }
            lemma_chained_extends(self.links(), links, path);
            let walk = path.push(last);
            assert(0 <= path[0] < self.links().len());
            assert(0 <= path[path.len() - 1] < self.links().len());
            assert forall|i: int| 0 <= i < walk.len() implies 0 <= #[trigger] walk[i] < links.len() by {
                if i < path.len() {
                    assert(walk[i] == path[i]);
                }
            }
            assert forall|i: int| 0 < i < walk.len() implies links[walk[i - 1]].1
                == links[#[trigger] walk[i]].0 by {
                if i < path.len() {
                    assert(walk[i] == path[i]);
                    assert(walk[i - 1] == path[i - 1]);
                } else {
                    assert(walk[i - 1] == path.last());
                }
            }
            assert(walk[0] == path[0]);
            assert(closes(links, walk));
        }
    }

    /// A portion that closes no cycle and has no fault of its own is accepted,
    /// and the composition with it is valid.
    pub proof fn lemma_portion_accepted(self, portion: Portion)
        requires
            self.valid(),
            self.portion_refusal(portion) is None,
        ensures
            self.with_portion(portion).valid(),
    {
        self.lemma_with_portion_valid(portion);
    }

    /// A valid composition, saved and built again, is the same composition: the
    /// same items in the same order and the same portions at the same
    /// positions.
    pub proof fn lemma_rebuilt(self)
        requires
            self.valid(),
        ensures
            self.rebuilt() == Ok::<Composition, InventoryError>(self),
    {
        self.lemma_stocked(self.items.len());
        self.lemma_joined(self.portions.len());
        assert(self.items.take(self.items.len() as int) =~= self.items);
        assert(self.portions.take(self.portions.len() as int) =~= self.portions);
    }
}

} // verus!
