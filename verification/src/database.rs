//! The flat form in which an inventory is saved and loaded: its items and its
//! portions as two lists.

use crate::model::composition::Composition;
use crate::model::inventory::Inventory;
use crate::model::item::Item;
use crate::model::portion::Portion;
use vstd::prelude::*;

verus! {

/// The items and the portions of an inventory, as they are written to a file.
/// Nothing is required of the two lists: `Inventory::try_from` checks them.
pub struct AppData {
    pub items: Vec<Item>,
    pub portions: Vec<Portion>,
}

impl View for AppData {
    type V = Composition;

    open spec fn view(&self) -> Composition {
        Composition {
            items: Seq::new(self.items@.len(), |i: int| self.items@[i]@),
            portions: self.portions@,
        }
    }
}

impl Clone for AppData {
    fn clone(&self) -> (copy: Self)
        ensures
            copy@ == self@,
    {
        let mut items: Vec<Item> = Vec::new();
        let mut i: usize = 0;
        while i < self.items.len()
            invariant
                i <= self.items@.len(),
                items@.len() == i,
                forall|j: int| 0 <= j < i ==> #[trigger] items@[j] == self.items@[j],
            decreases self.items@.len() - i,
        {
            items.push(self.items[i].clone());
            i += 1;
        }
        let copy = AppData { items, portions: self.portions.clone() };
        proof {
            assert(copy@.items =~= self@.items);
        }
        copy
    }
}

impl AppData {
    /// The items of the inventory in their order and its portions item by item,
    /// as `get_all_portions` lists them. What is saved is valid, and an
    /// inventory that is built from it holds it.
    pub fn from(inventory: Inventory) -> (data: AppData)
        requires
            inventory.wf(),
        ensures
            data@.items == inventory@.items,
            data@.portions == inventory.all_portions(),
            data@.portions.to_multiset() == inventory@.portions.to_multiset(),
            data@.valid(),
            data@.rebuilt() == Ok::<Composition, crate::error::InventoryError>(data@),
    {
        let data = AppData { items: inventory.list_item(), portions: inventory.get_all_portions() };
        proof {
            assert(data@.items =~= inventory@.items);
            inventory@.lemma_rearranged_valid(data@);
            data@.lemma_rebuilt();
        }
        data
    }
}

} // verus!
