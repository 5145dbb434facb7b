//! A stocked item and its builder.

use crate::error::InventoryError;
use crate::ident::fresh_id;
use crate::ident::made_at_random;
use vstd::prelude::*;

verus! {

/// One unit, in the fixed-point form in which amounts and prices are held:
/// an `i64` counts millionths.
pub const SCALE: i64 = 1_000_000;

/// A stocked item: its identifier, its name, its own amount (a mass, in
/// millionths of a kilogram) and its own price (in millionths), both without
/// what the item is composed of.
#[derive(Debug)]
pub struct Item {
    pub id: u128,
    pub name: String,
    pub amount: i64,
    pub price: i64,
}

/// An item as a mathematical value.
pub struct ItemView {
    pub id: u128,
    pub name: Seq<char>,
    pub amount: i64,
    pub price: i64,
}

impl View for Item {
    type V = ItemView;

    open spec fn view(&self) -> ItemView {
        ItemView { id: self.id, name: self.name@, amount: self.amount, price: self.price }
    }
}

impl Clone for Item {
    fn clone(&self) -> (copy: Self)
        ensures
            copy == *self,
    {
        Item { id: self.id, name: self.name.clone(), amount: self.amount, price: self.price }
    }
}

impl Item {
    /// A builder with no field set.
    pub fn builder() -> (builder: ItemBuilder)
        ensures
            builder.id is None,
            builder.name is None,
            builder.amount is None,
            builder.price is None,
    {
        ItemBuilder { id: None, name: None, amount: None, price: None }
    }

    /// An item with this name, an identifier made at random, no amount and no
    /// price.
    pub fn new(name: &str) -> (item: Self)
        ensures
            made_at_random(item.id),
            item@.name == name@,
            item.amount == 0,
            item.price == 0,
    {
        Item { id: fresh_id(), name: String::from_str(name), amount: 0, price: 0 }
    }
}

/// Collects the fields of an item one by one.
pub struct ItemBuilder {
    pub id: Option<u128>,
    pub name: Option<String>,
    pub amount: Option<i64>,
    pub price: Option<i64>,
}

impl ItemBuilder {
    /// The name that `build` gives the item.
    pub open spec fn built_name(&self) -> Seq<char> {
        match self.name {
            Some(name) => name@,
            None => Seq::empty(),
        }
    }

    /// The item with the fields that were set, and with `fresh` for its
    /// identifier where none was set. A field that was not set is empty or zero.
    pub fn build_with(&self, fresh: u128) -> (item: Item)
        ensures
            item.id == (if self.id is Some {
                self.id->0
            } else {
                fresh
            }),
            item@.name == self.built_name(),
            item.amount == (if self.amount is Some {
                self.amount->0
            } else {
                0
            }),
            item.price == (if self.price is Some {
                self.price->0
            } else {
                0
            }),
    {
        let id = match self.id {
            Some(id) => id,
            None => fresh,
        };
        let name = match &self.name {
            Some(name) => name.clone(),
            None => String::new(),
        };
        let amount = match self.amount {
            Some(amount) => amount,
            None => 0,
        };
        let price = match self.price {
            Some(price) => price,
            None => 0,
        };
        Item { id, name, amount, price }
    }

    /// The item with the fields that were set. A field that was not set is
    /// empty or zero; an identifier that was not set is made at random.
    pub fn build(&self) -> (built: Result<Item, InventoryError>)
        ensures
            built is Ok,
            self.id is Some ==> built->Ok_0.id == self.id->0,
            self.id is None ==> made_at_random(built->Ok_0.id),
            built->Ok_0@.name == self.built_name(),
            built->Ok_0.amount == (if self.amount is Some {
                self.amount->0
            } else {
                0
            }),
            built->Ok_0.price == (if self.price is Some {
                self.price->0
            } else {
                0
            }),
    {
        Ok(self.build_with(fresh_id()))
    }

    /// Sets the identifier.
    pub fn with_id(&mut self, new_id: u128) -> (builder: &mut Self)
        ensures
            *builder == (ItemBuilder { id: Some(new_id), ..*old(self) }),
            *final(self) == *final(builder),
    {
        self.id = Some(new_id);
        self
    }

    /// Sets the name.
    pub fn with_name(&mut self, new_name: &str) -> (builder: &mut Self)
        ensures
            builder.built_name() == new_name@,
            builder.id == old(self).id,
            builder.amount == old(self).amount,
            builder.price == old(self).price,
            *final(self) == *final(builder),
    {
        self.name = Some(String::from_str(new_name));
        self
    }

    /// Sets the amount, in millionths of a kilogram.
    pub fn with_amount(&mut self, new_amount: i64) -> (builder: &mut Self)
        ensures
            *builder == (ItemBuilder { amount: Some(new_amount), ..*old(self) }),
            *final(self) == *final(builder),
    {
        self.amount = Some(new_amount);
        self
    }

    /// Sets the price, in millionths.
    pub fn with_price(&mut self, new_price: i64) -> (builder: &mut Self)
        ensures
            *builder == (ItemBuilder { price: Some(new_price), ..*old(self) }),
            *final(self) == *final(builder),
    {
        self.price = Some(new_price);
        self
    }
}

} // verus!
