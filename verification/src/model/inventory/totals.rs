//! The totals of an item, rolled up along its portions.

use crate::error::InventoryError;
use crate::model::rollup::per_unit;
use crate::model::rollup::share;
use crate::model::inventory::Inventory;
use crate::model::item::SCALE;
use crate::selection::enumerates;
use crate::selection::lemma_sum_enumerated;
use crate::selection::lemma_sum_grows;
use crate::selection::sum_along;
use crate::topology::graph_links;
use crate::topology::graph_outgoing;
use crate::topology::lists_outgoing;
use crate::topology::positions;
use vstd::prelude::*;

verus! {

/// `sum` and `weight` units of something of which one unit is worth `value`;
/// `None` where that does not fit the range.
fn step(sum: i64, weight: i64, value: i64) -> (next: Option<i64>)
    requires
        sum >= 0,
        weight >= 0,
        value >= 0,
    ensures
        next == (if sum + share(weight as int, value as int) <= i64::MAX {
            Some((sum + share(weight as int, value as int)) as i64)
        } else {
            None
        }),
{
    assert(0 <= weight * value <= 0x7fff_ffff_ffff_ffff * 0x7fff_ffff_ffff_ffff) by (nonlinear_arith)
        requires
            0 <= weight <= 0x7fff_ffff_ffff_ffff,
            0 <= value <= 0x7fff_ffff_ffff_ffff,
    ;
    let product: i128 = (weight as i128) * (value as i128);
    let part: i128 = product / (SCALE as i128);
    let next: i128 = (sum as i128) + part;
    if next > (i64::MAX as i128) {
        None
    } else {
        Some(next as i64)
    }
}

/// `price` for `amount` units as a price for one unit; `None` where that does
/// not fit the range.
fn unit_of(price: i64, amount: i64) -> (unit: Option<i64>)
    requires
        price >= 0,
        amount > 0,
    ensures
        unit == (if per_unit(price as int, amount as int) <= i64::MAX {
            Some(per_unit(price as int, amount as int) as i64)
        } else {
            None
        }),
{
    let scaled: i128 = (price as i128) * (SCALE as i128);
    assert(scaled / (amount as i128) >= 0) by (nonlinear_arith)
        requires
            scaled >= 0,
            amount > 0,
    ;
    let unit: i128 = scaled / (amount as i128);
    if unit > (i64::MAX as i128) {
        None
    } else {
        Some(unit as i64)
    }
}

impl Inventory {
    /// The total amount of the item at `node`; `None` where it cannot be
    /// computed.
    fn amount_at(&self, node: usize) -> (total: Option<i64>)
        requires
            self.wf(),
            self.live(node),
        ensures
            total == (if self@.amount_fits(self.records@[node as int].id) {
                Some(self@.total_amount(self.records@[node as int].id) as i64)
            } else {
                None
            }),
            total is Some ==> total->0 == self@.total_amount(self.records@[node as int].id),
        decreases self@.depth(self.records@[node as int].id),
    {
        let out = graph_outgoing(&self.graph, node);
        let ghost v = self@;
        let ghost id = self.records@[node as int].id;
        let ghost at = positions(out@);
        let ghost term = v.amount_term();
        proof {
            self.lemma_live_item(node);
            self.lemma_outgoing(node, out@);
            v.lemma_amount_fits_steps(id);
            v.lemma_parts_amount_sum(id, v.portions.len());
            lemma_sum_enumerated(v.portions.len(), v.leaves(id), term, at);
            assert forall|i: int| 0 <= i < at.len() implies term(#[trigger] at[i]) >= 0 by {
                v.lemma_terms_not_negative(at[i]);
            }
            assert(at.take(0) =~= Seq::<int>::empty());
        }
        let mut acc: i64 = self.records[node].amount;
        let mut j: usize = 0;
        while j < out.len()
            invariant
                self.wf(),
                self.live(node),
                v == self@,
                id == self.records@[node as int].id,
                at == positions(out@),
                term == v.amount_term(),
                lists_outgoing(graph_links(self.graph), node, out@),
                enumerates(v.portions.len(), v.leaves(id), at),
                forall|i: int| 0 <= i < at.len() ==> term(#[trigger] at[i]) >= 0,
                v.total_amount(id) == v.item(id).amount + sum_along(at, term),
                v.item(id).amount >= 0,
                0 <= j <= out@.len(),
                acc == v.item(id).amount + sum_along(at.take(j as int), term),
                forall|i: int|
                    0 <= i < j ==> v.amount_fits(v.portions[#[trigger] at[i]].component_id),
                v.amount_fits(id) <==> (v.total_amount(id) <= i64::MAX && forall|k: int|
                    0 <= k < v.portions.len() && (#[trigger] v.portions[k]).source_id == id
                        ==> v.amount_fits(v.portions[k].component_id)),
            decreases out@.len() - j,
        {
            let (position, target, weight) = out[j];
            proof {
                self.lemma_outgoing(node, out@);
                assert(out@[j as int].1 == target);
                assert(at[j as int] == position);
                v.lemma_no_way_back(position as int);
                self.lemma_live_item(target);
                v.lemma_totals_not_negative(self.records@[target as int].id);
                lemma_sum_grows(at, term, j as int);
                lemma_sum_grows(at, term, j + 1);
                assert(at.take(j + 1).drop_last() =~= at.take(j as int));
                assert(at.take(j + 1).last() == at[j as int]);
            }
            let part = match self.amount_at(target) {
                Some(part) => part,
                None => {
                    return None;
                },
            };
            let next = step(acc, weight, part);
            match next {
                Some(sum) => {
                    acc = sum;
                },
                None => {
                    return None;
                },
            }
            j += 1;
        }
        proof {
            assert(at.take(j as int) =~= at);
            assert forall|k: int|
                0 <= k < v.portions.len() && (#[trigger] v.portions[k]).source_id
                    == id implies v.amount_fits(v.portions[k].component_id) by {
                assert((v.leaves(id))(k));
                assert(at.contains(k));
                let i = choose|i: int| 0 <= i < at.len() && at[i] == k;
                assert(v.amount_fits(v.portions[at[i]].component_id));
            }
        }
        Some(acc)
    }

    /// The total price of the item at `node`, and whether everything that it
    /// consumes has a unit price; `None` where the total cannot be computed.
    #[verifier::rlimit(40)]
    fn price_at(&self, node: usize) -> (total: Option<(i64, bool)>)
        requires
            self.wf(),
            self.live(node),
        ensures
            total == (if self@.price_fits(self.records@[node as int].id) {
                Some(
                    (
                        self@.total_price(self.records@[node as int].id) as i64,
                        self@.price_defined(self.records@[node as int].id),
                    ),
                )
            } else {
                None
            }),
            total is Some ==> (total->0).0 == self@.total_price(self.records@[node as int].id),
        decreases self@.depth(self.records@[node as int].id), 0nat,
    {
        let out = graph_outgoing(&self.graph, node);
        let ghost v = self@;
        let ghost id = self.records@[node as int].id;
        let ghost at = positions(out@);
        let ghost term = v.price_term();
        proof {
            self.lemma_live_item(node);
            self.lemma_outgoing(node, out@);
            v.lemma_price_fits_steps(id);
            v.lemma_price_defined_steps(id);
            v.lemma_parts_price_sum(id, v.portions.len());
            lemma_sum_enumerated(v.portions.len(), v.leaves(id), term, at);
            assert forall|i: int| 0 <= i < at.len() implies term(#[trigger] at[i]) >= 0 by {
                v.lemma_terms_not_negative(at[i]);
            }
            assert(at.take(0) =~= Seq::<int>::empty());
        }
        let mut acc: i64 = self.records[node].price;
        let mut defined = true;
        let mut j: usize = 0;
        while j < out.len()
            invariant
                self.wf(),
                self.live(node),
                v == self@,
                id == self.records@[node as int].id,
                at == positions(out@),
                term == v.price_term(),
                lists_outgoing(graph_links(self.graph), node, out@),
                enumerates(v.portions.len(), v.leaves(id), at),
                forall|i: int| 0 <= i < at.len() ==> term(#[trigger] at[i]) >= 0,
                v.total_price(id) == v.item(id).price + sum_along(at, term),
                v.item(id).price >= 0,
                0 <= j <= out@.len(),
                acc == v.item(id).price + sum_along(at.take(j as int), term),
                forall|i: int| 0 <= i < j ==> v.unit_fits(v.portions[#[trigger] at[i]].component_id),
                defined <==> (forall|i: int|
                    0 <= i < j ==> v.unit_defined(v.portions[#[trigger] at[i]].component_id)),
                v.price_fits(id) <==> (v.total_price(id) <= i64::MAX && forall|k: int|
                    0 <= k < v.portions.len() && (#[trigger] v.portions[k]).source_id == id
                        ==> v.unit_fits(v.portions[k].component_id)),
                v.price_defined(id) <==> (forall|k: int|
                    0 <= k < v.portions.len() && (#[trigger] v.portions[k]).source_id == id
                        ==> v.unit_defined(v.portions[k].component_id)),
            decreases out@.len() - j,
        {
            let (position, target, weight) = out[j];
            proof {
                self.lemma_outgoing(node, out@);
                assert(out@[j as int].1 == target);
                assert(at[j as int] == position);
                v.lemma_no_way_back(position as int);
                self.lemma_live_item(target);
                v.lemma_totals_not_negative(self.records@[target as int].id);
                lemma_sum_grows(at, term, j as int);
                lemma_sum_grows(at, term, j + 1);
                assert(at.take(j + 1).drop_last() =~= at.take(j as int));
                assert(at.take(j + 1).last() == at[j as int]);
            }
            let (unit, known) = match self.unit_at(target) {
                Some(found) => found,
                None => {
                    return None;
                },
            };
            match step(acc, weight, unit) {
                Some(sum) => {
                    acc = sum;
                },
                None => {
                    return None;
                },
            }
            if !known {
                defined = false;
            }
            j += 1;
        }
        proof {
            assert(at.take(j as int) =~= at);
            assert forall|k: int|
                0 <= k < v.portions.len() && (#[trigger] v.portions[k]).source_id
                    == id implies v.unit_fits(v.portions[k].component_id) by {
                assert((v.leaves(id))(k));
                assert(at.contains(k));
                let i = choose|i: int| 0 <= i < at.len() && at[i] == k;
                assert(v.unit_fits(v.portions[at[i]].component_id));
            }
            if defined {
                assert forall|k: int|
                    0 <= k < v.portions.len() && (#[trigger] v.portions[k]).source_id
                        == id implies v.unit_defined(v.portions[k].component_id) by {
                    assert((v.leaves(id))(k));
                    assert(at.contains(k));
                    let i = choose|i: int| 0 <= i < at.len() && at[i] == k;
                    assert(v.unit_defined(v.portions[at[i]].component_id));
                }
            } else {
                let i = choose|i: int|
                    0 <= i < j && !v.unit_defined(v.portions[#[trigger] at[i]].component_id);
                assert(0 <= at[i] < v.portions.len() && (v.leaves(id))(at[i]));
                assert(v.portions[at[i]].source_id == id);
            }
        }
        Some((acc, defined))
    }

    /// The unit price of the item at `node`, and whether the item and
    /// everything that it consumes has one; `None` where it cannot be computed.
    fn unit_at(&self, node: usize) -> (unit: Option<(i64, bool)>)
        requires
            self.wf(),
            self.live(node),
        ensures
            unit == (if self@.unit_fits(self.records@[node as int].id) {
                Some(
                    (
                        self@.unit_price(self.records@[node as int].id) as i64,
                        self@.unit_defined(self.records@[node as int].id),
                    ),
                )
            } else {
                None
            }),
            unit is Some ==> 0 <= (unit->0).0 == self@.unit_price(self.records@[node as int].id),
        decreases self@.depth(self.records@[node as int].id), 1nat,
    {
        proof {
            self.lemma_live_item(node);
            self@.lemma_unit_fits_parts(self.records@[node as int].id);
            self@.lemma_unit_defined_parts(self.records@[node as int].id);
            self@.lemma_totals_not_negative(self.records@[node as int].id);
        }
        let amount = match self.amount_at(node) {
            Some(amount) => amount,
            None => {
                return None;
            },
        };
        let (price, defined) = match self.price_at(node) {
            Some(found) => found,
            None => {
                return None;
            },
        };
        if amount == 0 {
            return Some((0, false));
        }
        match unit_of(price, amount) {
            Some(unit) => Some((unit, defined)),
            None => None,
        }
    }

    /// The total amount of the item `id`: its own amount, and for each of its
    /// portions the portion's share of the component's total amount. Where the
    /// total of the item or of an item that it consumes is out of range, the
    /// answer is an overflow.
    pub fn get_amount(&self, id: u128) -> (amount: Result<i64, InventoryError>)
        requires
            self.wf(),
        ensures
            !self@.has_item(id) ==> amount == Err::<i64, InventoryError>(InventoryError::NotFound(id)),
            self@.has_item(id) && !self@.amount_fits(id) ==> amount == Err::<i64, InventoryError>(
                InventoryError::Overflow,
            ),
            self@.has_item(id) && self@.amount_fits(id) ==> amount is Ok && amount->Ok_0
                == self@.total_amount(id),
    {
        match self.locate(id) {
            None => Err(InventoryError::NotFound(id)),
            Some(node) => match self.amount_at(node) {
                Some(total) => Ok(total),
                None => Err(InventoryError::Overflow),
            },
        }
    }

    /// The total price of the item `id`: its own price, and for each of its
    /// portions the portion's share of the component's unit price. Where a total
    /// is out of range, the answer is an overflow; else, where an item that
    /// `id` consumes has a total amount of zero, the division is undefined.
    pub fn get_price(&self, id: u128) -> (price: Result<i64, InventoryError>)
        requires
            self.wf(),
        ensures
            !self@.has_item(id) ==> price == Err::<i64, InventoryError>(InventoryError::NotFound(id)),
            self@.has_item(id) && !self@.price_fits(id) ==> price == Err::<i64, InventoryError>(
                InventoryError::Overflow,
            ),
            self@.has_item(id) && self@.price_fits(id) && !self@.price_defined(id) ==> price == Err::<
                i64,
                InventoryError,
            >(InventoryError::DivisionUndefined),
            self@.has_item(id) && self@.price_fits(id) && self@.price_defined(id) ==> price is Ok
                && price->Ok_0 == self@.total_price(id),
    {
        match self.locate(id) {
            None => Err(InventoryError::NotFound(id)),
            Some(node) => match self.price_at(node) {
                None => Err(InventoryError::Overflow),
                Some((_, false)) => Err(InventoryError::DivisionUndefined),
                Some((total, true)) => Ok(total),
            },
        }
    }

    /// The unit price of the item `id`: its total price for one unit of its
    /// total amount. Where a total is out of range, the answer is an overflow;
    /// else, where `id` or an item that it consumes has a total amount of zero,
    /// the division is undefined.
    pub fn get_unit_price(&self, id: u128) -> (price: Result<i64, InventoryError>)
        requires
            self.wf(),
        ensures
            !self@.has_item(id) ==> price == Err::<i64, InventoryError>(InventoryError::NotFound(id)),
            self@.has_item(id) && !self@.unit_fits(id) ==> price == Err::<i64, InventoryError>(
                InventoryError::Overflow,
            ),
            self@.has_item(id) && self@.unit_fits(id) && !self@.unit_defined(id) ==> price == Err::<
                i64,
                InventoryError,
            >(InventoryError::DivisionUndefined),
            self@.has_item(id) && self@.unit_fits(id) && self@.unit_defined(id) ==> price is Ok
                && price->Ok_0 == self@.unit_price(id),
    {
        match self.locate(id) {
            None => Err(InventoryError::NotFound(id)),
            Some(node) => match self.unit_at(node) {
                None => Err(InventoryError::Overflow),
                Some((_, false)) => Err(InventoryError::DivisionUndefined),
                Some((unit, true)) => Ok(unit),
            },
        }
    }
}

} // verus!
