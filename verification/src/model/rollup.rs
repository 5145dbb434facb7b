//! The totals of a composition: the amount and the price of an item, rolled
//! up along its portions, and when they can be computed.

use crate::cycles::lemma_height_falls;
use crate::model::composition::Composition;
use crate::model::item::SCALE;
use crate::model::portion::Portion;
use crate::selection::lemma_sum_of_rearranged;
use crate::selection::lemma_sum_of_same;
use crate::selection::lemma_sum_where_of;
use crate::selection::sum_where;
use vstd::prelude::*;

verus! {

/// `weight` units (in millionths) of something of which one unit is worth
/// `value`, rounded down.
pub open spec fn share(weight: int, value: int) -> int {
    weight * value / (SCALE as int)
}

/// `price` for `amount` units (in millionths) as a price for one unit, rounded
/// down; zero where there is no amount.
pub open spec fn per_unit(price: int, amount: int) -> int {
    if amount == 0 {
        0
    } else {
        price * (SCALE as int) / amount
    }
}

impl Composition {
    /// The total amount of an item: its own amount, and for each portion that
    /// leaves it the portion's share of the component's total amount.
    pub open spec fn total_amount(self, id: u128) -> int
        decreases self.depth(id), self.portions.len() + 1,
    {
        self.item(id).amount + self.parts_amount(id, self.portions.len())
    }

    /// The part of the total amount of `id` that comes from the first `upto`
    /// portions.
    pub open spec fn parts_amount(self, id: u128, upto: nat) -> int
        decreases self.depth(id), upto,
    {
        if upto == 0 || upto > self.portions.len() || !self.acyclic() {
            0
        } else {
            let portion = self.portions[upto - 1];
            self.parts_amount(id, (upto - 1) as nat) + if portion.source_id == id {
                proof {
                    assert(self.links()[upto - 1] == portion.link());
                    lemma_height_falls(self.links(), upto - 1);
                }
                share(portion.amount as int, self.total_amount(portion.component_id))
            } else {
                0
            }
        }
    }

    /// The total price of an item: its own price, and for each portion that
    /// leaves it the portion's share of the component's unit price.
    pub open spec fn total_price(self, id: u128) -> int
        decreases self.depth(id), self.portions.len() + 1,
    {
        self.item(id).price + self.parts_price(id, self.portions.len())
    }

    /// The part of the total price of `id` that comes from the first `upto`
    /// portions.
    pub open spec fn parts_price(self, id: u128, upto: nat) -> int
        decreases self.depth(id), upto,
    {
        if upto == 0 || upto > self.portions.len() || !self.acyclic() {
            0
        } else {
            let portion = self.portions[upto - 1];
            self.parts_price(id, (upto - 1) as nat) + if portion.source_id == id {
                proof {
                    assert(self.links()[upto - 1] == portion.link());
                    lemma_height_falls(self.links(), upto - 1);
                }
                share(
                    portion.amount as int,
                    per_unit(
                        self.total_price(portion.component_id),
                        self.total_amount(portion.component_id),
                    ),
                )
            } else {
                0
            }
        }
    }

    /// The unit price of an item: its total price for one unit of its total
    /// amount; zero where the total amount is zero.
    pub open spec fn unit_price(self, id: u128) -> int {
        per_unit(self.total_price(id), self.total_amount(id))
    }

    /// The three totals of the item fit the fixed-point range.
    pub open spec fn in_range(self, id: u128) -> bool {
        &&& self.total_amount(id) <= i64::MAX
        &&& self.total_price(id) <= i64::MAX
        &&& self.unit_price(id) <= i64::MAX
    }

    /// The total amount of `id` can be computed: it fits the fixed-point range,
    /// and so does the total amount of every item that `id` consumes.
    pub open spec fn amount_fits(self, id: u128) -> bool {
        forall|other: u128| #[trigger] self.uses(id, other) ==> self.total_amount(other) <= i64::MAX
    }

    /// The total price of `id` can be computed: it fits the fixed-point range,
    /// and so do the three totals of every item that `id` consumes.
    pub open spec fn price_fits(self, id: u128) -> bool {
        &&& self.total_price(id) <= i64::MAX
        &&& forall|other: u128| #[trigger] self.uses(id, other) && other != id ==> self.in_range(other)
    }

    /// The unit price of `id` can be computed: the three totals of `id` and of
    /// every item that it consumes fit the fixed-point range.
    pub open spec fn unit_fits(self, id: u128) -> bool {
        forall|other: u128| #[trigger] self.uses(id, other) ==> self.in_range(other)
    }

    /// Every item that `id` consumes has a unit price: none has a total amount
    /// of zero.
    pub open spec fn price_defined(self, id: u128) -> bool {
        forall|other: u128| #[trigger] self.uses(id, other) && other != id ==> self.total_amount(other) != 0
    }

    /// The item `id` and every item that it consumes have a unit price.
    pub open spec fn unit_defined(self, id: u128) -> bool {
        forall|other: u128| #[trigger] self.uses(id, other) ==> self.total_amount(other) != 0
    }

    /// Whether portion `k` leaves the item `id`.
    pub open spec fn leaves(self, id: u128) -> spec_fn(int) -> bool {
        |k: int| self.portions[k].source_id == id
    }

    /// What portion `k` adds to the total amount of its source.
    pub open spec fn amount_term(self) -> spec_fn(int) -> int {
        |k: int| share(self.portions[k].amount as int, self.total_amount(self.portions[k].component_id))
    }

    /// What a portion adds to the total amount of the item `id`.
    pub open spec fn amount_worth(self, id: u128) -> spec_fn(Portion) -> int {
        |portion: Portion|
            if portion.source_id == id {
                share(portion.amount as int, self.total_amount(portion.component_id))
            } else {
                0
            }
    }

    /// What a portion adds to the total price of the item `id`.
    pub open spec fn price_worth(self, id: u128) -> spec_fn(Portion) -> int {
        |portion: Portion|
            if portion.source_id == id {
                share(portion.amount as int, self.unit_price(portion.component_id))
            } else {
                0
            }
    }

    /// What portion `k` adds to the total price of its source.
    pub open spec fn price_term(self) -> spec_fn(int) -> int {
        |k: int| share(self.portions[k].amount as int, self.unit_price(self.portions[k].component_id))
    }
}

impl Composition {
    /// The totals of an item depend on which portions there are and not on
    /// their positions: two valid compositions with the same items and with
    /// the same portions, in whatever order, agree on them.
    pub proof fn lemma_totals_rearranged(self, other: Composition, id: u128)
        requires
            self.valid(),
            other.valid(),
            self.items == other.items,
            self.portions.to_multiset() == other.portions.to_multiset(),
        ensures
            self.total_amount(id) == other.total_amount(id),
            self.total_price(id) == other.total_price(id),
            self.unit_price(id) == other.unit_price(id),
        decreases self.depth(id),
    {
        let n = self.portions.len();
        let m = other.portions.len();
        self.lemma_parts_amount_sum(id, n);
        other.lemma_parts_amount_sum(id, m);
        self.lemma_parts_price_sum(id, n);
        other.lemma_parts_price_sum(id, m);
        lemma_sum_where_of(self.portions, n, self.leaves(id), self.amount_term(), self.amount_worth(id));
        lemma_sum_where_of(other.portions, m, other.leaves(id), other.amount_term(), other.amount_worth(id));
        lemma_sum_where_of(self.portions, n, self.leaves(id), self.price_term(), self.price_worth(id));
        lemma_sum_where_of(other.portions, m, other.leaves(id), other.price_term(), other.price_worth(id));
        assert(self.portions.take(n as int) =~= self.portions);
        assert(other.portions.take(m as int) =~= other.portions);
        assert forall|i: int| 0 <= i < n implies (self.amount_worth(id))(#[trigger] self.portions[i]) == (
        other.amount_worth(id))(self.portions[i]) && (self.price_worth(id))(self.portions[i]) == (
        other.price_worth(id))(self.portions[i]) by {
            let portion = self.portions[i];
            if portion.source_id == id {
                self.lemma_no_way_back(i);
                self.lemma_totals_rearranged(other, portion.component_id);
            }
        }
        lemma_sum_of_same(self.portions, self.amount_worth(id), other.amount_worth(id));
        lemma_sum_of_same(self.portions, self.price_worth(id), other.price_worth(id));
        lemma_sum_of_rearranged(self.portions, other.portions, other.amount_worth(id));
        lemma_sum_of_rearranged(self.portions, other.portions, other.price_worth(id));
    }

    /// An item that no portion leaves has its own amount and its own price as
    /// totals, and both can be computed.
    pub proof fn lemma_leaf_totals(self, id: u128)
        requires
            self.valid(),
            self.has_item(id),
            self.is_leaf(id),
        ensures
            self.total_amount(id) == self.item(id).amount,
            self.total_price(id) == self.item(id).price,
            self.amount_fits(id),
            self.price_fits(id),
            self.price_defined(id),
    {
        self.lemma_leaf_parts(id, self.portions.len());
        assert forall|other: u128| #[trigger] self.uses(id, other) implies other == id by {
            if other != id {
                let k = self.lemma_uses_first(id, other);
            }
        }
    }

    /// No part of a total comes from portions that do not leave the item.
    pub proof fn lemma_leaf_parts(self, id: u128, upto: nat)
        requires
            self.is_leaf(id),
            upto <= self.portions.len(),
        ensures
            self.parts_amount(id, upto) == 0,
            self.parts_price(id, upto) == 0,
        decreases upto,
    {
        if upto > 0 && self.acyclic() {
            self.lemma_leaf_parts(id, (upto - 1) as nat);
            assert(self.portions[upto - 1].source_id != id);
        }
    }

    /// The parts of the total amount are a sum over the portions that leave the
    /// item.
    pub proof fn lemma_parts_amount_sum(self, id: u128, upto: nat)
        requires
            self.acyclic(),
            upto <= self.portions.len(),
        ensures
            self.parts_amount(id, upto) == sum_where(upto, self.leaves(id), self.amount_term()),
        decreases upto,
    {
        if upto > 0 {
            self.lemma_parts_amount_sum(id, (upto - 1) as nat);
        }
    }

    /// The parts of the total price are a sum over the portions that leave the
    /// item.
    pub proof fn lemma_parts_price_sum(self, id: u128, upto: nat)
        requires
            self.acyclic(),
            upto <= self.portions.len(),
        ensures
            self.parts_price(id, upto) == sum_where(upto, self.leaves(id), self.price_term()),
        decreases upto,
    {
        if upto > 0 {
            self.lemma_parts_price_sum(id, (upto - 1) as nat);
        }
    }

    /// The totals of a valid composition are not negative.
    pub proof fn lemma_totals_not_negative(self, id: u128)
        requires
            self.valid(),
            self.has_item(id),
        ensures
            self.total_amount(id) >= 0,
            self.total_price(id) >= 0,
            self.unit_price(id) >= 0,
        decreases self.depth(id), self.portions.len() + 1,
    {
        self.lemma_parts_not_negative(id, self.portions.len());
        let i = self.position(id);
        assert(self.items[i].amount >= 0);
        lemma_per_unit_not_negative(self.total_price(id), self.total_amount(id));
    }

    /// The parts of the totals of a valid composition are not negative.
    pub proof fn lemma_parts_not_negative(self, id: u128, upto: nat)
        requires
            self.valid(),
            self.has_item(id),
            upto <= self.portions.len(),
        ensures
            self.parts_amount(id, upto) >= 0,
            self.parts_price(id, upto) >= 0,
        decreases self.depth(id), upto,
    {
        if upto > 0 {
            self.lemma_parts_not_negative(id, (upto - 1) as nat);
            let portion = self.portions[upto - 1];
            if portion.source_id == id {
                self.lemma_no_way_back(upto - 1);
                self.lemma_totals_not_negative(portion.component_id);
                lemma_share_not_negative(
                    portion.amount as int,
                    self.total_amount(portion.component_id),
                );
                lemma_share_not_negative(
                    portion.amount as int,
                    self.unit_price(portion.component_id),
                );
            }
        }
    }

    /// No term of a total of a valid composition is negative.
    pub proof fn lemma_terms_not_negative(self, k: int)
        requires
            self.valid(),
            0 <= k < self.portions.len(),
        ensures
            (self.amount_term())(k) >= 0,
            (self.price_term())(k) >= 0,
    {
        let portion = self.portions[k];
        self.lemma_totals_not_negative(portion.component_id);
        lemma_share_not_negative(portion.amount as int, self.total_amount(portion.component_id));
        lemma_share_not_negative(portion.amount as int, self.unit_price(portion.component_id));
    }

    /// The total amount of an item can be computed where it fits the range
    /// and that of each of its components can be computed.
    pub proof fn lemma_amount_fits_steps(self, id: u128)
        requires
            self.valid(),
        ensures
            self.amount_fits(id) <==> (self.total_amount(id) <= i64::MAX && forall|k: int|
                0 <= k < self.portions.len() && (#[trigger] self.portions[k]).source_id == id
                    ==> self.amount_fits(self.portions[k].component_id)),
    {
        if self.amount_fits(id) {
            assert(self.uses(id, id));
            assert forall|k: int|
                0 <= k < self.portions.len() && (#[trigger] self.portions[k]).source_id
                    == id implies self.amount_fits(self.portions[k].component_id) by {
                assert forall|other: u128| #[trigger]
                    self.uses(self.portions[k].component_id, other) implies self.total_amount(other)
                    <= i64::MAX by {
                    self.lemma_uses_step(k, other);
                }
            }
        }
        if self.total_amount(id) <= i64::MAX && forall|k: int|
            0 <= k < self.portions.len() && (#[trigger] self.portions[k]).source_id == id
                ==> self.amount_fits(self.portions[k].component_id) {
            assert forall|other: u128| #[trigger] self.uses(id, other) implies self.total_amount(other)
                <= i64::MAX by {
                if other != id {
                    let k = self.lemma_uses_first(id, other);
                    assert(self.amount_fits(self.portions[k].component_id));
                }
            }
        }
    }

    /// The total price of an item can be computed where it fits the range and
    /// the unit price of each of its components can be computed.
    pub proof fn lemma_price_fits_steps(self, id: u128)
        requires
            self.valid(),
        ensures
            self.price_fits(id) <==> (self.total_price(id) <= i64::MAX && forall|k: int|
                0 <= k < self.portions.len() && (#[trigger] self.portions[k]).source_id == id
                    ==> self.unit_fits(self.portions[k].component_id)),
    {
        if self.price_fits(id) {
            assert forall|k: int|
                0 <= k < self.portions.len() && (#[trigger] self.portions[k]).source_id
                    == id implies self.unit_fits(self.portions[k].component_id) by {
                assert forall|other: u128| #[trigger]
                    self.uses(self.portions[k].component_id, other) implies self.in_range(other) by {
                    self.lemma_uses_step(k, other);
                    self.lemma_no_way_back(k);
                }
            }
        }
        if self.total_price(id) <= i64::MAX && forall|k: int|
            0 <= k < self.portions.len() && (#[trigger] self.portions[k]).source_id == id
                ==> self.unit_fits(self.portions[k].component_id) {
            assert forall|other: u128| #[trigger] self.uses(id, other) && other != id implies self.in_range(
                other,
            ) by {
                let k = self.lemma_uses_first(id, other);
                assert(self.unit_fits(self.portions[k].component_id));
            }
        }
    }

    /// Every item that `id` consumes has a unit price where each of its
    /// components and everything that they consume has one.
    pub proof fn lemma_price_defined_steps(self, id: u128)
        requires
            self.valid(),
        ensures
            self.price_defined(id) <==> (forall|k: int|
                0 <= k < self.portions.len() && (#[trigger] self.portions[k]).source_id == id
                    ==> self.unit_defined(self.portions[k].component_id)),
    {
        if self.price_defined(id) {
            assert forall|k: int|
                0 <= k < self.portions.len() && (#[trigger] self.portions[k]).source_id
                    == id implies self.unit_defined(self.portions[k].component_id) by {
                assert forall|other: u128| #[trigger]
                    self.uses(self.portions[k].component_id, other) implies self.total_amount(other)
                    != 0 by {
                    self.lemma_uses_step(k, other);
                    self.lemma_no_way_back(k);
                }
            }
        }
        if forall|k: int|
            0 <= k < self.portions.len() && (#[trigger] self.portions[k]).source_id == id
                ==> self.unit_defined(self.portions[k].component_id) {
            assert forall|other: u128| #[trigger]
                self.uses(id, other) && other != id implies self.total_amount(other) != 0 by {
                let k = self.lemma_uses_first(id, other);
                assert(self.unit_defined(self.portions[k].component_id));
            }
        }
    }

    /// The unit price of an item can be computed where its total amount and
    /// its total price can, and the unit price fits the range.
    pub proof fn lemma_unit_fits_parts(self, id: u128)
        ensures
            self.unit_fits(id) <==> (self.amount_fits(id) && self.price_fits(id) && self.unit_price(id)
                <= i64::MAX),
    {
        assert(self.uses(id, id));
        if self.unit_fits(id) {
            assert(self.in_range(id));
            assert forall|other: u128| #[trigger] self.uses(id, other) implies self.total_amount(other)
                <= i64::MAX by {
                assert(self.in_range(other));
            }
        }
        if self.amount_fits(id) && self.price_fits(id) && self.unit_price(id) <= i64::MAX {
            assert forall|other: u128| #[trigger] self.uses(id, other) implies self.in_range(other) by {
                if other == id {
                    assert(self.total_amount(id) <= i64::MAX);
                }
            }
        }
    }

    /// An item and all that it consumes have a unit price where its total amount
    /// is not zero and all that it consumes has one.
    pub proof fn lemma_unit_defined_parts(self, id: u128)
        ensures
            self.unit_defined(id) <==> (self.total_amount(id) != 0 && self.price_defined(id)),
    {
        assert(self.uses(id, id));
    }
}

/// A share of something that is not negative is not negative.
pub proof fn lemma_share_not_negative(weight: int, value: int)
    requires
        weight >= 0,
        value >= 0,
    ensures
        share(weight, value) >= 0,
{
    assert(weight * value >= 0) by (nonlinear_arith)
        requires
            weight >= 0,
            value >= 0,
    ;
    assert(weight * value / 1_000_000 >= 0);
}

/// A unit price of totals that are not negative is not negative.
pub proof fn lemma_per_unit_not_negative(price: int, amount: int)
    requires
        price >= 0,
        amount >= 0,
    ensures
        per_unit(price, amount) >= 0,
{
    if amount > 0 {
        assert(price * 1_000_000 / amount >= 0) by (nonlinear_arith)
            requires
                price >= 0,
                amount > 0,
        ;
    }
}

} // verus!
