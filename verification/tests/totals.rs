use xef::error::InventoryError;
use xef::model::inventory::Inventory;
use xef::model::item::Item;
use xef::model::item::SCALE;

fn add(inventory: &mut Inventory, id: u128, amount: i64, price: i64) {
    inventory.add_item(Item { id, name: format!("item {}", id), amount, price }).unwrap();
}

#[test]
fn scale_is_a_million() {
    assert_eq!(SCALE, 1_000_000);
}

#[test]
fn a_leaf_has_its_own_amount_and_price() {
    let mut inventory = Inventory::new();
    add(&mut inventory, 1, 1_250_000, 3_990_000);
    assert_eq!(inventory.get_amount(1), Ok(1_250_000));
    assert_eq!(inventory.get_price(1), Ok(3_990_000));
}

#[test]
fn a_leaf_with_the_largest_values_fits() {
    let mut inventory = Inventory::new();
    add(&mut inventory, 1, i64::MAX, i64::MAX);
    assert_eq!(inventory.get_amount(1), Ok(i64::MAX));
    assert_eq!(inventory.get_price(1), Ok(i64::MAX));
}

#[test]
fn half_of_one_component() {
    let mut inventory = Inventory::new();
    add(&mut inventory, 1, 1_000_000, 2_000_000);
    add(&mut inventory, 2, 0, 0);
    inventory.create_portion(2, 1, 500_000).unwrap();
    assert_eq!(inventory.get_amount(2), Ok(500_000));
    assert_eq!(inventory.get_unit_price(1), Ok(2_000_000));
    assert_eq!(inventory.get_price(2), Ok(1_000_000));
}

#[test]
fn totals_of_an_unknown_item_are_not_found() {
    let inventory = Inventory::new();
    assert_eq!(inventory.get_amount(5), Err(InventoryError::NotFound(5)));
    assert_eq!(inventory.get_price(5), Err(InventoryError::NotFound(5)));
    assert_eq!(inventory.get_unit_price(5), Err(InventoryError::NotFound(5)));
}

#[test]
fn amounts_roll_up_through_two_levels() {
    let mut inventory = Inventory::new();
    add(&mut inventory, 1, 2_000_000, 0);
    add(&mut inventory, 2, 1_000_000, 0);
    add(&mut inventory, 3, 500_000, 0);
    inventory.create_portion(2, 1, 500_000).unwrap();
    inventory.create_portion(3, 2, 250_000).unwrap();
    // 2: 1.0 + 0.5 * 2.0 = 2.0; 3: 0.5 + 0.25 * 2.0 = 1.0
    assert_eq!(inventory.get_amount(2), Ok(2_000_000));
    assert_eq!(inventory.get_amount(3), Ok(1_000_000));
}

#[test]
fn prices_roll_up_by_unit_price() {
    let mut inventory = Inventory::new();
    add(&mut inventory, 1, 2_000_000, 5_000_000);
    add(&mut inventory, 2, 1_000_000, 1_000_000);
    inventory.create_portion(2, 1, 3_000_000).unwrap();
    // unit price of 1: 5.0 / 2.0 = 2.5; price of 2: 1.0 + 3.0 * 2.5 = 8.5
    assert_eq!(inventory.get_unit_price(1), Ok(2_500_000));
    assert_eq!(inventory.get_price(2), Ok(8_500_000));
    // amount of 2: 1.0 + 3.0 * 2.0 = 7.0; unit price of 2: 8.5 / 7.0 rounded down
    assert_eq!(inventory.get_amount(2), Ok(7_000_000));
    assert_eq!(inventory.get_unit_price(2), Ok(1_214_285));
}

#[test]
fn shares_are_rounded_down() {
    let mut inventory = Inventory::new();
    add(&mut inventory, 1, 1, 0);
    add(&mut inventory, 2, 0, 0);
    inventory.create_portion(2, 1, 999_999).unwrap();
    assert_eq!(inventory.get_amount(2), Ok(0));
    add(&mut inventory, 3, 3, 0);
    add(&mut inventory, 4, 0, 0);
    inventory.create_portion(4, 3, 500_000).unwrap();
    assert_eq!(inventory.get_amount(4), Ok(1));
}

#[test]
fn a_shared_component_counts_once_for_each_way_to_it() {
    let mut inventory = Inventory::new();
    add(&mut inventory, 4, 1_000_000, 0);
    add(&mut inventory, 2, 0, 0);
    add(&mut inventory, 3, 0, 0);
    add(&mut inventory, 1, 0, 0);
    inventory.create_portion(1, 2, 1_000_000).unwrap();
    inventory.create_portion(1, 3, 1_000_000).unwrap();
    inventory.create_portion(2, 4, 1_000_000).unwrap();
    inventory.create_portion(3, 4, 2_000_000).unwrap();
    assert_eq!(inventory.get_amount(1), Ok(3_000_000));
}

#[test]
fn parallel_portions_both_count() {
    let mut inventory = Inventory::new();
    add(&mut inventory, 1, 1_000_000, 0);
    add(&mut inventory, 2, 0, 0);
    inventory.create_portion(2, 1, 1_000_000).unwrap();
    inventory.create_portion(2, 1, 500_000).unwrap();
    assert_eq!(inventory.get_amount(2), Ok(1_500_000));
}

#[test]
fn unit_price_of_nothing_is_undefined() {
    let mut inventory = Inventory::new();
    add(&mut inventory, 1, 0, 2_000_000);
    assert_eq!(inventory.get_unit_price(1), Err(InventoryError::DivisionUndefined));
    assert_eq!(inventory.get_price(1), Ok(2_000_000));
}

#[test]
fn price_over_a_component_of_nothing_is_undefined() {
    let mut inventory = Inventory::new();
    add(&mut inventory, 1, 0, 2_000_000);
    add(&mut inventory, 2, 1_000_000, 1_000_000);
    add(&mut inventory, 3, 1_000_000, 1_000_000);
    inventory.create_portion(2, 1, 500_000).unwrap();
    inventory.create_portion(3, 2, 0).unwrap();
    assert_eq!(inventory.get_price(2), Err(InventoryError::DivisionUndefined));
    assert_eq!(inventory.get_price(3), Err(InventoryError::DivisionUndefined));
    assert_eq!(inventory.get_unit_price(3), Err(InventoryError::DivisionUndefined));
    assert_eq!(inventory.get_amount(3), Ok(1_000_000));
}

#[test]
fn an_amount_out_of_range_is_an_overflow() {
    let mut inventory = Inventory::new();
    add(&mut inventory, 1, i64::MAX, 0);
    add(&mut inventory, 2, 1, 0);
    inventory.create_portion(2, 1, 1_000_000).unwrap();
    assert_eq!(inventory.get_amount(2), Err(InventoryError::Overflow));
    assert_eq!(inventory.get_amount(1), Ok(i64::MAX));
}

#[test]
fn an_overflow_below_counts_whatever_the_portion() {
    let mut inventory = Inventory::new();
    add(&mut inventory, 1, i64::MAX, 0);
    add(&mut inventory, 2, 1, 0);
    add(&mut inventory, 3, 1, 0);
    inventory.create_portion(2, 1, 1_000_000).unwrap();
    inventory.create_portion(3, 2, 0).unwrap();
    assert_eq!(inventory.get_amount(3), Err(InventoryError::Overflow));
}

#[test]
fn a_unit_price_out_of_range_is_an_overflow() {
    let mut inventory = Inventory::new();
    add(&mut inventory, 1, 1, i64::MAX);
    assert_eq!(inventory.get_price(1), Ok(i64::MAX));
    assert_eq!(inventory.get_unit_price(1), Err(InventoryError::Overflow));
    add(&mut inventory, 2, 1, 0);
    inventory.create_portion(2, 1, 0).unwrap();
    assert_eq!(inventory.get_price(2), Err(InventoryError::Overflow));
}

#[test]
fn an_overflow_comes_before_an_undefined_division() {
    let mut inventory = Inventory::new();
    add(&mut inventory, 1, 0, 1);
    add(&mut inventory, 2, 1, i64::MAX);
    add(&mut inventory, 3, 1, 0);
    inventory.create_portion(3, 1, 1).unwrap();
    inventory.create_portion(3, 2, 1).unwrap();
    assert_eq!(inventory.get_price(3), Err(InventoryError::Overflow));
}

#[test]
fn totals_follow_an_update() {
    let mut inventory = Inventory::new();
    add(&mut inventory, 1, 1_000_000, 2_000_000);
    add(&mut inventory, 2, 0, 0);
    inventory.create_portion(2, 1, 500_000).unwrap();
    inventory
        .update_item(1, |mut stored: Item| {
            stored.amount = 4_000_000;
            stored
        })
        .unwrap();
    assert_eq!(inventory.get_amount(2), Ok(2_000_000));
    assert_eq!(inventory.get_unit_price(1), Ok(500_000));
    assert_eq!(inventory.get_price(2), Ok(250_000));
}

#[test]
fn totals_do_not_depend_on_the_order_of_the_portions() {
    let mut one = Inventory::new();
    let mut other = Inventory::new();
    for inventory in [&mut one, &mut other] {
        add(inventory, 1, 3_000_000, 7_000_000);
        add(inventory, 2, 2_000_000, 5_000_000);
        add(inventory, 3, 1_000_000, 1_000_000);
        add(inventory, 4, 500_000, 250_000);
    }
    one.create_portion(4, 1, 1_500_000).unwrap();
    one.create_portion(4, 2, 700_000).unwrap();
    one.create_portion(4, 3, 123_456).unwrap();
    one.create_portion(3, 1, 333_333).unwrap();
    other.create_portion(3, 1, 333_333).unwrap();
    other.create_portion(4, 3, 123_456).unwrap();
    other.create_portion(4, 2, 700_000).unwrap();
    other.create_portion(4, 1, 1_500_000).unwrap();
    for id in 1..=4u128 {
        assert_eq!(one.get_amount(id), other.get_amount(id));
        assert_eq!(one.get_price(id), other.get_price(id));
        assert_eq!(one.get_unit_price(id), other.get_unit_price(id));
    }
    // 3: 1.0 + 0.333333 * 3.0 = 1.999999
    assert_eq!(one.get_amount(3), Ok(1_999_999));
    // 4: 0.5 + 1.5 * 3.0 + 0.7 * 2.0 + 0.123456 * 1.999999 = 6.646911 (rounded down by share)
    assert_eq!(one.get_amount(4), Ok(500_000 + 4_500_000 + 1_400_000 + 246_911));
}

#[test]
fn totals_stay_when_a_removal_moves_the_portions() {
    let mut inventory = Inventory::new();
    add(&mut inventory, 1, 1_000_000, 1_000_000);
    add(&mut inventory, 2, 2_000_000, 1_000_000);
    add(&mut inventory, 3, 4_000_000, 1_000_000);
    add(&mut inventory, 4, 0, 0);
    add(&mut inventory, 5, 0, 0);
    inventory.create_portion(5, 1, 1_000_000).unwrap();
    inventory.create_portion(4, 2, 1_000_000).unwrap();
    inventory.create_portion(4, 3, 1_000_000).unwrap();
    assert_eq!(inventory.get_amount(4), Ok(6_000_000));
    inventory.remove_portion(5, 1).unwrap();
    assert_eq!(inventory.get_amount(4), Ok(6_000_000));
    assert_eq!(inventory.get_amount(5), Ok(0));
}
