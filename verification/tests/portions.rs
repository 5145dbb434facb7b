use xef::error::InventoryError;
use xef::model::inventory::Inventory;
use xef::model::item::Item;
use xef::model::portion::Portion;

fn stocked(ids: &[u128]) -> Inventory {
    let mut inventory = Inventory::new();
    for id in ids {
        inventory
            .add_item(Item { id: *id, name: format!("item {}", id), amount: 1_000_000, price: 1_000_000 })
            .unwrap();
    }
    inventory
}

fn sorted(mut portions: Vec<Portion>) -> Vec<(u128, u128, i64)> {
    let mut keys: Vec<(u128, u128, i64)> =
        portions.drain(..).map(|p| (p.source_id, p.component_id, p.amount)).collect();
    keys.sort();
    keys
}

#[test]
fn portion_of_holds_its_fields() {
    let portion = Portion::of(1, 2, 3);
    assert_eq!((portion.source_id, portion.component_id, portion.amount), (1, 2, 3));
}

#[test]
fn create_portion_returns_the_position() {
    let mut inventory = stocked(&[1, 2, 3]);
    assert_eq!(inventory.create_portion(1, 2, 500_000), Ok(0));
    assert_eq!(inventory.create_portion(1, 3, 250_000), Ok(1));
    assert_eq!(
        inventory.get_all_portions(),
        vec![Portion::of(1, 3, 250_000), Portion::of(1, 2, 500_000)]
    );
}

#[test]
fn get_portions_hands_the_newest_out_first() {
    let mut inventory = stocked(&[1, 2, 3, 4]);
    inventory.create_portion(1, 2, 10).unwrap();
    inventory.create_portion(1, 3, 20).unwrap();
    inventory.create_portion(1, 4, 30).unwrap();
    assert_eq!(
        inventory.get_portions(1).unwrap(),
        vec![Portion::of(1, 4, 30), Portion::of(1, 3, 20), Portion::of(1, 2, 10)]
    );
    inventory.remove_portion(1, 3).unwrap();
    assert_eq!(
        inventory.get_portions(1).unwrap(),
        vec![Portion::of(1, 4, 30), Portion::of(1, 2, 10)]
    );
    inventory.create_portion(1, 3, 40).unwrap();
    assert_eq!(
        inventory.get_portions(1).unwrap(),
        vec![Portion::of(1, 3, 40), Portion::of(1, 4, 30), Portion::of(1, 2, 10)]
    );
}

#[test]
fn get_all_portions_goes_item_by_item() {
    let mut inventory = stocked(&[1, 2, 3, 4]);
    inventory.create_portion(3, 1, 10).unwrap();
    inventory.create_portion(2, 1, 20).unwrap();
    inventory.create_portion(3, 4, 30).unwrap();
    assert_eq!(
        inventory.get_all_portions(),
        vec![Portion::of(2, 1, 20), Portion::of(3, 4, 30), Portion::of(3, 1, 10)]
    );
    let mut gathered = Vec::new();
    for item in inventory.list_item() {
        gathered.extend(inventory.get_portions(item.id).unwrap());
    }
    assert_eq!(inventory.get_all_portions(), gathered);
}

#[test]
fn a_test_of_a_portion_leaves_the_order_as_it_was() {
    let mut inventory = stocked(&[1, 2, 3]);
    inventory.create_portion(1, 2, 10).unwrap();
    inventory.create_portion(1, 3, 20).unwrap();
    let before = inventory.get_portions(1).unwrap();
    assert_eq!(inventory.test_portion(1, 3, 5), Ok(false));
    assert_eq!(inventory.create_portion(2, 1, 5), Err(InventoryError::CycleWouldForm(2, 1)));
    assert_eq!(inventory.get_portions(1).unwrap(), before);
}

#[test]
fn create_portion_runs_from_source_to_component() {
    let mut inventory = stocked(&[1, 2]);
    inventory.create_portion(1, 2, 500_000).unwrap();
    assert_eq!(inventory.get_portions(1).unwrap(), vec![Portion::of(1, 2, 500_000)]);
    assert!(inventory.get_portions(2).unwrap().is_empty());
}

#[test]
fn create_portion_needs_both_items() {
    let mut inventory = stocked(&[1]);
    assert_eq!(inventory.create_portion(8, 1, 1), Err(InventoryError::NotFound(8)));
    assert_eq!(inventory.create_portion(1, 9, 1), Err(InventoryError::NotFound(9)));
    assert_eq!(inventory.create_portion(8, 9, 1), Err(InventoryError::NotFound(8)));
    assert!(inventory.get_all_portions().is_empty());
}

#[test]
fn create_portion_refuses_a_negative_amount() {
    let mut inventory = stocked(&[1, 2]);
    assert_eq!(inventory.create_portion(1, 2, -1), Err(InventoryError::InvalidAmount));
    assert!(inventory.get_all_portions().is_empty());
}

#[test]
fn create_portion_takes_an_amount_of_zero() {
    let mut inventory = stocked(&[1, 2]);
    assert_eq!(inventory.create_portion(1, 2, 0), Ok(0));
}

#[test]
fn create_portion_refuses_a_self_loop() {
    let mut inventory = stocked(&[1]);
    assert_eq!(inventory.create_portion(1, 1, 1), Err(InventoryError::CycleWouldForm(1, 1)));
    assert!(inventory.get_all_portions().is_empty());
}

#[test]
fn create_portion_refuses_a_cycle_of_two() {
    let mut inventory = stocked(&[1, 2]);
    inventory.create_portion(1, 2, 1).unwrap();
    assert_eq!(inventory.create_portion(2, 1, 1), Err(InventoryError::CycleWouldForm(2, 1)));
    assert_eq!(inventory.get_all_portions(), vec![Portion::of(1, 2, 1)]);
}

#[test]
fn create_portion_refuses_a_long_cycle_and_leaves_all_as_it_was() {
    let mut inventory = stocked(&[1, 2, 3, 4]);
    inventory.create_portion(1, 2, 10).unwrap();
    inventory.create_portion(2, 3, 20).unwrap();
    inventory.create_portion(3, 4, 30).unwrap();
    let items_before: Vec<(u128, String, i64, i64)> =
        inventory.list_item().into_iter().map(|i| (i.id, i.name, i.amount, i.price)).collect();
    let portions_before = inventory.get_all_portions();
    assert_eq!(inventory.create_portion(4, 1, 40), Err(InventoryError::CycleWouldForm(4, 1)));
    let items_after: Vec<(u128, String, i64, i64)> =
        inventory.list_item().into_iter().map(|i| (i.id, i.name, i.amount, i.price)).collect();
    assert_eq!(items_after, items_before);
    assert_eq!(inventory.get_all_portions(), portions_before);
}

#[test]
fn a_refused_portion_is_refused_again_in_the_same_way() {
    let mut inventory = stocked(&[1, 2, 3]);
    inventory.create_portion(1, 2, 10).unwrap();
    inventory.create_portion(2, 3, 20).unwrap();
    let before = inventory.get_all_portions();
    let first = inventory.create_portion(3, 1, 5);
    let second = inventory.create_portion(3, 1, 5);
    assert_eq!(first, Err(InventoryError::CycleWouldForm(3, 1)));
    assert_eq!(second, first);
    assert_eq!(inventory.get_all_portions(), before);
    assert_eq!(inventory.list_item().len(), 3);
}

#[test]
fn successful_portions_never_make_a_cycle() {
    let mut inventory = stocked(&[1, 2, 3, 4, 5]);
    let mut accepted = 0;
    for source in 1..=5u128 {
        for component in 1..=5u128 {
            if inventory.create_portion(source, component, 1).is_ok() {
                accepted += 1;
            }
        }
    }
    assert_eq!(accepted, 10);
    for source in 1..=5u128 {
        for component in 1..=5u128 {
            let tested = inventory.test_portion(component, source, 1).unwrap();
            let joined = sorted(inventory.get_all_portions()).contains(&(source, component, 1));
            if joined || source == component {
                assert!(tested);
            }
        }
    }
}

#[test]
fn a_diamond_is_no_cycle() {
    let mut inventory = stocked(&[1, 2, 3, 4]);
    assert!(inventory.create_portion(1, 2, 1).is_ok());
    assert!(inventory.create_portion(1, 3, 1).is_ok());
    assert!(inventory.create_portion(2, 4, 1).is_ok());
    assert!(inventory.create_portion(3, 4, 1).is_ok());
}

#[test]
fn parallel_portions_are_kept() {
    let mut inventory = stocked(&[1, 2]);
    assert_eq!(inventory.create_portion(1, 2, 10), Ok(0));
    assert_eq!(inventory.create_portion(1, 2, 20), Ok(1));
    assert_eq!(sorted(inventory.get_portions(1).unwrap()), vec![(1, 2, 10), (1, 2, 20)]);
    assert_eq!(inventory.get_portion(1, 2), Ok(Portion::of(1, 2, 20)));
    assert_eq!(inventory.remove_portion(1, 2), Ok(1));
    assert_eq!(inventory.get_portions(1).unwrap(), vec![Portion::of(1, 2, 10)]);
}

#[test]
fn test_portion_tells_a_cycle_and_changes_nothing() {
    let mut inventory = stocked(&[1, 2, 3]);
    inventory.create_portion(1, 2, 1).unwrap();
    inventory.create_portion(2, 3, 1).unwrap();
    let before = inventory.get_all_portions();
    assert_eq!(inventory.test_portion(3, 1, 1), Ok(true));
    assert_eq!(inventory.test_portion(1, 3, 1), Ok(false));
    assert_eq!(inventory.test_portion(2, 2, 1), Ok(true));
    assert_eq!(inventory.get_all_portions(), before);
}

#[test]
fn test_portion_fails_as_create_portion_does() {
    let mut inventory = stocked(&[1, 2]);
    assert_eq!(inventory.test_portion(7, 1, 1), Err(InventoryError::NotFound(7)));
    assert_eq!(inventory.test_portion(1, 7, 1), Err(InventoryError::NotFound(7)));
    assert_eq!(inventory.test_portion(1, 2, -3), Err(InventoryError::InvalidAmount));
    assert!(inventory.get_all_portions().is_empty());
}

#[test]
fn get_portions_lists_the_outgoing_ones() {
    let mut inventory = stocked(&[1, 2, 3, 4]);
    inventory.create_portion(1, 2, 10).unwrap();
    inventory.create_portion(2, 3, 20).unwrap();
    inventory.create_portion(1, 3, 30).unwrap();
    inventory.create_portion(1, 4, 40).unwrap();
    assert_eq!(sorted(inventory.get_portions(1).unwrap()), vec![(1, 2, 10), (1, 3, 30), (1, 4, 40)]);
    assert_eq!(sorted(inventory.get_portions(2).unwrap()), vec![(2, 3, 20)]);
    assert!(inventory.get_portions(4).unwrap().is_empty());
    assert_eq!(inventory.get_portions(5).unwrap_err(), InventoryError::NotFound(5));
}

#[test]
fn get_portion_finds_one_by_its_ends() {
    let mut inventory = stocked(&[1, 2, 3]);
    inventory.create_portion(1, 2, 10).unwrap();
    inventory.create_portion(1, 3, 30).unwrap();
    assert_eq!(inventory.get_portion(1, 3), Ok(Portion::of(1, 3, 30)));
    assert_eq!(inventory.get_portion(1, 2), Ok(Portion::of(1, 2, 10)));
}

#[test]
fn get_portion_says_what_is_missing() {
    let mut inventory = stocked(&[1, 2, 3]);
    inventory.create_portion(1, 2, 10).unwrap();
    assert_eq!(inventory.get_portion(9, 2), Err(InventoryError::NotFound(9)));
    assert_eq!(inventory.get_portion(1, 9), Err(InventoryError::NotFound(9)));
    assert_eq!(inventory.get_portion(2, 1), Err(InventoryError::NotFound(1)));
    assert_eq!(inventory.get_portion(1, 3), Err(InventoryError::NotFound(3)));
}

#[test]
fn remove_portion_puts_the_last_in_its_place() {
    let mut inventory = stocked(&[1, 2, 3, 4]);
    inventory.create_portion(1, 2, 10).unwrap();
    inventory.create_portion(1, 3, 20).unwrap();
    inventory.create_portion(1, 4, 30).unwrap();
    assert_eq!(inventory.remove_portion(1, 2), Ok(0));
    assert_eq!(
        inventory.get_all_portions(),
        vec![Portion::of(1, 4, 30), Portion::of(1, 3, 20)]
    );
    assert_eq!(inventory.remove_portion(1, 3), Ok(1));
    assert_eq!(inventory.get_all_portions(), vec![Portion::of(1, 4, 30)]);
    assert_eq!(inventory.get_portion(1, 2), Err(InventoryError::NotFound(2)));
}

#[test]
fn remove_portion_says_what_is_missing() {
    let mut inventory = stocked(&[1, 2]);
    inventory.create_portion(1, 2, 10).unwrap();
    assert_eq!(inventory.remove_portion(9, 2), Err(InventoryError::NotFound(9)));
    assert_eq!(inventory.remove_portion(1, 9), Err(InventoryError::NotFound(9)));
    assert_eq!(inventory.remove_portion(2, 1), Err(InventoryError::NotFound(1)));
    assert_eq!(inventory.get_all_portions().len(), 1);
}

#[test]
fn a_removed_portion_opens_the_way_back() {
    let mut inventory = stocked(&[1, 2]);
    inventory.create_portion(1, 2, 10).unwrap();
    assert_eq!(inventory.create_portion(2, 1, 10), Err(InventoryError::CycleWouldForm(2, 1)));
    inventory.remove_portion(1, 2).unwrap();
    assert_eq!(inventory.create_portion(2, 1, 10), Ok(0));
}
