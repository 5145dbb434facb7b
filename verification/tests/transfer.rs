use xef::database::AppData;
use xef::error::InventoryError;
use xef::model::inventory::Inventory;
use xef::model::item::Item;
use xef::model::portion::Portion;

fn item(id: u128, amount: i64, price: i64) -> Item {
    Item { id, name: format!("item {}", id), amount, price }
}

fn flat(inventory: &Inventory) -> (Vec<(u128, String, i64, i64)>, Vec<(u128, u128, i64)>) {
    let mut portions: Vec<(u128, u128, i64)> = inventory
        .get_all_portions()
        .into_iter()
        .map(|p| (p.source_id, p.component_id, p.amount))
        .collect();
    portions.sort();
    (
        inventory.list_item().into_iter().map(|i| (i.id, i.name, i.amount, i.price)).collect(),
        portions,
    )
}

#[test]
fn from_lists_items_and_portions() {
    let mut inventory = Inventory::new();
    inventory.add_item(item(1, 10, 20)).unwrap();
    inventory.add_item(item(2, 30, 40)).unwrap();
    inventory.create_portion(2, 1, 5).unwrap();
    let data = AppData::from(inventory);
    assert_eq!(data.items.len(), 2);
    assert_eq!((data.items[0].id, data.items[0].amount, data.items[0].price), (1, 10, 20));
    assert_eq!((data.items[1].id, data.items[1].amount, data.items[1].price), (2, 30, 40));
    assert_eq!(data.portions, vec![Portion::of(2, 1, 5)]);
}

#[test]
fn what_is_saved_loads_as_the_same() {
    let mut inventory = Inventory::new();
    for id in [4u128, 2, 7, 1, 9] {
        inventory.add_item(item(id, id as i64 * 1_000, id as i64 * 2_000)).unwrap();
    }
    inventory.create_portion(4, 2, 100).unwrap();
    inventory.create_portion(2, 7, 200).unwrap();
    inventory.create_portion(4, 7, 300).unwrap();
    inventory.create_portion(9, 1, 400).unwrap();
    inventory.create_portion(4, 7, 500).unwrap();
    inventory.remove_portion(2, 7).unwrap();
    inventory.remove_item(9).unwrap();
    let before = flat(&inventory);
    let again = Inventory::try_from(AppData::from(inventory)).unwrap();
    assert_eq!(flat(&again), before);
    // 4 000 of its own, and of the two portions of item 7 (7 000): 2 and 3
    assert_eq!(again.get_amount(4), Ok(4_005));
}

#[test]
fn an_empty_inventory_loads_as_an_empty_one() {
    let again = Inventory::try_from(AppData::from(Inventory::new())).unwrap();
    assert!(again.list_item().is_empty());
    assert!(again.get_all_portions().is_empty());
}

#[test]
fn a_portion_on_a_missing_item_is_a_dangling_reference() {
    let source = AppData { items: vec![item(1, 0, 0)], portions: vec![Portion::of(2, 1, 5)] };
    assert_eq!(Inventory::try_from(source).err(), Some(InventoryError::DanglingReference));
    let component = AppData { items: vec![item(1, 0, 0)], portions: vec![Portion::of(1, 2, 5)] };
    assert_eq!(Inventory::try_from(component).err(), Some(InventoryError::DanglingReference));
}

#[test]
fn a_repeated_item_is_a_duplicate() {
    let data = AppData { items: vec![item(1, 0, 0), item(2, 0, 0), item(1, 5, 5)], portions: vec![] };
    assert_eq!(Inventory::try_from(data).err(), Some(InventoryError::DuplicateId(1)));
}

#[test]
fn negative_values_are_refused_on_loading() {
    let amount = AppData { items: vec![item(1, -1, 0)], portions: vec![] };
    assert_eq!(Inventory::try_from(amount).err(), Some(InventoryError::InvalidAmount));
    let price = AppData { items: vec![item(1, 0, -1)], portions: vec![] };
    assert_eq!(Inventory::try_from(price).err(), Some(InventoryError::InvalidPrice));
    let portion =
        AppData { items: vec![item(1, 0, 0), item(2, 0, 0)], portions: vec![Portion::of(1, 2, -5)] };
    assert_eq!(Inventory::try_from(portion).err(), Some(InventoryError::InvalidAmount));
}

#[test]
fn items_are_looked_at_before_portions() {
    let data = AppData { items: vec![item(1, 0, 0), item(1, 0, 0)], portions: vec![Portion::of(1, 9, 5)] };
    assert_eq!(Inventory::try_from(data).err(), Some(InventoryError::DuplicateId(1)));
}

#[test]
fn portions_in_a_cycle_are_refused_on_loading() {
    let data = AppData {
        items: vec![item(1, 0, 0), item(2, 0, 0), item(3, 0, 0)],
        portions: vec![Portion::of(1, 2, 5), Portion::of(2, 3, 5), Portion::of(3, 1, 5)],
    };
    assert_eq!(Inventory::try_from(data).err(), Some(InventoryError::CyclicData));
    let own = AppData { items: vec![item(1, 0, 0)], portions: vec![Portion::of(1, 1, 5)] };
    assert_eq!(Inventory::try_from(own).err(), Some(InventoryError::CyclicData));
}

#[test]
fn a_dangling_reference_comes_before_a_cycle() {
    let data = AppData {
        items: vec![item(1, 0, 0), item(2, 0, 0)],
        portions: vec![Portion::of(1, 2, 5), Portion::of(2, 1, 5), Portion::of(2, 3, 5)],
    };
    assert_eq!(Inventory::try_from(data).err(), Some(InventoryError::DanglingReference));
}

#[test]
fn loaded_portions_are_handed_out_the_last_first() {
    let data = AppData {
        items: vec![item(3, 0, 0), item(1, 0, 0), item(2, 0, 0)],
        portions: vec![Portion::of(3, 1, 7), Portion::of(1, 2, 8), Portion::of(3, 2, 9)],
    };
    let mut inventory = Inventory::try_from(data.clone()).unwrap();
    assert_eq!(
        inventory.get_all_portions(),
        vec![Portion::of(3, 2, 9), Portion::of(3, 1, 7), Portion::of(1, 2, 8)]
    );
    let ids: Vec<u128> = inventory.list_item().iter().map(|i| i.id).collect();
    assert_eq!(ids, vec![3, 1, 2]);
    assert_eq!(inventory.remove_portion(1, 2), Ok(1));
}

#[test]
fn saving_lists_the_portions_item_by_item() {
    let mut inventory = Inventory::new();
    for id in [1u128, 2, 3, 4] {
        inventory.add_item(item(id, 0, 0)).unwrap();
    }
    inventory.create_portion(3, 1, 5).unwrap();
    inventory.create_portion(2, 1, 6).unwrap();
    let data = AppData::from(inventory);
    assert_eq!(data.portions, vec![Portion::of(2, 1, 6), Portion::of(3, 1, 5)]);
}
