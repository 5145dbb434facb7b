use xef::database::AppData;
use xef::error::InventoryError;
use xef::model::inventory::Inventory;
use xef::model::item::Item;
use xef::model::portion::Portion;

/// A plain list of items and portions that is handled in the simplest way, to
/// hold the inventory against.
struct Plain {
    items: Vec<(u128, String, i64, i64)>,
    portions: Vec<Portion>,
    /// When the portion at each position was added.
    stamps: Vec<u64>,
    clock: u64,
}

impl Plain {
    fn add(&mut self, portion: Portion) {
        self.clock += 1;
        self.portions.push(portion);
        self.stamps.push(self.clock);
    }

    fn take(&mut self, position: usize) -> Portion {
        self.stamps.swap_remove(position);
        self.portions.swap_remove(position)
    }

    /// The positions of the portions that leave the item, the newest first.
    fn leaving(&self, id: u128) -> Vec<usize> {
        let mut places: Vec<usize> =
            (0..self.portions.len()).filter(|k| self.portions[*k].source_id == id).collect();
        places.sort_by_key(|k| u64::MAX - self.stamps[*k]);
        places
    }

    fn of(&self, id: u128) -> Vec<Portion> {
        self.leaving(id).into_iter().map(|k| self.portions[k]).collect()
    }

    fn all(&self) -> Vec<Portion> {
        let mut all = Vec::new();
        for item in self.items.iter() {
            all.extend(self.of(item.0));
        }
        all
    }

    fn has(&self, id: u128) -> bool {
        self.items.iter().any(|i| i.0 == id)
    }

    fn item(&self, id: u128) -> &(u128, String, i64, i64) {
        self.items.iter().find(|i| i.0 == id).unwrap()
    }

    fn reaches(&self, from: u128, to: u128, steps: usize) -> bool {
        if from == to {
            return true;
        }
        if steps == 0 {
            return false;
        }
        self.portions
            .iter()
            .any(|p| p.source_id == from && self.reaches(p.component_id, to, steps - 1))
    }

    fn would_cycle(&self, source: u128, component: u128) -> bool {
        self.reaches(component, source, self.items.len() + 1)
    }

    fn amount(&self, id: u128) -> i128 {
        let mut total = self.item(id).2 as i128;
        for p in self.portions.iter().filter(|p| p.source_id == id) {
            total += p.amount as i128 * self.amount(p.component_id) / 1_000_000;
        }
        total
    }

    fn unit(&self, id: u128) -> (i128, bool) {
        let amount = self.amount(id);
        let (price, defined) = self.price(id);
        if amount == 0 {
            (0, false)
        } else {
            (price * 1_000_000 / amount, defined)
        }
    }

    fn price(&self, id: u128) -> (i128, bool) {
        let mut total = self.item(id).3 as i128;
        let mut defined = true;
        for p in self.portions.iter().filter(|p| p.source_id == id) {
            let (unit, known) = self.unit(p.component_id);
            total += p.amount as i128 * unit / 1_000_000;
            defined = defined && known;
        }
        (total, defined)
    }
}

struct Dice(u64);

impl Dice {
    fn roll(&mut self, sides: u64) -> u64 {
        self.0 = self.0.wrapping_mul(6364136223846793005).wrapping_add(1442695040888963407);
        (self.0 >> 33) % sides
    }
}

fn keys(portions: &[Portion]) -> Vec<(u128, u128, i64)> {
    let mut keys: Vec<(u128, u128, i64)> =
        portions.iter().map(|p| (p.source_id, p.component_id, p.amount)).collect();
    keys.sort();
    keys
}

fn settle(value: (i128, bool)) -> Result<i64, InventoryError> {
    if value.1 {
        Ok(value.0 as i64)
    } else {
        Err(InventoryError::DivisionUndefined)
    }
}

fn agree(inventory: &Inventory, plain: &Plain) {
    let listed: Vec<(u128, String, i64, i64)> =
        inventory.list_item().into_iter().map(|i| (i.id, i.name, i.amount, i.price)).collect();
    assert_eq!(listed, plain.items);
    assert_eq!(inventory.get_all_portions(), plain.all());
    assert_eq!(inventory.get_nodes().len(), plain.items.len());
    for id in 0..10u128 {
        if plain.has(id) {
            let item = inventory.get_item(id).unwrap();
            assert_eq!(&(item.id, item.name, item.amount, item.price), plain.item(id));
            assert_eq!(inventory.get_portions(id).unwrap(), plain.of(id));
            assert_eq!(inventory.get_amount(id), Ok(plain.amount(id) as i64));
            assert_eq!(inventory.get_price(id), settle(plain.price(id)));
            assert_eq!(inventory.get_unit_price(id), settle(plain.unit(id)));
        } else {
            assert_eq!(inventory.get_item(id).unwrap_err(), InventoryError::NotFound(id));
            assert_eq!(inventory.get_portions(id).unwrap_err(), InventoryError::NotFound(id));
            assert_eq!(inventory.get_amount(id), Err(InventoryError::NotFound(id)));
            assert_eq!(inventory.get_price(id), Err(InventoryError::NotFound(id)));
            assert_eq!(inventory.get_unit_price(id), Err(InventoryError::NotFound(id)));
            assert_eq!(inventory.get_node(id), Err(InventoryError::NotFound(id)));
        }
    }
}

fn walk(seed: u64, steps: usize) {
    let mut dice = Dice(seed);
    let mut inventory = Inventory::new();
    let mut plain = Plain { items: Vec::new(), portions: Vec::new(), stamps: Vec::new(), clock: 0 };
    for step in 0..steps {
        let id = dice.roll(10) as u128;
        let other = dice.roll(10) as u128;
        let amount = dice.roll(3_000_001) as i64 - 200_000;
        let price = dice.roll(5_000_001) as i64 - 200_000;
        match dice.roll(8) {
            0 | 1 => {
                let name = format!("item {} of step {}", id, step);
                let expected = if amount < 0 {
                    Err(InventoryError::InvalidAmount)
                } else if price < 0 {
                    Err(InventoryError::InvalidPrice)
                } else if plain.has(id) {
                    Err(InventoryError::DuplicateId(id))
                } else {
                    plain.items.push((id, name.clone(), amount, price));
                    Ok(id)
                };
                assert_eq!(inventory.add_item(Item { id, name, amount, price }), expected);
            }
            2 | 3 | 4 => {
                let expected = if !plain.has(id) {
                    Err(InventoryError::NotFound(id))
                } else if !plain.has(other) {
                    Err(InventoryError::NotFound(other))
                } else if amount < 0 {
                    Err(InventoryError::InvalidAmount)
                } else if plain.would_cycle(id, other) {
                    Err(InventoryError::CycleWouldForm(id, other))
                } else {
                    Ok(plain.portions.len())
                };
                let tested = match &expected {
                    Ok(_) => Ok(false),
                    Err(InventoryError::CycleWouldForm(_, _)) => Ok(true),
                    Err(e) => Err(*e),
                };
                assert_eq!(inventory.test_portion(id, other, amount), tested);
                assert_eq!(inventory.create_portion(id, other, amount), expected);
                if expected.is_ok() {
                    plain.add(Portion::of(id, other, amount));
                }
            }
            5 => {
                let found = plain.portions.iter().any(|p| p.source_id == id && p.component_id == other);
                let removed = inventory.remove_portion(id, other);
                if !plain.has(id) {
                    assert_eq!(removed, Err(InventoryError::NotFound(id)));
                } else if !plain.has(other) || !found {
                    assert_eq!(removed, Err(InventoryError::NotFound(other)));
                } else {
                    let first = plain
                        .leaving(id)
                        .into_iter()
                        .find(|k| plain.portions[*k].component_id == other)
                        .unwrap();
                    assert_eq!(removed, Ok(first));
                    let gone = plain.take(first);
                    assert_eq!((gone.source_id, gone.component_id), (id, other));
                }
            }
            6 => {
                let removed = inventory.remove_item(id);
                if plain.has(id) {
                    assert_eq!(removed, Ok(()));
                    plain.items.retain(|i| i.0 != id);
                    for position in (0..plain.portions.len()).rev() {
                        let portion = plain.portions[position];
                        if portion.source_id == id || portion.component_id == id {
                            plain.take(position);
                        }
                    }
                } else {
                    assert_eq!(removed, Err(InventoryError::NotFound(id)));
                }
            }
            _ => {
                let updated = inventory.update_item(id, |mut stored: Item| {
                    stored.amount = amount;
                    stored.price = price;
                    stored
                });
                let expected = if !plain.has(id) {
                    Err(InventoryError::NotFound(id))
                } else if amount < 0 {
                    Err(InventoryError::InvalidAmount)
                } else if price < 0 {
                    Err(InventoryError::InvalidPrice)
                } else {
                    let place = plain.items.iter().position(|i| i.0 == id).unwrap();
                    plain.items[place].2 = amount;
                    plain.items[place].3 = price;
                    Ok(())
                };
                assert_eq!(updated, expected);
            }
        }
        if let Some(found) = plain.of(id).first() {
            assert_eq!(inventory.get_portion(id, found.component_id), Ok(*found));
        }
        agree(&inventory, &plain);
        if step % 25 == 0 {
            let saved = AppData::from(inventory.clone());
            assert_eq!(saved.portions, plain.all());
            let mut loaded =
                Plain { items: plain.items.clone(), portions: Vec::new(), stamps: Vec::new(), clock: 0 };
            for portion in saved.portions.iter() {
                loaded.add(*portion);
            }
            let again = Inventory::try_from(saved).unwrap();
            agree(&again, &loaded);
            assert_eq!(keys(&again.get_all_portions()), keys(&inventory.get_all_portions()));
        }
    }
}

#[test]
fn a_long_walk_agrees_with_a_plain_list() {
    walk(1, 400);
}

#[test]
fn another_walk_agrees_with_a_plain_list() {
    walk(20_240_917, 400);
}

#[test]
fn many_short_walks_agree_with_a_plain_list() {
    for seed in 100..140u64 {
        walk(seed, 40);
    }
}
