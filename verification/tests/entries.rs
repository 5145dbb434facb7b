use xef::clip_uuid;
use xef::error::InventoryError;
use xef::model::item::Item;
use xef::view::validation::mass_unit;
use xef::view::validation::name_validation;
use xef::view::validation::price_validation;
use xef::view::validation::split_mass;
use xef::view::validation::MassUnit;

#[test]
fn clip_uuid_gives_the_start_of_the_hyphenated_form() {
    let id = 0xa1a2a3a4b1b2c1c2d1d2d3d4d5d6d7d8u128;
    assert_eq!(clip_uuid(id, 5), "a1a2a");
    assert_eq!(clip_uuid(id, 0), "");
    assert_eq!(clip_uuid(id, 9), "a1a2a3a4-");
    assert_eq!(clip_uuid(id, 36), "a1a2a3a4-b1b2-c1c2-d1d2-d3d4d5d6d7d8");
}

#[test]
fn clip_uuid_writes_small_values_with_leading_zeros() {
    assert_eq!(clip_uuid(0, 36), "00000000-0000-0000-0000-000000000000");
    assert_eq!(clip_uuid(0x1f, 36), "00000000-0000-0000-0000-00000000001f");
    assert_eq!(clip_uuid(u128::MAX, 10), "ffffffff-f");
}

#[test]
fn new_items_get_ids_of_their_own() {
    let one = Item::new("salt");
    let other = Item::new("salt");
    assert_ne!(one.id, other.id);
    assert_eq!(one.name, "salt");
    assert_eq!((one.amount, one.price), (0, 0));
}

#[test]
fn a_bare_builder_builds_an_empty_item() {
    let built = Item::builder().build().unwrap();
    assert_eq!(built.name, "");
    assert_eq!((built.amount, built.price), (0, 0));
}

#[test]
fn a_builder_builds_what_was_set() {
    let built = Item::builder()
        .with_id(42)
        .with_name("flour")
        .with_amount(1_500_000)
        .with_price(3_250_000)
        .build()
        .unwrap();
    assert_eq!(built.id, 42);
    assert_eq!(built.name, "flour");
    assert_eq!(built.amount, 1_500_000);
    assert_eq!(built.price, 3_250_000);
}

#[test]
fn a_builder_keeps_the_last_value_set() {
    let built = Item::builder().with_name("a").with_name("b").with_id(1).with_id(2).build().unwrap();
    assert_eq!((built.id, built.name.as_str()), (2, "b"));
}

#[test]
fn a_clone_of_an_item_holds_the_same() {
    let one = Item { id: 3, name: String::from("oil"), amount: 4, price: 5 };
    let copy = one.clone();
    assert_eq!((copy.id, copy.name.as_str(), copy.amount, copy.price), (3, "oil", 4, 5));
}

#[test]
fn an_empty_name_is_refused() {
    assert_eq!(name_validation(String::new()), Err(InventoryError::EmptyName));
}

#[test]
fn any_other_name_is_kept() {
    assert_eq!(name_validation(String::from("flour")), Ok(String::from("flour")));
    assert_eq!(name_validation(String::from(" ")), Ok(String::from(" ")));
}

#[test]
fn a_price_must_be_positive() {
    assert_eq!(price_validation(0), Err(InventoryError::InvalidPrice));
    assert_eq!(price_validation(-1), Err(InventoryError::InvalidPrice));
    assert_eq!(price_validation(1), Ok(1));
    assert_eq!(price_validation(2_500_000), Ok(2_500_000));
}

#[test]
fn units_are_known_by_their_words() {
    for word in ["g", "grama", "gramas"] {
        assert_eq!(mass_unit(word), Some(MassUnit::Gram));
    }
    for word in ["kg", "kilo", "kilos"] {
        assert_eq!(mass_unit(word), Some(MassUnit::Kilogram));
    }
    for word in ["", "G", "kgs", " g", "gram", "lb"] {
        assert_eq!(mass_unit(word), None);
    }
}

#[test]
fn a_builder_takes_the_given_id_only_where_none_was_set() {
    let bare = Item::builder().build_with(77);
    assert_eq!(bare.id, 77);
    let set = Item::builder().with_id(5).build_with(77);
    assert_eq!(set.id, 5);
}

fn spelled(id: u128) -> String {
    let digits = b"0123456789abcdef";
    let mut text = String::new();
    for place in 0..36u32 {
        if place == 8 || place == 13 || place == 18 || place == 23 {
            text.push('-');
        } else {
            let hyphens = if place < 8 {
                0
            } else if place < 13 {
                1
            } else if place < 18 {
                2
            } else if place < 23 {
                3
            } else {
                4
            };
            let nibble = (id >> (4 * (31 - (place - hyphens)))) & 0xf;
            text.push(digits[nibble as usize] as char);
        }
    }
    text
}

#[test]
fn clip_uuid_spells_each_digit_in_its_place() {
    let mut id: u128 = 0x0123_4567_89ab_cdef_fedc_ba98_7654_3210;
    for _ in 0..64 {
        assert_eq!(clip_uuid(id, 36), spelled(id));
        assert_eq!(clip_uuid(id, 20), &spelled(id)[..20]);
        id = id.wrapping_mul(0x9e37_79b9_7f4a_7c15_f39c_c060_5ced_c835).wrapping_add(0x1f);
    }
}

#[test]
fn a_mass_is_cut_at_the_first_blank() {
    assert_eq!(split_mass("1.5 kg"), Some((String::from("1.5"), MassUnit::Kilogram)));
    assert_eq!(split_mass("250 g"), Some((String::from("250"), MassUnit::Gram)));
    assert_eq!(split_mass("2 kilos"), Some((String::from("2"), MassUnit::Kilogram)));
    assert_eq!(split_mass("3 gramas"), Some((String::from("3"), MassUnit::Gram)));
    assert_eq!(split_mass("abc grama"), Some((String::from("abc"), MassUnit::Gram)));
    assert_eq!(split_mass(" g"), Some((String::new(), MassUnit::Gram)));
}

#[test]
fn white_space_before_the_unit_is_skipped() {
    assert_eq!(split_mass("1   kg"), Some((String::from("1"), MassUnit::Kilogram)));
    assert_eq!(split_mass("1 \t\n kg"), Some((String::from("1"), MassUnit::Kilogram)));
    assert_eq!(split_mass("1 \u{a0}g"), Some((String::from("1"), MassUnit::Gram)));
    assert_eq!(split_mass("1\tkg"), None);
}

#[test]
fn a_mass_without_blank_or_unit_is_none() {
    assert_eq!(split_mass(""), None);
    assert_eq!(split_mass("1.5kg"), None);
    assert_eq!(split_mass("1.5 "), None);
    assert_eq!(split_mass("1.5 lb"), None);
    assert_eq!(split_mass("1.5 kg "), None);
    assert_eq!(split_mass("1.5 k g"), None);
    assert_eq!(split_mass("1 2 kg"), None);
}

#[test]
fn made_ids_carry_version_and_variant() {
    for _ in 0..32 {
        let id = Item::new("x").id;
        assert_eq!((id >> 76) & 0xf, 4);
        assert_eq!((id >> 62) & 0x3, 2);
        let built = Item::builder().build().unwrap().id;
        assert_eq!((built >> 76) & 0xf, 4);
        assert_eq!((built >> 62) & 0x3, 2);
    }
}
