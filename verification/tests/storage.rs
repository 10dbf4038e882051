use gridgame::storage::{add_item, amount_of_kind, item_label, move_items, storage_total, take_kind, ItemStack, ItemType};
use gridgame::text::{push_decimal, push_hex_padded2};

fn st(kind: ItemType, amount: i32) -> ItemStack {
    ItemStack { kind, amount }
}

#[test]
fn add_item_merges_into_the_first_stack_and_respects_capacity() {
    let mut s = vec![st(ItemType::Iron, 5), st(ItemType::Copper, 2)];
    assert_eq!(add_item(&mut s, ItemType::Copper, 4, 20), 4);
    assert_eq!(s, vec![st(ItemType::Iron, 5), st(ItemType::Copper, 6)]);
    assert_eq!(add_item(&mut s, ItemType::Gold, 50, 20), 9);
    assert_eq!(s, vec![st(ItemType::Iron, 5), st(ItemType::Copper, 6), st(ItemType::Gold, 9)]);
    assert_eq!(add_item(&mut s, ItemType::Gold, 1, 20), 0);
    assert_eq!(add_item(&mut s, ItemType::Lead, -3, 100), 0);
    assert_eq!(storage_total(&s), 20);
}

#[test]
fn take_kind_takes_from_the_first_stacks_and_drops_empty_ones() {
    let mut s = vec![st(ItemType::Iron, 2), st(ItemType::Copper, 1), st(ItemType::Iron, 5)];
    assert_eq!(take_kind(&mut s, ItemType::Iron, 4), 4);
    assert_eq!(s, vec![st(ItemType::Copper, 1), st(ItemType::Iron, 3)]);
    assert_eq!(take_kind(&mut s, ItemType::Iron, 10), 3);
    assert_eq!(s, vec![st(ItemType::Copper, 1)]);
    assert_eq!(amount_of_kind(&s, ItemType::Iron), 0);
}

#[test]
fn move_items_fills_up_to_the_capacity_of_the_receiver() {
    let mut from = vec![st(ItemType::Iron, 6), st(ItemType::Copper, 6)];
    let mut to = vec![st(ItemType::Iron, 2)];
    move_items(&mut from, &mut to, 10, None);
    assert_eq!(storage_total(&to), 10);
    assert_eq!(from, vec![st(ItemType::Copper, 4)]);
    assert_eq!(amount_of_kind(&to, ItemType::Iron), 8);
    assert_eq!(amount_of_kind(&to, ItemType::Copper), 2);
}

#[test]
fn item_labels_and_number_text() {
    assert_eq!(item_label(ItemType::Gangue), "Gangue");
    let mut s = String::new();
    push_decimal(&mut s, 1800);
    s.push('/');
    push_hex_padded2(&mut s, 10);
    push_hex_padded2(&mut s, 255);
    assert_eq!(s, "1800/0aff");
}
