use restaurant::database::{parse_table, Action, Restaurant};
use restaurant::item::{parse_item_id, Item, ItemPayload, COOK_TIME_BOUND, MIN_COOK_TIME};

fn order(name: &str, cook_time: u32, id: u128) -> Item {
    Item::with_id(name.to_owned(), cook_time, id)
}

fn ids(res: &Restaurant, table: u8) -> Vec<u128> {
    match res.items_from_table(table) {
        Ok(Action::Data(items)) => items.iter().map(|x| x._id).collect(),
        _ => panic!("table {} is not open", table),
    }
}

#[test]
fn read_after_add_keeps_order_and_other_tables() {
    let mut res = Restaurant::new();
    res.add_items(1, vec![order("Soup", 7, 1), order("Tea", 5, 2)]).unwrap();
    res.add_items(2, vec![order("Cake", 9, 3)]).unwrap();
    res.add_items(1, vec![order("Pie", 12, 4)]).unwrap();
    assert_eq!(ids(&res, 1), vec![1, 2, 4]);
    assert_eq!(ids(&res, 2), vec![3]);
    assert!(res.items_from_table(3).is_err());
}

#[test]
fn add_nothing_opens_table() {
    let mut res = Restaurant::new();
    match res.add_items(9, Vec::new()) {
        Ok(Action::Inserted) => {}
        _ => panic!("adding must succeed"),
    }
    assert_eq!(ids(&res, 9), Vec::<u128>::new());
}

#[test]
fn add_twice_equals_add_once() {
    let mut a = Restaurant::new();
    a.add_items(4, vec![order("A", 5, 10)]).unwrap();
    a.add_items(4, vec![order("B", 6, 11), order("C", 7, 12)]).unwrap();
    let mut b = Restaurant::new();
    b.add_items(4, vec![order("A", 5, 10), order("B", 6, 11), order("C", 7, 12)]).unwrap();
    assert_eq!(ids(&a, 4), ids(&b, 4));
}

#[test]
fn remove_undoes_add() {
    let mut res = Restaurant::new();
    res.add_items(1, vec![order("Soup", 7, 1), order("Tea", 5, 2)]).unwrap();
    res.add_items(1, vec![order("Pie", 12, 99)]).unwrap();
    res.remove_item(1, 99).unwrap();
    assert_eq!(ids(&res, 1), vec![1, 2]);
}

#[test]
fn remove_is_idempotent_and_removes_every_match() {
    let mut res = Restaurant::new();
    res.add_items(1, vec![order("A", 5, 1), order("B", 5, 2), order("C", 5, 1)]).unwrap();
    match res.remove_item(1, 1) {
        Ok(Action::Deleted) => {}
        _ => panic!("removal must succeed"),
    }
    assert_eq!(ids(&res, 1), vec![2]);
    res.remove_item(1, 1).unwrap();
    assert_eq!(ids(&res, 1), vec![2]);
}

#[test]
fn removals_commute() {
    let mut a = Restaurant::new();
    let mut b = Restaurant::new();
    for res in [&mut a, &mut b] {
        res.add_items(2, vec![order("A", 5, 1), order("B", 6, 2), order("C", 7, 3)]).unwrap();
    }
    a.remove_item(2, 1).unwrap();
    a.remove_item(2, 3).unwrap();
    b.remove_item(2, 3).unwrap();
    b.remove_item(2, 1).unwrap();
    assert_eq!(ids(&a, 2), ids(&b, 2));
    assert_eq!(ids(&a, 2), vec![2]);
}

#[test]
fn remove_single_order_of_same_dish() {
    let mut res = Restaurant::new();
    let first = Item::new("Burger");
    let second = order("Burger", first.cook_time, first._id.wrapping_add(1));
    res.add_items(3, vec![first.clone(), second.clone()]).unwrap();
    res.remove_item(3, first._id).unwrap();
    match res.items_from_table(3) {
        Ok(Action::Data(items)) => {
            assert_eq!(items.len(), 1);
            assert_eq!(items[0]._id, second._id);
            assert_eq!(items[0].name, "Burger");
        }
        _ => panic!("table 3 is open"),
    }
}

#[test]
fn remove_from_closed_table_is_an_error() {
    let mut res = Restaurant::new();
    assert_eq!(res.remove_item(5, 1).err(), Some("Table is empty".to_string()));
    assert!(res.tables.is_empty());
}

#[test]
fn update_keeps_shape_and_replaces_matches() {
    let mut res = Restaurant::new();
    res.add_items(1, vec![order("A", 5, 1), order("B", 6, 2), order("C", 7, 1)]).unwrap();
    match res.update_item(1, 1, order("Z", 15, 8)) {
        Ok(Action::Updated) => {}
        _ => panic!("update must succeed"),
    }
    match res.items_from_table(1) {
        Ok(Action::Data(items)) => {
            assert_eq!(items.len(), 3);
            assert_eq!(items[0].name, "Z");
            assert_eq!(items[0]._id, 8);
            assert_eq!(items[0].cook_time, 15);
            assert_eq!(items[1].name, "B");
            assert_eq!(items[2]._id, 8);
        }
        _ => panic!("table 1 is open"),
    }
}

#[test]
fn update_of_absent_id_changes_nothing() {
    let mut res = Restaurant::new();
    res.add_items(1, vec![order("A", 5, 1), order("B", 6, 2)]).unwrap();
    match res.update_item(1, 77, order("Z", 15, 77)) {
        Ok(Action::Updated) => {}
        _ => panic!("update of an open, non-empty table succeeds"),
    }
    assert_eq!(ids(&res, 1), vec![1, 2]);
}

#[test]
fn update_is_idempotent() {
    let mut res = Restaurant::new();
    res.add_items(1, vec![order("A", 5, 1), order("B", 6, 2)]).unwrap();
    res.update_item(1, 2, order("Q", 9, 5)).unwrap();
    res.update_item(1, 2, order("Q", 9, 5)).unwrap();
    assert_eq!(ids(&res, 1), vec![1, 5]);
}

#[test]
fn update_errors_leave_restaurant_unchanged() {
    let mut res = Restaurant::new();
    assert_eq!(res.update_item(1, 1, order("A", 5, 1)).err(), Some("Table is empty".to_string()));
    assert!(res.tables.is_empty());
    res.add_items(1, Vec::new()).unwrap();
    assert_eq!(res.update_item(1, 1, order("A", 5, 1)).err(), Some("Nothing to update".to_string()));
    assert_eq!(ids(&res, 1), Vec::<u128>::new());
}

#[test]
fn new_item_cook_time_in_range_and_random() {
    let mut seen = Vec::new();
    for _ in 0..200 {
        let item = Item::new("Rice");
        assert_eq!(item.name, "Rice");
        assert!(MIN_COOK_TIME <= item.cook_time && item.cook_time < COOK_TIME_BOUND);
        if !seen.contains(&item.cook_time) {
            seen.push(item.cook_time);
        }
    }
    assert!(seen.len() > 1);
}

#[test]
fn new_item_id_is_a_random_uuid() {
    let a = Item::new("Rice");
    let b = Item::new("Rice");
    assert_ne!(a._id, b._id);
    for id in [a._id, b._id] {
        assert_eq!((id >> 76) & 0xf, 4);
        assert_eq!((id >> 62) & 0x3, 2);
    }
}

#[test]
fn from_payload_keeps_fields() {
    let item = Item::from_payload(ItemPayload { name: "Noodles".to_string(), cook_time: 42 });
    assert_eq!(item.name, "Noodles");
    assert_eq!(item.cook_time, 42);
    assert_eq!((item._id >> 76) & 0xf, 4);
    let other = Item::from_payload(ItemPayload { name: "Noodles".to_string(), cook_time: 42 });
    assert_ne!(item, other);
}

#[test]
fn with_id_keeps_parts() {
    let item = Item::with_id("Salad".to_string(), 3, 0xabc);
    assert_eq!(item.name, "Salad");
    assert_eq!(item.cook_time, 3);
    assert_eq!(item._id, 0xabc);
}

#[test]
fn items_are_equal_by_id_alone() {
    assert_eq!(order("A", 5, 1), order("B", 9, 1));
    assert_ne!(order("A", 5, 1), order("A", 5, 2));
    let a = order("A", 5, 1);
    let c = a.clone();
    assert_eq!(c.name, a.name);
    assert_eq!(c.cook_time, a.cook_time);
    assert_eq!(c._id, a._id);
}

#[test]
fn parse_table_reads_decimal_u8() {
    assert_eq!(parse_table("1"), Some(1));
    assert_eq!(parse_table("+7"), Some(7));
    assert_eq!(parse_table("007"), Some(7));
    assert_eq!(parse_table("255"), Some(255));
    assert_eq!(parse_table("0"), Some(0));
    assert_eq!(parse_table("256"), None);
    assert_eq!(parse_table("99999999999"), None);
    assert_eq!(parse_table(""), None);
    assert_eq!(parse_table("+"), None);
    assert_eq!(parse_table("-1"), None);
    assert_eq!(parse_table("1a"), None);
    assert_eq!(parse_table(" 1"), None);
    assert_eq!(parse_table("١"), None);
    for text in ["12", "+0", "++1", "300", "25a", "-0", "0255", "1000", "é", "+255"] {
        assert_eq!(parse_table(text), text.parse::<u8>().ok());
    }
}

#[test]
fn parse_item_id_reads_uuid_bits() {
    assert_eq!(
        parse_item_id("67e55044-10b1-426f-9247-bb680e5fe0c8"),
        Some(0x67e5504410b1426f9247bb680e5fe0c8)
    );
    assert_eq!(
        parse_item_id("67e5504410b1426f9247bb680e5fe0c8"),
        Some(0x67e5504410b1426f9247bb680e5fe0c8)
    );
    assert_eq!(parse_item_id("not a uuid"), None);
    assert_eq!(parse_item_id(""), None);
    let item = Item::new("Tea");
    let text = uuid::Uuid::from_u128(item._id).to_hyphenated().to_string();
    assert_eq!(parse_item_id(&text), Some(item._id));
}

#[test]
fn only_adding_opens_a_table() {
    let mut res = Restaurant::new();
    assert!(res.remove_item(1, 1).is_err());
    assert!(res.update_item(1, 1, order("A", 5, 1)).is_err());
    assert!(res.items_from_table(1).is_err());
    res.add_items(1, vec![order("A", 5, 1)]).unwrap();
    res.remove_item(1, 1).unwrap();
    assert!(res.items_from_table(1).is_ok());
    assert!(res.items_from_table(2).is_err());
    assert_eq!(res.tables.len(), 1);
}
