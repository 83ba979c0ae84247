use restaurant::item::Item;

#[test]
fn item_creation() {
    let result = Item::new("Test");
    let expected = Item {
        name: "Test".to_owned(),
        cook_time: result.cook_time,
        _id: result._id
    };
    assert_eq!(result, expected);
}
