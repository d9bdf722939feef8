use hayday_items::added_price::{cal_added_value, cal_added_value_2, cal_added_value_checked, Item};

#[test]
fn test_cal_added_value() {
    // Arrange
    let s1 = Item::new("1".to_string(), 1, vec![], 0);
    let s2 = Item::new("2".to_string(), 9, vec![], 0);
    let s3 = Item::new("3".to_string(), 10, vec!["1".to_string(), "2".to_string()], 0);
    let test_vec = vec![s1, s2, s3];

    // Act
    let test_map = cal_added_value(test_vec);

    // Assert
    assert_eq!(test_map.get("1").unwrap().need_value.unwrap_or_default(), 0);
    assert_eq!(test_map.get("2").unwrap().need_value.unwrap_or_default(), 0);
    assert_eq!(test_map.get("3").unwrap().need_value.unwrap(), 10);
}

#[test]
fn test_cal_added_value2() {
    // Arrange
    let s1 = Item::new("1".to_string(), 1, vec![], 0);
    let s2 = Item::new("2".to_string(), 9, vec![], 0);
    let s3 = Item::new("3".to_string(), 10, vec!["1".to_string(), "2".to_string()], 0);
    let test_vec = vec![s1, s2, s3];

    // Act
    let test_map = cal_added_value_2(test_vec);

    // Assert
    assert_eq!(test_map.get("1").unwrap().need_value.unwrap_or_default(), 0);
    assert_eq!(test_map.get("2").unwrap().need_value.unwrap_or_default(), 0);
    assert_eq!(test_map.get("3").unwrap().need_value.unwrap(), 10);
}

#[test]
fn new_item_defaults() {
    let it = Item::new("Bread".to_string(), 21, vec!["Wheat".to_string()], 5);
    assert_eq!(it.name, "Bread");
    assert_eq!(it.price, 21);
    assert_eq!(it.time, 5);
    assert_eq!(it.needs, vec!["Wheat".to_string()]);
    assert_eq!(it.source, "IDK");
    assert_eq!(it.level, 0);
    assert_eq!(it.need_value, None);
    assert_eq!(it.time_per_value_bits, None);
}

fn sample() -> Vec<Item> {
    vec![
        Item::new("Wheat".to_string(), 1, vec![], 2),
        Item::new("Wheat".to_string(), 4, vec![], 2),
        Item::new("Egg".to_string(), 5, vec![], 60),
        Item::new(
            "Cake".to_string(),
            90,
            vec!["Wheat".to_string(), "Wheat".to_string(), "Egg".to_string(), "Sugar".to_string()],
            90,
        ),
    ]
}

#[test]
fn later_item_of_a_name_wins_and_repeats_count() {
    let map = cal_added_value(sample());
    assert_eq!(map.get("Wheat").unwrap().price, 4);
    assert_eq!(map.get("Cake").unwrap().need_value, Some(4 + 4 + 5));
    assert_eq!(map.get("Egg").unwrap().need_value, Some(0));
    assert!(map.get("Sugar").is_none());
    assert_eq!(map.into_items().len(), 3);
}

#[test]
fn both_variants_agree() {
    let a = cal_added_value(sample());
    let b = cal_added_value_2(sample());
    for name in ["Wheat", "Egg", "Cake", "Sugar"] {
        let x = a.get(name).map(|it| (it.price, it.need_value));
        let y = b.get(name).map(|it| (it.price, it.need_value));
        assert_eq!(x, y);
    }
}

#[test]
fn checked_refuses_overflow() {
    let items = vec![
        Item::new("Gold".to_string(), u32::MAX, vec![], 0),
        Item::new("Crown".to_string(), 1, vec!["Gold".to_string(), "Gold".to_string()], 0),
    ];
    assert!(cal_added_value_checked(items).is_none());
    let items = vec![
        Item::new("Gold".to_string(), u32::MAX, vec![], 0),
        Item::new("Crown".to_string(), 1, vec!["Gold".to_string()], 0),
    ];
    let map = cal_added_value_checked(items).unwrap();
    assert_eq!(map.get("Crown").unwrap().need_value, Some(u32::MAX));
}

#[test]
fn empty_list_gives_empty_map() {
    let map = cal_added_value(Vec::new());
    assert!(map.get("anything").is_none());
    assert!(map.into_items().is_empty());
}

#[test]
fn profit_bits_are_carried_through() {
    let mut gold = Item::new("Gold".to_string(), 7, vec![], 0);
    gold.time_per_value_bits = Some(2.5f32.to_bits());
    let crown = Item::new("Crown".to_string(), 1, vec!["Gold".to_string()], 0);
    let map = cal_added_value(vec![gold, crown]);
    let g = map.get("Gold").unwrap();
    assert_eq!(g.time_per_value_bits.map(f32::from_bits), Some(2.5));
    assert_eq!(g.need_value, Some(0));
    assert_eq!(map.get("Crown").unwrap().time_per_value_bits, None);
    assert_eq!(map.get("Crown").unwrap().need_value, Some(7));
}
