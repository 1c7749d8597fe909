use deepfinder::text_map::TextMap;

#[test]
fn a_table_finds_what_was_put_in() {
    let mut table = TextMap::new();
    assert_eq!(table.len(), 0);
    assert_eq!(table.get("a"), None);
    let words = ["pear", "apple", "", "zebra", "apples", "é", "Apple", "fig"];
    for (number, word) in words.iter().enumerate() {
        assert_eq!(table.get(word), None);
        table.insert(word, number * 10);
        assert_eq!(table.len(), number + 1);
    }
    for (number, word) in words.iter().enumerate() {
        assert_eq!(table.get(word), Some(number * 10));
    }
    assert_eq!(table.get("appl"), None);
    assert_eq!(table.get("figs"), None);
    assert_eq!(table.get(" "), None);
}

#[test]
fn a_table_of_many_texts_finds_each() {
    let mut table = TextMap::new();
    let count = 2000usize;
    for i in 0..count {
        let word = format!("{:05}", (i * 7919) % 10007);
        assert_eq!(table.get(&word), None);
        table.insert(&word, i);
    }
    for i in 0..count {
        let word = format!("{:05}", (i * 7919) % 10007);
        assert_eq!(table.get(&word), Some(i));
    }
}
