use mapreduce::phases::{find_group, group_pairs, map_records, reduce_groups};

fn letters(word: &&str) -> Result<Vec<(char, usize)>, String> {
    if word.is_empty() {
        Err("empty word".to_string())
    } else {
        Ok(word.chars().enumerate().map(|(i, c)| (c, i)).collect())
    }
}

#[test]
fn map_phase_keeps_the_order_of_the_records() {
    let records = vec!["ab", "c", "ba"];
    let lists = map_records(&records, &letters).unwrap();
    assert_eq!(
        lists,
        vec![vec![('a', 0), ('b', 1)], vec![('c', 0)], vec![('b', 0), ('a', 1)]]
    );
    let emitted: Vec<(char, usize)> = lists.into_iter().flatten().collect();
    let expected: Vec<(char, usize)> =
        records.iter().flat_map(|r| letters(r).unwrap()).collect();
    assert_eq!(emitted, expected);
}

#[test]
fn map_phase_on_no_records_is_empty() {
    let records: Vec<&str> = Vec::new();
    assert_eq!(map_records(&records, &letters), Ok(Vec::new()));
}

#[test]
fn map_phase_returns_the_first_error() {
    let records = vec!["ab", "", "cd", ""];
    assert_eq!(map_records(&records, &letters), Err("empty word".to_string()));
}

#[test]
fn grouping_collects_values_by_key_in_order() {
    let lists = vec![
        vec![("x", 1), ("y", 2), ("x", 3)],
        vec![],
        vec![("z", 4), ("y", 5)],
        vec![("x", 6)],
    ];
    let groups = group_pairs(lists);
    assert_eq!(
        groups,
        vec![("x", vec![1, 3, 6]), ("y", vec![2, 5]), ("z", vec![4])]
    );
}

#[test]
fn grouping_keeps_every_value_of_every_key() {
    let lists = vec![
        vec![(1u8, 'a'), (2, 'b'), (1, 'a'), (3, 'c')],
        vec![(2, 'a'), (1, 'b'), (1, 'a')],
    ];
    let pairs: Vec<(u8, char)> = lists.iter().flatten().cloned().collect();
    let groups = group_pairs(lists);
    let mut seen_keys: Vec<u8> = Vec::new();
    for (key, values) in groups.iter() {
        assert!(!seen_keys.contains(key));
        seen_keys.push(*key);
        let emitted: Vec<char> = pairs.iter().filter(|p| p.0 == *key).map(|p| p.1).collect();
        assert_eq!(*values, emitted);
        for value in ['a', 'b', 'c'] {
            let collected = values.iter().filter(|v| **v == value).count();
            let sent = pairs.iter().filter(|p| p.0 == *key && p.1 == value).count();
            assert_eq!(collected, sent);
        }
    }
    assert_eq!(seen_keys, vec![1, 2, 3]);
    let total: usize = groups.iter().map(|g| g.1.len()).sum();
    assert_eq!(total, pairs.len());
}

#[test]
fn grouping_nothing_gives_no_groups() {
    let none: Vec<Vec<(String, u8)>> = Vec::new();
    assert_eq!(group_pairs(none), Vec::new());
    let empty_lists: Vec<Vec<(String, u8)>> = vec![Vec::new(), Vec::new()];
    assert_eq!(group_pairs(empty_lists), Vec::new());
}

#[test]
fn grouping_keeps_the_first_key_of_each_group() {
    let lists = vec![vec![("k".to_string(), 1), ("k".to_string(), 2)]];
    let groups = group_pairs(lists);
    assert_eq!(groups, vec![("k".to_string(), vec![1, 2])]);
}

#[test]
fn find_group_gives_the_position_of_the_key() {
    let groups = vec![(7u32, vec!['a']), (9, vec!['b', 'c']), (7, vec!['d'])];
    assert_eq!(find_group(&groups, &7), Some(0));
    assert_eq!(find_group(&groups, &9), Some(1));
    assert_eq!(find_group(&groups, &8), None);
    let none: Vec<(u32, Vec<char>)> = Vec::new();
    assert_eq!(find_group(&none, &7), None);
}

#[test]
fn reduce_phase_concatenates_in_the_order_of_the_groups() {
    let groups = vec![("b", vec![1, 2]), ("a", vec![]), ("c", vec![3])];
    let spread = |key: &'static str, values: Vec<i32>| -> Result<Vec<(&'static str, i32)>, String> {
        Ok(values.into_iter().map(|v| (key, -v)).collect())
    };
    assert_eq!(
        reduce_groups(groups, &spread),
        Ok(vec![("b", -1), ("b", -2), ("c", -3)])
    );
}

#[test]
fn reduce_phase_returns_the_first_error() {
    let groups = vec![(1, vec![1]), (2, vec![2]), (3, vec![3])];
    let fail_late = |key: i32, _values: Vec<i32>| -> Result<Vec<(i32, i32)>, i32> {
        if key >= 2 {
            Err(key)
        } else {
            Ok(vec![(key, key)])
        }
    };
    assert_eq!(reduce_groups(groups, &fail_late), Err(2));
}

#[test]
fn reduce_phase_on_no_groups_is_empty() {
    let groups: Vec<(u8, Vec<u8>)> = Vec::new();
    let never = |_key: u8, _values: Vec<u8>| -> Result<Vec<(u8, u8)>, ()> { Err(()) };
    assert_eq!(reduce_groups(groups, &never), Ok(Vec::new()));
}
