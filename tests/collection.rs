use grouping::collection::{Grouping, IntoGrouping};
use std::collections::HashMap;

#[test]
fn test_each_count() {
    let words = "one two three four five six seven eight nine ten"
        .split(" ")
        .collect::<Vec<_>>();
    let freq_by_first_char = words
        .grouping_by(|s: &&str| s.chars().next().unwrap())
        .each_count();

    assert_eq!(
        freq_by_first_char,
        HashMap::from([('o', 1), ('t', 3), ('f', 2), ('s', 2), ('e', 1), ('n', 1)])
    )
}

#[test]
fn test_aggregate() {
    let numbers = (3..=9).collect::<Vec<usize>>();
    let aggregated = numbers
        .grouping_by(|i: &usize| *i % 3)
        .aggregate(|key, accumulator: Option<String>, item| {
            if let Some(mut accumulator) = accumulator {
                accumulator.push_str(&format!("-{}", item));
                accumulator
            } else {
                format!("{}:{}", key, item)
            }
        });

    assert_eq!(
        aggregated,
        HashMap::from([
            (0, "0:3-6-9".to_string()),
            (1, "1:4-7".to_string()),
            (2, "2:5-8".to_string())
        ])
    );
}

#[test]
fn akt1_test_fold_with_key() {
    let fruits = vec![
        "cherry",
        "blueberry",
        "citrus",
        "apple",
        "apricot",
        "banana",
        "coconut",
    ];
    let even_fruits = fruits
        .grouping_by(|f: &&str| f.chars().next().unwrap())
        .fold_with_key(
            |&k: &char, _: &&str| (k, vec![]),
            |_, mut accumulator: (char, Vec<String>), item: &&str| {
                if item.len() % 2 == 0 {
                    accumulator.1.push(item.to_string());
                }

                accumulator
            },
        );

    assert_eq!(
        even_fruits,
        HashMap::from([
            ('a', ('a', vec![])),
            ('b', ('b', vec!["banana".to_string()])),
            ('c', ('c', vec!["cherry".to_string(), "citrus".to_string()]))
        ])
    );
}

#[test]
fn test_fold() {
    let fruits = vec!["apple", "apricot", "banana", "blueberry", "cherry", "coconut"];
    let even_fruits = fruits.grouping_by(|f: &&str| f.chars().next().unwrap()).fold(
        vec![],
        |mut accumulator: Vec<String>, item: &&str| {
            if item.len() % 2 == 0 {
                accumulator.push(item.to_string());
            }

            accumulator
        },
    );

    assert_eq!(
        even_fruits,
        HashMap::from([
            ('a', vec![]),
            ('b', vec!["banana".to_string()]),
            ('c', vec!["cherry".to_string()])
        ])
    );
}

#[test]
fn test_reduce() {
    let animals = vec!["raccoon", "reindeer", "cow", "camel", "giraffe", "goat"];
    let is_vowel = |&c: &char| c == 'a' || c == 'e' || c == 'i' || c == 'o' || c == 'u';
    let max_vowels = animals
        .grouping_by(|a: &&str| a.chars().next().unwrap())
        .reduce_with_key(|_, accumulator: &str, item: &&str| {
            let acc_vowels = accumulator.chars().filter(is_vowel).count();
            let item_vowels = item.chars().filter(is_vowel).count();

            match acc_vowels.cmp(&item_vowels) {
                std::cmp::Ordering::Less => item,
                std::cmp::Ordering::Equal | std::cmp::Ordering::Greater => &accumulator,
            }
        });

    assert_eq!(
        max_vowels,
        HashMap::from([('r', "reindeer"), ('c', "camel"), ('g', "giraffe")])
    );
}

#[test]
fn source_and_key_of_follow_the_collection() {
    let grouping = vec![10u32, 21, 32].grouping_by(|n: &u32| *n % 10);
    assert_eq!(grouping.source(), &vec![10u32, 21, 32]);
    assert_eq!(grouping.key_of(&47), 7);
}

#[test]
fn each_count_of_empty_collection_is_empty() {
    let empty: Vec<u8> = vec![];
    let counts = empty.grouping_by(|b: &u8| *b).each_count();
    assert!(counts.is_empty());
}

#[test]
fn each_count_with_one_key_counts_all() {
    let counts = vec![4u8, 4, 4, 4].grouping_by(|_: &u8| 'x').each_count();
    assert_eq!(counts, HashMap::from([('x', 4)]));
}

#[test]
fn fold_gives_each_key_its_own_seed() {
    let sums = vec![1u64, 2, 3, 4, 5]
        .grouping_by(|n: &u64| *n % 2)
        .fold(100u64, |acc: u64, n: &u64| acc + *n);
    assert_eq!(sums, HashMap::from([(1, 109), (0, 106)]));
}

#[test]
fn fold_with_key_selects_seed_once_per_key() {
    let seeds = std::cell::Cell::new(0u32);
    let lists = vec!["ab", "ac", "bd", "ae"]
        .grouping_by(|s: &&str| s.chars().next().unwrap())
        .fold_with_key(
            |k: &char, first: &&str| {
                seeds.set(seeds.get() + 1);
                format!("{}<{}>", k, first)
            },
            |_, acc: String, item: &&str| format!("{}+{}", acc, item),
        );
    assert_eq!(seeds.get(), 2);
    assert_eq!(
        lists,
        HashMap::from([('a', "a<ab>+ab+ac+ae".to_string()), ('b', "b<bd>+bd".to_string())])
    );
}

#[test]
fn reduce_with_key_keeps_first_element_of_singleton_groups() {
    let longest = vec!["kiwi", "fig", "plum", "pear", "peach"]
        .grouping_by(|s: &&str| s.len())
        .reduce_with_key(|_, acc: &str, item: &&str| if *item > acc { item } else { acc });
    assert_eq!(
        longest,
        HashMap::from([(4, "plum"), (3, "fig"), (5, "peach")])
    );
}

#[test]
fn aggregate_sees_none_only_on_first_of_key() {
    let firsts = vec![1u8, 1, 2, 1, 2, 3]
        .grouping_by(|n: &u8| *n)
        .aggregate(|_, acc: Option<(u32, u32)>, _item: &u8| match acc {
            None => (1, 1),
            Some((nones, calls)) => (nones, calls + 1),
        });
    assert_eq!(firsts, HashMap::from([(1, (1, 3)), (2, (1, 2)), (3, (1, 1))]));
}

#[test]
fn each_count_twice_gives_same_mapping() {
    let words = vec!["x", "yy", "zz", "w"];
    let first = words.clone().grouping_by(|s: &&str| s.len()).each_count();
    let second = words.grouping_by(|s: &&str| s.len()).each_count();
    assert_eq!(first, second);
    assert_eq!(first, HashMap::from([(1, 2), (2, 2)]));
}
