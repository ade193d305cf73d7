use grouping::sequence::IntoGrouping;
use std::cell::Cell;
use std::collections::HashMap;

#[test]
fn test_grouping_iteration() {
    let mut values = (0..10).into_iter().grouping_by(|i: &i32| *i % 3);

    assert_eq!(values.next(), Some((0, 0)));
    assert_eq!(values.next(), Some((1, 1)));
    assert_eq!(values.next(), Some((2, 2)));
    assert_eq!(values.next(), Some((0, 3)));
    assert_eq!(values.next(), Some((1, 4)));
    assert_eq!(values.next(), Some((2, 5)));
    assert_eq!(values.next(), Some((0, 6)));
    assert_eq!(values.next(), Some((1, 7)));
    assert_eq!(values.next(), Some((2, 8)));
    assert_eq!(values.next(), Some((0, 9)));
    assert_eq!(values.next(), None);
}

#[test]
fn test_grouping_aggregate() {
    let values = (3..=9).into_iter().grouping_by(|i: &i32| *i % 3);
    let aggregated = values.aggregate(|key, accumulator: Option<String>, item| {
        if let Some(mut accumulator) = accumulator {
            accumulator.push_str(&format!("-{}", item));
            accumulator
        } else {
            format!("{}:{}", key, item)
        }
    });

    assert_eq!(
        aggregated,
        HashMap::from([
            (0, "0:3-6-9".to_string()),
            (1, "1:4-7".to_string()),
            (2, "2:5-8".to_string())
        ])
    );
}

#[test]
fn akt2_test_fold_with_key() {
    let fruits = vec![
        "cherry",
        "blueberry",
        "citrus",
        "apple",
        "apricot",
        "banana",
        "coconut",
    ]
    .into_iter()
    .grouping_by(|fruit_name: &&str| fruit_name.chars().next().unwrap());
    let even_fruits = fruits.fold_with_key(
        |_: &char, _: &&str| vec![],
        |_, mut accumulator: Vec<String>, item: &str| {
            if item.len() % 2 == 0 {
                accumulator.push(item.to_string());
            }

            accumulator
        },
    );

    assert_eq!(
        even_fruits,
        HashMap::from([
            ('a', vec![]),
            ('b', vec!["banana".to_string()]),
            ('c', vec!["cherry".to_string(), "citrus".to_string()])
        ])
    );
}

#[test]
fn pulling_one_pair_pulls_one_item() {
    let pulled = Cell::new(0u32);
    let source = (0..5u32).map(|i| {
        pulled.set(pulled.get() + 1);
        i
    });
    let mut tagged = source.grouping_by(|i: &u32| *i * 10);
    assert_eq!(pulled.get(), 0);
    assert_eq!(tagged.next(), Some((0, 0)));
    assert_eq!(pulled.get(), 1);
    assert_eq!(tagged.next(), Some((10, 1)));
    assert_eq!(pulled.get(), 2);
}

#[test]
fn key_selector_runs_once_per_item() {
    let calls = Cell::new(0u32);
    let counts = vec![1u8, 2, 3, 4, 5, 6, 7]
        .into_iter()
        .grouping_by(|n: &u8| {
            calls.set(calls.get() + 1);
            *n % 2
        })
        .each_count();
    assert_eq!(calls.get(), 7);
    assert_eq!(counts, HashMap::from([(1, 4), (0, 3)]));
}

#[test]
fn combine_runs_once_per_item_in_source_order() {
    let calls = Cell::new(0u32);
    let orders = (0..9u32).grouping_by(|i: &u32| *i % 3).aggregate(|_, acc: Option<Vec<u32>>, item| {
        calls.set(calls.get() + 1);
        let mut v = acc.unwrap_or_default();
        v.push(item);
        v
    });
    assert_eq!(calls.get(), 9);
    assert_eq!(
        orders,
        HashMap::from([(0, vec![0, 3, 6]), (1, vec![1, 4, 7]), (2, vec![2, 5, 8])])
    );
}

#[test]
fn each_count_of_words_by_first_char() {
    let counts = "one two three four five six seven eight nine ten"
        .split(' ')
        .grouping_by(|s: &&str| s.chars().next().unwrap())
        .each_count();
    assert_eq!(
        counts,
        HashMap::from([('o', 1), ('t', 3), ('f', 2), ('s', 2), ('e', 1), ('n', 1)])
    );
}

#[test]
fn empty_source_gives_empty_mapping() {
    let counts = std::iter::empty::<u8>().grouping_by(|b: &u8| *b).each_count();
    assert!(counts.is_empty());
    assert!(std::iter::empty::<u8>().grouping_by(|b: &u8| *b).next().is_none());
}

#[test]
fn fold_with_calls_provider_once_per_key() {
    let provided = Cell::new(0u32);
    let sums = vec![5u32, 6, 7, 8, 9].into_iter().grouping_by(|n: &u32| *n % 2).fold_with(
        || {
            provided.set(provided.get() + 1);
            1000u32
        },
        |k, acc, n| acc + n + *k,
    );
    assert_eq!(provided.get(), 2);
    assert_eq!(sums, HashMap::from([(1, 1024), (0, 1014)]));
}

#[test]
fn fold_appends_in_source_order() {
    let joined = vec!["b1", "a1", "b2", "a2", "b3"]
        .into_iter()
        .grouping_by(|s: &&str| s.chars().next().unwrap())
        .fold(String::new(), |acc, s| acc + s);
    assert_eq!(
        joined,
        HashMap::from([('a', "a1a2".to_string()), ('b', "b1b2b3".to_string())])
    );
}

#[test]
fn reduce_with_key_picks_most_vowels() {
    let is_vowel = |c: &char| "aeiou".contains(*c);
    let max_vowels = vec!["raccoon", "reindeer", "cow", "camel", "giraffe", "goat"]
        .into_iter()
        .grouping_by(|a: &&str| a.chars().next().unwrap())
        .reduce_with_key(|_, acc: &str, item: &str| {
            if acc.chars().filter(is_vowel).count() < item.chars().filter(is_vowel).count() {
                item
            } else {
                acc
            }
        });
    assert_eq!(
        max_vowels,
        HashMap::from([('r', "reindeer"), ('c', "camel"), ('g', "giraffe")])
    );
}

#[test]
fn reduce_converts_first_item() {
    let maxima = vec![3u8, 250, 7, 9, 1]
        .into_iter()
        .grouping_by(|n: &u8| *n % 2)
        .reduce(|acc: u64, n: u8| if (n as u64) > acc { n as u64 } else { acc });
    assert_eq!(maxima, HashMap::from([(1u8, 9u64), (0, 250)]));
}

#[test]
fn reduce_first_item_skips_operation() {
    let calls = Cell::new(0u32);
    let sums = vec![4u32, 5, 6].into_iter().grouping_by(|_: &u32| 0u8).reduce(|acc: u32, n: u32| {
        calls.set(calls.get() + 1);
        acc * 10 + n
    });
    assert_eq!(calls.get(), 2);
    assert_eq!(sums, HashMap::from([(0, 456)]));
}

#[test]
fn each_count_twice_over_restartable_source() {
    let source = 0..20u32;
    let first = source.clone().grouping_by(|n: &u32| *n % 4).each_count();
    let second = source.grouping_by(|n: &u32| *n % 4).each_count();
    assert_eq!(first, second);
    assert_eq!(first, HashMap::from([(0, 5), (1, 5), (2, 5), (3, 5)]));
}

#[test]
fn cloned_grouping_counts_the_same() {
    let tagged = (0..12u32).grouping_by(|n: &u32| *n % 5);
    let first = tagged.clone().each_count();
    let second = tagged.each_count();
    assert_eq!(first, second);
    assert_eq!(first, HashMap::from([(0, 3), (1, 3), (2, 2), (3, 2), (4, 2)]));
}
