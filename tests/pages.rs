use commons::pages::{
    build_all_orderings, build_page_updates, build_reversed_orderings, build_ruleset,
    fix_illegal_update, get_middle_page_number_sum, get_update_subset, swap_page_orderings,
    PageOrdering, UpdateLegality,
};

fn lines(v: &[&str]) -> Vec<String> {
    v.iter().map(|s| s.to_string()).collect()
}

fn po(first: u32, second: u32) -> PageOrdering {
    PageOrdering { first, second }
}

fn small_rules() -> Vec<PageOrdering> {
    build_ruleset(&lines(&["1|2", "2|3", "1|3"])).unwrap()
}

#[test]
fn rules_parse_before_and_after() {
    assert_eq!(small_rules(), vec![po(1, 2), po(2, 3), po(1, 3)]);
    assert_eq!(build_ruleset(&lines(&["47|53|9"])), Some(vec![po(47, 53)]));
    assert_eq!(build_ruleset(&lines(&["47-53"])), None);
    assert_eq!(build_ruleset(&lines(&["47|x"])), None);
}

#[test]
fn updates_parse_between_commas() {
    assert_eq!(
        build_page_updates(&lines(&["75,47,61", "+5"])),
        Some(vec![vec![75, 47, 61], vec![5]])
    );
    assert_eq!(build_page_updates(&lines(&["1,,2"])), None);
    assert_eq!(build_page_updates(&lines(&["4294967296"])), None);
    assert_eq!(build_page_updates(&lines(&["4294967295"])), Some(vec![vec![u32::MAX]]));
}

#[test]
fn orderings_list_every_pair_in_order() {
    assert_eq!(
        build_all_orderings(&[75, 47, 61]),
        vec![po(75, 47), po(75, 61), po(47, 61)]
    );
    assert_eq!(
        build_reversed_orderings(&[75, 47, 61]),
        vec![po(47, 75), po(61, 75), po(61, 47)]
    );
    assert!(build_all_orderings(&[5]).is_empty());
}

#[test]
fn subsets_split_legal_from_illegal() {
    let rules = small_rules();
    let updates = vec![vec![1, 2, 3], vec![3, 2, 1], vec![2, 3]];
    assert_eq!(
        get_update_subset(&updates, &rules, UpdateLegality::Legal),
        vec![vec![1, 2, 3], vec![2, 3]]
    );
    assert_eq!(
        get_update_subset(&updates, &rules, UpdateLegality::Illegal),
        vec![vec![3, 2, 1]]
    );
}

#[test]
fn middle_pages_are_summed() {
    assert_eq!(get_middle_page_number_sum(&[vec![1, 2, 3], vec![7], vec![4, 5, 6, 8, 9]]), 15);
    assert_eq!(get_middle_page_number_sum(&[]), 0);
}

#[test]
fn swaps_only_fix_pairs_out_of_order() {
    let mut update = vec![3, 2, 1];
    swap_page_orderings(&mut update, &[po(2, 3)]);
    assert_eq!(update, vec![2, 3, 1]);
    swap_page_orderings(&mut update, &[po(2, 3)]);
    assert_eq!(update, vec![2, 3, 1]);
}

#[test]
fn illegal_update_is_put_in_order() {
    let rules = small_rules();
    let mut update = vec![3, 2, 1];
    assert!(fix_illegal_update(&mut update, &rules, 100));
    assert_eq!(update, vec![1, 2, 3]);
}

#[test]
fn example_updates_give_known_sums() {
    let rules = build_ruleset(&lines(&[
        "47|53", "97|13", "97|61", "97|47", "75|29", "61|13", "75|53", "29|13", "97|29",
        "53|29", "61|53", "97|53", "61|29", "47|13", "75|47", "97|75", "47|61", "75|61",
        "47|29", "75|13", "53|13",
    ]))
    .unwrap();
    let updates = build_page_updates(&lines(&[
        "75,47,61,53,29",
        "97,61,53,29,13",
        "75,29,13",
        "75,97,47,61,53",
        "61,13,29",
        "97,13,75,29,47",
    ]))
    .unwrap();
    let legal = get_update_subset(&updates, &rules, UpdateLegality::Legal);
    assert_eq!(get_middle_page_number_sum(&legal), 143);
    let mut illegal = get_update_subset(&updates, &rules, UpdateLegality::Illegal);
    assert_eq!(legal.len() + illegal.len(), updates.len());
    for update in illegal.iter_mut() {
        assert!(fix_illegal_update(update, &rules, 1000));
    }
    assert_eq!(get_middle_page_number_sum(&illegal), 123);
}
