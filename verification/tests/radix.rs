use ferrosearch::radix::RadixTree;

fn tree_with(entries: &[(&str, u32)]) -> RadixTree<u32> {
    let mut tree = RadixTree::new();
    for (key, value) in entries {
        tree.insert(key, *value);
    }
    tree
}

#[test]
fn insert_get_and_split_edges() {
    let tree = tree_with(&[
        ("unicorn", 1),
        ("universe", 2),
        ("university", 3),
        ("unique", 4),
    ]);
    assert_eq!(tree.len(), 4);
    assert_eq!(tree.get("unicorn"), Some(&1));
    assert_eq!(tree.get("universe"), Some(&2));
    assert_eq!(tree.get("university"), Some(&3));
    assert_eq!(tree.get("unique"), Some(&4));
    assert_eq!(tree.get("uni"), None);
    assert_eq!(tree.get("universities"), None);
}

#[test]
fn remove_merges_nodes() {
    let mut tree = tree_with(&[("hello", 1), ("help", 2), ("he", 3)]);
    assert!(tree.remove("help"));
    assert!(!tree.remove("helper"));
    assert_eq!(tree.len(), 2);
    assert_eq!(tree.get("hello"), Some(&1));
    assert_eq!(tree.get("he"), Some(&3));
}

#[test]
fn prefix_iteration() {
    let tree = tree_with(&[("summer", 1), ("summary", 2), ("sunny", 3), ("winter", 4)]);
    let mut found = Vec::new();
    for (key, value) in tree.for_each_prefix("sum") {
        found.push((key.to_string(), *value));
    }
    // Reverse insertion order at each node.
    assert_eq!(found, vec![("summary".into(), 2), ("summer".into(), 1)]);

    let mut all = Vec::new();
    for (key, value) in tree.for_each_prefix("") {
        all.push((key.to_string(), *value));
    }
    assert_eq!(all.len(), 4);
}

#[test]
fn fuzzy_distances() {
    let tree = tree_with(&[("hello", 1), ("hell", 2), ("help", 3), ("ciao", 4)]);
    let mut results = tree.fuzzy_get("hallo", 2);
    results.sort();
    // "help" is at distance 3 from "hallo" and must not match.
    assert_eq!(
        results,
        vec![("hell".to_string(), 2), ("hello".to_string(), 1)]
    );
    assert!(tree.fuzzy_get("xyz", 1).is_empty());
}

#[test]
fn get_mut_updates_in_place() {
    let mut tree = tree_with(&[("alpha", 1), ("alps", 2)]);
    if let Some(value) = tree.get_mut("alps") {
        *value = 20;
    }
    assert!(tree.get_mut("alp").is_none());
    assert_eq!(tree.get("alps"), Some(&20));
    assert_eq!(tree.get("alpha"), Some(&1));
    assert_eq!(tree.len(), 2);
}

#[test]
fn fetch_with_inserts_once() {
    let mut tree: RadixTree<u32> = RadixTree::new();
    *tree.fetch_with("term", || 0) += 1;
    *tree.fetch_with("term", || 100) += 1;
    *tree.fetch_with("ter", || 7) += 1;
    assert_eq!(tree.get("term"), Some(&2));
    assert_eq!(tree.get("ter"), Some(&8));
    assert_eq!(tree.len(), 2);
    assert!(tree.has("ter"));
    assert!(!tree.has("te"));
}

#[test]
fn insert_replaces_existing_value() {
    let mut tree = tree_with(&[("same", 1)]);
    tree.insert("same", 2);
    assert_eq!(tree.len(), 1);
    assert_eq!(tree.get("same"), Some(&2));
}

#[test]
fn traversal_is_reverse_insertion_order() {
    let tree = tree_with(&[("b", 1), ("a", 2), ("ab", 3)]);
    let keys: Vec<String> = tree.for_each().into_iter().map(|(key, _)| key).collect();
    // Root slots in insertion order: "b", then "a" (which holds "ab" below
    // it). Reverse order visits "a"'s subtree first, its child edge "b"
    // before its own leaf.
    assert_eq!(keys, vec!["ab".to_string(), "a".to_string(), "b".to_string()]);
}

#[test]
fn fuzzy_search_is_forward_insertion_order() {
    let tree = tree_with(&[("cat", 1), ("bat", 2), ("car", 3)]);
    let results = tree.fuzzy_get("cat", 1);
    // Splitting "cat" for "car" appends the new "ca" edge after "bat", so
    // forward order visits "bat" first, then "ca" (holding "t" then "r").
    assert_eq!(
        results,
        vec![("bat".to_string(), 1), ("cat".to_string(), 0), ("car".to_string(), 1)]
    );
}

#[test]
fn fuzzy_counts_unicode_scalar_values() {
    let tree = tree_with(&[("café", 1), ("cafe", 2)]);
    let mut results = tree.fuzzy_get("cafe", 1);
    results.sort();
    assert_eq!(results, vec![("cafe".to_string(), 0), ("café".to_string(), 1)]);
}

#[test]
fn clear_empties_the_tree() {
    let mut tree = tree_with(&[("x", 1), ("y", 2)]);
    tree.clear();
    assert_eq!(tree.len(), 0);
    assert_eq!(tree.get("x"), None);
    assert!(tree.for_each().is_empty());
}

#[test]
fn remove_collapses_and_keeps_other_keys() {
    let mut tree = tree_with(&[("romane", 1), ("romanus", 2), ("romulus", 3), ("rubens", 4)]);
    assert!(tree.remove("romanus"));
    assert!(tree.remove("romane"));
    assert_eq!(tree.get("romulus"), Some(&3));
    assert_eq!(tree.get("rubens"), Some(&4));
    assert_eq!(tree.len(), 2);
    let mut prefixed: Vec<String> = tree.for_each_prefix("ro").into_iter().map(|(k, _)| k).collect();
    prefixed.sort();
    assert_eq!(prefixed, vec!["romulus".to_string()]);
}

#[test]
fn traversal_visits_each_node_in_reverse_insertion_order() {
    let mut tree: RadixTree<u32> = RadixTree::new();
    tree.insert("a", 1);
    tree.insert("b", 2);
    tree.insert("ab", 3);
    let entries: Vec<(String, u32)> =
        tree.for_each().into_iter().map(|(key, value)| (key, *value)).collect();
    assert_eq!(
        entries,
        vec![("b".to_string(), 2), ("ab".to_string(), 3), ("a".to_string(), 1)]
    );
    let mut fresh: RadixTree<u32> = RadixTree::new();
    fresh.insert("b", 1);
    fresh.insert("a", 2);
    assert_eq!(
        fresh.fuzzy_get("c", 1),
        vec![("b".to_string(), 1), ("a".to_string(), 1)]
    );
    fresh.clear();
    fresh.insert("a", 2);
    assert_eq!(fresh.fuzzy_get("c", 1), vec![("a".to_string(), 1)]);
}

#[test]
fn prefix_traversal_follows_full_traversal() {
    let tree = tree_with(&[("summer", 1), ("summary", 2), ("sunny", 3), ("winter", 4)]);
    let all: Vec<(String, u32)> =
        tree.for_each().into_iter().map(|(key, value)| (key, *value)).collect();
    for prefix in ["", "s", "su", "sum", "summ", "summa", "w", "x"] {
        let expected: Vec<(String, u32)> =
            all.iter().filter(|(key, _)| key.starts_with(prefix)).cloned().collect();
        let got: Vec<(String, u32)> = tree
            .for_each_prefix(prefix)
            .into_iter()
            .map(|(key, value)| (key, *value))
            .collect();
        assert_eq!(got, expected);
    }
}

#[test]
fn a_cleared_tree_orders_like_a_new_one() {
    let mut cleared = tree_with(&[("summer", 1), ("summary", 2), ("sunny", 3)]);
    cleared.clear();
    let mut fresh: RadixTree<u32> = RadixTree::new();
    for tree in [&mut cleared, &mut fresh] {
        tree.insert("sun", 5);
        tree.insert("b", 6);
        tree.insert("sum", 7);
    }
    let order = |tree: &RadixTree<u32>| -> Vec<(String, u32)> {
        tree.for_each().into_iter().map(|(key, value)| (key, *value)).collect()
    };
    assert_eq!(order(&cleared), order(&fresh));
    assert_eq!(cleared.fuzzy_get("sux", 1), fresh.fuzzy_get("sux", 1));
}

#[test]
fn replacing_a_value_keeps_the_traversal_order() {
    let mut tree = tree_with(&[("summer", 1), ("summary", 2), ("sunny", 3), ("sun", 4)]);
    let before: Vec<String> = tree.for_each().into_iter().map(|(key, _)| key).collect();
    tree.insert("summary", 20);
    tree.insert("sun", 40);
    let after: Vec<(String, u32)> =
        tree.for_each().into_iter().map(|(key, value)| (key, *value)).collect();
    let keys: Vec<String> = after.iter().map(|(key, _)| key.clone()).collect();
    assert_eq!(keys, before);
    assert!(after.contains(&("summary".to_string(), 20)));
    assert!(after.contains(&("sun".to_string(), 40)));
    assert!(after.contains(&("summer".to_string(), 1)));
}

#[test]
fn a_new_key_comes_first_among_the_keys_it_starts() {
    let mut tree = tree_with(&[("summer", 1), ("summary", 2), ("sunny", 3)]);
    tree.insert("sum", 4);
    let under: Vec<(String, u32)> = tree
        .for_each_prefix("sum")
        .into_iter()
        .map(|(key, value)| (key, *value))
        .collect();
    assert_eq!(under[0], ("sum".to_string(), 4));
    assert_eq!(under.len(), 3);
    tree.insert("summa", 5);
    let under: Vec<(String, u32)> = tree
        .for_each_prefix("summa")
        .into_iter()
        .map(|(key, value)| (key, *value))
        .collect();
    assert_eq!(under, vec![("summa".to_string(), 5), ("summary".to_string(), 2)]);
    tree.insert("sunk", 6);
    let under: Vec<String> = tree.for_each_prefix("sunk").into_iter().map(|(key, _)| key).collect();
    assert_eq!(under, vec!["sunk".to_string()]);
}

#[test]
fn inserting_below_an_edge_keeps_reverse_insertion_order() {
    let tree = tree_with(&[("a", 1), ("b", 2), ("ab", 3)]);
    let keys: Vec<String> = tree.for_each().into_iter().map(|(key, _)| key).collect();
    assert_eq!(keys, vec!["b".to_string(), "ab".to_string(), "a".to_string()]);
}

#[test]
fn removing_a_key_moves_a_merged_edge_to_the_front() {
    let mut tree = tree_with(&[("ab", 1), ("ad", 2), ("c", 3)]);
    let keys: Vec<String> = tree.for_each().into_iter().map(|(key, _)| key).collect();
    assert_eq!(keys, vec!["c".to_string(), "ad".to_string(), "ab".to_string()]);
    assert!(tree.remove("ad"));
    let keys: Vec<String> = tree.for_each().into_iter().map(|(key, _)| key).collect();
    assert_eq!(keys, vec!["ab".to_string(), "c".to_string()]);
}
