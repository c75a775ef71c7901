//! Hierarchy inference and transitive search behaviour.

use bird_collection::{sort_by_classification, Bird, Classification, Collection};

fn strings(names: &[&str]) -> Vec<String> {
    names.iter().map(|n| n.to_string()).collect()
}

fn bird(name: &str, common: &str, labels: &[&str]) -> Bird {
    Bird::from_names(name.to_string(), common.to_string(), strings(labels))
}

fn flatten(tree: &Vec<(usize, Vec<Classification>)>) -> Vec<&Classification> {
    let mut nodes = Vec::new();
    for (_, bucket) in tree {
        for node in bucket {
            nodes.push(node);
        }
    }
    nodes
}

fn count_of(birds: &Vec<Bird>, name: &str) -> usize {
    birds
        .iter()
        .filter(|b| b.parent_nodes.iter().any(|c| c.name == name))
        .count()
}

fn parent_name(tree: &Vec<(usize, Vec<Classification>)>, name: &str) -> Option<String> {
    for node in flatten(tree) {
        if node.name == name {
            return node.parent_classification.as_ref().map(|p| p.name.clone());
        }
    }
    None
}

fn names_of(birds: &[&Bird]) -> Vec<String> {
    birds.iter().map(|b| b.name.clone()).collect()
}

#[test]
fn tied_counts_assign_no_parent() {
    // A{X, Y}, B{X}, C{Y}: X and Y are each carried by two records, so no
    // candidate has a strictly greater count and both stay roots.
    let birds = vec![bird("A", "a", &["X", "Y"]), bird("B", "b", &["X"]), bird("C", "c", &["Y"])];
    let tree = sort_by_classification(birds);
    for node in flatten(&tree) {
        assert!(node.parent_classification.is_none());
    }
    // Every (record, label) pair lands in the bucket of count two.
    assert_eq!(tree.len(), 1);
    assert_eq!(tree[0].0, 2);
    assert_eq!(tree[0].1.len(), 4);
}

#[test]
fn lineage_search_with_tied_counts() {
    let birds = vec![bird("A", "a", &["X", "Y"]), bird("B", "b", &["X"]), bird("C", "c", &["Y"])];
    let mut coll = Collection::new();
    coll.classification_tree = sort_by_classification(birds.clone());
    coll.birds = birds;
    let hits = coll.search_bird_by_species("X".to_string());
    assert_eq!(names_of(&hits), strings(&["A", "B"]));
    let hits_y = coll.search_bird_by_species("Y".to_string());
    assert_eq!(names_of(&hits_y), strings(&["A", "C"]));
}

#[test]
fn higher_count_becomes_parent() {
    // Aves is carried by three records, Passeriformes by two, so the engine
    // links Passeriformes under Aves.
    let birds = vec![
        bird("A", "a", &["Aves", "Passeriformes"]),
        bird("B", "b", &["Aves", "Passeriformes"]),
        bird("C", "c", &["Aves"]),
    ];
    let tree = sort_by_classification(birds.clone());
    assert_eq!(parent_name(&tree, "Passeriformes"), Some("Aves".to_string()));
    assert_eq!(parent_name(&tree, "Aves"), None);

    let mut coll = Collection::new();
    coll.classification_tree = tree;
    coll.birds = birds;
    let all = coll.search_bird_by_species("Aves".to_string());
    assert_eq!(names_of(&all), strings(&["A", "B", "C"]));
    let passerines = coll.search_bird_by_species("Passeriformes".to_string());
    assert_eq!(names_of(&passerines), strings(&["A", "B"]));
}

#[test]
fn unknown_root_matches_nothing() {
    let birds = vec![
        bird("A", "a", &["Aves", "Passeriformes"]),
        bird("B", "b", &["Aves", "Passeriformes"]),
        bird("C", "c", &["Aves"]),
    ];
    let mut coll = Collection::new();
    coll.classification_tree = sort_by_classification(birds.clone());
    coll.birds = birds;
    assert!(coll.search_bird_by_species("Strigiformes".to_string()).is_empty());
}

#[test]
fn inference_runs_identically_twice() {
    let birds = vec![
        bird("A", "a", &["Aves", "Passeriformes", "Corvidae"]),
        bird("B", "b", &["Aves", "Passeriformes"]),
        bird("C", "c", &["Aves"]),
    ];
    let tree1 = sort_by_classification(birds.clone());
    let tree2 = sort_by_classification(birds);
    assert_eq!(tree1.len(), tree2.len());
    for ((f1, b1), (f2, b2)) in tree1.iter().zip(tree2.iter()) {
        assert_eq!(f1, f2);
        assert_eq!(b1.len(), b2.len());
        for (n1, n2) in b1.iter().zip(b2.iter()) {
            assert_eq!(n1.name, n2.name);
            let left = n1.parent_classification.as_ref().map(|p| p.name.clone());
            let right = n2.parent_classification.as_ref().map(|p| p.name.clone());
            assert_eq!(left, right);
        }
    }
}

#[test]
fn parents_always_have_strictly_greater_counts() {
    let birds = vec![
        bird("A", "a", &["Aves", "Passeriformes", "Corvidae"]),
        bird("B", "b", &["Aves", "Passeriformes"]),
        bird("C", "c", &["Aves", "Strigiformes"]),
        bird("D", "d", &["Aves", "Strigiformes", "Strigidae"]),
    ];
    let tree = sort_by_classification(birds.clone());
    for node in flatten(&tree) {
        if let Some(p) = &node.parent_classification {
            assert!(count_of(&birds, &p.name) > count_of(&birds, &node.name));
        }
    }
}

#[test]
fn parent_chains_terminate_at_a_root() {
    let birds = vec![
        bird("A", "a", &["Aves", "Passeriformes", "Corvidae"]),
        bird("B", "b", &["Aves", "Passeriformes", "Corvidae"]),
        bird("C", "c", &["Aves", "Passeriformes"]),
        bird("D", "d", &["Aves"]),
    ];
    let tree = sort_by_classification(birds.clone());
    let distinct = 3;
    for node in flatten(&tree) {
        // Following parent links never needs more steps than there are
        // distinct labels before reaching a root.
        let mut current = node.name.clone();
        let mut steps = 0;
        while let Some(p) = parent_name(&tree, &current) {
            current = p;
            steps += 1;
            assert!(steps <= distinct);
        }
    }
    assert_eq!(parent_name(&tree, "Corvidae"), Some("Passeriformes".to_string()));
    assert_eq!(parent_name(&tree, "Passeriformes"), Some("Aves".to_string()));
    assert_eq!(parent_name(&tree, "Aves"), None);
}

#[test]
fn last_qualifying_candidate_wins() {
    // Both R and S outnumber L and co-occur with it; the later position in
    // the record's label order is the one that sticks.
    let birds = vec![
        bird("A", "a", &["R", "S", "L"]),
        bird("B", "b", &["R", "S"]),
        bird("C", "c", &["R", "S"]),
    ];
    let tree = sort_by_classification(birds);
    assert_eq!(parent_name(&tree, "L"), Some("S".to_string()));
}

#[test]
fn within_record_repeats_count_once() {
    // A record listing the same label twice contributes one to the label's
    // count and one clone to the grouping: a label appears once per record
    // that carries it.
    let birds = vec![bird("A", "a", &["X", "X"]), bird("B", "b", &["X"])];
    let tree = sort_by_classification(birds);
    assert_eq!(tree.len(), 1);
    assert_eq!(tree[0].0, 2);
    assert_eq!(tree[0].1.len(), 2);
}

#[test]
fn empty_record_set_yields_empty_grouping() {
    let tree = sort_by_classification(Vec::new());
    assert!(tree.is_empty());
    let coll = Collection::new();
    assert!(coll.search_bird_by_species("Aves".to_string()).is_empty());
}
