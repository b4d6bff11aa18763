use persevere::redblack::Tree;

fn permute(results: &mut Vec<Vec<u32>>, v: &mut Vec<u32>, i: usize) {
    if i >= v.len() - 1 {
        results.push(v.clone());
    } else {
        for j in i..(v.len()) {
            v.swap(i, j);
            permute(results, v, i + 1);
            v.swap(i, j);
        }
    }
}

fn set_of(keys: &[u32]) -> Tree<u32, ()> {
    Tree::from_entries(keys.iter().map(|k| (*k, ())).collect())
}

fn keys_of<V>(tree: &Tree<u32, V>) -> Vec<u32> {
    tree.keys().into_iter().cloned().collect()
}

#[test]
fn construction() {
    let tree = (0..10).fold(Tree::new(), |acc, e| acc.updated(e, (), false));
    for i in 0..10 {
        assert!(tree.contains(i));
        assert!(!tree.removed(i).contains(i));
    }
    assert!(!tree.contains(-1));
    assert!(!tree.contains(10))
}

#[test]
fn sorted_results() {
    let mut permutations: Vec<Vec<u32>> = Vec::new();
    {
        let mut nums = vec![1, 2, 3, 4, 5, 6];
        permute(&mut permutations, &mut nums, 6);
    }

    let expected_order = vec![1, 2, 3, 4, 5, 6];

    for permutation in permutations {
        let tree = set_of(&permutation);
        let tree_nums = keys_of(&tree);
        assert_eq!(tree_nums, expected_order);
    }
}

#[test]
fn containment() {
    let tree: Tree<i32, ()> = Tree::new().updated(0, (), false).updated(1, (), false);
    assert!(tree.contains(0));
    assert!(!tree.contains(20));
    assert!(tree.validate());
}

#[test]
fn removal() {
    let tree: Tree<i32, ()> = (0..4).rev().fold(Tree::new(), |t, k| t.updated(k, (), false));
    assert!(tree.contains(0));
    assert!(tree.contains(1));
    assert!(tree.contains(2));
    assert!(tree.contains(3));
    let tree = tree.removed(1);
    assert!(tree.contains(0));
    assert!(!tree.contains(1));
    assert!(tree.contains(2));
    assert!(tree.contains(3));
}

#[test]
fn every_permutation_sorted() {
    let mut permutations: Vec<Vec<u32>> = Vec::new();
    let mut nums = vec![1, 2, 3, 4, 5, 6];
    permute(&mut permutations, &mut nums, 0);
    assert_eq!(permutations.len(), 720);
    for permutation in permutations {
        let tree = set_of(&permutation);
        assert!(tree.validate());
        assert_eq!(keys_of(&tree), vec![1, 2, 3, 4, 5, 6]);
    }
}

#[test]
fn keys_of_empty_tree() {
    let tree: Tree<u32, ()> = Tree::new();
    assert!(keys_of(&tree).is_empty());
    assert!(tree.validate());
    assert!(!tree.contains(0));
    assert_eq!(tree.get(0), None);
}

#[test]
fn duplicate_keys_kept_once() {
    let tree = set_of(&[5, 3, 5, 3, 9, 1, 9]);
    assert_eq!(keys_of(&tree), vec![1, 3, 5, 9]);
    assert!(tree.validate());
}

#[test]
fn scenario_insert_then_remove() {
    let keys = [5u32, 3, 8, 1, 4, 7, 9];
    let mut tree: Tree<u32, ()> = Tree::new();
    for k in keys.iter() {
        tree = tree.updated(*k, (), false);
        assert!(tree.validate());
    }
    for k in 1..10u32 {
        assert_eq!(tree.contains(k), keys.contains(&k));
    }
    assert!(!tree.contains(0));
    assert!(!tree.contains(10));
    let removed = tree.removed(3);
    assert!(removed.validate());
    assert!(!removed.contains(3));
    for k in keys.iter().filter(|k| **k != 3) {
        assert!(removed.contains(*k));
    }
}

#[test]
fn overwrite_choice() {
    let tree: Tree<u32, u32> = Tree::new().updated(7, 70, false);
    assert_eq!(tree.get(7), Some(70));
    let kept = tree.updated(7, 71, false);
    assert_eq!(kept.get(7), Some(70));
    let replaced = tree.updated(7, 72, true);
    assert_eq!(replaced.get(7), Some(72));
    assert_eq!(keys_of(&replaced), vec![7]);
}

#[test]
fn get_after_insert_and_remove() {
    let mut tree: Tree<u32, u32> = Tree::new();
    for k in 0..50u32 {
        tree = tree.updated(k * 3 % 50, k, true);
        assert_eq!(tree.get(k * 3 % 50), Some(k));
    }
    for k in 0..50u32 {
        let smaller = tree.removed(k);
        assert_eq!(smaller.get(k), None);
        assert!(smaller.validate());
    }
}

#[test]
fn old_version_unchanged_after_insert() {
    let t1: Tree<u32, u32> = (0..20u32).fold(Tree::new(), |t, k| t.updated(k, k + 100, true));
    let t2 = t1.updated(5, 0, true).updated(50, 1, true).removed(7);
    for k in 0..20u32 {
        assert_eq!(t1.get(k), Some(k + 100));
    }
    assert_eq!(t1.get(50), None);
    assert_eq!(t2.get(5), Some(0));
    assert_eq!(t2.get(50), Some(1));
    assert_eq!(t2.get(7), None);
}

#[test]
fn removing_absent_key_keeps_contents() {
    let tree: Tree<u32, u32> = (0..30u32).fold(Tree::new(), |t, k| t.updated(k * 2, k, true));
    let same = tree.removed(31);
    assert_eq!(keys_of(&same), keys_of(&tree));
    for k in 0..30u32 {
        assert_eq!(same.get(k * 2), Some(k));
    }
    assert!(same.validate());
}

#[test]
fn removal_in_every_order_stays_balanced() {
    let n = 64u32;
    let mut tree: Tree<u32, ()> = Tree::new();
    for k in 0..n {
        tree = tree.updated((k * 37) % n, (), false);
    }
    assert!(tree.validate());
    let mut remaining: Vec<u32> = (0..n).collect();
    for k in 0..n {
        let gone = (k * 11) % n;
        tree = tree.removed(gone);
        remaining.retain(|x| *x != gone);
        assert!(tree.validate());
        assert_eq!(keys_of(&tree), remaining);
    }
    assert!(keys_of(&tree).is_empty());
}

#[test]
fn remove_below_node_with_red_right_child() {
    let tree: Tree<u32, ()> = Tree::new().updated(1, (), false).updated(2, (), false);
    let same = tree.removed(0);
    assert!(same.validate());
    assert_eq!(keys_of(&same), vec![1, 2]);
}

#[test]
fn from_entries_later_entry_wins() {
    let tree: Tree<u32, &str> = Tree::from_entries(vec![(2, "a"), (1, "b"), (2, "c")]);
    assert_eq!(tree.get(2), Some("c"));
    assert_eq!(tree.get(1), Some("b"));
    assert_eq!(keys_of(&tree), vec![1, 2]);
    let by_insertion = Tree::new().updated(2, "a", true).updated(1, "b", true).updated(2, "c", true);
    assert_eq!(keys_of(&by_insertion), keys_of(&tree));
    assert_eq!(by_insertion.get(2), tree.get(2));
    assert!(tree.validate());
}
