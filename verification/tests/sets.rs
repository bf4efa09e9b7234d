use finite_groups::sets::FiniteSet;
use std::rc::Rc;

#[test]
fn test_powerset() {
    let test_set = FiniteSet::new(Some(vec![0, 1, 2]));
    let powerset = test_set.powerset();
    assert_eq!(test_set.powerset().elements.len(), 8);

    for element in powerset.elements.iter() {
        if !element.clone().is_subset(test_set.clone()) {
            panic!();
        }
    }
}

#[test]
fn test_powerset_superset() {
    let test_set = FiniteSet::new(Some(vec![0, 1, 2]));
    let powerset = test_set.powerset();

    for i in powerset.elements.iter() {
        for j in powerset.elements.iter() {
            if i.clone().superset != j.clone().superset {
                panic!();
            }
        }
    }
}

#[test]
fn test_superset_referencing() {
    let test_set = FiniteSet::new(Some(vec![0, 1, 2]));
    let powerset = test_set.powerset();

    for subset in powerset.elements.iter() {
        assert_eq!(subset.superset.clone().unwrap().elements, test_set.elements);
    }
}

#[test]
fn test_subset_external_referencing() {
    let test_set = FiniteSet::new(Some(vec![0, 1, 2]));
    let powerset = test_set.powerset();

    let mut external = FiniteSet::new(None);
    external.superset = Some(Rc::new(test_set.clone()));

    if !external.is_subset(test_set.clone()) {
        panic!();
    }
    // two Rc::new() of the same value are equal
    if external.superset.clone().unwrap() != powerset.elements[0].superset.clone().unwrap() {
        panic!();
    }
}

#[test]
fn test_adding_correct_subset() {
    let test_set = FiniteSet::new(Some(vec![0, 1, 2]));
    let mut correct_subset = FiniteSet::new(Some(vec![2]));

    assert_eq!(correct_subset.add_superset(test_set), true);
}

#[test]
fn test_adding_incorrect_subset() {
    let test_set = FiniteSet::new(Some(vec![0, 1, 2]));
    let mut correct_subset = FiniteSet::new(Some(vec![5]));

    assert_eq!(correct_subset.add_superset(test_set), false);
}

#[test]
fn new_keeps_first_occurrences_in_order() {
    let set = FiniteSet::new(Some(vec![10, 20, 30, 20, 40, 10, 50]));
    assert_eq!(set.elements, vec![10, 20, 30, 40, 50]);
    assert!(set.superset.is_none());
}

#[test]
fn new_without_a_vector_is_empty() {
    let set: FiniteSet<u8> = FiniteSet::new(None);
    assert_eq!(set.elements, Vec::<u8>::new());
    assert_eq!(set.order(), 0);
    assert!(set.superset.is_none());
    assert_eq!(set, FiniteSet::empty());
}

#[test]
fn new_of_distinct_items_keeps_them_all() {
    let set = FiniteSet::new(Some(vec![3, 1, 2]));
    assert_eq!(set.elements, vec![3, 1, 2]);
    assert_eq!(set.order(), 3);
}

#[test]
fn add_appends_a_new_element_and_skips_a_known_one() {
    let mut set = FiniteSet::new(Some(vec![1, 2]));
    set.add(3);
    assert_eq!(set.elements, vec![1, 2, 3]);
    set.add(2);
    assert_eq!(set.elements, vec![1, 2, 3]);
    set.add(1);
    assert_eq!(set.elements, vec![1, 2, 3]);
    assert_eq!(set.order(), 3);
}

#[test]
fn add_leaves_the_link_alone() {
    let parent = FiniteSet::new(Some(vec![1, 2, 3]));
    let mut set = FiniteSet::new(Some(vec![1]));
    assert!(set.add_superset(parent.clone()));
    set.add(2);
    assert_eq!(set.superset, Some(Rc::new(parent)));
}

#[test]
fn contains_goes_by_equality() {
    let set = FiniteSet::new(Some(vec![String::from("a"), String::from("bc")]));
    assert!(set.contains(String::from("bc")));
    assert!(set.holds(&String::from("a")));
    assert!(!set.contains(String::from("b")));
    assert!(!FiniteSet::<i32>::empty().contains(0));
}

#[test]
fn order_counts_the_members() {
    assert_eq!(FiniteSet::new(Some(vec![7, 7, 7])).order(), 1);
    assert_eq!(FiniteSet::new(Some(vec![4, 5, 6, 4])).order(), 3);
}

#[test]
fn powerset_lists_subsets_by_number() {
    let set = FiniteSet::new(Some(vec![10, 20, 30]));
    let powerset = set.powerset();
    let listed: Vec<Vec<i32>> = powerset.elements.iter().map(|s| s.elements.clone()).collect();
    assert_eq!(
        listed,
        vec![
            vec![],
            vec![10],
            vec![20],
            vec![10, 20],
            vec![30],
            vec![10, 30],
            vec![20, 30],
            vec![10, 20, 30],
        ]
    );
    assert!(powerset.superset.is_none());
}

#[test]
fn powerset_sizes_are_powers_of_two() {
    assert_eq!(FiniteSet::<i32>::empty().powerset().elements.len(), 1);
    assert_eq!(FiniteSet::new(Some(vec![1])).powerset().elements.len(), 2);
    assert_eq!(FiniteSet::new(Some(vec![1, 2, 3, 4, 5])).powerset().elements.len(), 32);
    assert_eq!(
        FiniteSet::new(Some((0..10).collect::<Vec<u32>>())).powerset().elements.len(),
        1024
    );
}

#[test]
fn powerset_of_the_empty_set_holds_the_empty_set() {
    let set: FiniteSet<i32> = FiniteSet::empty();
    let powerset = set.powerset();
    assert_eq!(powerset.elements.len(), 1);
    assert!(powerset.elements[0].elements.is_empty());
    assert_eq!(powerset.elements[0].superset, Some(Rc::new(set)));
}

#[test]
fn powerset_members_pass_the_walk_without_their_link() {
    let set = FiniteSet::new(Some(vec![1, 2, 3, 4]));
    for member in set.powerset().elements.iter() {
        let mut unlinked = member.clone();
        unlinked.superset = None;
        assert!(unlinked.is_subset(set.clone()));
        for element in member.elements.iter() {
            assert!(set.contains(*element));
        }
    }
}

#[test]
fn powerset_members_share_one_link() {
    let set = FiniteSet::new(Some(vec![1, 2, 3]));
    let powerset = set.powerset();
    let first = powerset.elements[0].superset.clone().unwrap();
    for member in powerset.elements.iter() {
        assert!(Rc::ptr_eq(&first, member.superset.as_ref().unwrap()));
        assert_eq!(**member.superset.as_ref().unwrap(), set);
    }
}

#[test]
fn powerset_keeps_the_link_of_the_set_in_the_copy() {
    let parent = FiniteSet::new(Some(vec![1, 2, 3]));
    let mut set = FiniteSet::new(Some(vec![1, 2]));
    assert!(set.add_superset(parent.clone()));
    let powerset = set.powerset();
    let copy = powerset.elements[3].superset.clone().unwrap();
    assert_eq!(copy.elements, vec![1, 2]);
    assert_eq!(copy.superset, Some(Rc::new(parent)));
}

#[test]
fn is_subset_of_the_empty_set() {
    let empty: FiniteSet<i32> = FiniteSet::empty();
    let mut set = FiniteSet::new(Some(vec![1]));
    assert!(!set.is_subset(empty.clone()));
    assert!(empty.clone().is_subset(empty.clone()));
    assert!(empty.clone().is_subset(set.clone()));
}

#[test]
fn is_subset_walks_the_members() {
    let big = FiniteSet::new(Some(vec![1, 2, 3, 4]));
    assert!(FiniteSet::new(Some(vec![4, 1])).is_subset(big.clone()));
    assert!(!FiniteSet::new(Some(vec![4, 5])).is_subset(big.clone()));
    assert!(big.clone().is_subset(big.clone()));
    assert!(FiniteSet::new(Some(vec![2])).included_in(&big));
    assert!(!big.included_in(&FiniteSet::new(Some(vec![2]))));
}

#[test]
fn is_subset_changes_nothing_and_answers_the_same_twice() {
    let parent = FiniteSet::new(Some(vec![1, 2, 3]));
    let mut set = FiniteSet::new(Some(vec![3, 1]));
    assert!(set.add_superset(parent.clone()));
    let before = set.clone();
    let other = FiniteSet::new(Some(vec![1, 2]));

    let first = set.is_subset(other.clone());
    let second = set.is_subset(other.clone());
    assert_eq!(first, false);
    assert_eq!(first, second);
    assert_eq!(set, before);

    let first = set.is_subset(parent.clone());
    let second = set.is_subset(parent.clone());
    assert_eq!(first, true);
    assert_eq!(first, second);
    assert_eq!(set, before);
    assert_eq!(set.superset, Some(Rc::new(parent)));
}

#[test]
fn is_subset_trusts_a_link_to_the_candidate() {
    let candidate = FiniteSet::new(Some(vec![1, 2]));
    let mut stale = FiniteSet::new(Some(vec![9]));
    stale.superset = Some(Rc::new(candidate.clone()));
    assert!(stale.is_subset(candidate.clone()));
    assert!(!stale.is_subset(FiniteSet::new(Some(vec![1, 2, 3]))));
}

#[test]
fn add_superset_stores_the_candidate_on_success() {
    let candidate = FiniteSet::new(Some(vec![0, 1, 2]));
    let mut set = FiniteSet::new(Some(vec![2, 0]));
    assert_eq!(set.add_superset(candidate.clone()), true);
    assert_eq!(set.elements, vec![2, 0]);
    assert_eq!(set.superset, Some(Rc::new(candidate)));
}

#[test]
fn add_superset_changes_nothing_on_failure() {
    let first = FiniteSet::new(Some(vec![0, 1, 2]));
    let second = FiniteSet::new(Some(vec![0, 1]));
    let mut set = FiniteSet::new(Some(vec![2]));
    assert_eq!(set.add_superset(second.clone()), false);
    assert!(set.superset.is_none());

    assert_eq!(set.add_superset(first.clone()), true);
    assert_eq!(set.add_superset(second), false);
    assert_eq!(set.elements, vec![2]);
    assert_eq!(set.superset, Some(Rc::new(first)));
}

#[test]
fn add_superset_replaces_an_earlier_link() {
    let first = FiniteSet::new(Some(vec![0, 1, 2]));
    let second = FiniteSet::new(Some(vec![2, 3]));
    let mut set = FiniteSet::new(Some(vec![2]));
    assert!(set.add_superset(first));
    assert!(set.add_superset(second.clone()));
    assert_eq!(set.superset, Some(Rc::new(second)));
}

#[test]
fn equality_goes_by_members_in_order_and_by_link() {
    let a = FiniteSet::new(Some(vec![1, 2]));
    let b = FiniteSet::new(Some(vec![2, 1]));
    assert!(a == FiniteSet::new(Some(vec![1, 2, 1])));
    assert!(a != b);
    assert!(a != FiniteSet::new(Some(vec![1])));

    let parent = FiniteSet::new(Some(vec![1, 2, 3]));
    let mut linked = a.clone();
    assert!(linked.add_superset(parent.clone()));
    assert!(linked != a);
    assert!(a != linked);
    let mut again = a.clone();
    assert!(again.add_superset(parent));
    assert!(linked == again);
    let mut elsewhere = a.clone();
    assert!(elsewhere.add_superset(FiniteSet::new(Some(vec![1, 2, 4]))));
    assert!(linked != elsewhere);
}

#[test]
fn clone_copies_members_and_link() {
    let parent = FiniteSet::new(Some(vec![1, 2, 3]));
    let mut set = FiniteSet::new(Some(vec![3, 2]));
    assert!(set.add_superset(parent));
    let copy = set.clone();
    assert_eq!(copy.elements, set.elements);
    assert!(Rc::ptr_eq(copy.superset.as_ref().unwrap(), set.superset.as_ref().unwrap()));
}

#[test]
fn powerset_holds_every_subset_once() {
    let set = FiniteSet::new(Some(vec![1, 2, 3, 4]));
    let powerset = set.powerset();
    let mut seen: Vec<Vec<i32>> = Vec::new();
    for member in powerset.elements.iter() {
        let mut members = member.elements.clone();
        members.sort();
        assert!(!seen.contains(&members));
        seen.push(members);
    }
    assert_eq!(seen.len(), 16);
    assert!(seen.contains(&vec![]));
    assert!(seen.contains(&vec![1, 2, 3, 4]));
    assert!(seen.contains(&vec![2, 4]));
    assert!(seen.contains(&vec![1, 3, 4]));
    for i in 0..powerset.elements.len() {
        for j in 0..powerset.elements.len() {
            assert_eq!(powerset.elements[i] == powerset.elements[j], i == j);
        }
    }
}

#[test]
fn powerset_of_a_set_with_a_repeated_member() {
    let mut set = FiniteSet::new(Some(vec![7]));
    set.elements.push(7);
    let powerset = set.powerset();
    let listed: Vec<Vec<i32>> = powerset.elements.iter().map(|s| s.elements.clone()).collect();
    assert_eq!(listed, vec![vec![], vec![7], vec![7], vec![7]]);
}

#[test]
fn add_keeps_a_set_without_repeats() {
    let mut set = FiniteSet::empty();
    for x in [3, 1, 3, 2, 1, 3] {
        set.add(x);
    }
    assert_eq!(set.elements, vec![3, 1, 2]);
    assert_eq!(set, FiniteSet::new(Some(vec![3, 1, 3, 2, 1, 3])));
}

#[test]
fn add_drops_a_link_that_would_not_cover_the_new_member() {
    let parent = FiniteSet::new(Some(vec![1, 2]));
    let mut set = FiniteSet::new(Some(vec![1]));
    assert!(set.add_superset(parent.clone()));
    set.add(9);
    assert_eq!(set.elements, vec![1, 9]);
    assert!(set.superset.is_none());
    assert_eq!(set.is_subset(FiniteSet::new(Some(vec![1, 2]))), false);
    assert_eq!(set.add_superset(parent), false);
    assert!(set.superset.is_none());
}

#[test]
fn add_keeps_the_link_where_the_member_is_known_already() {
    let parent = FiniteSet::new(Some(vec![1, 2]));
    let mut set = FiniteSet::new(Some(vec![1, 2]));
    assert!(set.add_superset(parent.clone()));
    set.add(1);
    assert_eq!(set.elements, vec![1, 2]);
    assert_eq!(set.superset, Some(Rc::new(parent)));
}

#[test]
fn add_to_a_set_without_a_link_has_none_after() {
    let mut set = FiniteSet::new(Some(vec![1]));
    set.add(9);
    assert_eq!(set.elements, vec![1, 9]);
    assert!(set.superset.is_none());
}
