use ecta::paths::rank;
use ecta::paths::Rank;
use ecta::path_class::sort_pairs;
use ecta::text::decimal_string;
use ecta::text::render_path;
use ecta::ConstraintError;
use ecta::Constraints;
use ecta::ECTATrait;
use ecta::PathConstraintStringify;
use ecta::PathEClass;

#[test]
fn rank_orders_paths_lexicographically() {
    assert_eq!(rank(&vec![], &vec![]), Rank::Same);
    assert_eq!(rank(&vec![], &vec![0]), Rank::Before);
    assert_eq!(rank(&vec![0], &vec![]), Rank::After);
    assert_eq!(rank(&vec![1, 2], &vec![1, 2]), Rank::Same);
    assert_eq!(rank(&vec![1, 2], &vec![1, 3]), Rank::Before);
    assert_eq!(rank(&vec![1, 2, 0], &vec![1, 2]), Rank::After);
    assert_eq!(rank(&vec![0, 255], &vec![1]), Rank::Before);
    assert_eq!(rank(&vec![2], &vec![1, 9, 9]), Rank::After);
}

#[test]
fn sort_pairs_orders_and_drops_repeats() {
    let sorted = sort_pairs(vec![
        (vec![1, 0], 3),
        (vec![0, 1], 3),
        (vec![], 8),
        (vec![1, 0], 3),
        (vec![0], 4),
    ]);
    assert_eq!(
        sorted,
        Ok(vec![(vec![], 8), (vec![0], 4), (vec![0, 1], 3), (vec![1, 0], 3)])
    );
    assert_eq!(sort_pairs(vec![]), Ok(vec![]));
    assert_eq!(
        sort_pairs(vec![(vec![1], 1), (vec![0], 2), (vec![1], 2)]),
        Err(ConstraintError::ConflictingGroups)
    );
}

#[test]
fn decimal_string_writes_bytes() {
    assert_eq!(decimal_string(0), "0");
    assert_eq!(decimal_string(7), "7");
    assert_eq!(decimal_string(10), "10");
    assert_eq!(decimal_string(99), "99");
    assert_eq!(decimal_string(100), "100");
    assert_eq!(decimal_string(109), "109");
    assert_eq!(decimal_string(255), "255");
    for x in 0..=255u8 {
        assert_eq!(decimal_string(x), format!("{}", x));
    }
}

#[test]
fn render_path_joins_positions_with_dots() {
    assert_eq!(render_path(&vec![]), "");
    assert_eq!(render_path(&vec![3]), "3");
    assert_eq!(render_path(&vec![0, 10, 255]), "0.10.255");
}

#[test]
fn store_walks_paths_one_position_at_a_time() {
    let store = PathEClass::new(vec![(vec![0, 1], 7), (vec![0, 0], 5), (vec![1], 5), (vec![0], 9)]).unwrap();
    let root = store.get_root();
    assert!(!root.is_final_state());
    assert_eq!(root.get_final_value(), None);
    let at_0 = store.get_next_node_on_symbol(store.get_root(), 0).unwrap();
    assert!(at_0.is_final_state());
    assert_eq!(at_0.get_final_value(), Some(9));
    let at_1 = store.get_next_node_on_symbol(store.get_root(), 1).unwrap();
    assert_eq!(at_1.get_final_value(), Some(5));
    assert!(store.get_next_node_on_symbol(store.get_root(), 2).is_none());
    let at_00 = store
        .get_next_node_on_symbol(store.get_next_node_on_symbol(store.get_root(), 0).unwrap(), 0)
        .unwrap();
    assert_eq!(at_00.get_final_value(), Some(5));
    let at_01 = store
        .get_next_node_on_symbol(store.get_next_node_on_symbol(store.get_root(), 0).unwrap(), 1)
        .unwrap();
    assert!(at_01.is_final_state());
    assert_eq!(at_01.get_final_value(), Some(7));
    assert!(store.get_next_node_on_symbol(at_01, 0).is_none());
    assert!(store.get_next_node_on_symbol(at_1, 0).is_none());
    assert!(store
        .get_next_node_on_symbol(store.get_next_node_on_symbol(store.get_root(), 0).unwrap(), 2)
        .is_none());
}

#[test]
fn store_keeps_large_and_unordered_group_ids() {
    let store = PathEClass::new(vec![
        (vec![5, 5, 5], u64::MAX),
        (vec![5, 5], 1),
        (vec![5], 1_000_000),
        (vec![4, 200], 0),
        (vec![5, 5, 6], 3),
    ])
    .unwrap();
    let step = |from, b| store.get_next_node_on_symbol(from, b);
    let a = step(store.get_root(), 5).unwrap();
    assert_eq!(a.get_final_value(), Some(1_000_000));
    let b = step(a, 5).unwrap();
    assert_eq!(b.get_final_value(), Some(1));
    let c = step(step(step(store.get_root(), 5).unwrap(), 5).unwrap(), 5).unwrap();
    assert_eq!(c.get_final_value(), Some(u64::MAX));
    let d = step(b, 6).unwrap();
    assert_eq!(d.get_final_value(), Some(3));
    let e = step(store.get_root(), 4).unwrap();
    assert_eq!(e.get_final_value(), None);
    assert_eq!(step(e, 200).unwrap().get_final_value(), Some(0));
    assert_eq!(
        store.pairs(),
        vec![
            (vec![4, 200], 0),
            (vec![5], 1_000_000),
            (vec![5, 5], 1),
            (vec![5, 5, 5], u64::MAX),
            (vec![5, 5, 6], 3),
        ]
    );
}

#[test]
fn store_of_nothing_and_of_the_empty_path() {
    let none = PathEClass::new(vec![]).unwrap();
    assert!(!none.get_root().is_final_state());
    assert!(none.get_next_node_on_symbol(none.get_root(), 0).is_none());
    assert!(none.pairs().is_empty());
    let only_root = PathEClass::new(vec![(vec![], 6)]).unwrap();
    assert!(only_root.get_root().is_final_state());
    assert_eq!(only_root.get_root().get_final_value(), Some(6));
    assert!(only_root.get_next_node_on_symbol(only_root.get_root(), 0).is_none());
    let copy = only_root.clone();
    assert_eq!(copy.pairs(), vec![(vec![], 6)]);
}

#[test]
fn store_accepts_repeats_and_refuses_conflicts() {
    let twice = PathEClass::new(vec![(vec![1], 2), (vec![1], 2)]).unwrap();
    assert_eq!(twice.pairs(), vec![(vec![1], 2)]);
    assert!(matches!(
        PathEClass::new(vec![(vec![1], 2), (vec![0], 2), (vec![1], 3)]),
        Err(ConstraintError::ConflictingGroups)
    ));
}

#[test]
fn constraint_refuses_empty_and_conflicting_input() {
    assert!(matches!(Constraints::new(vec![], ()), Err(ConstraintError::NoPaths)));
    assert!(matches!(
        Constraints::new(vec![(vec![0], 1), (vec![0], 2)], ()),
        Err(ConstraintError::ConflictingGroups)
    ));
    assert!(Constraints::new(vec![(vec![0], 1), (vec![0], 1)], ()).is_ok());
}

#[test]
fn constraint_text_groups_paths_whatever_the_order() {
    let left = vec![0u8, 0];
    let right = vec![1u8, 0];
    let alone = vec![2u8];
    let orders = [
        vec![(left.clone(), 4), (right.clone(), 4), (alone.clone(), 9)],
        vec![(alone.clone(), 9), (right.clone(), 4), (left.clone(), 4)],
        vec![(right.clone(), 4), (alone.clone(), 9), (left.clone(), 4)],
        vec![(right.clone(), 4), (alone.clone(), 9), (left.clone(), 4), (alone.clone(), 9)],
    ];
    for pairs in orders {
        let c = Constraints::new(pairs, ()).unwrap();
        assert_eq!(c.to_string(), "0.0 = 1.0\n2");
    }
}

#[test]
fn constraint_text_orders_groups_by_their_least_path() {
    let c = Constraints::new(vec![(vec![3], 0), (vec![1], 1), (vec![2], 0), (vec![0, 9], 2)], ()).unwrap();
    assert_eq!(c.to_string(), "0.9\n1\n2 = 3");
    let renamed = Constraints::new(vec![(vec![3], 7), (vec![1], 5), (vec![2], 7), (vec![0, 9], 6)], ()).unwrap();
    assert_eq!(renamed.to_string(), "0.9\n1\n2 = 3");
    assert!(c == renamed);
    let regrouped = Constraints::new(vec![(vec![3], 0), (vec![1], 0), (vec![2], 1), (vec![0, 9], 2)], ()).unwrap();
    assert_eq!(regrouped.to_string(), "0.9\n1 = 3\n2");
    assert!(c != regrouped);
}

#[test]
fn constraint_copy_has_the_same_text() {
    let c = Constraints::new(vec![(vec![0, 0], 0), (vec![0, 1], 0)], ()).unwrap();
    assert_eq!(c.clone().to_string(), "0.0 = 0.1");
    let d = c.duplicate();
    assert_eq!(d.to_string(), "0.0 = 0.1");
    assert!(c == d);
    assert_eq!(c.path_store().pairs(), vec![(vec![0, 0], 0), (vec![0, 1], 0)]);
}

#[test]
fn default_reading_joins_groups_and_lines() {
    let groups = vec![
        (4, vec!["0.0".to_string(), "1.0".to_string(), "7".to_string()]),
        (9, vec!["2".to_string()]),
    ];
    assert_eq!(().stringify(groups), "0.0 = 1.0 = 7\n2");
    assert_eq!(().stringify(vec![]), "");
    assert_eq!(().stringify(vec![(1, vec![])]), "");
}

#[test]
fn labels_compare_by_value() {
    assert!("abc".same(&"abc"));
    assert!(!"abc".same(&"abd"));
    assert_eq!("abc".duplicate(), "abc");
    assert!(String::from("x").same(&String::from("x")));
    assert!(!String::from("x").same(&String::from("y")));
    assert_eq!(String::from("x").duplicate(), "x");
    assert!(5u64.same(&5));
    assert!(!5u64.same(&6));
    assert_eq!(5u8.duplicate(), 5);
    assert!(().same(&()));
    assert!(!true.same(&false));
    assert!('a'.same(&'a'));
}

#[test]
fn errors_say_what_went_wrong() {
    assert_eq!(ConstraintError::ConflictingGroups.message(), "a path is given two different groups");
    assert_eq!(ConstraintError::NoPaths.message(), "a constraint needs at least one path");
    assert_eq!(ecta::EctaError::Exhausted.message(), "the store cannot hold the result");
    assert_eq!(ecta::EctaError::Unimplemented.message(), "the operation is not provided");
}
