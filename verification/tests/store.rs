use ecta::Constraints;
use ecta::ECTANode;
use ecta::Edge;
use ecta::EctaError;
use ecta::Node;
use ecta::ECTA;

type Store = ECTA<&'static str, ()>;

fn leaf(ecta: &mut Store, label: &'static str) -> ECTANode {
    let end = ecta.empty_node;
    ecta.add_node(Node::new(), vec![(label, None, vec![end])])
}

fn summary(ecta: &Store, n: ECTANode) -> Vec<(&'static str, u8, ECTANode)> {
    ecta.get_edges(n).iter().map(|e| (e.data, e.edge_num, e.nodeidx)).collect()
}

#[test]
fn new_store_holds_only_the_empty_node() {
    let ecta: Store = ECTA::new();
    assert_eq!(ecta.len(), 1);
    assert_eq!(ecta.edge_count(), 0);
    assert_eq!(ecta.empty_node, 0);
    assert!(ecta.get_edges(ecta.empty_node).is_empty());
    let by_default: Store = ECTA::default();
    assert_eq!(by_default.len(), 1);
}

#[test]
fn adding_no_edges_gives_the_empty_node() {
    let mut ecta: Store = ECTA::new();
    let end = ecta.add_node(Node::new(), vec![]);
    assert_eq!(end, ecta.empty_node);
    let again = ecta.add_node(Node::default(), vec![]);
    assert_eq!(again, ecta.empty_node);
    assert_eq!(ecta.len(), 1);
    let childless = ecta.add_node(Node::new(), vec![("f", None, vec![])]);
    assert_eq!(childless, ecta.empty_node);
}

#[test]
fn add_node_is_idempotent() {
    let mut ecta: Store = ECTA::new();
    let end = ecta.empty_node;
    let first = ecta.add_node(Node::new(), vec![("a", None, vec![end]), ("b", None, vec![end])]);
    let nodes = ecta.len();
    let edges = ecta.edge_count();
    let second = ecta.add_node(Node::new(), vec![("a", None, vec![end]), ("b", None, vec![end])]);
    assert_eq!(first, second);
    assert_eq!(ecta.len(), nodes);
    assert_eq!(ecta.edge_count(), edges);
    assert_eq!(nodes, 2);
    assert_eq!(edges, 2);
}

#[test]
fn add_node_ignores_the_order_of_the_edges() {
    let mut ecta: Store = ECTA::new();
    let end = ecta.empty_node;
    let first = ecta.add_node(Node::new(), vec![("a", None, vec![end]), ("b", None, vec![end])]);
    let second = ecta.add_node(Node::new(), vec![("b", None, vec![end]), ("a", None, vec![end])]);
    assert_eq!(first, second);
    assert_eq!(summary(&ecta, first), vec![("a", 0, end), ("b", 0, end)]);
}

#[test]
fn add_node_counts_repeated_edges() {
    let mut ecta: Store = ECTA::new();
    let end = ecta.empty_node;
    let once = ecta.add_node(Node::new(), vec![("a", None, vec![end])]);
    let twice = ecta.add_node(Node::new(), vec![("a", None, vec![end]), ("a", None, vec![end])]);
    assert_ne!(once, twice);
    assert_eq!(ecta.len(), 3);
    assert_eq!(ecta.edge_count(), 3);
}

#[test]
fn add_node_tells_labels_positions_and_targets_apart() {
    let mut ecta: Store = ECTA::new();
    let end = ecta.empty_node;
    let a = leaf(&mut ecta, "a");
    let b = leaf(&mut ecta, "b");
    assert_ne!(a, b);
    let fa = ecta.add_node(Node::new(), vec![("f", None, vec![a])]);
    let fb = ecta.add_node(Node::new(), vec![("f", None, vec![b])]);
    assert_ne!(fa, fb);
    let fab = ecta.add_node(Node::new(), vec![("f", None, vec![a, b])]);
    let fba = ecta.add_node(Node::new(), vec![("f", None, vec![b, a])]);
    assert_ne!(fab, fba);
    assert_eq!(summary(&ecta, fab), vec![("f", 0, a), ("f", 1, b)]);
    assert_eq!(summary(&ecta, fba), vec![("f", 0, b), ("f", 1, a)]);
    assert_eq!(end, 0);
}

#[test]
fn add_node_tells_constraints_apart_by_their_text() {
    let mut ecta: Store = ECTA::new();
    let a = leaf(&mut ecta, "a");
    let plain = ecta.add_node(Node::new(), vec![("f", None, vec![a, a])]);
    let c1 = Constraints::new(vec![(vec![0], 0), (vec![1], 0)], ()).unwrap();
    let tied = ecta.add_node(Node::new(), vec![("f", Some(c1), vec![a, a])]);
    assert_ne!(plain, tied);
    let c2 = Constraints::new(vec![(vec![1], 9), (vec![0], 9)], ()).unwrap();
    let tied_again = ecta.add_node(Node::new(), vec![("f", Some(c2), vec![a, a])]);
    assert_eq!(tied, tied_again);
    let c3 = Constraints::new(vec![(vec![0], 0), (vec![1], 1)], ()).unwrap();
    let loose = ecta.add_node(Node::new(), vec![("f", Some(c3), vec![a, a])]);
    assert_ne!(tied, loose);
}

#[test]
fn get_edges_keeps_the_order_of_the_request() {
    let mut ecta: Store = ECTA::new();
    let end = ecta.empty_node;
    let a = leaf(&mut ecta, "a");
    let n = ecta.add_node(
        Node::new(),
        vec![("g", None, vec![a, end, a]), ("f", None, vec![end]), ("h", None, vec![a, a])],
    );
    assert_eq!(
        summary(&ecta, n),
        vec![("g", 0, a), ("g", 1, end), ("g", 2, a), ("f", 0, end), ("h", 0, a), ("h", 1, a)]
    );
    assert_eq!(ecta.edge_count(), 7);
}

#[test]
fn scenario_shared_children_under_a_constraint() {
    let mut ecta: Store = ECTA::new();
    let end = ecta.add_node(Node::new(), vec![]);
    let q1 = ecta.add_node(
        Node::new(),
        vec![("a", None, vec![end]), ("b", None, vec![end]), ("c", None, vec![end])],
    );
    let q2 = ecta.add_node(Node::new(), vec![("f", None, vec![q1])]);
    let tie = Constraints::new(vec![(vec![0, 0], 0), (vec![1, 0], 0)], ()).unwrap();
    let root = ecta.add_node(Node::new(), vec![("+", Some(tie), vec![q2, q2])]);
    let edges = ecta.get_edges(root);
    assert_eq!(edges.len(), 2);
    for (position, e) in edges.iter().enumerate() {
        assert_eq!(e.data, "+");
        assert_eq!(e.edge_num as usize, position);
        assert_eq!(e.nodeidx, q2);
        assert_eq!(e.constraints.as_ref().unwrap().to_string(), "0.0 = 1.0");
    }
    assert_eq!(summary(&ecta, q2), vec![("f", 0, q1)]);
    assert_eq!(summary(&ecta, q1), vec![("a", 0, end), ("b", 0, end), ("c", 0, end)]);
    assert_eq!(ecta.len(), 4);
}

#[test]
fn scenario_intersection_without_a_common_label_is_empty() {
    let mut ecta: Store = ECTA::new();
    let end = ecta.add_node(Node::new(), vec![]);
    let end2 = ecta.add_node(Node::new(), vec![]);
    let x_typ = ecta.add_node(Node::new(), vec![("int", None, vec![end])]);
    let y_typ = ecta.add_node(Node::new(), vec![("char", None, vec![end2])]);
    let scalar = ecta.add_node(Node::new(), vec![("x", None, vec![x_typ]), ("y", None, vec![y_typ])]);
    let bool_typ = ecta.add_node(Node::new(), vec![("bool", None, vec![end])]);
    let char_typ = ecta.add_node(Node::new(), vec![("char", None, vec![end2])]);
    let int_typ = ecta.add_node(Node::new(), vec![("int", None, vec![end2])]);
    let unary = ecta.add_node(
        Node::new(),
        vec![
            ("f", None, vec![bool_typ, bool_typ]),
            ("g", None, vec![int_typ, bool_typ]),
            ("h", None, vec![char_typ, int_typ]),
        ],
    );
    assert_eq!(char_typ, y_typ);
    assert_eq!(int_typ, x_typ);
    let nodes = ecta.len();
    assert_eq!(ecta.intersection(scalar, unary), Ok(ecta.empty_node));
    assert_eq!(ecta.intersection(unary, scalar), Ok(ecta.empty_node));
    assert_eq!(ecta.len(), nodes);
}

#[test]
fn intersection_with_the_empty_node_is_empty() {
    let mut ecta: Store = ECTA::new();
    let a = leaf(&mut ecta, "a");
    let f = ecta.add_node(Node::new(), vec![("f", None, vec![a, a])]);
    let empty = ecta.empty_node;
    let nodes = ecta.len();
    for n in [empty, a, f] {
        assert_eq!(ecta.intersection(n, empty), Ok(empty));
        assert_eq!(ecta.intersection(empty, n), Ok(empty));
    }
    assert_eq!(ecta.len(), nodes);
}

#[test]
fn intersection_with_itself_is_itself() {
    let mut ecta: Store = ECTA::new();
    let a = leaf(&mut ecta, "a");
    let f = ecta.add_node(Node::new(), vec![("f", None, vec![a, a])]);
    let empty = ecta.empty_node;
    let nodes = ecta.len();
    for n in [empty, a, f] {
        assert_eq!(ecta.intersection(n, n), Ok(n));
    }
    assert_eq!(ecta.len(), nodes);
}

#[test]
fn intersection_keeps_the_common_alternatives() {
    let mut ecta: Store = ECTA::new();
    let end = ecta.empty_node;
    let abc = ecta.add_node(
        Node::new(),
        vec![("a", None, vec![end]), ("b", None, vec![end]), ("c", None, vec![end])],
    );
    let bcd = ecta.add_node(
        Node::new(),
        vec![("b", None, vec![end]), ("c", None, vec![end]), ("d", None, vec![end])],
    );
    let bc = ecta.intersection(abc, bcd).unwrap();
    assert_eq!(summary(&ecta, bc), vec![("b", 0, end), ("c", 0, end)]);
    let same = ecta.add_node(Node::new(), vec![("c", None, vec![end]), ("b", None, vec![end])]);
    assert_eq!(same, bc);
    let nodes = ecta.len();
    assert_eq!(ecta.intersection(bcd, abc), Ok(bc));
    assert_eq!(ecta.intersection(abc, bcd), Ok(bc));
    assert_eq!(ecta.len(), nodes);
}

#[test]
fn intersection_descends_into_the_children() {
    let mut ecta: Store = ECTA::new();
    let end = ecta.empty_node;
    let ab = ecta.add_node(Node::new(), vec![("a", None, vec![end]), ("b", None, vec![end])]);
    let bc = ecta.add_node(Node::new(), vec![("b", None, vec![end]), ("c", None, vec![end])]);
    let cd = ecta.add_node(Node::new(), vec![("c", None, vec![end]), ("d", None, vec![end])]);
    let left = ecta.add_node(Node::new(), vec![("f", None, vec![ab, ab]), ("g", None, vec![ab])]);
    let right = ecta.add_node(Node::new(), vec![("f", None, vec![bc, cd]), ("g", None, vec![bc])]);
    let both = ecta.intersection(left, right).unwrap();
    let b = ecta.add_node(Node::new(), vec![("b", None, vec![end])]);
    // The second argument of `f` has nothing in common, so only its first
    // argument and the argument of `g` stay.
    assert_eq!(summary(&ecta, both), vec![("f", 0, b), ("g", 0, b)]);
    assert_eq!(ecta.intersection(ab, cd), Ok(end));
}

#[test]
fn intersection_keeps_an_edge_to_the_empty_node_where_a_child_is_empty() {
    let mut ecta: Store = ECTA::new();
    let end = ecta.empty_node;
    let a = leaf(&mut ecta, "a");
    let left = ecta.add_node(Node::new(), vec![("f", None, vec![end])]);
    let right = ecta.add_node(Node::new(), vec![("f", None, vec![a])]);
    let both = ecta.intersection(left, right).unwrap();
    assert_eq!(both, left);
    assert_eq!(summary(&ecta, both), vec![("f", 0, end)]);
}

#[test]
fn intersection_pairs_edges_by_position_and_constraint() {
    let mut ecta: Store = ECTA::new();
    let a = leaf(&mut ecta, "a");
    let tie = || Constraints::new(vec![(vec![0], 0), (vec![1], 0)], ()).unwrap();
    let tied = ecta.add_node(Node::new(), vec![("f", Some(tie()), vec![a, a])]);
    let plain = ecta.add_node(Node::new(), vec![("f", None, vec![a, a])]);
    assert_eq!(ecta.intersection(tied, plain), Ok(ecta.empty_node));
    let first_only = ecta.add_node(Node::new(), vec![("f", Some(tie()), vec![a])]);
    let met = ecta.intersection(tied, first_only).unwrap();
    assert_eq!(met, first_only);
    let e = ecta.get_edges(met);
    assert_eq!(e.len(), 1);
    assert_eq!(e[0].constraints.as_ref().unwrap().to_string(), "0 = 1");
}

#[test]
fn union_takes_the_edges_of_both() {
    let mut ecta: Store = ECTA::new();
    let end = ecta.empty_node;
    let ab = ecta.add_node(Node::new(), vec![("a", None, vec![end]), ("b", None, vec![end])]);
    let bc = ecta.add_node(Node::new(), vec![("b", None, vec![end]), ("c", None, vec![end])]);
    let u = ecta.union(ab, bc);
    assert_eq!(
        summary(&ecta, u),
        vec![("a", 0, end), ("b", 0, end), ("b", 0, end), ("c", 0, end)]
    );
    assert_eq!(ecta.union(ab, end), ab);
    assert_eq!(ecta.union(end, end), end);
}

#[test]
fn union_commutes() {
    let mut ecta: Store = ECTA::new();
    let end = ecta.empty_node;
    let ab = ecta.add_node(Node::new(), vec![("a", None, vec![end]), ("b", None, vec![end])]);
    let cd = ecta.add_node(Node::new(), vec![("c", None, vec![end]), ("d", None, vec![end])]);
    let one = ecta.union(ab, cd);
    let nodes = ecta.len();
    let other = ecta.union(cd, ab);
    assert_eq!(one, other);
    assert_eq!(ecta.len(), nodes);
}

#[test]
fn edge_new_and_map_keep_the_fields() {
    let tie = Constraints::new(vec![(vec![2], 4)], ()).unwrap();
    let e: Edge<u32, ()> = Edge::new(7, Some(tie), 3, 11);
    assert_eq!(e.data, 7);
    assert_eq!(e.edge_num, 3);
    assert_eq!(e.nodeidx, 11);
    let m = e.map(|x| u64::from(x) * 10);
    assert_eq!(m.data, 70u64);
    assert_eq!(m.edge_num, 3);
    assert_eq!(m.nodeidx, 11);
    assert_eq!(m.constraints.unwrap().to_string(), "2");
}

#[test]
fn edge_equality_is_by_value() {
    let tie = |id| Constraints::new(vec![(vec![0], id), (vec![1], id)], ()).unwrap();
    let e: Edge<&'static str, ()> = Edge::new("f", Some(tie(1)), 0, 2);
    assert!(e.same(&Edge::new("f", Some(tie(5)), 0, 2)));
    assert!(e.same(&e.duplicate()));
    assert!(e == e.clone());
    assert!(e != Edge::new("g", None, 0, 2));
    assert!(!e.same(&Edge::new("g", Some(tie(1)), 0, 2)));
    assert!(!e.same(&Edge::new("f", Some(tie(1)), 1, 2)));
    assert!(!e.same(&Edge::new("f", Some(tie(1)), 0, 3)));
    assert!(!e.same(&Edge::new("f", None, 0, 2)));
}

#[test]
fn edge_text_shows_label_position_and_constraint() {
    let plain: Edge<&'static str, ()> = Edge::new("f", None, 12, 0);
    assert_eq!(plain.display_text("f"), "f_12");
    let tie = Constraints::new(vec![(vec![0, 0], 0), (vec![1, 0], 0)], ()).unwrap();
    let tied: Edge<&'static str, ()> = Edge::new("app", Some(tie), 0, 0);
    assert_eq!(tied.display_text("app"), "app_0 : 0.0 = 1.0");
}

#[test]
fn unprovided_operations_say_so() {
    let mut ecta: Store = ECTA::new();
    let a = leaf(&mut ecta, "a");
    let nodes = ecta.len();
    assert_eq!(ecta.static_reduction(a, vec![]), Err(EctaError::Unimplemented));
    assert_eq!(ecta.snip(vec![(a, 0)]), Err(EctaError::Unimplemented));
    assert_eq!(ecta.len(), nodes);
}

#[test]
fn constraint_groups_gather_by_source_and_label() {
    let mut ecta: Store = ECTA::new();
    let x = leaf(&mut ecta, "a");
    let tie = || Constraints::new(vec![(vec![0], 0), (vec![1], 0)], ()).unwrap();
    let n = ecta.add_node(
        Node::new(),
        vec![
            ("f", Some(tie()), vec![x, x]),
            ("g", None, vec![x]),
            ("f", Some(tie()), vec![x]),
            ("h", Some(tie()), vec![x]),
        ],
    );
    let m = ecta.add_node(Node::new(), vec![("h", Some(tie()), vec![x, x, x])]);
    assert_eq!(
        ecta.constraint_groups(),
        vec![vec![(n, 0), (n, 3), (n, 1)], vec![(n, 4)], vec![(m, 0), (m, 1), (m, 2)]]
    );
    let plain: Store = ECTA::new();
    assert!(plain.constraint_groups().is_empty());
}

#[test]
fn intersection_of_shared_children_is_shared() {
    let mut ecta: Store = ECTA::new();
    let end = ecta.empty_node;
    let ab = ecta.add_node(Node::new(), vec![("a", None, vec![end]), ("b", None, vec![end])]);
    let bc = ecta.add_node(Node::new(), vec![("b", None, vec![end]), ("c", None, vec![end])]);
    let left = ecta.add_node(Node::new(), vec![("f", None, vec![ab, ab, ab])]);
    let right = ecta.add_node(Node::new(), vec![("f", None, vec![bc, bc, bc])]);
    let nodes = ecta.len();
    let both = ecta.intersection(left, right).unwrap();
    let b = ecta.add_node(Node::new(), vec![("b", None, vec![end])]);
    assert_eq!(summary(&ecta, both), vec![("f", 0, b), ("f", 1, b), ("f", 2, b)]);
    assert_eq!(ecta.len(), nodes + 2);
    assert_eq!(ecta.intersection(left, right), Ok(both));
    assert_eq!(ecta.len(), nodes + 2);
}

#[test]
fn snapshot_lists_every_edge_with_its_source() {
    let mut ecta: Store = ECTA::new();
    let end = ecta.empty_node;
    let a = leaf(&mut ecta, "a");
    let f = ecta.add_node(Node::new(), vec![("f", None, vec![a, end]), ("g", None, vec![a])]);
    let listed: Vec<_> =
        ecta.snapshot().iter().map(|(n, e)| (*n, e.data, e.edge_num, e.nodeidx)).collect();
    assert_eq!(
        listed,
        vec![(a, "a", 0, end), (f, "f", 0, a), (f, "f", 1, end), (f, "g", 0, a)]
    );
    assert_eq!(listed.len(), ecta.edge_count());
}

#[test]
fn try_variants_give_the_same_states() {
    let mut ecta: Store = ECTA::new();
    let end = ecta.empty_node();
    assert_eq!(end, ecta.empty_node);
    let ab = ecta.try_add_node(Node::new(), vec![("a", None, vec![end]), ("b", None, vec![end])]);
    assert_eq!(ab, Ok(1));
    let again = ecta.add_node(Node::new(), vec![("b", None, vec![end]), ("a", None, vec![end])]);
    assert_eq!(Ok(again), ab);
    let c = leaf(&mut ecta, "c");
    let u = ecta.try_union(again, c).unwrap();
    assert_eq!(summary(&ecta, u), vec![("a", 0, end), ("b", 0, end), ("c", 0, end)]);
    assert_eq!(ecta.union(c, again), u);
    assert_eq!(ecta.try_union(c, again), Ok(u));
}
