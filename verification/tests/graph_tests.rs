use ceph_db::errors::TypeErrors;
use ceph_db::graph::Graph;
use ceph_db::graph::NarrowingStatus;
use ceph_db::node::Node;
use ceph_db::type_system::Signature;
use ceph_db::typekind::FnKind;
use ceph_db::typekind::TypeKind;

#[test]
fn test_basic_edge_conflicts() {
    let mut graph = Graph::new();

    let node_t1 = Node::new(TypeKind::Number);
    let node_t2 = Node::new(TypeKind::String);

    let node_t1_idx = graph.add_node(node_t1);
    let node_t2_idx = graph.add_node(node_t2);

    let _ = graph.add_edge(node_t1_idx, node_t2_idx);

    assert!(graph.check_edges(node_t1_idx).is_err());
    assert!(graph.check_edges(node_t2_idx).is_err());
}

#[test]
fn test_basic_edge_no_conflicts() {
    let mut graph = Graph::new();

    let node_t1 = Node::new(TypeKind::String);
    let node_t2 = Node::new(TypeKind::String);

    let node_t1_idx = graph.add_node(node_t1);
    let node_t2_idx = graph.add_node(node_t2);

    let _ = graph.add_edge(node_t1_idx, node_t2_idx);

    assert!(graph.check_edges(node_t1_idx).is_ok());
    assert!(graph.check_edges(node_t2_idx).is_ok());
}

#[test]
fn base_registry_holds_seven_singletons() {
    let graph = Graph::new();
    assert_eq!(graph.len(), 7);
    assert!(matches!(
        graph.get_node(0).unwrap().self_t(),
        TypeKind::Number
    ));
    assert!(matches!(
        graph.get_node(6).unwrap().self_t(),
        TypeKind::Function
    ));
}

#[test]
fn concrete_node_anchors_to_its_base() {
    let mut graph = Graph::new();
    let idx = graph.add_node(Node::new(TypeKind::String));
    assert_eq!(idx, 7);
    // anchored to the String base node at position 1, both ways
    assert_eq!(graph.get_node(idx).unwrap().edges(), &vec![1usize]);
    assert_eq!(graph.get_node(1).unwrap().edges(), &vec![idx]);
}

#[test]
fn edge_conflict_error_carries_the_pair() {
    let mut graph = Graph::new();
    let a = graph.add_node(Node::new(TypeKind::Number));
    let b = graph.add_node(Node::new(TypeKind::String));
    let _ = graph.add_edge(a, b);
    match graph.check_edges(a) {
        Err(TypeErrors::ConflictingInferredTypes(x, y)) => {
            assert!(matches!(x, TypeKind::Number));
            assert!(matches!(y, TypeKind::String));
        }
        _ => panic!("expected a conflict"),
    }
}

#[test]
fn narrowing_is_idempotent_on_concrete_nodes() {
    let mut graph = Graph::new();
    let idx = graph.add_node(Node::new(TypeKind::Number));
    // the node is concrete: narrowing reports "unchanged" and keeps the type
    assert!(matches!(graph.narrow(idx), Ok(NarrowingStatus::Unchanged)));
    assert!(matches!(graph.get_node(idx).unwrap().self_t(), TypeKind::Number));
    assert!(matches!(graph.narrow(idx), Ok(NarrowingStatus::Unchanged)));
    assert!(matches!(graph.get_node(idx).unwrap().self_t(), TypeKind::Number));
}

#[test]
fn narrowing_tightens_an_unknown_node_once_only() {
    let mut graph = Graph::new();
    let u = graph.add_node(Node::new(TypeKind::Unknown));
    let s = graph.add_node(Node::new(TypeKind::String));
    assert!(graph.add_edge(u, s).is_ok());
    // the unknown node adopted its neighbour's type
    assert!(matches!(graph.get_node(u).unwrap().self_t(), TypeKind::String));
    // once concrete, later narrowing calls leave it alone
    assert!(matches!(graph.narrow(u), Ok(NarrowingStatus::Unchanged)));
    assert!(matches!(graph.get_node(u).unwrap().self_t(), TypeKind::String));
}

#[test]
fn narrowing_conflict_reports_but_keeps_the_edge() {
    let mut graph = Graph::new();
    let u = graph.add_node(Node::new(TypeKind::Unknown));
    let x = graph.add_node(Node::new(TypeKind::Unknown));
    // an edge between two unknown nodes leaves both unknown
    assert!(graph.add_edge(u, x).is_ok());
    // x becomes Number
    let n = graph.add_node(Node::new(TypeKind::Number));
    assert!(graph.add_edge(x, n).is_ok());
    // narrowing u now sees Number, then String: a conflict
    let s = graph.add_node(Node::new(TypeKind::String));
    let r = graph.add_edge(u, s);
    match r {
        Err(TypeErrors::ConflictingInferredTypes(a, b)) => {
            assert!(matches!(a, TypeKind::Number));
            assert!(matches!(b, TypeKind::String));
        }
        _ => panic!("expected a narrowing conflict"),
    }
    // the adjacency was installed anyway and is symmetric
    assert!(graph.get_node(u).unwrap().edges().contains(&s));
    assert!(graph.get_node(s).unwrap().edges().contains(&u));
}

#[test]
fn add_edge_always_installs_symmetric_adjacency() {
    let mut graph = Graph::new();
    let a = graph.add_node(Node::new(TypeKind::Number));
    let b = graph.add_node(Node::new(TypeKind::String));
    let _ = graph.add_edge(a, b);
    assert!(graph.get_node(a).unwrap().edges().contains(&b));
    assert!(graph.get_node(b).unwrap().edges().contains(&a));
}

#[test]
fn type_check_accepts_a_consistent_assignment_graph() {
    let mut graph = Graph::new();

    // y = x + 123, as Eq(y, Add(x, 123))
    let y_node = Node::new(TypeKind::Unknown);
    let x_node = Node::new(TypeKind::Unknown);
    let num_literal = Node::new(TypeKind::Number);
    let add_node = Node::new(TypeKind::InBuilt(FnKind::Add));
    let eq_node = Node::new(TypeKind::InBuilt(FnKind::Eq));

    let y_node_idx = graph.add_node(y_node);
    let x_node_idx = graph.add_node(x_node);
    let num_literal_idx = graph.add_node(num_literal);
    let add_node_idx = graph.add_node(add_node);
    let eq_node_idx = graph.add_node(eq_node);

    graph.set_node_arguments(add_node_idx, vec![x_node_idx, num_literal_idx]);
    graph.set_node_arguments(eq_node_idx, vec![y_node_idx, add_node_idx]);

    let mut i: usize = 0;
    while i < graph.len() {
        assert!(graph.type_check(i).is_ok());
        i += 1;
    }
}

#[test]
fn recorded_signature_must_match_the_live_one() {
    let mut graph = Graph::new();
    let ret = graph.add_node(Node::new(TypeKind::Number));
    let f = graph.add_node(Node::new(TypeKind::Function));
    graph.add_node_return(f, ret);
    // record a signature whose return type disagrees with the live one
    graph.add_store_signature(
        f,
        Signature {
            arguments: vec![],
            return_t: TypeKind::String,
        },
    );
    match graph.check_store(f) {
        Err(TypeErrors::ConflictingSignatures(stored, live)) => {
            assert!(matches!(stored.return_t, TypeKind::String));
            assert!(matches!(live.return_t, TypeKind::Number));
        }
        _ => panic!("expected a signature conflict"),
    }
    // a matching record passes
    graph.add_store_signature(
        f,
        Signature {
            arguments: vec![],
            return_t: TypeKind::Number,
        },
    );
    assert!(graph.check_store(f).is_ok());
}

#[test]
fn unsupported_operator_kind_is_reported() {
    let mut graph = Graph::new();
    let m = graph.add_node(Node::new(TypeKind::InBuilt(FnKind::Mod)));
    match graph.check_store(m) {
        Err(TypeErrors::UnsupportedOperator(k)) => assert!(matches!(k, FnKind::Mod)),
        _ => panic!("expected the operator to be unsupported"),
    }
}

#[test]
fn store_lookup_returns_the_latest_record() {
    let mut graph = Graph::new();
    assert!(graph.get_store_signature(3).is_none());
    graph.add_store_signature(
        3,
        Signature {
            arguments: vec![TypeKind::Number],
            return_t: TypeKind::Void,
        },
    );
    graph.add_store_signature(
        3,
        Signature {
            arguments: vec![],
            return_t: TypeKind::Boolean,
        },
    );
    let got = graph.get_store_signature(3).unwrap();
    assert_eq!(got.arguments.len(), 0);
    assert!(matches!(got.return_t, TypeKind::Boolean));
}

#[test]
fn traverse_visits_each_reachable_node_once() {
    let mut graph = Graph::new();
    let s = graph.add_node(Node::new(TypeKind::String));
    let order = graph.traverse(s);
    // the new node, then its base anchor; nothing twice
    assert_eq!(order, vec![s, 1usize]);
}

#[test]
fn node_lookup_by_identity() {
    let mut graph = Graph::new();
    let idx = graph.add_node(Node::new(TypeKind::Boolean));
    let uuid = graph.get_node(idx).unwrap().name();
    let found = graph.get_node_from_uuid(uuid).unwrap();
    assert_eq!(found.name(), uuid);
}

#[test]
fn live_signature_reads_argument_types_live() {
    let mut graph = Graph::new();
    let a = graph.add_node(Node::new(TypeKind::Number));
    let r = graph.add_node(Node::new(TypeKind::Boolean));
    let f = graph.add_node(Node::new(TypeKind::Function));
    graph.add_node_argument(f, a);
    graph.add_node_return(f, r);
    let sig = graph.signature(f).unwrap();
    assert_eq!(sig.arguments.len(), 1);
    assert!(matches!(sig.arguments[0], TypeKind::Number));
    assert!(matches!(sig.return_t, TypeKind::Boolean));
}

#[test]
fn node_reference_lists_are_editable() {
    let mut n = Node::new(TypeKind::Unknown);
    n.add_argument(4);
    n.add_argument(5);
    assert_eq!(n.arguments(), &vec![4usize, 5usize]);
    n.set_arguments(vec![9]);
    assert_eq!(n.arguments(), &vec![9usize]);
    n.add_return_t(2);
    assert_eq!(n.return_t(), &vec![2usize]);
    n.add_edge(1);
    n.add_edge(3);
    n.add_edge(1);
    // one occurrence leaves per call, the earliest first
    n.remove_edge(1);
    assert_eq!(n.edges(), &vec![3usize, 1usize]);
    n.remove_edge(9);
    assert_eq!(n.edges(), &vec![3usize, 1usize]);
    n.remove_edge(1);
    assert_eq!(n.edges(), &vec![3usize]);
}
