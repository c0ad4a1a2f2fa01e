use egui_snarl::wires::Wires;
use egui_snarl::{Group, GroupId, InPinId, Node, NodeId, OutPinId, Snarl};

fn at(x: f32, y: f32) -> egui::Pos2 {
    egui::pos2(x, y)
}

fn wire(from: usize, output: usize, to: usize, input: usize) -> (OutPinId, InPinId) {
    (
        OutPinId { node: NodeId(from), output },
        InPinId { node: NodeId(to), input },
    )
}

fn node(value: i32, group: Option<GroupId>) -> Node<i32> {
    Node::new(value, at(value as f32, 0.0), true, group)
}

fn group(title: &str, parent: Option<GroupId>) -> Group<&'static str> {
    Group::new("g", title.to_string(), true, parent, at(0.0, 0.0))
}

fn sorted<T: Ord>(mut v: Vec<T>) -> Vec<T> {
    v.sort();
    v
}

#[test]
fn from_wires_keeps_a_repeated_wire_once() {
    let list = vec![wire(0, 0, 1, 0), wire(1, 2, 0, 1), wire(0, 0, 1, 0)];
    let wires = Wires::from_wires(&list);
    assert_eq!(sorted(wires.iter()), vec![wire(0, 0, 1, 0), wire(1, 2, 0, 1)]);
}

#[test]
fn from_wires_of_no_wires_is_empty() {
    let wires = Wires::from_wires(&Vec::new());
    assert!(wires.iter().is_empty());
}

#[test]
fn from_parts_keeps_keys_values_and_wires() {
    let nodes = vec![(3, node(30, Some(GroupId(1)))), (0, node(0, None))];
    let wires = vec![wire(0, 0, 3, 1), wire(3, 0, 0, 0), wire(0, 0, 3, 1)];
    let groups = vec![(1, group("inner", Some(GroupId(0)))), (0, group("outer", None))];
    let snarl = Snarl::from_parts(nodes, wires, groups).unwrap();
    assert_eq!(snarl.node(NodeId(0)), Some(&0));
    assert_eq!(snarl.node(NodeId(3)), Some(&30));
    assert_eq!(snarl.node(NodeId(1)), None);
    assert_eq!(snarl.node(NodeId(2)), None);
    assert_eq!(sorted(snarl.wires()), vec![wire(0, 0, 3, 1), wire(3, 0, 0, 0)]);
    assert_eq!(snarl.group_info(GroupId(1)).unwrap().title, "inner");
    assert_eq!(snarl.group_info(GroupId(1)).unwrap().parent, Some(GroupId(0)));
    assert!(snarl.is_ancestor(GroupId(0), GroupId(1)));
    assert!(snarl.node_in_group_recursive(NodeId(3), GroupId(0)));
    assert_eq!(snarl.group_all_descendants(GroupId(0)), vec![NodeId(3)]);
}

#[test]
fn from_parts_hands_out_free_keys_highest_first() {
    let nodes = vec![(0, node(0, None)), (3, node(3, None))];
    let mut snarl = Snarl::<i32, &str>::from_parts(nodes, Vec::new(), Vec::new()).unwrap();
    assert_eq!(snarl.insert_node(at(0.0, 0.0), 10), NodeId(2));
    assert_eq!(snarl.insert_node(at(0.0, 0.0), 11), NodeId(1));
    assert_eq!(snarl.insert_node(at(0.0, 0.0), 12), NodeId(4));
}

#[test]
fn from_parts_of_nothing_is_an_empty_graph() {
    let mut snarl = Snarl::<i32, &str>::from_parts(Vec::new(), Vec::new(), Vec::new()).unwrap();
    assert!(snarl.wires().is_empty());
    assert!(snarl.groups().is_empty());
    assert_eq!(snarl.insert_node(at(0.0, 0.0), 1), NodeId(0));
}

#[test]
fn from_parts_refuses_a_repeated_node_key() {
    let nodes = vec![(2, node(1, None)), (2, node(2, None))];
    assert!(Snarl::<i32, &str>::from_parts(nodes, Vec::new(), Vec::new()).is_none());
}

#[test]
fn from_parts_refuses_a_repeated_group_key() {
    let groups = vec![(0, group("a", None)), (0, group("b", None))];
    assert!(Snarl::<i32, &str>::from_parts(Vec::new(), Vec::new(), groups).is_none());
}

#[test]
fn from_parts_refuses_a_wire_to_a_missing_node() {
    let nodes = vec![(0, node(0, None))];
    let wires = vec![wire(0, 0, 5, 0)];
    assert!(Snarl::<i32, &str>::from_parts(nodes, wires, Vec::new()).is_none());
}

#[test]
fn from_parts_refuses_a_missing_parent() {
    let groups = vec![(0, group("a", Some(GroupId(4))))];
    assert!(Snarl::<i32, &str>::from_parts(Vec::new(), Vec::new(), groups).is_none());
}

#[test]
fn from_parts_refuses_a_cycle_of_groups() {
    let groups = vec![(0, group("a", Some(GroupId(1)))), (1, group("b", Some(GroupId(0))))];
    assert!(Snarl::<i32, &str>::from_parts(Vec::new(), Vec::new(), groups).is_none());
    let own = vec![(0, group("self", Some(GroupId(0))))];
    assert!(Snarl::<i32, &str>::from_parts(Vec::new(), Vec::new(), own).is_none());
}

#[test]
fn parts_of_a_graph_round_trip() {
    let mut snarl = Snarl::<i32, &str>::new();
    let g0 = snarl.insert_group(at(0.0, 0.0), "a".to_string(), "x");
    let g1 = snarl.insert_group(at(0.0, 0.0), "b".to_string(), "y");
    snarl.set_group_parent(g1, Some(g0));
    let n0 = snarl.insert_node(at(1.0, 2.0), 10);
    let n1 = snarl.insert_node(at(3.0, 4.0), 11);
    let n2 = snarl.insert_node(at(5.0, 6.0), 12);
    snarl.set_node_group(n1, Some(g1));
    snarl.connect(OutPinId { node: n0, output: 0 }, InPinId { node: n2, input: 1 });
    snarl.remove_node(n0);
    snarl.connect(OutPinId { node: n1, output: 0 }, InPinId { node: n2, input: 0 });

    let mut nodes = Vec::new();
    let mut iter = snarl.nodes_ids_data();
    while let Some((id, info)) = iter.next() {
        nodes.push((id.0, info.clone()));
    }
    let groups: Vec<(usize, Group<&str>)> =
        snarl.groups().into_iter().map(|(id, g)| (id.0, g.clone())).collect();
    let copy = Snarl::from_parts(nodes, snarl.wires(), groups).unwrap();

    assert_eq!(copy.node(n0), None);
    assert_eq!(copy.node(n1), Some(&11));
    assert_eq!(copy.node(n2), Some(&12));
    assert_eq!(copy.get_node_info(n1).unwrap().group, Some(g1));
    assert_eq!(sorted(copy.wires()), sorted(snarl.wires()));
    assert_eq!(copy.group_info(g1).unwrap().parent, Some(g0));
    assert_eq!(copy.group_all_descendants(g0), snarl.group_all_descendants(g0));
}

#[test]
fn group_all_descendants_lists_members_then_subgroups() {
    let p = at(0.0, 0.0);
    let mut s = Snarl::<(), ()>::new();
    let g0 = s.insert_group(p, "a".to_string(), ());
    let g1 = s.insert_group(p, "b".to_string(), ());
    s.set_group_parent(g1, Some(g0));
    let n0 = s.insert_node(p, ());
    let n1 = s.insert_node(p, ());
    let _n2 = s.insert_node(p, ());
    s.set_node_group(n0, Some(g0));
    s.set_node_group(n1, Some(g1));
    assert_eq!(s.group_all_descendants(g0), vec![NodeId(0), NodeId(1)]);
    assert_eq!(s.group_all_descendants(g1), vec![NodeId(1)]);
    assert!(s.group_all_descendants(GroupId(7)).is_empty());
}

#[test]
fn index_accessors_read_and_write_values() {
    let mut s = Snarl::<i32, i32>::new();
    let n = s.insert_node(at(0.0, 0.0), 5);
    let g = s.insert_group(at(0.0, 0.0), "g".to_string(), 7);
    assert_eq!(*s.index_node(n), 5);
    *s.index_node_mut(n) = 6;
    assert_eq!(*s.index_node(n), 6);
    assert_eq!(*s.index_group(g), 7);
    *s.index_group_mut(g) = 8;
    assert_eq!(*s.index_group(g), 8);
    assert_eq!(s.group(g), Some(&8));
}
