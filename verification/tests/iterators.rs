use egui_snarl::{NodeId, Snarl};

fn at(x: f32, y: f32) -> egui::Pos2 {
    egui::pos2(x, y)
}

fn sample() -> Snarl<i32> {
    let mut snarl = Snarl::new();
    snarl.insert_node(at(0.0, 0.0), 10);
    let b = snarl.insert_node(at(1.0, 0.0), 11);
    snarl.insert_node(at(2.0, 0.0), 12);
    snarl.remove_node(b);
    snarl
}

#[test]
fn nodes_yields_values_by_key() {
    let snarl = sample();
    let mut it = snarl.nodes();
    assert_eq!(it.size_hint(), (2, Some(2)));
    assert_eq!(it.next(), Some(&10));
    assert_eq!(it.next(), Some(&12));
    assert_eq!(it.next(), None);
    assert_eq!(it.next(), None);
}

#[test]
fn nodes_nth_skips() {
    let snarl = sample();
    let mut it = snarl.nodes();
    assert_eq!(it.nth(1), Some(&12));
    assert_eq!(it.size_hint(), (0, Some(0)));
    let mut again = snarl.nodes();
    assert_eq!(again.nth(5), None);
    assert_eq!(again.next(), None);
}

#[test]
fn nodes_pos_yields_positions() {
    let snarl = sample();
    let mut it = snarl.nodes_pos();
    assert_eq!(it.next(), Some((at(0.0, 0.0), &10)));
    assert_eq!(it.nth(0), Some((at(2.0, 0.0), &12)));
    assert_eq!(it.next(), None);
}

#[test]
fn node_ids_yields_ids() {
    let snarl = sample();
    let mut it = snarl.node_ids();
    assert_eq!(it.size_hint(), (2, Some(2)));
    assert_eq!(it.next(), Some((NodeId(0), &10)));
    assert_eq!(it.next(), Some((NodeId(2), &12)));
    assert_eq!(it.nth(0), None);
}

#[test]
fn nodes_pos_ids_yields_all_three() {
    let snarl = sample();
    let mut it = snarl.nodes_pos_ids();
    assert_eq!(it.nth(1), Some((NodeId(2), at(2.0, 0.0), &12)));
    assert_eq!(it.next(), None);
    assert_eq!(it.size_hint(), (0, Some(0)));
}

#[test]
fn nodes_info_yields_node_data() {
    let snarl = sample();
    let mut it = snarl.nodes_info();
    assert_eq!(it.size_hint(), (2, Some(2)));
    assert_eq!(it.next().map(|n| n.value), Some(10));
    assert_eq!(it.nth(0).map(|n| n.pos), Some(at(2.0, 0.0)));
    assert!(it.next().is_none());
}

#[test]
fn nodes_ids_data_yields_ids_and_data() {
    let snarl = sample();
    let mut it = snarl.nodes_ids_data();
    let (id, node) = it.next().unwrap();
    assert_eq!(id, NodeId(0));
    assert_eq!(node.value, 10);
    let (id, node) = it.nth(0).unwrap();
    assert_eq!(id, NodeId(2));
    assert!(node.open);
    assert!(it.nth(3).is_none());
    assert_eq!(it.size_hint(), (0, Some(0)));
}
