use egui_snarl::{NodeId, Snarl};

fn at(x: f32, y: f32) -> egui::Pos2 {
    egui::pos2(x, y)
}

#[test]
fn new_snarl_is_empty() {
    let snarl: Snarl<i32> = Snarl::new();
    assert_eq!(snarl.nodes().next(), None);
    assert!(snarl.wires().is_empty());
    assert!(snarl.groups().is_empty());
}

#[test]
fn default_snarl_is_empty() {
    let snarl: Snarl<i32, u8> = Snarl::default();
    assert_eq!(snarl.node(NodeId(0)), None);
    assert!(snarl.wires().is_empty());
}

#[test]
fn insert_node_hands_out_keys_in_order() {
    let mut snarl: Snarl<&str> = Snarl::new();
    assert_eq!(snarl.insert_node(at(0.0, 0.0), "a"), NodeId(0));
    assert_eq!(snarl.insert_node(at(1.0, 0.0), "b"), NodeId(1));
    assert_eq!(snarl.insert_node_collapsed(at(2.0, 0.0), "c"), NodeId(2));
    assert_eq!(snarl.node(NodeId(1)), Some(&"b"));
}

#[test]
fn inserted_node_is_open_at_root() {
    let mut snarl: Snarl<i32> = Snarl::new();
    let a = snarl.insert_node(at(3.0, 4.0), 7);
    let info = snarl.node_info(a).unwrap();
    assert_eq!(info.value, 7);
    assert!(info.open);
    assert_eq!(info.group, None);
    assert_eq!(info.pos, at(3.0, 4.0));
}

#[test]
fn collapsed_node_is_closed() {
    let mut snarl: Snarl<i32> = Snarl::new();
    let a = snarl.insert_node_collapsed(at(0.0, 0.0), 7);
    assert!(!snarl.node_info(a).unwrap().open);
}

#[test]
fn open_node_sets_only_the_flag() {
    let mut snarl: Snarl<i32> = Snarl::new();
    let a = snarl.insert_node(at(1.0, 2.0), 5);
    snarl.open_node(a, false);
    let info = snarl.node_info(a).unwrap();
    assert!(!info.open);
    assert_eq!(info.value, 5);
    assert_eq!(info.pos, at(1.0, 2.0));
    snarl.open_node(a, true);
    assert!(snarl.node_info(a).unwrap().open);
}

#[test]
fn remove_node_returns_value() {
    let mut snarl: Snarl<String> = Snarl::new();
    let a = snarl.insert_node(at(0.0, 0.0), "x".to_string());
    assert_eq!(snarl.remove_node(a), "x");
    assert_eq!(snarl.node(a), None);
}

#[test]
fn removed_keys_are_reused_last_first() {
    let mut snarl: Snarl<i32> = Snarl::new();
    let a = snarl.insert_node(at(0.0, 0.0), 0);
    let b = snarl.insert_node(at(0.0, 0.0), 1);
    let _c = snarl.insert_node(at(0.0, 0.0), 2);
    snarl.remove_node(a);
    snarl.remove_node(b);
    assert_eq!(snarl.insert_node(at(0.0, 0.0), 10), NodeId(1));
    assert_eq!(snarl.insert_node(at(0.0, 0.0), 11), NodeId(0));
    assert_eq!(snarl.insert_node(at(0.0, 0.0), 12), NodeId(3));
}

#[test]
fn node_mut_changes_value() {
    let mut snarl: Snarl<i32> = Snarl::new();
    let a = snarl.insert_node(at(0.0, 0.0), 1);
    *snarl.node_mut(a).unwrap() = 42;
    assert_eq!(snarl.node(a), Some(&42));
    assert!(snarl.node_mut(NodeId(9)).is_none());
}

#[test]
fn node_info_mut_changes_node() {
    let mut snarl: Snarl<i32> = Snarl::new();
    let a = snarl.insert_node(at(0.0, 0.0), 1);
    snarl.node_info_mut(a).unwrap().pos = at(5.0, 6.0);
    assert_eq!(snarl.node_info(a).unwrap().pos, at(5.0, 6.0));
    assert!(snarl.node_info_mut(NodeId(3)).is_none());
}

#[test]
#[allow(deprecated)]
fn deprecated_getters_forward() {
    let mut snarl: Snarl<i32> = Snarl::new();
    let a = snarl.insert_node(at(0.0, 0.0), 1);
    assert_eq!(snarl.get_node(a), Some(&1));
    *snarl.get_node_mut(a).unwrap() = 2;
    assert_eq!(snarl.get_node_info(a).unwrap().value, 2);
    snarl.get_node_info_mut(a).unwrap().open = false;
    assert!(!snarl.node_info(a).unwrap().open);
    assert_eq!(snarl.get_node(NodeId(7)), None);
}

#[test]
fn missing_node_reads_none() {
    let snarl: Snarl<i32> = Snarl::new();
    assert_eq!(snarl.node(NodeId(0)), None);
    assert!(snarl.node_info(NodeId(0)).is_none());
}

#[test]
fn cloned_snarl_is_independent() {
    let mut snarl: Snarl<i32> = Snarl::new();
    let a = snarl.insert_node(at(1.0, 1.0), 1);
    let copy = snarl.clone();
    *snarl.node_mut(a).unwrap() = 2;
    assert_eq!(copy.node(a), Some(&1));
    assert_eq!(copy.node_info(a).unwrap().pos, at(1.0, 1.0));
    assert_eq!(snarl.node(a), Some(&2));
}
