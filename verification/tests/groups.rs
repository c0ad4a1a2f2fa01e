use egui_snarl::{GroupId, NodeId, Snarl};

fn at(x: f32, y: f32) -> egui::Pos2 {
    egui::pos2(x, y)
}

fn sorted<T: Ord>(mut v: Vec<T>) -> Vec<T> {
    v.sort();
    v
}

/// root ⊃ mid ⊃ leaf; node 0 in root, node 1 in mid, node 2 in leaf, node 3 at root level.
fn nested() -> (Snarl<i32, &'static str>, GroupId, GroupId, GroupId) {
    let mut snarl = Snarl::new();
    let root = snarl.insert_group(at(0.0, 0.0), "root".to_string(), "r");
    let mid = snarl.insert_group(at(0.0, 0.0), "mid".to_string(), "m");
    let leaf = snarl.insert_group(at(0.0, 0.0), "leaf".to_string(), "l");
    snarl.set_group_parent(mid, Some(root));
    snarl.set_group_parent(leaf, Some(mid));
    for (i, g) in [Some(root), Some(mid), Some(leaf), None].into_iter().enumerate() {
        let n = snarl.insert_node(at(0.0, 0.0), i as i32);
        snarl.set_node_group(n, g);
    }
    (snarl, root, mid, leaf)
}

#[test]
fn insert_group_is_open_root_group() {
    let mut snarl: Snarl<i32, u8> = Snarl::new();
    let g = snarl.insert_group(at(1.0, 2.0), "title".to_string(), 9);
    assert_eq!(g, GroupId(0));
    let info = snarl.group_info(g).unwrap();
    assert_eq!(info.value, 9);
    assert_eq!(info.title, "title");
    assert!(info.open);
    assert_eq!(info.parent, None);
    assert_eq!(info.pos, at(1.0, 2.0));
    assert_eq!(snarl.group(g), Some(&9));
    assert_eq!(snarl.group(GroupId(1)), None);
}

#[test]
fn group_mut_changes_value() {
    let mut snarl: Snarl<i32, u8> = Snarl::new();
    let g = snarl.insert_group(at(0.0, 0.0), "t".to_string(), 1);
    *snarl.group_mut(g).unwrap() = 5;
    assert_eq!(snarl.group(g), Some(&5));
    snarl.group_info_mut(g).unwrap().title = "u".to_string();
    assert_eq!(snarl.group_info(g).unwrap().title, "u");
}

#[test]
fn open_group_sets_flag() {
    let mut snarl: Snarl<i32, u8> = Snarl::new();
    let g = snarl.insert_group(at(0.0, 0.0), "t".to_string(), 1);
    snarl.open_group(g, false);
    assert!(!snarl.group_info(g).unwrap().open);
}

#[test]
fn set_node_group_accepts_missing_group() {
    let mut snarl: Snarl<i32, u8> = Snarl::new();
    let n = snarl.insert_node(at(0.0, 0.0), 1);
    snarl.set_node_group(n, Some(GroupId(4)));
    assert_eq!(snarl.node_info(n).unwrap().group, Some(GroupId(4)));
    assert!(snarl.node_in_group_recursive(n, GroupId(4)));
    assert!(!snarl.is_node_hidden(n));
}

#[test]
fn ancestry_follows_parents() {
    let (snarl, root, mid, leaf) = nested();
    assert!(snarl.is_ancestor(root, leaf));
    assert!(snarl.is_ancestor(mid, leaf));
    assert!(!snarl.is_ancestor(leaf, root));
    assert!(snarl.is_ancestor(leaf, leaf));
    assert!(snarl.is_ancestor(GroupId(8), GroupId(8)));
}

#[test]
fn set_group_parent_makes_parent_an_ancestor() {
    let mut snarl: Snarl<i32, u8> = Snarl::new();
    let a = snarl.insert_group(at(0.0, 0.0), "a".to_string(), 0);
    let b = snarl.insert_group(at(0.0, 0.0), "b".to_string(), 0);
    assert!(!snarl.is_ancestor(a, b));
    snarl.set_group_parent(b, Some(a));
    assert!(snarl.is_ancestor(a, b));
    assert_eq!(snarl.group_info(b).unwrap().parent, Some(a));
    snarl.set_group_parent(b, None);
    assert!(!snarl.is_ancestor(a, b));
}

#[test]
fn node_membership_is_recursive() {
    let (snarl, root, mid, leaf) = nested();
    assert!(snarl.node_in_group_recursive(NodeId(2), root));
    assert!(snarl.node_in_group_recursive(NodeId(2), mid));
    assert!(snarl.node_in_group_recursive(NodeId(2), leaf));
    assert!(!snarl.node_in_group_recursive(NodeId(0), mid));
    assert!(!snarl.node_in_group_recursive(NodeId(3), root));
    assert!(!snarl.node_in_group_recursive(NodeId(9), root));
}

#[test]
fn group_nodes_lists_direct_children() {
    let (mut snarl, root, mid, _) = nested();
    let extra = snarl.insert_node(at(0.0, 0.0), 9);
    snarl.set_node_group(extra, Some(root));
    assert_eq!(snarl.group_nodes(root), vec![NodeId(0), extra]);
    assert_eq!(snarl.group_nodes(mid), vec![NodeId(1)]);
}

#[test]
fn group_subgroups_lists_direct_children() {
    let (snarl, root, mid, leaf) = nested();
    assert_eq!(snarl.group_subgroups(root), vec![mid]);
    assert_eq!(snarl.group_subgroups(mid), vec![leaf]);
    assert!(snarl.group_subgroups(leaf).is_empty());
}

#[test]
fn group_all_descendants_collects_subtree() {
    let (snarl, root, mid, leaf) = nested();
    assert_eq!(snarl.group_all_descendants(root), vec![NodeId(0), NodeId(1), NodeId(2)]);
    assert_eq!(snarl.group_all_descendants(mid), vec![NodeId(1), NodeId(2)]);
    assert_eq!(snarl.group_all_descendants(leaf), vec![NodeId(2)]);
}

#[test]
fn descendants_agree_with_recursive_membership() {
    let (snarl, root, mid, leaf) = nested();
    for g in [root, mid, leaf, GroupId(7)] {
        let all = snarl.group_all_descendants(g);
        for n in 0..4 {
            assert_eq!(all.contains(&NodeId(n)), snarl.node_in_group_recursive(NodeId(n), g));
        }
    }
}

#[test]
fn collapsed_ancestor_collapses_group() {
    let (mut snarl, root, mid, leaf) = nested();
    assert!(!snarl.is_group_collapsed(leaf));
    snarl.open_group(mid, false);
    assert!(snarl.is_group_collapsed(leaf));
    assert!(snarl.is_group_collapsed(mid));
    assert!(!snarl.is_group_collapsed(root));
    assert!(!snarl.is_group_collapsed(GroupId(30)));
}

#[test]
fn node_hidden_by_collapsed_group() {
    let (mut snarl, root, _, _) = nested();
    assert!(!snarl.is_node_hidden(NodeId(2)));
    snarl.open_group(root, false);
    assert!(snarl.is_node_hidden(NodeId(2)));
    assert!(snarl.is_node_hidden(NodeId(0)));
    assert!(!snarl.is_node_hidden(NodeId(3)));
    assert!(!snarl.is_node_hidden(NodeId(42)));
}

#[test]
fn remove_group_moves_children_to_parent() {
    let (mut snarl, root, mid, leaf) = nested();
    assert_eq!(snarl.remove_group(mid), "m");
    assert_eq!(snarl.group_info(mid).map(|g| g.value), None);
    assert_eq!(snarl.group_info(leaf).unwrap().parent, Some(root));
    assert_eq!(snarl.node_info(NodeId(1)).unwrap().group, Some(root));
    assert_eq!(snarl.node_info(NodeId(2)).unwrap().group, Some(leaf));
    assert!(snarl.node_in_group_recursive(NodeId(1), root));
    assert!(snarl.node_in_group_recursive(NodeId(2), root));
    assert_eq!(sorted(snarl.group_all_descendants(root)), vec![NodeId(0), NodeId(1), NodeId(2)]);
}

#[test]
fn remove_root_group_moves_children_to_root_level() {
    let (mut snarl, root, mid, _) = nested();
    snarl.remove_group(root);
    assert_eq!(snarl.group_info(mid).unwrap().parent, None);
    assert_eq!(snarl.node_info(NodeId(0)).unwrap().group, None);
}

#[test]
fn removed_group_key_is_reused() {
    let (mut snarl, _, mid, _) = nested();
    snarl.remove_group(mid);
    let again = snarl.insert_group(at(0.0, 0.0), "new".to_string(), "n");
    assert_eq!(again, mid);
}

#[test]
fn groups_lists_in_key_order() {
    let (snarl, root, mid, leaf) = nested();
    let ids: Vec<GroupId> = snarl.groups().into_iter().map(|(id, _)| id).collect();
    assert_eq!(ids, vec![root, mid, leaf]);
    let titles: Vec<String> = snarl.groups().into_iter().map(|(_, g)| g.title.clone()).collect();
    assert_eq!(titles, vec!["root", "mid", "leaf"]);
}

#[test]
fn group_all_descendants_walks_depth_first_by_key() {
    let mut snarl: Snarl<i32, u8> = Snarl::new();
    let root = snarl.insert_group(at(0.0, 0.0), "root".to_string(), 0);
    let first = snarl.insert_group(at(0.0, 0.0), "first".to_string(), 1);
    let second = snarl.insert_group(at(0.0, 0.0), "second".to_string(), 2);
    snarl.set_group_parent(first, Some(root));
    snarl.set_group_parent(second, Some(root));
    let n0 = snarl.insert_node(at(0.0, 0.0), 0);
    let n1 = snarl.insert_node(at(0.0, 0.0), 1);
    let n2 = snarl.insert_node(at(0.0, 0.0), 2);
    let n3 = snarl.insert_node(at(0.0, 0.0), 3);
    snarl.set_node_group(n0, Some(second));
    snarl.set_node_group(n1, Some(root));
    snarl.set_node_group(n2, Some(first));
    snarl.set_node_group(n3, Some(second));
    assert_eq!(snarl.group_all_descendants(root), vec![n1, n2, n0, n3]);
    assert_eq!(snarl.group_nodes(second), vec![n0, n3]);
}

#[test]
fn cloned_snarl_keeps_groups_and_keys() {
    let (snarl, root, mid, leaf) = nested();
    let mut copy = snarl.clone();
    assert_eq!(copy.group_info(leaf).unwrap().parent, Some(mid));
    assert_eq!(copy.group(root), Some(&"r"));
    assert_eq!(copy.group_all_descendants(root), snarl.group_all_descendants(root));
    copy.remove_group(mid);
    assert_eq!(snarl.group_info(leaf).unwrap().parent, Some(mid));
    let again = copy.insert_group(at(0.0, 0.0), "x".to_string(), "x");
    assert_eq!(again, mid);
}

#[test]
fn group_info_mut_can_move_a_group_under_another() {
    let mut snarl = Snarl::<i32, i32>::new();
    let a = snarl.insert_group(at(0.0, 0.0), "a".to_string(), 1);
    let b = snarl.insert_group(at(0.0, 0.0), "b".to_string(), 2);
    let n = snarl.insert_node(at(0.0, 0.0), 0);
    snarl.set_node_group(n, Some(b));
    snarl.group_info_mut(b).unwrap().parent = Some(a);
    assert!(snarl.is_ancestor(a, b));
    assert!(snarl.node_in_group_recursive(n, a));
    snarl.open_group(a, false);
    assert!(snarl.is_group_collapsed(b));
    assert!(snarl.is_node_hidden(n));
    snarl.group_info_mut(b).unwrap().parent = None;
    assert!(!snarl.is_group_collapsed(b));
}

#[test]
fn remove_group_keeps_ancestry_between_other_groups() {
    let (mut snarl, root, mid, leaf) = nested();
    let side = snarl.insert_group(at(0.0, 0.0), "side".to_string(), "s");
    assert!(snarl.is_ancestor(root, leaf));
    assert!(!snarl.is_ancestor(side, leaf));
    snarl.remove_group(mid);
    assert!(snarl.is_ancestor(root, leaf));
    assert!(snarl.is_ancestor(leaf, leaf));
    assert!(!snarl.is_ancestor(leaf, root));
    assert!(!snarl.is_ancestor(side, leaf));
}

#[test]
fn closing_a_group_collapses_exactly_the_groups_below_it() {
    let (mut snarl, root, mid, leaf) = nested();
    let side = snarl.insert_group(at(0.0, 0.0), "side".to_string(), "s");
    snarl.open_group(mid, false);
    assert!(snarl.is_group_collapsed(mid));
    assert!(snarl.is_group_collapsed(leaf));
    assert!(!snarl.is_group_collapsed(root));
    assert!(!snarl.is_group_collapsed(side));
    snarl.open_group(side, false);
    assert!(snarl.is_group_collapsed(side));
    assert!(!snarl.is_group_collapsed(root));
}
