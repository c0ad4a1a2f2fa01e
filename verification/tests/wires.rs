use egui_snarl::{InPinId, NodeId, OutPinId, Snarl};

fn at(x: f32, y: f32) -> egui::Pos2 {
    egui::pos2(x, y)
}

fn out(n: NodeId, i: usize) -> OutPinId {
    OutPinId { node: n, output: i }
}

fn inp(n: NodeId, i: usize) -> InPinId {
    InPinId { node: n, input: i }
}

fn three() -> (Snarl<i32>, NodeId, NodeId, NodeId) {
    let mut snarl = Snarl::new();
    let a = snarl.insert_node(at(0.0, 0.0), 0);
    let b = snarl.insert_node(at(1.0, 0.0), 1);
    let c = snarl.insert_node(at(2.0, 0.0), 2);
    (snarl, a, b, c)
}

fn sorted<T: Ord>(mut v: Vec<T>) -> Vec<T> {
    v.sort();
    v
}

#[test]
fn connect_adds_a_wire_once() {
    let (mut snarl, a, b, _) = three();
    assert!(snarl.connect(out(a, 0), inp(b, 0)));
    assert!(!snarl.connect(out(a, 0), inp(b, 0)));
    assert_eq!(snarl.wires(), vec![(out(a, 0), inp(b, 0))]);
}

#[test]
fn disconnect_removes_the_wire() {
    let (mut snarl, a, b, _) = three();
    snarl.connect(out(a, 0), inp(b, 0));
    snarl.connect(out(a, 1), inp(b, 0));
    assert!(snarl.disconnect(out(a, 0), inp(b, 0)));
    assert!(!snarl.disconnect(out(a, 0), inp(b, 0)));
    assert_eq!(snarl.wires(), vec![(out(a, 1), inp(b, 0))]);
}

#[test]
fn connect_then_disconnect_restores_wires() {
    let (mut snarl, a, b, c) = three();
    snarl.connect(out(a, 0), inp(c, 0));
    let before = sorted(snarl.wires());
    snarl.connect(out(b, 0), inp(c, 1));
    snarl.disconnect(out(b, 0), inp(c, 1));
    assert_eq!(sorted(snarl.wires()), before);
}

#[test]
fn drop_inputs_counts_removed_wires() {
    let (mut snarl, a, b, c) = three();
    snarl.connect(out(a, 0), inp(c, 0));
    snarl.connect(out(b, 0), inp(c, 0));
    snarl.connect(out(b, 0), inp(c, 1));
    assert_eq!(snarl.drop_inputs(inp(c, 0)), 2);
    assert_eq!(snarl.wires(), vec![(out(b, 0), inp(c, 1))]);
    assert_eq!(snarl.drop_inputs(inp(c, 0)), 0);
}

#[test]
fn drop_outputs_counts_removed_wires() {
    let (mut snarl, a, b, c) = three();
    snarl.connect(out(a, 0), inp(b, 0));
    snarl.connect(out(a, 0), inp(c, 0));
    snarl.connect(out(a, 1), inp(c, 1));
    assert_eq!(snarl.drop_outputs(out(a, 0)), 2);
    assert_eq!(snarl.wires(), vec![(out(a, 1), inp(c, 1))]);
}

#[test]
fn disconnect_all_counts_both_sides() {
    let (mut snarl, a, b, c) = three();
    snarl.connect(out(a, 0), inp(b, 0));
    snarl.connect(out(b, 0), inp(c, 0));
    snarl.connect(out(a, 0), inp(c, 1));
    assert_eq!(snarl.disconnect_all(b), 2);
    assert_eq!(snarl.wires(), vec![(out(a, 0), inp(c, 1))]);
}

#[test]
fn remove_node_drops_its_wires() {
    let (mut snarl, a, b, c) = three();
    snarl.connect(out(a, 0), inp(b, 0));
    snarl.connect(out(b, 0), inp(c, 0));
    snarl.connect(out(a, 0), inp(c, 1));
    snarl.remove_node(b);
    assert_eq!(snarl.wires(), vec![(out(a, 0), inp(c, 1))]);
}

#[test]
fn out_pin_lists_wired_inputs() {
    let (mut snarl, a, b, c) = three();
    snarl.connect(out(a, 0), inp(b, 0));
    snarl.connect(out(a, 0), inp(c, 2));
    snarl.connect(out(a, 1), inp(c, 0));
    let pin = snarl.out_pin(out(a, 0));
    assert_eq!(pin.id, out(a, 0));
    assert_eq!(sorted(pin.remotes), vec![inp(b, 0), inp(c, 2)]);
    assert!(snarl.out_pin(out(c, 0)).remotes.is_empty());
}

#[test]
fn in_pin_lists_wired_outputs() {
    let (mut snarl, a, b, c) = three();
    snarl.connect(out(a, 0), inp(c, 0));
    snarl.connect(out(b, 3), inp(c, 0));
    snarl.connect(out(b, 3), inp(c, 1));
    let pin = snarl.in_pin(inp(c, 0));
    assert_eq!(pin.id, inp(c, 0));
    assert_eq!(sorted(pin.remotes), vec![out(a, 0), out(b, 3)]);
}

#[test]
fn pins_agree_on_a_wire() {
    let (mut snarl, a, b, _) = three();
    snarl.connect(out(a, 0), inp(b, 1));
    assert!(snarl.out_pin(out(a, 0)).remotes.contains(&inp(b, 1)));
    assert!(snarl.in_pin(inp(b, 1)).remotes.contains(&out(a, 0)));
}

#[test]
fn wires_lists_each_wire_once() {
    let (mut snarl, a, b, c) = three();
    snarl.connect(out(a, 0), inp(b, 0));
    snarl.connect(out(b, 0), inp(c, 0));
    snarl.connect(out(a, 0), inp(b, 0));
    assert_eq!(
        sorted(snarl.wires()),
        vec![(out(a, 0), inp(b, 0)), (out(b, 0), inp(c, 0))]
    );
}

#[test]
fn cloned_snarl_keeps_wires() {
    let (mut snarl, a, b, _) = three();
    snarl.connect(out(a, 0), inp(b, 0));
    let copy = snarl.clone();
    snarl.disconnect(out(a, 0), inp(b, 0));
    assert_eq!(copy.wires(), vec![(out(a, 0), inp(b, 0))]);
    assert!(snarl.wires().is_empty());
}
