//! Properties of the graph that hold across its operations.
use vstd::prelude::*;
use crate::ids::{GroupId, InPinId, NodeId, OutPinId};
use crate::arena::{has_key, keys_distinct, pairs_map};
use crate::snarl::{
    chain_in, next_key_of, regroup_node, reparent_group, slots_after_insert, slots_after_remove,
    valid_parts, Group, Node, Snarl,
};
use crate::wires::{inputs_from, outputs_into, touches_node, Wire};

verus! {

/// Every wire of a graph leaves and enters nodes that exist.
pub proof fn law_wires_join_existing_nodes<T, G>(s: &Snarl<T, G>, w: Wire)
    requires
        s.wf(),
        s.connections().contains(w),
    ensures
        s.has_node(w.0.node),
        s.has_node(w.1.node),
{
    s.lemma_wf();
}

/// Groups never form a cycle: from every group, following parents reaches
/// the root, and never returns to the group it started from.
pub proof fn law_groups_form_no_cycle<T, G>(s: &Snarl<T, G>, g: GroupId)
    requires
        s.wf(),
        s.has_group(g),
    ensures
        exists|k: nat| #[trigger] s.chain(Some(g), k) is None,
        forall|k: nat| k > 0 ==> #[trigger] s.chain(Some(g), k) != Some(g),
{
    s.lemma_chain_reaches_root(g);
}

/// Every group is its own ancestor (what `is_ancestor` answers for `(g, g)`).
pub proof fn law_ancestor_reflexive<T, G>(s: &Snarl<T, G>, g: GroupId)
    ensures
        s.in_chain(g, Some(g)),
{
    s.lemma_in_own_chain(g);
}

/// Ancestry is transitive: an ancestor of an ancestor of `g` is an ancestor of `g`.
pub proof fn law_ancestor_transitive<T, G>(s: &Snarl<T, G>, a: GroupId, b: GroupId, g: GroupId)
    requires
        s.in_chain(a, Some(b)),
        s.in_chain(b, Some(g)),
    ensures
        s.in_chain(a, Some(g)),
{
    let i = choose|i: nat| s.chain(Some(g), i) == Some(b);
    let j = choose|j: nat| s.chain(Some(b), j) == Some(a);
    s.lemma_chain_add(Some(g), i, j);
    assert(s.chain(Some(g), i + j) == Some(a));
}

/// After `set_group_parent(g, Some(p))`, `p` is an ancestor of `g`.
pub proof fn law_parent_becomes_ancestor<T, G>(
    before: &Snarl<T, G>,
    after: &Snarl<T, G>,
    g: GroupId,
    p: GroupId,
)
    requires
        before.has_group(g),
        after.group_map() == before.group_map().insert(
            g.0,
            Group { parent: Some(p), ..before.group_map()[g.0] },
        ),
    ensures
        after.in_chain(p, Some(g)),
{
    assert(after.chain(Some(g), 1) == after.chain(after.parent_of(g), 0));
}

/// A connection made and then broken leaves the wires as they were, when it
/// did not exist before (the results of `connect` then `disconnect`).
pub proof fn law_connect_then_disconnect<T, G>(
    before: &Snarl<T, G>,
    mid: &Snarl<T, G>,
    after: &Snarl<T, G>,
    from: OutPinId,
    to: InPinId,
)
    requires
        !before.connections().contains((from, to)),
        mid.connections() == before.connections().insert((from, to)),
        after.connections() == mid.connections().remove((from, to)),
    ensures
        after.connections() == before.connections(),
{
    assert(after.connections() =~= before.connections());
}

/// Connecting an existing connection changes nothing (the result of a
/// second `connect` with the same pins).
pub proof fn law_connect_idempotent<T, G>(
    before: &Snarl<T, G>,
    after: &Snarl<T, G>,
    from: OutPinId,
    to: InPinId,
)
    requires
        before.connections().contains((from, to)),
        after.connections() == before.connections().insert((from, to)),
    ensures
        after.connections() == before.connections(),
{
    assert(after.connections() =~= before.connections());
}

/// After `remove_node`, no wire leaves or enters the removed node, and the
/// wires are those that `disconnect_all` would have left.
pub proof fn law_removed_node_has_no_wires<T, G>(
    before: &Snarl<T, G>,
    after: &Snarl<T, G>,
    n: NodeId,
    w: Wire,
)
    requires
        after.connections() == before.connections().filter(|x: Wire| !touches_node(x, n)),
        after.connections().contains(w),
    ensures
        w.0.node != n,
        w.1.node != n,
{
}

/// A node inserted and removed again leaves nodes, wires and groups as they
/// were, gives back its value, and its key is the next one handed out.
pub proof fn law_insert_then_remove_node<T, G>(
    before: &Snarl<T, G>,
    mid: &Snarl<T, G>,
    after: &Snarl<T, G>,
    id: NodeId,
    node: Node<T>,
    value: T,
)
    requires
        before.wf(),
        !before.has_node(id),
        mid.node_map() == before.node_map().insert(id.0, node),
        mid.connections() == before.connections(),
        value == mid.node_map()[id.0].value,
        after.node_map() == mid.node_map().remove(id.0),
        after.connections() == mid.connections().filter(|w: Wire| !touches_node(w, id)),
        after.node_slots() == slots_after_remove(mid.node_slots(), id.0),
    ensures
        value == node.value,
        after.node_map() == before.node_map(),
        after.connections() == before.connections(),
        after.next_node_key() == id.0,
{
    before.lemma_wf();
    assert(after.node_map() =~= before.node_map());
    assert(after.connections() =~= before.connections());
}

/// The key of a removed node is the next key handed out, and an insertion
/// into storage without vacancies takes a new key past all others.
pub proof fn law_key_reuse(slots: (nat, Seq<usize>), key: usize)
    ensures
        next_key_of(slots_after_remove(slots, key)) == key,
        slots.1.len() == 0 ==> next_key_of(slots) == slots.0 && slots_after_insert(slots).0
            == slots.0 + 1,
{
}

/// An output pin lists an input pin exactly when that input pin lists the
/// output pin (what `out_pin` and `in_pin` answer).
pub proof fn law_pins_agree(wires: Set<Wire>, o: OutPinId, i: InPinId)
    ensures
        inputs_from(wires, o).contains(i) <==> outputs_into(wires, i).contains(o),
{
}

/// `group_all_descendants(g)` lists exactly the nodes for which
/// `node_in_group_recursive(n, g)` holds.
pub proof fn law_descendants_match_membership<T, G>(
    s: &Snarl<T, G>,
    g: GroupId,
    listed: Seq<NodeId>,
    n: NodeId,
)
    requires
        s.lists_nodes_under(g, listed),
    ensures
        listed.contains(n) <==> s.in_chain(g, s.node_group(n)),
{
}

/// The direct nodes of a group are among its descendants.
pub proof fn law_direct_nodes_are_descendants<T, G>(s: &Snarl<T, G>, g: GroupId, n: NodeId)
    requires
        s.node_group(n) == Some(g),
    ensures
        s.in_chain(g, s.node_group(n)),
{
    s.lemma_in_own_chain(g);
}

/// Where a group's place in the hierarchy goes when group `id` is removed:
/// to the removed group's parent.
pub open spec fn shift_past(x: Option<GroupId>, id: GroupId, p: Option<GroupId>) -> Option<GroupId> {
    if x == Some(id) {
        p
    } else {
        x
    }
}

/// The relation between the states before and after `remove_group(id)`,
/// as its contract states it.
pub open spec fn removed_group<T, G>(before: &Snarl<T, G>, after: &Snarl<T, G>, id: GroupId) -> bool {
    let p = before.group_map()[id.0].parent;
    &&& before.wf()
    &&& before.has_group(id)
    &&& after.group_map() == before.group_map().remove(id.0).map_values(
        |g: Group<G>| reparent_group(g, id, p),
    )
    &&& after.node_map() == before.node_map().map_values(|n: Node<T>| regroup_node(n, id, p))
}

proof fn lemma_removal_parent<T, G>(before: &Snarl<T, G>, after: &Snarl<T, G>, id: GroupId, g: GroupId)
    requires
        removed_group(before, after, id),
        g != id,
    ensures
        after.parent_of(g) == shift_past(before.parent_of(g), id, before.parent_of(id)),
        after.has_group(g) == before.has_group(g),
{
}

proof fn lemma_removal_forward<T, G>(
    before: &Snarl<T, G>,
    after: &Snarl<T, G>,
    id: GroupId,
    x: Option<GroupId>,
    h: GroupId,
    k: nat,
)
    requires
        removed_group(before, after, id),
        h != id,
        before.chain(x, k) == Some(h),
    ensures
        after.in_chain(h, shift_past(x, id, before.parent_of(id))),
    decreases k,
{
    let p = before.parent_of(id);
    if k == 0 {
        assert(after.chain(Some(h), 0) == Some(h));
    } else {
        let g = x->0;
        let y = before.parent_of(g);
        assert(before.chain(Some(g), k) == before.chain(y, (k - 1) as nat));
        lemma_removal_forward(before, after, id, y, h, (k - 1) as nat);
        if g != id {
            lemma_removal_parent(before, after, id, g);
            let j = choose|j: nat| after.chain(shift_past(y, id, p), j) == Some(h);
            assert(after.chain(Some(g), j + 1) == after.chain(after.parent_of(g), j));
        } else {
            before.lemma_chain_reaches_root(id);
            assert(before.chain(Some(id), 1) == before.chain(p, 0));
        }
    }
}

proof fn lemma_removal_backward<T, G>(
    before: &Snarl<T, G>,
    after: &Snarl<T, G>,
    id: GroupId,
    x: Option<GroupId>,
    h: GroupId,
    j: nat,
)
    requires
        removed_group(before, after, id),
        x != Some(id),
        after.chain(x, j) == Some(h),
    ensures
        before.in_chain(h, x),
    decreases j,
{
    let p = before.parent_of(id);
    if j == 0 {
        assert(before.chain(x, 0) == Some(h));
    } else {
        let g = x->0;
        assert(after.chain(Some(g), j) == after.chain(after.parent_of(g), (j - 1) as nat));
        lemma_removal_parent(before, after, id, g);
        let y = before.parent_of(g);
        if y == Some(id) {
            before.lemma_chain_reaches_root(id);
            assert(before.chain(Some(id), 1) == before.chain(p, 0));
            lemma_removal_backward(before, after, id, p, h, (j - 1) as nat);
            let i = choose|i: nat| before.chain(p, i) == Some(h);
            assert(before.chain(Some(id), i + 1) == before.chain(p, i));
            assert(before.chain(Some(g), i + 2) == before.chain(Some(id), i + 1));
        } else {
            lemma_removal_backward(before, after, id, y, h, (j - 1) as nat);
            let i = choose|i: nat| before.chain(y, i) == Some(h);
            assert(before.chain(Some(g), i + 1) == before.chain(y, i));
        }
    }
}

/// Removing a group moves its nodes and subgroups to its parent, so every
/// node stays inside exactly the same other groups, directly or below them
/// (what `node_in_group_recursive` answers before and after `remove_group`).
pub proof fn law_remove_group_keeps_other_memberships<T, G>(
    before: &Snarl<T, G>,
    after: &Snarl<T, G>,
    id: GroupId,
    n: NodeId,
    h: GroupId,
)
    requires
        removed_group(before, after, id),
        h != id,
    ensures
        before.in_chain(h, before.node_group(n)) <==> after.in_chain(h, after.node_group(n)),
{
    let p = before.parent_of(id);
    let x = before.node_group(n);
    assert(after.node_group(n) == shift_past(x, id, p));
    if before.in_chain(h, x) {
        let k = choose|k: nat| before.chain(x, k) == Some(h);
        lemma_removal_forward(before, after, id, x, h, k);
    }
    if after.in_chain(h, shift_past(x, id, p)) {
        let j = choose|j: nat| after.chain(shift_past(x, id, p), j) == Some(h);
        if x == Some(id) {
            before.lemma_chain_reaches_root(id);
            assert(before.chain(Some(id), 1) == before.chain(p, 0));
            lemma_removal_backward(before, after, id, p, h, j);
            let i = choose|i: nat| before.chain(p, i) == Some(h);
            assert(before.chain(Some(id), i + 1) == before.chain(p, i));
        } else {
            lemma_removal_backward(before, after, id, x, h, j);
        }
    }
}

/// Removing a group keeps ancestry between the other groups: `a` is an
/// ancestor of `x` after `remove_group(id)` exactly when it was before
/// (what `is_ancestor(a, x)` answers).
pub proof fn law_remove_group_keeps_other_ancestry<T, G>(
    before: &Snarl<T, G>,
    after: &Snarl<T, G>,
    id: GroupId,
    a: GroupId,
    x: GroupId,
)
    requires
        removed_group(before, after, id),
        a != id,
        x != id,
    ensures
        before.in_chain(a, Some(x)) <==> after.in_chain(a, Some(x)),
{
    if before.in_chain(a, Some(x)) {
        let k = choose|k: nat| before.chain(Some(x), k) == Some(a);
        lemma_removal_forward(before, after, id, Some(x), a, k);
    }
    if after.in_chain(a, Some(x)) {
        let j = choose|j: nat| after.chain(Some(x), j) == Some(a);
        lemma_removal_backward(before, after, id, Some(x), a, j);
    }
}

/// Two graphs whose groups have the same parents have the same chains.
proof fn lemma_same_chains<T, G>(
    s: &Snarl<T, G>,
    t: &Snarl<T, G>,
    start: Option<GroupId>,
    k: nat,
)
    requires
        forall|g: GroupId| #[trigger] s.parent_of(g) == t.parent_of(g),
    ensures
        s.chain(start, k) == t.chain(start, k),
    decreases k,
{
    if k > 0 {
        if let Some(g) = start {
            assert(s.chain(start, k) == s.chain(s.parent_of(g), (k - 1) as nat));
            assert(t.chain(start, k) == t.chain(t.parent_of(g), (k - 1) as nat));
            lemma_same_chains(s, t, s.parent_of(g), (k - 1) as nat);
        }
    }
}

/// Closing group `a` (`open_group(a, false)`) collapses exactly the groups
/// that were collapsed already, and `a` with every group below it (what
/// `is_group_collapsed` answers after the call).
pub proof fn law_closing_group_collapses_below<T, G>(
    before: &Snarl<T, G>,
    after: &Snarl<T, G>,
    a: GroupId,
    g: GroupId,
)
    requires
        before.has_group(a),
        after.group_map() == before.group_map().insert(
            a.0,
            Group { open: false, ..before.group_map()[a.0] },
        ),
    ensures
        after.group_collapsed(g) <==> (before.group_collapsed(g) || after.in_chain(a, Some(g))),
{
    assert forall|x: GroupId| #[trigger] after.parent_of(x) == before.parent_of(x) by {}
    assert forall|k: nat| #[trigger] after.chain(Some(g), k) == before.chain(Some(g), k) by {
        lemma_same_chains(after, before, Some(g), k);
    }
    if after.in_chain(a, Some(g)) {
        let k = choose|k: nat| after.chain(Some(g), k) == Some(a);
        assert(after.collapsed_at(after.chain(Some(g), k)));
        if k > 0 {
            assert(after.chain(Some(g), k) == after.chain(after.parent_of(g), (k - 1) as nat));
            if !after.has_group(g) {
                assert(after.chain(None, (k - 1) as nat) is None);
            }
        }
    }
    if before.group_collapsed(g) {
        let k = choose|k: nat| before.collapsed_at(#[trigger] before.chain(Some(g), k));
        assert(after.chain(Some(g), k) == before.chain(Some(g), k));
        assert(after.collapsed_at(after.chain(Some(g), k)));
    }
    if after.group_collapsed(g) && !after.in_chain(a, Some(g)) {
        let k = choose|k: nat| after.collapsed_at(#[trigger] after.chain(Some(g), k));
        assert(after.chain(Some(g), k) == before.chain(Some(g), k));
        assert(after.chain(Some(g), k) != Some(a));
        assert(before.collapsed_at(before.chain(Some(g), k)));
    }
}

/// A graph's own parts make a graph again: its nodes and groups listed
/// under their keys, each once, and its wires are parts that `from_parts`
/// accepts, so the graph it builds holds the same nodes, groups and wires
/// (writing a graph out and reading it back).
pub proof fn law_parts_round_trip<T, G>(
    s: &Snarl<T, G>,
    nodes: Seq<(usize, Node<T>)>,
    wires: Seq<Wire>,
    groups: Seq<(usize, Group<G>)>,
)
    requires
        s.wf(),
        keys_distinct(nodes),
        pairs_map(nodes) == s.node_map(),
        wires.to_set() == s.connections(),
        keys_distinct(groups),
        pairs_map(groups) == s.group_map(),
    ensures
        valid_parts(nodes, wires, groups),
{
    s.lemma_wf();
    assert forall|i: int| 0 <= i < wires.len() implies has_key(nodes, (#[trigger] wires[i]).0.node.0)
        && has_key(nodes, wires[i].1.node.0) by {
        assert(wires.to_set().contains(wires[i]));
        assert(s.has_node(wires[i].0.node));
        assert(pairs_map(nodes).contains_key(wires[i].0.node.0));
        assert(pairs_map(nodes).contains_key(wires[i].1.node.0));
    }
    assert forall|g: usize| #[trigger] has_key(groups, g) implies {
        &&& (pairs_map(groups)[g].parent matches Some(p) ==> has_key(groups, p.0))
        &&& exists|k: nat| #[trigger] chain_in(pairs_map(groups), Some(GroupId(g)), k) is None
    } by {
        assert(pairs_map(groups).contains_key(g));
        assert(s.has_group(GroupId(g)));
        if let Some(p) = pairs_map(groups)[g].parent {
            assert(s.parent_of(GroupId(g)) == Some(p));
            assert(s.has_group(p));
            assert(pairs_map(groups).contains_key(p.0));
        }
        s.lemma_chain_reaches_root(GroupId(g));
        let k = choose|k: nat| #[trigger] s.chain(Some(GroupId(g)), k) is None;
        assert(chain_in(pairs_map(groups), Some(GroupId(g)), k) is None);
    }
}

/// A pin's remotes are exactly the pins that a wire joins it to: `i` is
/// among the inputs wired from `o`, and `o` among the outputs wired into
/// `i`, exactly when the wire `(o, i)` exists (what `out_pin(o).remotes` and
/// `in_pin(i).remotes` hold), whatever the nodes of the pins.
pub proof fn law_pin_remotes_are_wires(wires: Set<Wire>, o: OutPinId, i: InPinId)
    ensures
        inputs_from(wires, o).contains(i) <==> wires.contains((o, i)),
        outputs_into(wires, i).contains(o) <==> wires.contains((o, i)),
{
}

/// Right after `connect(o, i)`, each of the two pins lists the other among
/// its remotes.
pub proof fn law_connected_pins_list_each_other<T, G>(
    before: &Snarl<T, G>,
    after: &Snarl<T, G>,
    o: OutPinId,
    i: InPinId,
)
    requires
        after.connections() == before.connections().insert((o, i)),
    ensures
        inputs_from(after.connections(), o).contains(i),
        outputs_into(after.connections(), i).contains(o),
{
}

/// `remove_group(id)` moves every node of the removed group, open or
/// collapsed, to the removed group's former parent (the root level when it
/// had none), and every subgroup likewise; all other nodes and groups keep
/// their place, and afterwards nothing names the removed group.
pub proof fn law_remove_group_moves_members_to_parent<T, G>(
    before: &Snarl<T, G>,
    after: &Snarl<T, G>,
    id: GroupId,
    n: NodeId,
    g: GroupId,
)
    requires
        removed_group(before, after, id),
    ensures
        !after.has_group(id),
        after.has_node(n) == before.has_node(n),
        before.node_group(n) == Some(id) ==> after.node_group(n) == before.parent_of(id),
        before.node_group(n) != Some(id) ==> after.node_group(n) == before.node_group(n),
        after.node_group(n) != Some(id),
        after.has_node(n) ==> after.node_map()[n.0].open == before.node_map()[n.0].open,
        g != id ==> after.has_group(g) == before.has_group(g),
        g != id && before.parent_of(g) == Some(id) ==> after.parent_of(g) == before.parent_of(id),
        g != id && before.parent_of(g) != Some(id) ==> after.parent_of(g) == before.parent_of(g),
        after.parent_of(g) != Some(id),
{
    before.lemma_chain_reaches_root(id);
    assert(before.chain(Some(id), 1) == before.chain(before.parent_of(id), 0));
    assert(before.parent_of(id) != Some(id));
}

} // verus!
