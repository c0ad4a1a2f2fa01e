//! The graph container: nodes, wires and groups.
use vstd::prelude::*;
use crate::arena::{has_key, keys_distinct, pairs_map, Arena};
use crate::ids::{GroupId, InPinId, NodeId, OutPinId};
use crate::wires::{inputs_from, outputs_into, touches_node, Wire, Wires};
use crate::pins::{InPin, OutPin};
use crate::iter::{
    NodeCursor, NodeIdsDataIter, NodeInfoIter, NodesIdsIter, NodesIter, NodesPosIdsIter,
    NodesPosIter,
};
use crate::seq_facts::{lemma_add_contains, lemma_add_no_duplicates, lemma_filter_facts};

verus! {

/// A position on screen (egui's `Pos2`); the graph stores it and never reads it.
#[verifier::external_type_specification]
#[verifier::external_body]
pub struct ExPos2(egui::Pos2);

/// Node of the graph.
#[derive(Debug)]
#[non_exhaustive]
pub struct Node<T> {
    /// Node generic value.
    pub value: T,
    /// Position of the top-left corner of the node.
    /// This does not include frame margin.
    pub pos: egui::Pos2,
    /// Flag indicating that the node is open - not collapsed.
    pub open: bool,
    /// Group this node belongs to, if any.
    /// `None` means the node is at the root level.
    pub group: Option<GroupId>,
}

/// Group of nodes.
///
/// Groups can contain nodes and other groups, forming a hierarchy.
/// Groups can be collapsed to hide their contents.
#[derive(Debug)]
#[non_exhaustive]
pub struct Group<G> {
    /// Group generic value.
    pub value: G,
    /// Display title for the group.
    pub title: String,
    /// Flag indicating that the group is open - not collapsed.
    pub open: bool,
    /// Parent group, if nested.
    /// `None` means the group is at the root level.
    pub parent: Option<GroupId>,
    /// Position of the group when it has no children.
    /// When the group has children, the position is computed from the bounding box of children.
    pub pos: egui::Pos2,
}

impl<T> Node<T> {
    /// A node with the given value, position, open flag and group.
    pub fn new(value: T, pos: egui::Pos2, open: bool, group: Option<GroupId>) -> (r: Self)
        ensures
            r == (Node { value, pos, open, group }),
    {
        Node { value, pos, open, group }
    }
}

impl<G> Group<G> {
    /// A group with the given value, title, open flag, parent and position.
    pub fn new(value: G, title: String, open: bool, parent: Option<GroupId>, pos: egui::Pos2) -> (r: Self)
        ensures
            r == (Group { value, title, open, parent, pos }),
    {
        Group { value, title, open, parent, pos }
    }
}

impl<T: Clone> Clone for Node<T> {
    /// A copy whose value is a clone of this node's value.
    fn clone(&self) -> (r: Self)
        ensures
            cloned(self.value, r.value),
            r.pos == self.pos,
            r.open == self.open,
            r.group == self.group,
    {
        Node { value: self.value.clone(), pos: self.pos, open: self.open, group: self.group }
    }
}

impl<G: Clone> Clone for Group<G> {
    /// A copy whose value is a clone of this group's value.
    fn clone(&self) -> (r: Self)
        ensures
            cloned(self.value, r.value),
            r.title == self.title,
            r.open == self.open,
            r.parent == self.parent,
            r.pos == self.pos,
    {
        Group {
            value: self.value.clone(),
            title: self.title.clone(),
            open: self.open,
            parent: self.parent,
            pos: self.pos,
        }
    }
}

/// The key that an insertion takes, given the slot count and the vacant
/// keys: the most recently vacated key, else a new slot at the end.
pub open spec fn next_key_of(slots: (nat, Seq<usize>)) -> nat {
    if slots.1.len() == 0 {
        slots.0
    } else {
        slots.1[0] as nat
    }
}

/// Slot count and vacant keys after an insertion.
pub open spec fn slots_after_insert(slots: (nat, Seq<usize>)) -> (nat, Seq<usize>) {
    if slots.1.len() == 0 {
        (slots.0 + 1, slots.1)
    } else {
        (slots.0, slots.1.drop_first())
    }
}

/// Slot count and vacant keys after the value at `key` is removed.
pub open spec fn slots_after_remove(slots: (nat, Seq<usize>), key: usize) -> (nat, Seq<usize>) {
    (slots.0, seq![key].add(slots.1))
}

/// Node ids for a sequence of keys.
pub open spec fn as_node_ids(keys: Seq<usize>) -> Seq<NodeId> {
    keys.map_values(|k: usize| NodeId(k))
}

/// Group ids for a sequence of keys.
pub open spec fn as_group_ids(keys: Seq<usize>) -> Seq<GroupId> {
    keys.map_values(|k: usize| GroupId(k))
}

/// `n`, moved to group `to` when it belongs to group `from`.
pub open spec fn regroup_node<T>(n: Node<T>, from: GroupId, to: Option<GroupId>) -> Node<T> {
    if n.group == Some(from) {
        Node { group: to, ..n }
    } else {
        n
    }
}

/// `g`, moved under `to` when its parent is `from`.
pub open spec fn reparent_group<G>(g: Group<G>, from: GroupId, to: Option<GroupId>) -> Group<G> {
    if g.parent == Some(from) {
        Group { parent: to, ..g }
    } else {
        g
    }
}

/// The parent of group `g` among `groups`; `None` for a root group or a
/// missing one.
pub open spec fn parent_in<G>(groups: Map<usize, Group<G>>, g: GroupId) -> Option<GroupId> {
    if groups.contains_key(g.0) {
        groups[g.0].parent
    } else {
        None
    }
}

/// Starting at `start`, the group reached after following `k` parents
/// among `groups`.
pub open spec fn chain_in<G>(groups: Map<usize, Group<G>>, start: Option<GroupId>, k: nat) -> Option<
    GroupId,
>
    decreases k,
{
    if k == 0 {
        start
    } else {
        match start {
            None => None,
            Some(g) => chain_in(groups, parent_in(groups, g), (k - 1) as nat),
        }
    }
}

/// Every group in `groups` has a rank, and its parent is in `groups` with
/// a lower rank.
spec fn ranks_ok<G>(groups: Map<usize, Group<G>>, rank: Map<usize, nat>) -> bool {
    forall|g: usize|
        #![trigger groups.contains_key(g)]
        groups.contains_key(g) ==> {
            &&& rank.contains_key(g)
            &&& (groups[g].parent matches Some(p) ==> groups.contains_key(p.0) && rank.contains_key(
                p.0,
            ) && rank[p.0] < rank[g])
        }
}

/// Some number above `rank[k]` for every `k` of the finite set `keys`.
proof fn lemma_bound_over(rank: Map<usize, nat>, keys: Set<usize>) -> (m: nat)
    requires
        keys.finite(),
    ensures
        forall|k: usize| #[trigger] keys.contains(k) ==> rank[k] < m,
    decreases keys.len(),
{
    if keys.is_empty() {
        0
    } else {
        let x = keys.choose();
        let m = lemma_bound_over(rank, keys.remove(x));
        if m > rank[x] {
            m
        } else {
            rank[x] + 1
        }
    }
}

/// Whether listed parts make a graph: no node key and no group key is
/// listed twice, every wire joins listed nodes, and every group's parent is
/// listed and the chain of parents above each group ends.
pub open spec fn valid_parts<T, G>(
    nodes: Seq<(usize, Node<T>)>,
    wires: Seq<Wire>,
    groups: Seq<(usize, Group<G>)>,
) -> bool {
    &&& keys_distinct(nodes)
    &&& keys_distinct(groups)
    &&& forall|i: int|
        0 <= i < wires.len() ==> has_key(nodes, (#[trigger] wires[i]).0.node.0) && has_key(
            nodes,
            wires[i].1.node.0,
        )
    &&& forall|g: usize| #[trigger]
        has_key(groups, g) ==> {
            &&& (pairs_map(groups)[g].parent matches Some(p) ==> has_key(groups, p.0))
            &&& exists|k: nat| #[trigger] chain_in(pairs_map(groups), Some(GroupId(g)), k) is None
        }
}

/// Whether `slots` (slot count and vacant keys) are those of a storage
/// built from the keys `keys` alone: one slot past the largest key, and the
/// free keys below it vacant, highest first.
pub open spec fn slots_packed(slots: (nat, Seq<usize>), keys: Set<usize>) -> bool {
    &&& forall|k: usize| #[trigger] keys.contains(k) ==> k < slots.0
    &&& (slots.0 == 0 || keys.contains((slots.0 - 1) as usize))
    &&& forall|k: usize| #[trigger] slots.1.contains(k) <==> (k < slots.0 && !keys.contains(k))
    &&& forall|i: int, j: int| 0 <= i < j < slots.1.len() ==> slots.1[i] > slots.1[j]
}

/// Snarl is generic node-graph container.
///
/// It holds graph state - positioned nodes and wires between their pins,
/// and groups that nodes and other groups can belong to.
pub struct Snarl<T, G = ()> {
    nodes: Arena<Node<T>>,
    wires: Wires,
    groups: Arena<Group<G>>,
    /// A rank for each group that is larger than its parent's: it shows
    /// that following parents always ends.
    rank: Ghost<Map<usize, nat>>,
}

impl<T: Clone, G: Clone> Clone for Snarl<T, G> {
    /// A copy with the same keys and wires, whose nodes and groups are clones.
    fn clone(&self) -> (r: Self)
        ensures
            self.wf() ==> r.wf(),
            r.node_map().dom() == self.node_map().dom(),
            forall|k: usize| #[trigger] self.node_map().contains_key(k)
                ==> cloned(self.node_map()[k], r.node_map()[k]),
            r.group_map().dom() == self.group_map().dom(),
            forall|k: usize| #[trigger] self.group_map().contains_key(k)
                ==> cloned(self.group_map()[k], r.group_map()[k]),
            r.connections() == self.connections(),
            r.node_slots() == self.node_slots(),
            r.group_slots() == self.group_slots(),
    {
        let r = Snarl {
            nodes: self.nodes.clone(),
            wires: self.wires.clone(),
            groups: self.groups.clone(),
            rank: Ghost(self.rank@),
        };
        proof {
            if self.wf() {
                Self::lemma_wires_still_join(self, &r, Set::empty());
                assert forall|k: usize| #[trigger] r.groups@.contains_key(k) implies r.groups@[k].parent
                    == self.groups@[k].parent by {
                    assert(cloned(self.groups@[k], r.groups@[k]));
                }
                Self::lemma_ranks_kept(self, &r);
            }
        }
        r
    }
}

impl<T, G> Default for Snarl<T, G> {
    /// An empty Snarl.
    fn default() -> (r: Self)
        ensures
            r.wf(),
            r.node_map() == Map::<usize, Node<T>>::empty(),
            r.group_map() == Map::<usize, Group<G>>::empty(),
            r.connections() == Set::<Wire>::empty(),
            r.node_slots() == (0nat, Seq::<usize>::empty()),
            r.group_slots() == (0nat, Seq::<usize>::empty()),
    {
        Snarl::new()
    }
}

impl<T, G> Snarl<T, G> {
    /// The nodes by key.
    pub closed spec fn node_map(&self) -> Map<usize, Node<T>> {
        self.nodes@
    }

    /// The groups by key.
    pub closed spec fn group_map(&self) -> Map<usize, Group<G>> {
        self.groups@
    }

    /// The wires, as pairs of output pin and input pin.
    pub closed spec fn connections(&self) -> Set<Wire> {
        self.wires@
    }

    /// The node storage's slot count and vacant keys, most recently
    /// vacated first: they decide the keys of the next inserted nodes.
    pub closed spec fn node_slots(&self) -> (nat, Seq<usize>) {
        (self.nodes.slot_count(), self.nodes.vacancies())
    }

    /// The group storage's slot count and vacant keys, most recently
    /// vacated first: they decide the keys of the next inserted groups.
    pub closed spec fn group_slots(&self) -> (nat, Seq<usize>) {
        (self.groups.slot_count(), self.groups.vacancies())
    }

    /// The key that the next inserted node gets.
    pub open spec fn next_node_key(&self) -> nat {
        next_key_of(self.node_slots())
    }

    /// The key that the next inserted group gets.
    pub open spec fn next_group_key(&self) -> nat {
        next_key_of(self.group_slots())
    }

    /// Whether a node with this id exists.
    pub open spec fn has_node(&self, id: NodeId) -> bool {
        self.node_map().contains_key(id.0)
    }

    /// Whether a group with this id exists.
    pub open spec fn has_group(&self, id: GroupId) -> bool {
        self.group_map().contains_key(id.0)
    }

    /// The parent of a group; `None` for a root group or a missing one.
    pub open spec fn parent_of(&self, g: GroupId) -> Option<GroupId> {
        parent_in(self.group_map(), g)
    }

    /// Starting at `start`, the group reached after following `k` parents.
    pub open spec fn chain(&self, start: Option<GroupId>, k: nat) -> Option<GroupId> {
        chain_in(self.group_map(), start, k)
    }

    /// Whether `g` is `start` or one of the groups above it.
    pub open spec fn in_chain(&self, g: GroupId, start: Option<GroupId>) -> bool {
        exists|k: nat| self.chain(start, k) == Some(g)
    }

    /// The invariant: the parts are well formed, every wire joins existing
    /// nodes, and every parent group exists and ranks below its child.
    pub closed spec fn wf(&self) -> bool {
        &&& self.nodes.wf()
        &&& self.groups.wf()
        &&& self.wires.wf()
        &&& self.wires_join_nodes()
        &&& self.groups_ranked()
    }

    /// Every wire leaves and enters existing nodes.
    spec fn wires_join_nodes(&self) -> bool {
        forall|w: Wire|
            #![trigger self.wires@.contains(w)]
            self.wires@.contains(w) ==> self.nodes@.contains_key(w.0.node.0)
                && self.nodes@.contains_key(w.1.node.0)
    }

    /// Every group has a rank, and its parent exists with a lower rank.
    spec fn groups_ranked(&self) -> bool {
        ranks_ok(self.groups@, self.rank@)
    }

    /// The ranks with those of `group` and the groups below it raised by `shift`.
    spec fn lifted_rank(&self, group: GroupId, shift: nat) -> Map<usize, nat> {
        Map::new(
            |x: usize| self.rank@.contains_key(x),
            |x: usize|
                if self.in_chain(group, Some(GroupId(x))) {
                    self.rank@[x] + shift
                } else {
                    self.rank@[x]
                },
        )
    }

    /// With the ranks at and below `group` raised by `shift`, the groups stay
    /// ranked when `group` is replaced by one whose parent is none, or an
    /// existing group outside the subtree of `group` whose rank is below
    /// that of `group` plus `shift`.
    proof fn lemma_lifted_ranks(&self, group: GroupId, shift: nat)
        requires
            self.wf(),
            self.has_group(group),
        ensures
            forall|ng: Group<G>|
                #![trigger self.groups@.insert(group.0, ng)]
                (ng.parent matches Some(p) ==> self.has_group(p) && !self.in_chain(group, Some(p))
                    && self.rank@[p.0] < self.rank@[group.0] + shift) ==> ranks_ok(
                    self.groups@.insert(group.0, ng),
                    self.lifted_rank(group, shift),
                ),
    {
        self.lemma_in_own_chain(group);
        assert forall|ng: Group<G>|
            #![trigger self.groups@.insert(group.0, ng)]
            (ng.parent matches Some(p) ==> self.has_group(p) && !self.in_chain(group, Some(p))
                && self.rank@[p.0] < self.rank@[group.0] + shift) implies ranks_ok(
            self.groups@.insert(group.0, ng),
            self.lifted_rank(group, shift),
        ) by {
            let groups = self.groups@.insert(group.0, ng);
            let rank = self.lifted_rank(group, shift);
            assert forall|g: usize| #![trigger groups.contains_key(g)] groups.contains_key(g) implies {
                &&& rank.contains_key(g)
                &&& (groups[g].parent matches Some(q) ==> groups.contains_key(q.0)
                    && rank.contains_key(q.0) && rank[q.0] < rank[g])
            } by {
                assert(self.groups@.contains_key(g));
                if g != group.0 {
                    self.lemma_in_chain_step(group, GroupId(g));
                    if let Some(q) = self.groups@[g].parent {
                        assert(self.parent_of(GroupId(g)) == Some(q));
                        assert(q == GroupId(q.0));
                    }
                }
            }
        }
    }

    /// Some number above the rank of every group.
    proof fn lemma_rank_bound(&self) -> (m: nat)
        requires
            self.wf(),
        ensures
            forall|g: usize| #[trigger] self.groups@.contains_key(g) ==> self.rank@[g] < m,
    {
        self.groups.lemma_wf();
        lemma_bound_over(self.rank@, self.groups@.dom())
    }

    /// Wires keep joining existing nodes when every wire left was there
    /// before and avoids the nodes in `gone`, and every node not in `gone`
    /// is still there.
    proof fn lemma_wires_still_join(before: &Self, after: &Self, gone: Set<usize>)
        requires
            before.wires_join_nodes(),
            forall|w: Wire| #[trigger]
                after.wires@.contains(w) ==> before.wires@.contains(w) && !gone.contains(w.0.node.0)
                    && !gone.contains(w.1.node.0),
            forall|k: usize| #[trigger]
                before.nodes@.contains_key(k) && !gone.contains(k) ==> after.nodes@.contains_key(k),
        ensures
            after.wires_join_nodes(),
    {
        assert forall|w: Wire| #![trigger after.wires@.contains(w)]
            after.wires@.contains(w) implies after.nodes@.contains_key(w.0.node.0)
            && after.nodes@.contains_key(w.1.node.0) by {
            assert(before.wires@.contains(w));
            assert(before.nodes@.contains_key(w.0.node.0));
            assert(before.nodes@.contains_key(w.1.node.0));
        }
    }

    /// Groups stay ranked when every group is kept with its rank, and each
    /// group now there either keeps its parent or has none.
    proof fn lemma_ranks_kept(before: &Self, after: &Self)
        requires
            before.groups_ranked(),
            forall|k: usize| #[trigger]
                before.groups@.contains_key(k) ==> after.groups@.contains_key(k)
                    && after.rank@.contains_key(k) && after.rank@[k] == before.rank@[k],
            forall|k: usize| #[trigger]
                after.groups@.contains_key(k) ==> after.rank@.contains_key(k) && (
                after.groups@[k].parent is None || (before.groups@.contains_key(k)
                    && after.groups@[k].parent == before.groups@[k].parent)),
        ensures
            after.groups_ranked(),
    {
        assert forall|g: usize| #![trigger after.groups@.contains_key(g)]
            after.groups@.contains_key(g) implies {
            &&& after.rank@.contains_key(g)
            &&& (after.groups@[g].parent matches Some(p) ==> after.groups@.contains_key(p.0)
                && after.rank@.contains_key(p.0) && after.rank@[p.0] < after.rank@[g])
        } by {
            if let Some(p) = after.groups@[g].parent {
                assert(before.groups@.contains_key(g));
                assert(before.groups@.contains_key(p.0));
            }
        }
    }

    /// The facts of the invariant that callers can use.
    pub proof fn lemma_wf(&self)
        requires
            self.wf(),
        ensures
            forall|w: Wire| #[trigger]
                self.connections().contains(w) ==> self.has_node(w.0.node) && self.has_node(
                    w.1.node,
                ),
            forall|g: GroupId| #[trigger]
                self.has_group(g) && self.parent_of(g) is Some ==> self.has_group(
                    self.parent_of(g)->0,
                ),
            self.connections().finite(),
            forall|k: usize| k == self.next_node_key() ==> !self.node_map().contains_key(k),
            forall|k: usize| k == self.next_group_key() ==> !self.group_map().contains_key(k),
    {
        self.nodes.lemma_wf();
        self.groups.lemma_wf();
        self.wires.lemma_finite();
        assert forall|g: GroupId| #[trigger]
            self.has_group(g) && self.parent_of(g) is Some implies self.has_group(
            self.parent_of(g)->0,
        ) by {
            assert(self.groups@.contains_key(g.0));
        }
    }

    /// Create a new empty Snarl.
    pub fn new() -> (r: Self)
        ensures
            r.wf(),
            r.node_map() == Map::<usize, Node<T>>::empty(),
            r.group_map() == Map::<usize, Group<G>>::empty(),
            r.connections() == Set::<Wire>::empty(),
            r.node_slots() == (0nat, Seq::<usize>::empty()),
            r.group_slots() == (0nat, Seq::<usize>::empty()),
    {
        Snarl {
            nodes: Arena::new(),
            wires: Wires::new(),
            groups: Arena::new(),
            rank: Ghost(Map::empty()),
        }
    }

    /// A graph made of listed parts: the nodes and groups under their listed
    /// keys, and the listed wires, a wire listed twice kept once. `None` when
    /// a key is listed twice, a wire names a node that is not listed, or a
    /// group's parent is not listed or the parents above a group never end.
    pub fn from_parts(
        nodes: Vec<(usize, Node<T>)>,
        wires: Vec<Wire>,
        groups: Vec<(usize, Group<G>)>,
    ) -> (r: Option<Self>)
        requires
            forall|i: int| 0 <= i < nodes@.len() ==> #[trigger] nodes@[i].0 < usize::MAX,
            forall|i: int| 0 <= i < groups@.len() ==> #[trigger] groups@[i].0 < usize::MAX,
        ensures
            r is Some <==> valid_parts(nodes@, wires@, groups@),
            r matches Some(s) ==> {
                &&& s.wf()
                &&& s.node_map() == pairs_map(nodes@)
                &&& s.group_map() == pairs_map(groups@)
                &&& s.connections() == wires@.to_set()
                &&& slots_packed(s.node_slots(), s.node_map().dom())
                &&& slots_packed(s.group_slots(), s.group_map().dom())
            },
    {
        let ghost node_list = nodes@;
        let ghost group_list = groups@;
        let node_arena = match Arena::from_pairs(nodes) {
            Some(a) => a,
            None => {
                return None;
            },
        };
        let group_arena = match Arena::from_pairs(groups) {
            Some(a) => a,
            None => {
                return None;
            },
        };
        proof {
            node_arena.lemma_wf();
            group_arena.lemma_wf();
            group_arena.lemma_keys();
        }
        // Every wire joins listed nodes.
        let mut i: usize = 0;
        while i < wires.len()
            invariant
                i <= wires@.len(),
                node_list == nodes@,
                group_list == groups@,
                keys_distinct(group_list),
                node_arena@ == pairs_map(node_list),
                forall|j: int|
                    0 <= j < i ==> node_arena@.contains_key((#[trigger] wires@[j]).0.node.0)
                        && node_arena@.contains_key(wires@[j].1.node.0),
            decreases wires@.len() - i,
        {
            let w = wires[i];
            if !node_arena.contains(w.0.node.0) || !node_arena.contains(w.1.node.0) {
                return None;
            }
            i = i + 1;
        }
        // Every parent is listed.
        let keys = group_arena.key_list();
        let mut i: usize = 0;
        while i < keys.len()
            invariant
                i <= keys@.len(),
                node_list == nodes@,
                group_list == groups@,
                group_arena@ == pairs_map(group_list),
                forall|k: usize| #[trigger] keys@.contains(k) <==> group_arena@.contains_key(k),
                forall|j: int|
                    0 <= j < i ==> (group_arena@[#[trigger] keys@[j]].parent matches Some(p)
                        ==> group_arena@.contains_key(p.0)),
            decreases keys@.len() - i,
        {
            let k = keys[i];
            assert(keys@.contains(k));
            let parent = match group_arena.get(k) {
                Some(info) => info.parent,
                None => None,
            };
            if let Some(p) = parent {
                if !group_arena.contains(p.0) {
                    return None;
                }
            }
            i = i + 1;
        }
        proof {
            assert forall|h: usize| #[trigger] group_arena@.contains_key(h) implies (
            group_arena@[h].parent matches Some(p) ==> group_arena@.contains_key(p.0)) by {
                assert(keys@.contains(h));
                let j = choose|j: int| 0 <= j < keys@.len() && keys@[j] == h;
            }
        }
        let wire_set = Wires::from_wires(&wires);
        let mut s = Snarl {
            nodes: node_arena,
            wires: wire_set,
            groups: group_arena,
            rank: Ghost(Map::empty()),
        };
        // The chain above each group ends; its length ranks the group.
        let ghost mut rank: Map<usize, nat> = Map::empty();
        let mut i: usize = 0;
        while i < keys.len()
            invariant
                i <= keys@.len(),
                node_list == nodes@,
                group_list == groups@,
                s.groups@ == pairs_map(group_list),
                s.groups.wf(),
                forall|k: usize| #[trigger] keys@.contains(k) <==> s.groups@.contains_key(k),
                forall|h: usize|
                    #![trigger s.groups@.contains_key(h)]
                    s.groups@.contains_key(h) ==> (s.groups@[h].parent matches Some(p)
                        ==> s.groups@.contains_key(p.0)),
                forall|j: int|
                    0 <= j < i ==> rank.contains_key(#[trigger] keys@[j]) && s.chain(
                        Some(GroupId(keys@[j])),
                        rank[keys@[j]],
                    ) is None,
                forall|k: usize, j: nat|
                    rank.contains_key(k) && j < rank[k] ==> (#[trigger] s.chain(
                        Some(GroupId(k)),
                        j,
                    )) is Some,
            decreases keys@.len() - i,
        {
            let k = keys[i];
            assert(keys@.contains(k));
            match s.chain_length(GroupId(k)) {
                None => {
                    proof {
                        assert(s.group_map() == pairs_map(group_list));
                        assert(has_key(group_list, k));
                        assert forall|n: nat| #[trigger]
                            chain_in(pairs_map(group_list), Some(GroupId(k)), n) is Some by {
                            assert(s.chain(Some(GroupId(k)), n) is Some);
                        }
                    }
                    return None;
                },
                Some(len) => {
                    proof {
                        rank = rank.insert(k, len as nat);
                    }
                },
            }
            i = i + 1;
        }
        proof {
            assert forall|g: usize|
                #![trigger s.groups@.contains_key(g)]
                s.groups@.contains_key(g) implies {
                &&& rank.contains_key(g)
                &&& (s.groups@[g].parent matches Some(p) ==> s.groups@.contains_key(p.0)
                    && rank.contains_key(p.0) && rank[p.0] < rank[g])
            } by {
                assert(keys@.contains(g));
                let j = choose|j: int| 0 <= j < keys@.len() && keys@[j] == g;
                assert(rank.contains_key(keys@[j]));
                if let Some(p) = s.groups@[g].parent {
                    assert(keys@.contains(p.0));
                    let jp = choose|jp: int| 0 <= jp < keys@.len() && keys@[jp] == p.0;
                    assert(rank.contains_key(keys@[jp]));
                    let lg = rank[g];
                    let lp = rank[p.0];
                    assert(s.chain(Some(GroupId(g)), 0) == Some(GroupId(g)));
                    assert(lg > 0);
                    assert(s.chain(Some(GroupId(g)), lg) == s.chain(Some(GroupId(p.0)), (lg - 1) as nat));
                    if lp >= lg {
                        assert(s.chain(Some(GroupId(p.0)), (lg - 1) as nat) is Some);
                    }
                }
            }
        }
        s.rank = Ghost(rank);
        proof {
            assert forall|w: Wire|
                #![trigger s.wires@.contains(w)]
                s.wires@.contains(w) implies s.nodes@.contains_key(w.0.node.0)
                && s.nodes@.contains_key(w.1.node.0) by {
                let j = choose|j: int| 0 <= j < wires@.len() && wires@[j] == w;
                assert(wires@[j] == w);
            }
            assert forall|g: usize| #[trigger] has_key(group_list, g) implies {
                &&& (pairs_map(group_list)[g].parent matches Some(p) ==> has_key(group_list, p.0))
                &&& exists|k: nat| #[trigger] chain_in(pairs_map(group_list), Some(GroupId(g)), k) is None
            } by {
                assert(s.groups@.contains_key(g));
                assert(keys@.contains(g));
                let j = choose|j: int| 0 <= j < keys@.len() && keys@[j] == g;
                assert(rank.contains_key(keys@[j]));
                assert(s.chain(Some(GroupId(g)), rank[g]) is None);
            }
            assert forall|i: int| 0 <= i < wires@.len() implies has_key(node_list, (#[trigger] wires@[i]).0.node.0)
                && has_key(node_list, wires@[i].1.node.0) by {
                assert(node_arena@.contains_key(wires@[i].0.node.0));
            }
        }
        Some(s)
    }

    fn add_node(&mut self, pos: egui::Pos2, node: T, open: bool) -> (id: NodeId)
        requires
            old(self).wf(),
        ensures
            final(self).wf(),
            id.0 == old(self).next_node_key(),
            !old(self).has_node(id),
            final(self).node_slots() == slots_after_insert(old(self).node_slots()),
            final(self).node_map() == old(self).node_map().insert(
                id.0,
                Node { value: node, pos, open, group: None },
            ),
            final(self).group_map() == old(self).group_map(),
            final(self).connections() == old(self).connections(),
            final(self).group_slots() == old(self).group_slots(),
    {
        let idx: usize = self.nodes.insert(Node { value: node, pos, open, group: None });
        proof {
            Self::lemma_wires_still_join(old(self), self, Set::empty());
        }
        NodeId(idx)
    }

    /// Adds a node to the Snarl.
    /// Returns the index of the node.
    pub fn insert_node(&mut self, pos: egui::Pos2, node: T) -> (id: NodeId)
        requires
            old(self).wf(),
        ensures
            final(self).wf(),
            id.0 == old(self).next_node_key(),
            !old(self).has_node(id),
            final(self).node_slots() == slots_after_insert(old(self).node_slots()),
            final(self).node_map() == old(self).node_map().insert(
                id.0,
                Node { value: node, pos, open: true, group: None },
            ),
            final(self).group_map() == old(self).group_map(),
            final(self).connections() == old(self).connections(),
            final(self).group_slots() == old(self).group_slots(),
    {
        self.add_node(pos, node, true)
    }

    /// Adds a node to the Snarl in collapsed state.
    /// Returns the index of the node.
    pub fn insert_node_collapsed(&mut self, pos: egui::Pos2, node: T) -> (id: NodeId)
        requires
            old(self).wf(),
        ensures
            final(self).wf(),
            id.0 == old(self).next_node_key(),
            !old(self).has_node(id),
            final(self).node_slots() == slots_after_insert(old(self).node_slots()),
            final(self).node_map() == old(self).node_map().insert(
                id.0,
                Node { value: node, pos, open: false, group: None },
            ),
            final(self).group_map() == old(self).group_map(),
            final(self).connections() == old(self).connections(),
            final(self).group_slots() == old(self).group_slots(),
    {
        self.add_node(pos, node, false)
    }

    /// Removes a node from the Snarl, together with every wire that leaves
    /// or enters it. Returns the node's value.
    pub fn remove_node(&mut self, idx: NodeId) -> (value: T)
        requires
            old(self).wf(),
            old(self).has_node(idx),
        ensures
            final(self).wf(),
            value == old(self).node_map()[idx.0].value,
            final(self).node_map() == old(self).node_map().remove(idx.0),
            final(self).connections() == old(self).connections().filter(
                |w: Wire| !touches_node(w, idx),
            ),
            final(self).group_map() == old(self).group_map(),
            final(self).node_slots() == slots_after_remove(old(self).node_slots(), idx.0),
            final(self).group_slots() == old(self).group_slots(),
    {
        let node = self.nodes.remove(idx.0);
        self.wires.drop_node(idx);
        proof {
            Self::lemma_wires_still_join(old(self), self, set![idx.0]);
        }
        node.value
    }

    /// Connects two nodes.
    /// Returns true if the connection was successful.
    /// Returns false if the connection already exists.
    pub fn connect(&mut self, from: OutPinId, to: InPinId) -> (r: bool)
        requires
            old(self).wf(),
            old(self).has_node(from.node),
            old(self).has_node(to.node),
        ensures
            final(self).wf(),
            r == !old(self).connections().contains((from, to)),
            final(self).connections() == old(self).connections().insert((from, to)),
            final(self).node_map() == old(self).node_map(),
            final(self).group_map() == old(self).group_map(),
            final(self).node_slots() == old(self).node_slots(),
            final(self).group_slots() == old(self).group_slots(),
    {
        self.wires.insert((from, to))
    }

    /// Disconnects two nodes.
    /// Returns true if the connection was removed.
    pub fn disconnect(&mut self, from: OutPinId, to: InPinId) -> (r: bool)
        requires
            old(self).wf(),
            old(self).has_node(from.node),
            old(self).has_node(to.node),
        ensures
            final(self).wf(),
            r == old(self).connections().contains((from, to)),
            final(self).connections() == old(self).connections().remove((from, to)),
            final(self).node_map() == old(self).node_map(),
            final(self).group_map() == old(self).group_map(),
            final(self).node_slots() == old(self).node_slots(),
            final(self).group_slots() == old(self).group_slots(),
    {
        self.wires.remove(&(from, to))
    }

    /// Removes all connections to the node's pin.
    ///
    /// Returns number of removed connections.
    pub fn drop_inputs(&mut self, pin: InPinId) -> (r: usize)
        requires
            old(self).wf(),
            old(self).has_node(pin.node),
        ensures
            final(self).wf(),
            final(self).connections() == old(self).connections().filter(|w: Wire| w.1 != pin),
            r == old(self).connections().filter(|w: Wire| w.1 == pin).len(),
            final(self).node_map() == old(self).node_map(),
            final(self).group_map() == old(self).group_map(),
            final(self).node_slots() == old(self).node_slots(),
            final(self).group_slots() == old(self).group_slots(),
    {
        self.wires.drop_inputs(pin)
    }

    /// Removes all connections from the node's pin.
    /// Returns number of removed connections.
    pub fn drop_outputs(&mut self, pin: OutPinId) -> (r: usize)
        requires
            old(self).wf(),
            old(self).has_node(pin.node),
        ensures
            final(self).wf(),
            final(self).connections() == old(self).connections().filter(|w: Wire| w.0 != pin),
            r == old(self).connections().filter(|w: Wire| w.0 == pin).len(),
            final(self).node_map() == old(self).node_map(),
            final(self).group_map() == old(self).group_map(),
            final(self).node_slots() == old(self).node_slots(),
            final(self).group_slots() == old(self).group_slots(),
    {
        self.wires.drop_outputs(pin)
    }

    /// Removes all connections to and from the node.
    /// Returns number of removed connections.
    pub fn disconnect_all(&mut self, node: NodeId) -> (r: usize)
        requires
            old(self).wf(),
            old(self).has_node(node),
        ensures
            final(self).wf(),
            final(self).connections() == old(self).connections().filter(
                |w: Wire| !touches_node(w, node),
            ),
            r == old(self).connections().filter(|w: Wire| touches_node(w, node)).len(),
            final(self).node_map() == old(self).node_map(),
            final(self).group_map() == old(self).group_map(),
            final(self).node_slots() == old(self).node_slots(),
            final(self).group_slots() == old(self).group_slots(),
    {
        self.wires.drop_node(node)
    }

    /// Returns reference to the node.
    pub fn node(&self, idx: NodeId) -> (r: Option<&T>)
        ensures
            r is Some <==> self.has_node(idx),
            r matches Some(v) ==> *v == self.node_map()[idx.0].value,
    {
        match self.nodes.get(idx.0) {
            Some(node) => Some(&node.value),
            None => None,
        }
    }

    /// Returns mutable reference to the node.
    pub fn node_mut(&mut self, idx: NodeId) -> (r: Option<&mut T>)
        requires
            old(self).wf(),
        ensures
            final(self).wf(),
            r is Some <==> old(self).has_node(idx),
            r matches Some(v) ==> {
                &&& *v == old(self).node_map()[idx.0].value
                &&& final(self).node_map() == old(self).node_map().insert(
                    idx.0,
                    Node { value: *final(v), ..old(self).node_map()[idx.0] },
                )
            },
            r is None ==> final(self).node_map() == old(self).node_map(),
            final(self).group_map() == old(self).group_map(),
            final(self).connections() == old(self).connections(),
            final(self).node_slots() == old(self).node_slots(),
            final(self).group_slots() == old(self).group_slots(),
    {
        match self.nodes.get_mut(idx.0) {
            Some(node) => Some(&mut node.value),
            None => None,
        }
    }

    /// The value of an existing node (what indexing the graph by a node id gives).
    pub fn index_node(&self, idx: NodeId) -> (r: &T)
        requires
            self.has_node(idx),
        ensures
            *r == self.node_map()[idx.0].value,
    {
        &self.nodes.get(idx.0).unwrap().value
    }

    /// A mutable reference to the value of an existing node (what indexing
    /// the graph mutably by a node id gives).
    pub fn index_node_mut(&mut self, idx: NodeId) -> (r: &mut T)
        requires
            old(self).wf(),
            old(self).has_node(idx),
        ensures
            final(self).wf(),
            *r == old(self).node_map()[idx.0].value,
            final(self).node_map() == old(self).node_map().insert(
                idx.0,
                Node { value: *final(r), ..old(self).node_map()[idx.0] },
            ),
            final(self).group_map() == old(self).group_map(),
            final(self).connections() == old(self).connections(),
            final(self).node_slots() == old(self).node_slots(),
            final(self).group_slots() == old(self).group_slots(),
    {
        &mut self.nodes.get_mut(idx.0).unwrap().value
    }

    /// Returns reference to the node data.
    pub fn node_info(&self, idx: NodeId) -> (r: Option<&Node<T>>)
        ensures
            r is Some <==> self.has_node(idx),
            r matches Some(n) ==> *n == self.node_map()[idx.0],
    {
        self.nodes.get(idx.0)
    }

    /// Returns mutable reference to the node data.
    pub fn node_info_mut(&mut self, idx: NodeId) -> (r: Option<&mut Node<T>>)
        requires
            old(self).wf(),
        ensures
            final(self).wf(),
            r is Some <==> old(self).has_node(idx),
            r matches Some(n) ==> {
                &&& *n == old(self).node_map()[idx.0]
                &&& final(self).node_map() == old(self).node_map().insert(idx.0, *final(n))
            },
            r is None ==> final(self).node_map() == old(self).node_map(),
            final(self).group_map() == old(self).group_map(),
            final(self).connections() == old(self).connections(),
            final(self).node_slots() == old(self).node_slots(),
            final(self).group_slots() == old(self).group_slots(),
    {
        self.nodes.get_mut(idx.0)
    }

    /// Deprecated: Use [`node`](Self::node) instead.
    pub fn get_node(&self, idx: NodeId) -> (r: Option<&T>)
        ensures
            r is Some <==> self.has_node(idx),
            r matches Some(v) ==> *v == self.node_map()[idx.0].value,
    {
        self.node(idx)
    }

    /// Deprecated: Use [`node_mut`](Self::node_mut) instead.
    pub fn get_node_mut(&mut self, idx: NodeId) -> (r: Option<&mut T>)
        requires
            old(self).wf(),
        ensures
            final(self).wf(),
            r is Some <==> old(self).has_node(idx),
            r matches Some(v) ==> {
                &&& *v == old(self).node_map()[idx.0].value
                &&& final(self).node_map() == old(self).node_map().insert(
                    idx.0,
                    Node { value: *final(v), ..old(self).node_map()[idx.0] },
                )
            },
            r is None ==> final(self).node_map() == old(self).node_map(),
            final(self).group_map() == old(self).group_map(),
            final(self).connections() == old(self).connections(),
            final(self).node_slots() == old(self).node_slots(),
            final(self).group_slots() == old(self).group_slots(),
    {
        self.node_mut(idx)
    }

    /// Deprecated: Use [`node_info`](Self::node_info) instead.
    pub fn get_node_info(&self, idx: NodeId) -> (r: Option<&Node<T>>)
        ensures
            r is Some <==> self.has_node(idx),
            r matches Some(n) ==> *n == self.node_map()[idx.0],
    {
        self.node_info(idx)
    }

    /// Deprecated: Use [`node_info_mut`](Self::node_info_mut) instead.
    pub fn get_node_info_mut(&mut self, idx: NodeId) -> (r: Option<&mut Node<T>>)
        requires
            old(self).wf(),
        ensures
            final(self).wf(),
            r is Some <==> old(self).has_node(idx),
            r matches Some(n) ==> {
                &&& *n == old(self).node_map()[idx.0]
                &&& final(self).node_map() == old(self).node_map().insert(idx.0, *final(n))
            },
            r is None ==> final(self).node_map() == old(self).node_map(),
            final(self).group_map() == old(self).group_map(),
            final(self).connections() == old(self).connections(),
            final(self).node_slots() == old(self).node_slots(),
            final(self).group_slots() == old(self).group_slots(),
    {
        self.node_info_mut(idx)
    }

    /// Opens or collapses a node.
    pub fn open_node(&mut self, node: NodeId, open: bool)
        requires
            old(self).wf(),
            old(self).has_node(node),
        ensures
            final(self).wf(),
            final(self).node_map() == old(self).node_map().insert(
                node.0,
                Node { open, ..old(self).node_map()[node.0] },
            ),
            final(self).group_map() == old(self).group_map(),
            final(self).connections() == old(self).connections(),
            final(self).node_slots() == old(self).node_slots(),
            final(self).group_slots() == old(self).group_slots(),
    {
        match self.nodes.get_mut(node.0) {
            Some(n) => {
                n.open = open;
            },
            None => {},
        }
    }

    /// Sets the group a node belongs to. The group is not required to exist.
    pub fn set_node_group(&mut self, node: NodeId, group: Option<GroupId>)
        requires
            old(self).wf(),
            old(self).has_node(node),
        ensures
            final(self).wf(),
            final(self).node_map() == old(self).node_map().insert(
                node.0,
                Node { group, ..old(self).node_map()[node.0] },
            ),
            final(self).group_map() == old(self).group_map(),
            final(self).connections() == old(self).connections(),
            final(self).node_slots() == old(self).node_slots(),
            final(self).group_slots() == old(self).group_slots(),
    {
        match self.nodes.get_mut(node.0) {
            Some(n) => {
                n.group = group;
            },
            None => {},
        }
    }

    /// One step up: `g` lies on the chain from `x` exactly when it lies on
    /// the chain from `x`'s parent, unless `g` is `x` itself.
    pub proof fn lemma_in_chain_step(&self, g: GroupId, x: GroupId)
        requires
            x != g,
        ensures
            self.in_chain(g, Some(x)) <==> self.in_chain(g, self.parent_of(x)),
    {
        if self.in_chain(g, Some(x)) {
            let k = choose|k: nat| self.chain(Some(x), k) == Some(g);
            assert(k != 0);
            assert(self.chain(self.parent_of(x), (k - 1) as nat) == Some(g));
        }
        if self.in_chain(g, self.parent_of(x)) {
            let k = choose|k: nat| self.chain(self.parent_of(x), k) == Some(g);
            assert(self.chain(Some(x), k + 1) == Some(g));
        }
    }

    /// Every group lies on its own chain.
    pub proof fn lemma_in_own_chain(&self, g: GroupId)
        ensures
            self.in_chain(g, Some(g)),
    {
        assert(self.chain(Some(g), 0) == Some(g));
    }

    /// Adds a group to the Snarl, at the root level and open.
    /// Returns the identifier of the group.
    pub fn insert_group(&mut self, pos: egui::Pos2, title: String, value: G) -> (id: GroupId)
        requires
            old(self).wf(),
        ensures
            final(self).wf(),
            id.0 == old(self).next_group_key(),
            !old(self).has_group(id),
            final(self).group_slots() == slots_after_insert(old(self).group_slots()),
            final(self).group_map() == old(self).group_map().insert(
                id.0,
                Group { value, title, open: true, parent: None, pos },
            ),
            final(self).node_map() == old(self).node_map(),
            final(self).connections() == old(self).connections(),
            final(self).node_slots() == old(self).node_slots(),
    {
        let idx: usize = self.groups.insert(Group { value, title, open: true, parent: None, pos });
        proof {
            self.rank@ = self.rank@.insert(idx, 0);
            Self::lemma_ranks_kept(old(self), self);
        }
        GroupId(idx)
    }

    /// Returns reference to the group.
    pub fn group(&self, id: GroupId) -> (r: Option<&G>)
        ensures
            r is Some <==> self.has_group(id),
            r matches Some(v) ==> *v == self.group_map()[id.0].value,
    {
        match self.groups.get(id.0) {
            Some(g) => Some(&g.value),
            None => None,
        }
    }

    /// Returns mutable reference to the group.
    pub fn group_mut(&mut self, id: GroupId) -> (r: Option<&mut G>)
        requires
            old(self).wf(),
        ensures
            final(self).wf(),
            r is Some <==> old(self).has_group(id),
            r matches Some(v) ==> {
                &&& *v == old(self).group_map()[id.0].value
                &&& final(self).group_map() == old(self).group_map().insert(
                    id.0,
                    Group { value: *final(v), ..old(self).group_map()[id.0] },
                )
            },
            r is None ==> final(self).group_map() == old(self).group_map(),
            final(self).node_map() == old(self).node_map(),
            final(self).connections() == old(self).connections(),
            final(self).node_slots() == old(self).node_slots(),
            final(self).group_slots() == old(self).group_slots(),
    {
        match self.groups.get_mut(id.0) {
            Some(g) => Some(&mut g.value),
            None => None,
        }
    }

    /// The value of an existing group (what indexing the graph by a group id gives).
    pub fn index_group(&self, id: GroupId) -> (r: &G)
        requires
            self.has_group(id),
        ensures
            *r == self.group_map()[id.0].value,
    {
        &self.groups.get(id.0).unwrap().value
    }

    /// A mutable reference to the value of an existing group (what indexing
    /// the graph mutably by a group id gives).
    pub fn index_group_mut(&mut self, id: GroupId) -> (r: &mut G)
        requires
            old(self).wf(),
            old(self).has_group(id),
        ensures
            final(self).wf(),
            *r == old(self).group_map()[id.0].value,
            final(self).group_map() == old(self).group_map().insert(
                id.0,
                Group { value: *final(r), ..old(self).group_map()[id.0] },
            ),
            final(self).node_map() == old(self).node_map(),
            final(self).connections() == old(self).connections(),
            final(self).node_slots() == old(self).node_slots(),
            final(self).group_slots() == old(self).group_slots(),
    {
        &mut self.groups.get_mut(id.0).unwrap().value
    }

    /// Returns reference to the group data.
    pub fn group_info(&self, id: GroupId) -> (r: Option<&Group<G>>)
        ensures
            r is Some <==> self.has_group(id),
            r matches Some(g) ==> *g == self.group_map()[id.0],
    {
        self.groups.get(id.0)
    }

    /// Returns mutable reference to the group data.
    ///
    /// The graph stays well formed when the caller leaves `parent` as it was,
    /// or sets it to `None` or to an existing group that is neither this
    /// group nor one below it, as [`set_group_parent`](Self::set_group_parent)
    /// asks.
    pub fn group_info_mut(&mut self, id: GroupId) -> (r: Option<&mut Group<G>>)
        requires
            old(self).wf(),
        ensures
            r is Some <==> old(self).has_group(id),
            r matches Some(g) ==> {
                &&& *g == old(self).group_map()[id.0]
                &&& final(self).group_map() == old(self).group_map().insert(id.0, *final(g))
                &&& (final(g).parent == g.parent || (final(g).parent matches Some(p)
                    ==> old(self).has_group(p) && !old(self).in_chain(id, Some(p))))
                    ==> final(self).wf()
            },
            r is None ==> final(self).group_map() == old(self).group_map() && final(self).wf(),
            final(self).node_map() == old(self).node_map(),
            final(self).connections() == old(self).connections(),
            final(self).node_slots() == old(self).node_slots(),
            final(self).group_slots() == old(self).group_slots(),
    {
        let ghost before = *self;
        proof {
            if before.groups@.contains_key(id.0) {
                if let Some(q) = before.groups@[id.0].parent {
                    assert(before.groups@.contains_key(q.0));
                    if before.in_chain(id, Some(q)) {
                        let k = choose|k: nat| before.chain(Some(q), k) == Some(id);
                        before.lemma_chain_ranks(q, k);
                    }
                }
                let bound = before.lemma_rank_bound();
                self.rank@ = before.lifted_rank(id, bound);
                before.lemma_lifted_ranks(id, bound);
            }
        }
        self.groups.get_mut(id.0)
    }

    /// Opens or collapses a group.
    pub fn open_group(&mut self, id: GroupId, open: bool)
        requires
            old(self).wf(),
            old(self).has_group(id),
        ensures
            final(self).wf(),
            final(self).group_map() == old(self).group_map().insert(
                id.0,
                Group { open, ..old(self).group_map()[id.0] },
            ),
            final(self).node_map() == old(self).node_map(),
            final(self).connections() == old(self).connections(),
            final(self).node_slots() == old(self).node_slots(),
            final(self).group_slots() == old(self).group_slots(),
    {
        match self.groups.get_mut(id.0) {
            Some(g) => {
                g.open = open;
            },
            None => {},
        }
    }

    /// Sets the parent group of a group.
    ///
    /// The parent must exist and must not be the group itself or one of the
    /// groups below it: that would create a cycle.
    pub fn set_group_parent(&mut self, group: GroupId, parent: Option<GroupId>)
        requires
            old(self).wf(),
            old(self).has_group(group),
            parent matches Some(p) ==> old(self).has_group(p) && !old(self).in_chain(group, Some(p)),
        ensures
            final(self).wf(),
            final(self).group_map() == old(self).group_map().insert(
                group.0,
                Group { parent, ..old(self).group_map()[group.0] },
            ),
            final(self).node_map() == old(self).node_map(),
            final(self).connections() == old(self).connections(),
            final(self).node_slots() == old(self).node_slots(),
            final(self).group_slots() == old(self).group_slots(),
    {
        let ghost before = *self;
        match self.groups.get_mut(group.0) {
            Some(g) => {
                g.parent = parent;
            },
            None => {},
        }
        proof {
            if let Some(p) = parent {
                assert(before.groups@.contains_key(p.0));
                let shift: nat = before.rank@[p.0] + 1;
                self.rank@ = before.lifted_rank(group, shift);
                before.lemma_lifted_ranks(group, shift);
                assert(self.groups@ == before.groups@.insert(
                    group.0,
                    Group { parent, ..before.groups@[group.0] },
                ));
            } else {
                Self::lemma_ranks_kept(&before, self);
            }
        }
    }

    /// Removes a group from the Snarl.
    /// All child nodes and subgroups are moved to the parent group (or root).
    ///
    /// Returns the group value.
    pub fn remove_group(&mut self, id: GroupId) -> (value: G)
        requires
            old(self).wf(),
            old(self).has_group(id),
        ensures
            final(self).wf(),
            value == old(self).group_map()[id.0].value,
            final(self).group_map() == old(self).group_map().remove(id.0).map_values(
                |g: Group<G>| reparent_group(g, id, old(self).group_map()[id.0].parent),
            ),
            final(self).node_map() == old(self).node_map().map_values(
                |n: Node<T>| regroup_node(n, id, old(self).group_map()[id.0].parent),
            ),
            forall|n: NodeId| #[trigger]
                final(self).node_group(n) == if old(self).node_group(n) == Some(id) {
                    old(self).parent_of(id)
                } else {
                    old(self).node_group(n)
                },
            forall|n: NodeId| #[trigger] final(self).node_group(n) != Some(id),
            forall|g: GroupId| #[trigger] final(self).parent_of(g) != Some(id),
            final(self).connections() == old(self).connections(),
            final(self).node_slots() == old(self).node_slots(),
            final(self).group_slots() == slots_after_remove(old(self).group_slots(), id.0),
    {
        let ghost before = *self;
        let group = self.groups.remove(id.0);
        let parent = group.parent;
        let ghost mid = *self;
        proof {
            assert(before.groups@.contains_key(id.0));
        }
        let node_slots: usize = self.nodes.slots();
        let mut k: usize = 0;
        while k < node_slots
            invariant
                k <= node_slots,
                node_slots == self.nodes.slot_count(),
                self.groups == mid.groups,
                self.wires == mid.wires,
                self.rank == mid.rank,
                self.nodes.wf(),
                self.nodes.slot_count() == before.nodes.slot_count(),
                self.nodes.vacancies() == before.nodes.vacancies(),
                self.nodes@.dom() == before.nodes@.dom(),
                forall|key: usize| #[trigger]
                    self.nodes@.contains_key(key) ==> self.nodes@[key] == if key < k {
                        regroup_node(before.nodes@[key], id, parent)
                    } else {
                        before.nodes@[key]
                    },
            decreases node_slots - k,
        {
            match self.nodes.get_mut(k) {
                Some(node) => {
                    match node.group {
                        Some(g) => {
                            if g == id {
                                node.group = parent;
                            }
                        },
                        None => {},
                    }
                },
                None => {},
            }
            k = k + 1;
        }
        proof {
            self.nodes.lemma_wf();
        }
        let ghost mid2 = *self;
        let group_slots: usize = self.groups.slots();
        let mut k: usize = 0;
        while k < group_slots
            invariant
                k <= group_slots,
                group_slots == self.groups.slot_count(),
                self.nodes == mid2.nodes,
                self.wires == mid2.wires,
                self.rank == mid2.rank,
                self.groups.wf(),
                self.groups.slot_count() == before.groups.slot_count(),
                self.groups.vacancies() == seq![id.0].add(before.groups.vacancies()),
                self.groups@.dom() == before.groups@.dom().remove(id.0),
                forall|key: usize| #[trigger]
                    self.groups@.contains_key(key) ==> self.groups@[key] == if key < k {
                        reparent_group(before.groups@[key], id, parent)
                    } else {
                        before.groups@[key]
                    },
            decreases group_slots - k,
        {
            match self.groups.get_mut(k) {
                Some(g) => {
                    match g.parent {
                        Some(p) => {
                            if p == id {
                                g.parent = parent;
                            }
                        },
                        None => {},
                    }
                },
                None => {},
            }
            k = k + 1;
        }
        proof {
            self.groups.lemma_wf();
            self.nodes.lemma_wf();
            assert(self.nodes@ =~= before.nodes@.map_values(
                |n: Node<T>| regroup_node(n, id, parent),
            ));
            assert(self.groups@ =~= before.groups@.remove(id.0).map_values(
                |g: Group<G>| reparent_group(g, id, parent),
            ));
            Self::lemma_wires_still_join(&before, self, Set::empty());
            assert forall|g: usize| #![trigger self.groups@.contains_key(g)]
                self.groups@.contains_key(g) implies {
                &&& self.rank@.contains_key(g)
                &&& (self.groups@[g].parent matches Some(q) ==> self.groups@.contains_key(q.0)
                    && self.rank@.contains_key(q.0) && self.rank@[q.0] < self.rank@[g])
            } by {
                assert(before.groups@.contains_key(g));
                assert(before.groups@.contains_key(id.0));
                if let Some(q) = before.groups@[g].parent {
                    assert(before.groups@.contains_key(q.0));
                    if q == id {
                        if let Some(pp) = parent {
                            assert(before.groups@.contains_key(pp.0));
                        }
                    }
                }
            }
            assert(parent != Some(id));
            assert forall|n: NodeId| #[trigger]
                self.node_group(n) == if before.node_group(n) == Some(id) {
                    before.parent_of(id)
                } else {
                    before.node_group(n)
                } by {
                if self.has_node(n) {
                    assert(before.has_node(n));
                }
            }
            assert forall|n: NodeId| #[trigger] self.node_group(n) != Some(id) by {
                if self.has_node(n) {
                    assert(before.has_node(n));
                }
            }
            assert forall|g: GroupId| #[trigger] self.parent_of(g) != Some(id) by {
                if self.has_group(g) {
                    assert(before.groups@.contains_key(g.0));
                }
            }
        }
        group.value
    }

    /// One step up from `cur`: the parent of the group, if any.
    pub open spec fn step(&self, cur: Option<GroupId>) -> Option<GroupId> {
        match cur {
            None => None,
            Some(g) => self.parent_of(g),
        }
    }

    /// The group that a node belongs to; `None` for a root node or a missing one.
    pub open spec fn node_group(&self, n: NodeId) -> Option<GroupId> {
        if self.has_node(n) {
            self.node_map()[n.0].group
        } else {
            None
        }
    }

    /// Whether `cur` is an existing group that is collapsed.
    pub open spec fn collapsed_at(&self, cur: Option<GroupId>) -> bool {
        cur matches Some(h) && self.has_group(h) && !self.group_map()[h.0].open
    }

    /// Whether `group` exists and it or a group above it is collapsed.
    pub open spec fn group_collapsed(&self, group: GroupId) -> bool {
        self.has_group(group) && exists|k: nat| self.collapsed_at(#[trigger] self.chain(Some(group), k))
    }

    /// The chain advances by one step at its end.
    pub proof fn lemma_chain_next(&self, start: Option<GroupId>, n: nat)
        ensures
            self.chain(start, n + 1) == self.step(self.chain(start, n)),
        decreases n,
    {
        if n > 0 {
            if let Some(s) = start {
                self.lemma_chain_next(self.parent_of(s), (n - 1) as nat);
                assert(self.chain(Some(s), n + 1) == self.chain(self.parent_of(s), n));
                assert(self.chain(Some(s), n) == self.chain(self.parent_of(s), (n - 1) as nat));
            }
        } else {
            if let Some(s) = start {
                assert(self.chain(Some(s), 1) == self.chain(self.parent_of(s), 0));
            }
        }
    }

    /// Once the chain has ended it stays ended.
    pub proof fn lemma_chain_ended(&self, start: Option<GroupId>, n: nat, m: nat)
        requires
            self.chain(start, n) is None,
            n <= m,
        ensures
            self.chain(start, m) is None,
        decreases m - n,
    {
        if n < m {
            self.lemma_chain_next(start, n);
            self.lemma_chain_ended(start, n + 1, m);
        }
    }

    /// Following `i` and then `j` parents is following `i + j` parents.
    pub proof fn lemma_chain_add(&self, start: Option<GroupId>, i: nat, j: nat)
        ensures
            self.chain(start, i + j) == self.chain(self.chain(start, i), j),
        decreases j,
    {
        if j > 0 {
            self.lemma_chain_add(start, i, (j - 1) as nat);
            self.lemma_chain_next(start, (i + j - 1) as nat);
            self.lemma_chain_next(self.chain(start, i), (j - 1) as nat);
        }
    }

    /// A chain that comes back to a group it passed never ends.
    proof fn lemma_cycle_at(&self, start: Option<GroupId>, i: nat, j: nat, k: nat)
        requires
            i < j,
            self.chain(start, i) == self.chain(start, j),
            self.chain(start, j) is Some,
        ensures
            self.chain(start, k) is Some,
        decreases k,
    {
        if k <= j {
            if self.chain(start, k) is None {
                self.lemma_chain_ended(start, k, j);
            }
        } else {
            let d = (k - j) as nat;
            self.lemma_chain_add(start, j, d);
            self.lemma_chain_add(start, i, d);
            self.lemma_cycle_at(start, i, j, i + d);
        }
    }

    /// How many groups the chain from `g` passes (`g` included) before it
    /// ends; `None` when it comes back to a group it passed, and so never ends.
    fn chain_length(&self, g: GroupId) -> (r: Option<usize>)
        requires
            self.groups.wf(),
            self.has_group(g),
            forall|h: usize|
                #![trigger self.groups@.contains_key(h)]
                self.groups@.contains_key(h) ==> (self.groups@[h].parent matches Some(p)
                    ==> self.groups@.contains_key(p.0)),
        ensures
            r matches Some(n) ==> {
                &&& self.chain(Some(g), n as nat) is None
                &&& forall|j: nat| j < n ==> (#[trigger] self.chain(Some(g), j)) is Some
            },
            r is None ==> forall|k: nat| (#[trigger] self.chain(Some(g), k)) is Some,
    {
        proof {
            self.groups.lemma_wf();
        }
        let n = self.groups.slots();
        let mut seen: Vec<bool> = Vec::new();
        while seen.len() < n
            invariant
                seen@.len() <= n,
                forall|k: int| 0 <= k < seen@.len() ==> !(#[trigger] seen@[k]),
            decreases n - seen@.len(),
        {
            seen.push(false);
        }
        let ghost mut path: Seq<usize> = Seq::empty();
        let mut cur: Option<GroupId> = Some(g);
        let mut steps: usize = 0;
        while cur.is_some()
            invariant
                self.groups.wf(),
                n == self.groups.slot_count(),
                forall|k: usize| #[trigger] self.groups@.contains_key(k) ==> k < n,
                forall|h: usize|
                    #![trigger self.groups@.contains_key(h)]
                    self.groups@.contains_key(h) ==> (self.groups@[h].parent matches Some(p)
                        ==> self.groups@.contains_key(p.0)),
                seen@.len() == n,
                steps == path.len(),
                steps <= n,
                cur == self.chain(Some(g), steps as nat),
                cur matches Some(c) ==> self.has_group(c),
                forall|i: int|
                    0 <= i < path.len() ==> self.chain(Some(g), i as nat) == Some(
                        GroupId(#[trigger] path[i]),
                    ),
                path.no_duplicates(),
                forall|i: int| 0 <= i < path.len() ==> #[trigger] path[i] < n,
                forall|k: int| 0 <= k < n ==> (#[trigger] seen@[k] <==> path.contains(k as usize)),
            decreases n - steps,
        {
            let c = cur.unwrap();
            assert(self.groups@.contains_key(c.0));
            if seen[c.0] {
                proof {
                    let i = choose|i: int| 0 <= i < path.len() && path[i] == c.0;
                    assert(self.chain(Some(g), i as nat) == Some(GroupId(path[i])));
                    assert forall|k: nat| (#[trigger] self.chain(Some(g), k)) is Some by {
                        self.lemma_cycle_at(Some(g), i as nat, steps as nat, k);
                    }
                }
                return None;
            }
            seen.set(c.0, true);
            proof {
                let old_path = path;
                path = old_path.push(c.0);
                crate::seq_facts::lemma_push_no_duplicates(old_path, c.0);
                crate::seq_facts::lemma_distinct_below(path, n);
                assert forall|k: int| 0 <= k < n implies (#[trigger] seen@[k] <==> path.contains(
                    k as usize,
                )) by {
                    crate::seq_facts::lemma_push_contains(old_path, c.0, k as usize);
                }
                self.lemma_chain_next(Some(g), steps as nat);
            }
            cur = match self.groups.get(c.0) {
                Some(info) => info.parent,
                None => None,
            };
            steps = steps + 1;
        }
        proof {
            assert forall|j: nat| j < steps implies (#[trigger] self.chain(Some(g), j)) is Some by {
                assert(self.chain(Some(g), j) == Some(GroupId(path[j as int])));
            }
        }
        Some(steps)
    }

    /// Above an existing group, every group exists and ranks lower by at
    /// least the number of steps.
    proof fn lemma_chain_ranks(&self, g: GroupId, k: nat)
        requires
            self.wf(),
            self.has_group(g),
        ensures
            self.chain(Some(g), k) matches Some(h) ==> self.has_group(h) && self.rank@[h.0] + k
                <= self.rank@[g.0],
        decreases k,
    {
        if k > 0 {
            self.lemma_chain_ranks(g, (k - 1) as nat);
            self.lemma_chain_next(Some(g), (k - 1) as nat);
            if let Some(h) = self.chain(Some(g), (k - 1) as nat) {
                assert(self.groups@.contains_key(h.0));
            }
        }
    }

    /// Above an existing group, every group exists.
    pub proof fn lemma_chain_exists(&self, g: GroupId, k: nat)
        requires
            self.wf(),
            self.has_group(g),
        ensures
            self.chain(Some(g), k) matches Some(h) ==> self.has_group(h),
    {
        self.lemma_chain_ranks(g, k);
    }

    spec fn walk_measure(&self, cur: Option<GroupId>) -> nat {
        match cur {
            None => 0,
            Some(g) => if self.has_group(g) {
                self.rank@[g.0] + 2
            } else {
                1
            },
        }
    }

    /// The group `group` (when given) followed by the groups above it, up to the root.
    fn group_ancestor_ids(&self, group: Option<GroupId>) -> (r: Vec<GroupId>)
        requires
            self.wf(),
        ensures
            forall|i: int| 0 <= i < r@.len() ==> self.chain(group, i as nat) == Some(#[trigger] r@[i]),
            self.chain(group, r@.len()) is None,
    {
        let mut r: Vec<GroupId> = Vec::new();
        let mut cur = group;
        while cur.is_some()
            invariant
                self.wf(),
                cur == self.chain(group, r@.len()),
                forall|i: int| 0 <= i < r@.len() ==> self.chain(group, i as nat) == Some(#[trigger] r@[i]),
            decreases self.walk_measure(cur),
        {
            let g = cur.unwrap();
            proof {
                self.lemma_chain_next(group, r@.len());
                if self.has_group(g) {
                    assert(self.groups@.contains_key(g.0));
                }
            }
            r.push(g);
            cur = match self.groups.get(g.0) {
                Some(info) => info.parent,
                None => None,
            };
        }
        r
    }

    /// `ids` lists the whole chain from `start`: `a` is on the chain exactly
    /// when `ids` holds it.
    proof fn lemma_ids_in_chain(&self, start: Option<GroupId>, ids: Seq<GroupId>, a: GroupId)
        requires
            forall|i: int| 0 <= i < ids.len() ==> self.chain(start, i as nat) == Some(#[trigger] ids[i]),
            self.chain(start, ids.len()) is None,
        ensures
            self.in_chain(a, start) <==> ids.contains(a),
    {
        if self.in_chain(a, start) {
            let k = choose|k: nat| self.chain(start, k) == Some(a);
            if k >= ids.len() {
                self.lemma_chain_ended(start, ids.len(), k);
            }
            assert(ids[k as int] == a);
        }
        if ids.contains(a) {
            let i = choose|i: int| 0 <= i < ids.len() && ids[i] == a;
            assert(self.chain(start, i as nat) == Some(a));
        }
    }

    /// Returns true if the group is an ancestor of the given group.
    /// Every group is its own ancestor.
    pub fn is_ancestor(&self, ancestor: GroupId, descendant: GroupId) -> (r: bool)
        requires
            self.wf(),
        ensures
            r == self.in_chain(ancestor, Some(descendant)),
    {
        let ids = self.group_ancestor_ids(Some(descendant));
        proof {
            self.lemma_ids_in_chain(Some(descendant), ids@, ancestor);
        }
        let mut i: usize = 0;
        while i < ids.len()
            invariant
                i <= ids@.len(),
                forall|j: int| 0 <= j < i ==> ids@[j] != ancestor,
                self.in_chain(ancestor, Some(descendant)) <==> ids@.contains(ancestor),
            decreases ids@.len() - i,
        {
            if ids[i] == ancestor {
                proof {
                    assert(ids@[i as int] == ancestor);
                }
                return true;
            }
            i = i + 1;
        }
        false
    }

    /// Returns true if the node is inside the given group or any of its descendants.
    pub fn node_in_group_recursive(&self, node: NodeId, group: GroupId) -> (r: bool)
        requires
            self.wf(),
        ensures
            r == self.in_chain(group, self.node_group(node)),
    {
        let start = match self.nodes.get(node.0) {
            Some(n) => n.group,
            None => None,
        };
        let ids = self.group_ancestor_ids(start);
        proof {
            self.lemma_ids_in_chain(start, ids@, group);
        }
        let mut i: usize = 0;
        while i < ids.len()
            invariant
                i <= ids@.len(),
                forall|j: int| 0 <= j < i ==> ids@[j] != group,
                self.in_chain(group, start) <==> ids@.contains(group),
                start == self.node_group(node),
            decreases ids@.len() - i,
        {
            if ids[i] == group {
                proof {
                    assert(ids@[i as int] == group);
                }
                return true;
            }
            i = i + 1;
        }
        false
    }

    /// Returns true if the given group (or any ancestor) is collapsed.
    /// A group that does not exist is not collapsed.
    pub fn is_group_collapsed(&self, group: GroupId) -> (r: bool)
        requires
            self.wf(),
        ensures
            r == self.group_collapsed(group),
    {
        let ids = self.group_ancestor_ids(Some(group));
        let mut i: usize = 0;
        while i < ids.len()
            invariant
                self.wf(),
                i <= ids@.len(),
                forall|j: int| 0 <= j < ids@.len() ==> self.chain(Some(group), j as nat) == Some(#[trigger] ids@[j]),
                self.chain(Some(group), ids@.len()) is None,
                forall|j: nat| j < i ==> !self.collapsed_at(#[trigger] self.chain(Some(group), j)),
                i > 0 ==> self.has_group(group),
            decreases ids@.len() - i,
        {
            match self.groups.get(ids[i].0) {
                Some(g) => {
                    if !g.open {
                        proof {
                            assert(self.chain(Some(group), i as nat) == Some(ids@[i as int]));
                            assert(self.collapsed_at(self.chain(Some(group), i as nat)));
                            if i == 0 {
                                assert(self.chain(Some(group), 0) == Some(group));
                            }
                        }
                        return true;
                    }
                },
                None => {
                    proof {
                        if i > 0 {
                            self.lemma_chain_exists(group, i as nat);
                            assert(self.chain(Some(group), i as nat) == Some(ids@[i as int]));
                        } else {
                            assert(self.chain(Some(group), 0) == Some(group));
                        }
                    }
                    return false;
                },
            }
            proof {
                if i == 0 {
                    assert(self.chain(Some(group), 0) == Some(group));
                }
            }
            i = i + 1;
        }
        proof {
            assert forall|k: nat| !self.collapsed_at(#[trigger] self.chain(Some(group), k)) by {
                if k >= ids@.len() {
                    self.lemma_chain_ended(Some(group), ids@.len(), k);
                }
            }
        }
        false
    }

    /// Returns true if the node is hidden because its group (or an ancestor group) is collapsed.
    pub fn is_node_hidden(&self, node: NodeId) -> (r: bool)
        requires
            self.wf(),
        ensures
            r == (self.node_group(node) matches Some(g) && self.group_collapsed(g)),
    {
        match self.nodes.get(node.0) {
            Some(n) => match n.group {
                Some(g) => self.is_group_collapsed(g),
                None => false,
            },
            None => false,
        }
    }

    /// Returns the outermost collapsed group that hides this node, if any.
    /// This is the group whose visual rect should be used as a wire endpoint.
    pub(crate) fn node_collapsed_group(&self, node: NodeId) -> (r: Option<GroupId>)
        requires
            self.wf(),
        ensures
            r is None <==> forall|k: nat| !self.collapsed_at(#[trigger] self.chain(self.node_group(node), k)),
            r matches Some(g) ==> exists|k: nat| {
                &&& #[trigger] self.chain(self.node_group(node), k) == Some(g)
                &&& self.collapsed_at(Some(g))
                &&& forall|j: nat| j > k ==> !self.collapsed_at(#[trigger] self.chain(self.node_group(node), j))
            },
    {
        let start = match self.nodes.get(node.0) {
            Some(n) => n.group,
            None => None,
        };
        let ids = self.group_ancestor_ids(start);
        let mut found: Option<GroupId> = None;
        let ghost mut found_at: nat = 0;
        let mut i: usize = 0;
        while i < ids.len()
            invariant
                self.wf(),
                start == self.node_group(node),
                i <= ids@.len(),
                forall|j: int| 0 <= j < ids@.len() ==> self.chain(start, j as nat) == Some(#[trigger] ids@[j]),
                self.chain(start, ids@.len()) is None,
                found is None ==> forall|j: nat| j < i ==> !self.collapsed_at(#[trigger] self.chain(start, j)),
                found matches Some(g) ==> {
                    &&& found_at < i
                    &&& self.chain(start, found_at) == Some(g)
                    &&& self.collapsed_at(Some(g))
                    &&& forall|j: nat| found_at < j < i ==> !self.collapsed_at(#[trigger] self.chain(start, j))
                },
            decreases ids@.len() - i,
        {
            let id = ids[i];
            let closed = match self.groups.get(id.0) {
                Some(g) => !g.open,
                None => false,
            };
            proof {
                assert(self.chain(start, i as nat) == Some(ids@[i as int]));
            }
            if closed {
                found = Some(id);
                proof {
                    found_at = i as nat;
                }
            }
            i = i + 1;
        }
        proof {
            assert forall|k: nat| k >= ids@.len() implies !self.collapsed_at(#[trigger] self.chain(start, k)) by {
                self.lemma_chain_ended(start, ids@.len(), k);
            }
            if let Some(g) = found {
                assert(self.chain(start, found_at) == Some(g));
            }
        }
        found
    }

    /// Whether the node under key `k` belongs to group `g` directly.
    pub open spec fn node_in_pred(&self, g: GroupId) -> spec_fn(usize) -> bool {
        |k: usize| self.node_group(NodeId(k)) == Some(g)
    }

    /// Whether the group under key `k` has `g` as its parent.
    pub open spec fn group_child_pred(&self, g: GroupId) -> spec_fn(usize) -> bool {
        |k: usize| self.parent_of(GroupId(k)) == Some(g)
    }

    /// The nodes that belong to `g` directly, by increasing key.
    pub open spec fn member_list(&self, g: GroupId) -> Seq<NodeId> {
        as_node_ids(self.node_keys().filter(self.node_in_pred(g)))
    }

    /// The groups whose parent is `g`, by increasing key.
    pub open spec fn child_list(&self, g: GroupId) -> Seq<GroupId> {
        as_group_ids(self.group_keys().filter(self.group_child_pred(g)))
    }

    /// The direct members of a group come by increasing key and are exactly
    /// the nodes whose group it is.
    pub proof fn lemma_member_list(&self, g: GroupId)
        requires
            self.wf(),
        ensures
            forall|i: int, j: int|
                0 <= i < j < self.member_list(g).len() ==> self.member_list(g)[i].0 < self.member_list(g)[j].0,
            forall|n: NodeId| #[trigger] self.member_list(g).contains(n) <==> self.node_group(n) == Some(g),
            self.member_list(g).no_duplicates(),
    {
        self.lemma_keys();
        let f = self.node_keys().filter(self.node_in_pred(g));
        lemma_filter_facts(self.node_keys(), self.node_in_pred(g));
        assert forall|n: NodeId| #[trigger] self.member_list(g).contains(n) <==> self.node_group(n) == Some(g) by {
            if self.member_list(g).contains(n) {
                let i = choose|i: int| 0 <= i < self.member_list(g).len() && self.member_list(g)[i] == n;
                assert(f.contains(f[i]));
            }
            if self.node_group(n) == Some(g) {
                assert(self.node_keys().contains(n.0));
                assert(f.contains(n.0));
                let i = choose|i: int| 0 <= i < f.len() && f[i] == n.0;
                assert(self.member_list(g)[i] == n);
            }
        }
    }

    /// The children of a group come by increasing key and are exactly the
    /// groups whose parent it is.
    pub proof fn lemma_child_list(&self, g: GroupId)
        requires
            self.wf(),
        ensures
            forall|i: int, j: int|
                0 <= i < j < self.child_list(g).len() ==> self.child_list(g)[i].0 < self.child_list(g)[j].0,
            forall|c: GroupId| #[trigger] self.child_list(g).contains(c) <==> self.parent_of(c) == Some(g),
            self.child_list(g).no_duplicates(),
    {
        self.lemma_keys();
        let f = self.group_keys().filter(self.group_child_pred(g));
        lemma_filter_facts(self.group_keys(), self.group_child_pred(g));
        assert forall|c: GroupId| #[trigger] self.child_list(g).contains(c) <==> self.parent_of(c) == Some(g) by {
            if self.child_list(g).contains(c) {
                let i = choose|i: int| 0 <= i < self.child_list(g).len() && self.child_list(g)[i] == c;
                assert(f.contains(f[i]));
            }
            if self.parent_of(c) == Some(g) {
                assert(self.group_keys().contains(c.0));
                assert(f.contains(c.0));
                let i = choose|i: int| 0 <= i < f.len() && f[i] == c.0;
                assert(self.child_list(g)[i] == c);
            }
        }
    }

    /// Iterates over direct child nodes of a group: their ids in increasing order.
    pub fn group_nodes(&self, group: GroupId) -> (r: Vec<NodeId>)
        requires
            self.wf(),
        ensures
            r@ == self.member_list(group),
            forall|i: int, j: int| 0 <= i < j < r@.len() ==> r@[i].0 < r@[j].0,
            forall|n: NodeId| #[trigger] r@.contains(n) <==> self.node_group(n) == Some(group),
    {
        let keys = self.nodes.key_list();
        let ghost pred = self.node_in_pred(group);
        let mut r: Vec<NodeId> = Vec::new();
        let mut i: usize = 0;
        while i < keys.len()
            invariant
                keys@ == self.node_keys(),
                pred == self.node_in_pred(group),
                i <= keys@.len(),
                r@ == as_node_ids(keys@.take(i as int).filter(pred)),
            decreases keys@.len() - i,
        {
            let k: usize = keys[i];
            let in_group = match self.nodes.get(k) {
                Some(node) => match node.group {
                    Some(g) => g == group,
                    None => false,
                },
                None => false,
            };
            proof {
                assert(keys@.take(i + 1) =~= keys@.take(i as int).push(k));
                keys@.take(i as int).lemma_filter_push(k, pred);
                assert(in_group == pred(k));
            }
            if in_group {
                r.push(NodeId(k));
            }
            proof {
                assert(r@ =~= as_node_ids(keys@.take(i + 1).filter(pred)));
            }
            i = i + 1;
        }
        proof {
            assert(keys@.take(keys@.len() as int) =~= keys@);
            self.lemma_member_list(group);
        }
        r
    }

    /// Iterates over direct child groups of a group: their ids in increasing order.
    pub fn group_subgroups(&self, group: GroupId) -> (r: Vec<GroupId>)
        requires
            self.wf(),
        ensures
            r@ == self.child_list(group),
            forall|i: int, j: int| 0 <= i < j < r@.len() ==> r@[i].0 < r@[j].0,
            forall|c: GroupId| #[trigger] r@.contains(c) <==> self.parent_of(c) == Some(group),
    {
        let keys = self.groups.key_list();
        let ghost pred = self.group_child_pred(group);
        let mut r: Vec<GroupId> = Vec::new();
        let mut i: usize = 0;
        while i < keys.len()
            invariant
                keys@ == self.group_keys(),
                pred == self.group_child_pred(group),
                i <= keys@.len(),
                r@ == as_group_ids(keys@.take(i as int).filter(pred)),
            decreases keys@.len() - i,
        {
            let k: usize = keys[i];
            let is_child = match self.groups.get(k) {
                Some(g) => match g.parent {
                    Some(p) => p == group,
                    None => false,
                },
                None => false,
            };
            proof {
                assert(keys@.take(i + 1) =~= keys@.take(i as int).push(k));
                keys@.take(i as int).lemma_filter_push(k, pred);
                assert(is_child == pred(k));
            }
            if is_child {
                r.push(GroupId(k));
            }
            proof {
                assert(r@ =~= as_group_ids(keys@.take(i + 1).filter(pred)));
            }
            i = i + 1;
        }
        proof {
            assert(keys@.take(keys@.len() as int) =~= keys@);
            self.lemma_child_list(group);
        }
        r
    }

    /// The existing groups that have `g` on their chain: `g` and all groups below it.
    pub closed spec fn subtree(&self, g: GroupId) -> Set<usize> {
        self.groups@.dom().filter(|x: usize| self.in_chain(g, Some(GroupId(x))))
    }

    /// Whether `s` lists, once each, the nodes that lie in `g` or below it.
    pub open spec fn lists_nodes_under(&self, g: GroupId, s: Seq<NodeId>) -> bool {
        &&& s.no_duplicates()
        &&& forall|n: NodeId| #[trigger] s.contains(n) <==> self.in_chain(g, self.node_group(n))
    }

    /// A group is never above its own parent.
    pub proof fn lemma_child_not_above(&self, g: GroupId, c: GroupId)
        requires
            self.wf(),
            self.parent_of(c) == Some(g),
        ensures
            !self.in_chain(c, Some(g)),
    {
        assert(self.groups@.contains_key(c.0));
        if self.in_chain(c, Some(g)) {
            let k = choose|k: nat| self.chain(Some(g), k) == Some(c);
            self.lemma_chain_ranks(g, k);
        }
    }

    /// The chain from anywhere reaches `g` after reaching a child of `g`.
    pub proof fn lemma_ascend(&self, g: GroupId, c: GroupId, start: Option<GroupId>)
        requires
            self.parent_of(c) == Some(g),
            self.in_chain(c, start),
        ensures
            self.in_chain(g, start),
    {
        let k = choose|k: nat| self.chain(start, k) == Some(c);
        self.lemma_chain_next(start, k);
        assert(self.chain(start, k + 1) == Some(g));
    }

    /// A chain that reaches `g` from elsewhere passes a child of `g` just before.
    pub proof fn lemma_descend(&self, g: GroupId, h: GroupId)
        requires
            self.in_chain(g, Some(h)),
            h != g,
        ensures
            exists|c: GroupId| self.parent_of(c) == Some(g) && #[trigger] self.in_chain(c, Some(h)),
    {
        let k = choose|k: nat| self.chain(Some(h), k) == Some(g);
        assert(k != 0);
        self.lemma_chain_next(Some(h), (k - 1) as nat);
        let c = self.chain(Some(h), (k - 1) as nat)->0;
        assert(self.chain(Some(h), (k - 1) as nat) == Some(c));
        assert(self.parent_of(c) == Some(g));
        assert(self.in_chain(c, Some(h)));
    }

    /// No chain passes two different children of the same group.
    pub proof fn lemma_children_disjoint(
        &self,
        g: GroupId,
        c1: GroupId,
        c2: GroupId,
        start: Option<GroupId>,
    )
        requires
            self.wf(),
            self.parent_of(c1) == Some(g),
            self.parent_of(c2) == Some(g),
            c1 != c2,
        ensures
            !(self.in_chain(c1, start) && self.in_chain(c2, start)),
    {
        if self.in_chain(c1, start) && self.in_chain(c2, start) {
            let a = choose|k: nat| self.chain(start, k) == Some(c1);
            let b = choose|k: nat| self.chain(start, k) == Some(c2);
            self.lemma_child_not_above(g, c1);
            self.lemma_child_not_above(g, c2);
            if a < b {
                self.lemma_chain_add(start, a, (b - a) as nat);
                assert(self.chain(Some(c1), (b - a) as nat) == self.chain(Some(g), (b - a - 1) as nat));
                assert(self.in_chain(c2, Some(g)));
            } else {
                assert(a != b);
                self.lemma_chain_add(start, b, (a - b) as nat);
                assert(self.chain(Some(c2), (a - b) as nat) == self.chain(Some(g), (a - b - 1) as nat));
                assert(self.in_chain(c1, Some(g)));
            }
        }
    }

    /// The groups below a child are fewer than the groups below its parent.
    pub proof fn lemma_subtree_shrinks(&self, g: GroupId, c: GroupId)
        requires
            self.wf(),
            self.parent_of(c) == Some(g),
        ensures
            self.subtree(c).len() < self.subtree(g).len(),
    {
        self.groups.lemma_wf();
        assert(self.groups@.contains_key(c.0));
        assert(self.groups@.contains_key(g.0));
        self.groups@.dom().lemma_len_filter(|x: usize| self.in_chain(g, Some(GroupId(x))));
        assert forall|x: usize| self.subtree(c).contains(x) implies self.subtree(g).contains(x) by {
            self.lemma_ascend(g, c, Some(GroupId(x)));
        }
        self.lemma_in_own_chain(g);
        self.lemma_child_not_above(g, c);
        assert(GroupId(g.0) == g);
        self.subtree(c).lemma_subset_not_in_lt(self.subtree(g), g.0);
    }

    /// The nodes that `group_all_descendants(g)` lists: the direct members
    /// of `g` by key, then, for each child group by key, that child's list.
    pub open spec fn descendant_list(&self, g: GroupId) -> Seq<NodeId>
        decreases self.subtree(g).len(), 1nat, 0nat,
    {
        self.member_list(g) + self.lists_of_children(g, self.child_list(g).len())
    }

    /// The lists of the first `n` children of `g`, one after the other.
    pub open spec fn lists_of_children(&self, g: GroupId, n: nat) -> Seq<NodeId>
        decreases self.subtree(g).len(), 0nat, n,
    {
        if n == 0 || n > self.child_list(g).len() {
            Seq::empty()
        } else {
            let c = self.child_list(g)[n - 1];
            if self.wf() && self.parent_of(c) == Some(g) {
                proof {
                    self.lemma_subtree_shrinks(g, c);
                }
                self.lists_of_children(g, (n - 1) as nat) + self.descendant_list(c)
            } else {
                self.lists_of_children(g, (n - 1) as nat)
            }
        }
    }

    /// The list of `g` holds each node in `g` or below it, once.
    pub proof fn lemma_descendant_list(&self, g: GroupId)
        requires
            self.wf(),
        ensures
            self.lists_nodes_under(g, self.descendant_list(g)),
        decreases self.subtree(g).len(), 1nat, 0nat,
    {
        let members = self.member_list(g);
        let n = self.child_list(g).len();
        self.lemma_member_list(g);
        self.lemma_child_list(g);
        self.lemma_lists_of_children(g, n);
        let rest = self.lists_of_children(g, n);
        assert forall|x: NodeId| members.contains(x) implies !rest.contains(x) by {
            if rest.contains(x) {
                let j = choose|j: int| 0 <= j < n && #[trigger] self.in_chain(self.child_list(g)[j], self.node_group(x));
                self.lemma_child_not_above(g, self.child_list(g)[j]);
            }
        }
        lemma_add_no_duplicates(members, rest);
        assert forall|x: NodeId| #[trigger] self.descendant_list(g).contains(x) <==> self.in_chain(g, self.node_group(x)) by {
            lemma_add_contains(members, rest, x);
            if self.node_group(x) == Some(g) {
                self.lemma_in_own_chain(g);
            }
            if rest.contains(x) {
                let j = choose|j: int| 0 <= j < n && #[trigger] self.in_chain(self.child_list(g)[j], self.node_group(x));
                self.lemma_ascend(g, self.child_list(g)[j], self.node_group(x));
            }
            if self.in_chain(g, self.node_group(x)) {
                match self.node_group(x) {
                    Some(h) => {
                        if h != g {
                            self.lemma_descend(g, h);
                            let c = choose|c: GroupId| self.parent_of(c) == Some(g)
                                && #[trigger] self.in_chain(c, Some(h));
                            assert(self.child_list(g).contains(c));
                            let j = choose|j: int| 0 <= j < n && self.child_list(g)[j] == c;
                            assert(self.in_chain(self.child_list(g)[j], self.node_group(x)));
                        }
                    },
                    None => {
                        let k = choose|k: nat| self.chain(None, k) == Some(g);
                        assert(k != 0);
                    },
                }
            }
        }
    }

    /// The lists of the first `n` children of `g` hold, once each, the nodes
    /// below one of those children.
    proof fn lemma_lists_of_children(&self, g: GroupId, n: nat)
        requires
            self.wf(),
            n <= self.child_list(g).len(),
        ensures
            self.lists_of_children(g, n).no_duplicates(),
            forall|x: NodeId| #[trigger] self.lists_of_children(g, n).contains(x) <==> exists|j: int|
                0 <= j < n && #[trigger] self.in_chain(self.child_list(g)[j], self.node_group(x)),
        decreases self.subtree(g).len(), 0nat, n,
    {
        if n > 0 {
            let c = self.child_list(g)[n - 1];
            self.lemma_child_list(g);
            assert(self.child_list(g).contains(c));
            self.lemma_subtree_shrinks(g, c);
            self.lemma_lists_of_children(g, (n - 1) as nat);
            self.lemma_descendant_list(c);
            let prev = self.lists_of_children(g, (n - 1) as nat);
            let sub = self.descendant_list(c);
            assert(self.lists_of_children(g, n) == prev + sub);
            assert forall|x: NodeId| prev.contains(x) implies !sub.contains(x) by {
                if sub.contains(x) {
                    let j = choose|j: int| 0 <= j < n - 1 && #[trigger] self.in_chain(self.child_list(g)[j], self.node_group(x));
                    assert(self.child_list(g).contains(self.child_list(g)[j]));
                    self.lemma_children_disjoint(g, self.child_list(g)[j], c, self.node_group(x));
                }
            }
            lemma_add_no_duplicates(prev, sub);
            assert forall|x: NodeId| #[trigger] self.lists_of_children(g, n).contains(x) <==> exists|j: int|
                0 <= j < n && #[trigger] self.in_chain(self.child_list(g)[j], self.node_group(x)) by {
                lemma_add_contains(prev, sub, x);
                if exists|j: int| 0 <= j < n && #[trigger] self.in_chain(self.child_list(g)[j], self.node_group(x)) {
                    let j = choose|j: int| 0 <= j < n && #[trigger] self.in_chain(self.child_list(g)[j], self.node_group(x));
                    if j < n - 1 {
                        assert(prev.contains(x));
                    }
                }
                if sub.contains(x) {
                    assert(self.in_chain(self.child_list(g)[n - 1], self.node_group(x)));
                }
            }
        }
    }

    /// Appends to `result` the list of `group`: its own nodes by key, then
    /// the list of each subgroup in turn, by key.
    fn collect_descendants(&self, group: GroupId, result: &mut Vec<NodeId>)
        requires
            self.wf(),
        ensures
            final(result)@ == old(result)@ + self.descendant_list(group),
        decreases self.subtree(group).len(),
    {
        let ghost base = result@;
        let members = self.group_nodes(group);
        let mut i: usize = 0;
        while i < members.len()
            invariant
                i <= members@.len(),
                result@ == base + members@.take(i as int),
            decreases members@.len() - i,
        {
            result.push(members[i]);
            proof {
                assert(members@.take(i + 1) =~= members@.take(i as int).push(members@[i as int]));
                assert(result@ =~= base + members@.take(i + 1));
            }
            i = i + 1;
        }
        proof {
            assert(members@.take(members@.len() as int) =~= members@);
            self.lemma_child_list(group);
        }
        let children = self.group_subgroups(group);
        let mut j: usize = 0;
        while j < children.len()
            invariant
                self.wf(),
                children@ == self.child_list(group),
                forall|c: GroupId| #[trigger] self.child_list(group).contains(c) ==> self.parent_of(c) == Some(group),
                j <= children@.len(),
                result@ == base + self.member_list(group) + self.lists_of_children(group, j as nat),
            decreases children@.len() - j,
        {
            let c = children[j];
            proof {
                assert(self.child_list(group).contains(c));
                self.lemma_subtree_shrinks(group, c);
            }
            self.collect_descendants(c, result);
            proof {
                assert(self.lists_of_children(group, (j + 1) as nat) == self.lists_of_children(group, j as nat)
                    + self.descendant_list(c));
                assert(result@ =~= base + self.member_list(group) + self.lists_of_children(group, (j + 1) as nat));
            }
            j = j + 1;
        }
        proof {
            assert(result@ =~= base + self.descendant_list(group));
        }
    }

    /// Returns all descendant node IDs of a group (recursive): the nodes of
    /// the group by key, then those of each subgroup in turn, by key; each
    /// node in the group or below it once.
    pub fn group_all_descendants(&self, group: GroupId) -> (r: Vec<NodeId>)
        requires
            self.wf(),
        ensures
            r@ == self.descendant_list(group),
            self.lists_nodes_under(group, r@),
    {
        let mut result: Vec<NodeId> = Vec::new();
        self.collect_descendants(group, &mut result);
        proof {
            assert(result@ =~= self.descendant_list(group));
            self.lemma_descendant_list(group);
        }
        result
    }

    /// The keys of the nodes, in increasing order.
    pub closed spec fn node_keys(&self) -> Seq<usize> {
        self.nodes.keys()
    }

    /// The keys of the groups, in increasing order.
    pub closed spec fn group_keys(&self) -> Seq<usize> {
        self.groups.keys()
    }

    /// The node keys are increasing and are exactly the keys of the nodes;
    /// the same holds of the group keys.
    pub proof fn lemma_keys(&self)
        requires
            self.wf(),
        ensures
            forall|i: int, j: int|
                0 <= i < j < self.node_keys().len() ==> self.node_keys()[i] < self.node_keys()[j],
            forall|k: usize| #[trigger] self.node_keys().contains(k) <==> self.node_map().contains_key(k),
            forall|i: int, j: int|
                0 <= i < j < self.group_keys().len() ==> self.group_keys()[i] < self.group_keys()[j],
            forall|k: usize| #[trigger] self.group_keys().contains(k) <==> self.group_map().contains_key(k),
    {
        self.nodes.lemma_keys();
        self.groups.lemma_keys();
    }

    /// Whether `s` pairs each node key, in increasing order, with its node.
    pub open spec fn lists_nodes(&self, s: Seq<(usize, &Node<T>)>) -> bool {
        &&& s.len() == self.node_keys().len()
        &&& forall|i: int| 0 <= i < s.len() ==> (#[trigger] s[i]).0 == self.node_keys()[i]
            && *s[i].1 == self.node_map()[self.node_keys()[i]]
    }

    fn node_cursor(&self) -> (r: NodeCursor<'_, T>)
        requires
            self.wf(),
        ensures
            self.lists_nodes(r.remaining()),
    {
        proof {
            self.nodes.lemma_keys();
        }
        let keys = self.nodes.key_list();
        let mut entries: Vec<(usize, &Node<T>)> = Vec::new();
        let mut i: usize = 0;
        while i < keys.len()
            invariant
                keys@ == self.nodes.keys(),
                forall|k: usize| #[trigger] self.nodes.keys().contains(k) ==> self.nodes@.contains_key(k),
                i <= keys@.len(),
                entries@.len() == i,
                forall|j: int| 0 <= j < i ==> (#[trigger] entries@[j]).0 == keys@[j]
                    && *entries@[j].1 == self.nodes@[keys@[j]],
            decreases keys@.len() - i,
        {
            let k: usize = keys[i];
            proof {
                assert(self.nodes.keys().contains(k)) by {
                    assert(self.nodes.keys()[i as int] == k);
                }
            }
            match self.nodes.get(k) {
                Some(node) => {
                    entries.push((k, node));
                },
                None => {},
            }
            i = i + 1;
        }
        NodeCursor::new(entries)
    }

    /// Iterates over shared references to each node, in increasing key order.
    pub fn nodes(&self) -> (r: NodesIter<'_, T>)
        requires
            self.wf(),
        ensures
            self.lists_nodes(r.remaining()),
    {
        NodesIter::new(self.node_cursor())
    }

    /// Iterates over shared references to each node and its position.
    pub fn nodes_pos(&self) -> (r: NodesPosIter<'_, T>)
        requires
            self.wf(),
        ensures
            self.lists_nodes(r.remaining()),
    {
        NodesPosIter::new(self.node_cursor())
    }

    /// Iterates over shared references to each node and its identifier.
    pub fn node_ids(&self) -> (r: NodesIdsIter<'_, T>)
        requires
            self.wf(),
        ensures
            self.lists_nodes(r.remaining()),
    {
        NodesIdsIter::new(self.node_cursor())
    }

    /// Iterates over shared references to each node, its position and its identifier.
    pub fn nodes_pos_ids(&self) -> (r: NodesPosIdsIter<'_, T>)
        requires
            self.wf(),
        ensures
            self.lists_nodes(r.remaining()),
    {
        NodesPosIdsIter::new(self.node_cursor())
    }

    /// Iterates over shared references to each node data.
    pub fn nodes_info(&self) -> (r: NodeInfoIter<'_, T>)
        requires
            self.wf(),
        ensures
            self.lists_nodes(r.remaining()),
    {
        NodeInfoIter::new(self.node_cursor())
    }

    /// Iterates over shared references to each node id and data.
    pub fn nodes_ids_data(&self) -> (r: NodeIdsDataIter<'_, T>)
        requires
            self.wf(),
        ensures
            self.lists_nodes(r.remaining()),
    {
        NodeIdsDataIter::new(self.node_cursor())
    }

    /// Iterates over all groups, in increasing key order.
    pub fn groups(&self) -> (r: Vec<(GroupId, &Group<G>)>)
        requires
            self.wf(),
        ensures
            r@.len() == self.group_keys().len(),
            forall|i: int| 0 <= i < r@.len() ==> (#[trigger] r@[i]).0.0 == self.group_keys()[i]
                && *r@[i].1 == self.group_map()[self.group_keys()[i]],
    {
        proof {
            self.groups.lemma_keys();
        }
        let keys = self.groups.key_list();
        let mut r: Vec<(GroupId, &Group<G>)> = Vec::new();
        let mut i: usize = 0;
        while i < keys.len()
            invariant
                keys@ == self.groups.keys(),
                forall|k: usize| #[trigger] self.groups.keys().contains(k) ==> self.groups@.contains_key(k),
                i <= keys@.len(),
                r@.len() == i,
                forall|j: int| 0 <= j < i ==> (#[trigger] r@[j]).0.0 == keys@[j]
                    && *r@[j].1 == self.groups@[keys@[j]],
            decreases keys@.len() - i,
        {
            let k: usize = keys[i];
            proof {
                assert(self.groups.keys().contains(k)) by {
                    assert(self.groups.keys()[i as int] == k);
                }
            }
            match self.groups.get(k) {
                Some(g) => {
                    r.push((GroupId(k), g));
                },
                None => {},
            }
            i = i + 1;
        }
        r
    }

    /// Iterates over wires: each once, in an order that nothing states.
    pub fn wires(&self) -> (r: Vec<(OutPinId, InPinId)>)
        ensures
            r@.to_set() == self.connections(),
            r@.no_duplicates(),
    {
        self.wires.iter()
    }

    /// Returns input pin of the node: the pin and the output pins wired to it.
    pub fn in_pin(&self, pin: InPinId) -> (r: InPin)
        ensures
            r.id == pin,
            r.remotes@.to_set() == outputs_into(self.connections(), pin),
            forall|o: OutPinId| #[trigger]
                r.remotes@.contains(o) <==> self.connections().contains((o, pin)),
            r.remotes@.no_duplicates(),
    {
        InPin { id: pin, remotes: self.wires.wired_outputs(pin) }
    }

    /// Returns output pin of the node: the pin and the input pins wired to it.
    pub fn out_pin(&self, pin: OutPinId) -> (r: OutPin)
        ensures
            r.id == pin,
            r.remotes@.to_set() == inputs_from(self.connections(), pin),
            forall|i: InPinId| #[trigger]
                r.remotes@.contains(i) <==> self.connections().contains((pin, i)),
            r.remotes@.no_duplicates(),
    {
        OutPin { id: pin, remotes: self.wires.wired_inputs(pin) }
    }

    /// Following parents from an existing group reaches the root within
    /// finitely many steps, and never comes back to the group.
    pub proof fn lemma_chain_reaches_root(&self, g: GroupId)
        requires
            self.wf(),
            self.has_group(g),
        ensures
            exists|k: nat| #[trigger] self.chain(Some(g), k) is None,
            forall|k: nat| k > 0 ==> #[trigger] self.chain(Some(g), k) != Some(g),
    {
        assert(self.groups@.contains_key(g.0));
        let n: nat = self.rank@[g.0] + 1;
        self.lemma_chain_ranks(g, n);
        assert(self.chain(Some(g), n) is None);
        assert forall|k: nat| k > 0 implies #[trigger] self.chain(Some(g), k) != Some(g) by {
            self.lemma_chain_ranks(g, k);
        }
    }
}

} // verus!
