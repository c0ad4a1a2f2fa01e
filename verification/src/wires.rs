//! The set of wires of a graph: connections from an output pin to an input
//! pin, each present at most once.
use vstd::prelude::*;
use std::collections::HashSet;
use crate::ids::{InPinId, NodeId, OutPinId};
use crate::seq_facts::{lemma_push_contains, lemma_push_no_duplicates};

verus! {

/// The hasher builder of `ahash`, as egui re-exports it; it is only carried.
#[verifier::external_type_specification]
#[verifier::external_body]
pub struct ExAhashRandomState(egui::ahash::RandomState);

/// A wire: the output pin it leaves and the input pin it enters.
pub type Wire = (OutPinId, InPinId);

type WireSet = HashSet<Wire, egui::ahash::RandomState>;

/// Calls `egui::ahash::RandomState::new`. Its keys are random, so nothing is
/// stated of the result.
#[verifier::external_body]
fn new_random_state() -> egui::ahash::RandomState {
    egui::ahash::RandomState::new()
}

/// Calls `HashSet::with_hasher`: the set it builds is empty.
#[verifier::external_body]
fn set_with_hasher(hasher: egui::ahash::RandomState) -> (s: WireSet)
    ensures
        s@ == Set::<Wire>::empty(),
{
    HashSet::with_hasher(hasher)
}

/// Calls `HashSet::insert`: the wire is in the set afterwards, and the result
/// tells whether it was absent before. `Wire` compares and hashes by its
/// fields, as derived.
#[verifier::external_body]
fn set_insert(s: &mut WireSet, w: Wire) -> (r: bool)
    ensures
        final(s)@ == old(s)@.insert(w),
        r == !old(s)@.contains(w),
{
    s.insert(w)
}

/// Calls `HashSet::remove`: the wire is absent afterwards, and the result
/// tells whether it was present before.
#[verifier::external_body]
fn set_remove(s: &mut WireSet, w: &Wire) -> (r: bool)
    ensures
        final(s)@ == old(s)@.remove(*w),
        r == old(s)@.contains(*w),
{
    s.remove(w)
}

/// Calls `HashSet::len`: the number of wires in the set.
#[verifier::external_body]
fn set_len(s: &WireSet) -> (r: usize)
    ensures
        r == s@.len(),
{
    s.len()
}

/// Calls `HashSet::retain` with the test of `filter`: exactly the wires that
/// the filter keeps remain.
#[verifier::external_body]
fn set_retain(s: &mut WireSet, filter: WireFilter)
    ensures
        final(s)@ == old(s)@.filter(|w: Wire| filter.spec_keeps(w)),
{
    s.retain(|w| filter.keeps(w))
}

/// Calls `HashSet::iter` and copies the wires out: each wire of the set
/// once, in an order that the hasher decides and nothing here states.
#[verifier::external_body]
fn set_elements(s: &WireSet) -> (r: Vec<Wire>)
    ensures
        r@.to_set() == s@,
        r@.no_duplicates(),
{
    s.iter().copied().collect()
}

/// Calls `HashSet::clone`: the copy holds the same wires (`Wire` is `Copy`).
#[verifier::external_body]
fn set_clone(s: &WireSet) -> (r: WireSet)
    ensures
        r@ == s@,
{
    s.clone()
}

/// Which wires a bulk removal keeps.
#[derive(Clone, Copy)]
pub enum WireFilter {
    /// Keeps the wires that touch neither pin side of this node.
    AvoidNode(NodeId),
    /// Keeps the wires that do not enter this input pin.
    AvoidInput(InPinId),
    /// Keeps the wires that do not leave this output pin.
    AvoidOutput(OutPinId),
}

impl WireFilter {
    /// Whether the filter keeps wire `w`.
    pub open spec fn spec_keeps(self, w: Wire) -> bool {
        match self {
            WireFilter::AvoidNode(n) => w.0.node != n && w.1.node != n,
            WireFilter::AvoidInput(p) => w.1 != p,
            WireFilter::AvoidOutput(p) => w.0 != p,
        }
    }

    /// Whether the filter keeps wire `w`.
    pub fn keeps(&self, w: &Wire) -> (r: bool)
        ensures
            r == self.spec_keeps(*w),
    {
        match self {
            WireFilter::AvoidNode(n) => w.0.node != *n && w.1.node != *n,
            WireFilter::AvoidInput(p) => w.1 != *p,
            WireFilter::AvoidOutput(p) => w.0 != *p,
        }
    }
}

/// Whether wire `w` leaves or enters `node`.
pub open spec fn touches_node(w: Wire, node: NodeId) -> bool {
    w.0.node == node || w.1.node == node
}

/// The input pins that wires from `out_pin` enter.
pub open spec fn inputs_from(wires: Set<Wire>, out_pin: OutPinId) -> Set<InPinId> {
    Set::new(|i: InPinId| wires.contains((out_pin, i)))
}

/// The output pins whose wires enter `in_pin`.
pub open spec fn outputs_into(wires: Set<Wire>, in_pin: InPinId) -> Set<OutPinId> {
    Set::new(|o: OutPinId| wires.contains((o, in_pin)))
}

/// The wires of a graph.
#[derive(Debug)]
pub struct Wires {
    wires: WireSet,
}

impl View for Wires {
    type V = Set<Wire>;

    closed spec fn view(&self) -> Set<Wire> {
        self.wires@
    }
}

impl Clone for Wires {
    /// A copy with the same wires.
    fn clone(&self) -> (r: Self)
        ensures
            r@ == self@,
            self.wf() ==> r.wf(),
    {
        Wires { wires: set_clone(&self.wires) }
    }
}

impl Wires {
    /// The set is finite.
    pub closed spec fn wf(&self) -> bool {
        self.wires@.finite()
    }

    /// The set of a well-formed `Wires` is finite.
    pub proof fn lemma_finite(&self)
        requires
            self.wf(),
        ensures
            self@.finite(),
    {
    }

    /// No wires.
    pub fn new() -> (r: Self)
        ensures
            r.wf(),
            r@ == Set::<Wire>::empty(),
    {
        Wires { wires: set_with_hasher(new_random_state()) }
    }

    /// The wires of a list; a wire listed twice is kept once.
    pub fn from_wires(wires: &Vec<Wire>) -> (r: Wires)
        ensures
            r.wf(),
            r@ == wires@.to_set(),
    {
        let mut r = Wires::new();
        proof {
            assert(wires@.take(0).to_set() =~= Set::<Wire>::empty());
        }
        let mut i: usize = 0;
        while i < wires.len()
            invariant
                i <= wires@.len(),
                r.wf(),
                r@ == wires@.take(i as int).to_set(),
            decreases wires@.len() - i,
        {
            let w = wires[i];
            r.insert(w);
            proof {
                assert(wires@.take(i + 1) =~= wires@.take(i as int).push(w));
                wires@.take(i as int).lemma_push_to_set_commute(w);
            }
            i = i + 1;
        }
        proof {
            assert(wires@.take(wires@.len() as int) =~= wires@);
        }
        r
    }

    /// Adds a wire; returns whether it was absent before.
    pub fn insert(&mut self, wire: Wire) -> (r: bool)
        requires
            old(self).wf(),
        ensures
            final(self).wf(),
            final(self)@ == old(self)@.insert(wire),
            r == !old(self)@.contains(wire),
    {
        set_insert(&mut self.wires, wire)
    }

    /// Removes a wire; returns whether it was present before.
    pub fn remove(&mut self, wire: &Wire) -> (r: bool)
        requires
            old(self).wf(),
        ensures
            final(self).wf(),
            final(self)@ == old(self)@.remove(*wire),
            r == old(self)@.contains(*wire),
    {
        set_remove(&mut self.wires, wire)
    }

    /// Keeps the wires that `filter` keeps; returns how many were removed.
    fn drop_where(&mut self, filter: WireFilter) -> (r: usize)
        requires
            old(self).wf(),
        ensures
            final(self).wf(),
            final(self)@ == old(self)@.filter(|w: Wire| filter.spec_keeps(w)),
            r == old(self)@.filter(|w: Wire| !filter.spec_keeps(w)).len(),
            r == old(self)@.len() - final(self)@.len(),
    {
        let count: usize = set_len(&self.wires);
        let ghost before = self.wires@;
        set_retain(&mut self.wires, filter);
        let after_len: usize = set_len(&self.wires);
        proof {
            let kept = before.filter(|w: Wire| filter.spec_keeps(w));
            let gone = before.filter(|w: Wire| !filter.spec_keeps(w));
            before.lemma_len_filter(|w: Wire| filter.spec_keeps(w));
            before.lemma_len_filter(|w: Wire| !filter.spec_keeps(w));
            assert(kept.disjoint(gone));
            vstd::set_lib::lemma_set_disjoint_lens(kept, gone);
            assert(kept + gone =~= before);
        }
        count - after_len
    }

    /// Removes every wire that leaves or enters `node`; returns how many.
    pub fn drop_node(&mut self, node: NodeId) -> (r: usize)
        requires
            old(self).wf(),
        ensures
            final(self).wf(),
            final(self)@ == old(self)@.filter(|w: Wire| !touches_node(w, node)),
            r == old(self)@.filter(|w: Wire| touches_node(w, node)).len(),
    {
        let f = WireFilter::AvoidNode(node);
        let r = self.drop_where(f);
        proof {
            assert(old(self)@.filter(|w: Wire| f.spec_keeps(w)) =~= old(self)@.filter(
                |w: Wire| !touches_node(w, node),
            ));
            assert(old(self)@.filter(|w: Wire| !f.spec_keeps(w)) =~= old(self)@.filter(
                |w: Wire| touches_node(w, node),
            ));
        }
        r
    }

    /// Removes every wire that enters `pin`; returns how many.
    pub fn drop_inputs(&mut self, pin: InPinId) -> (r: usize)
        requires
            old(self).wf(),
        ensures
            final(self).wf(),
            final(self)@ == old(self)@.filter(|w: Wire| w.1 != pin),
            r == old(self)@.filter(|w: Wire| w.1 == pin).len(),
    {
        let f = WireFilter::AvoidInput(pin);
        let r = self.drop_where(f);
        proof {
            assert(old(self)@.filter(|w: Wire| f.spec_keeps(w)) =~= old(self)@.filter(
                |w: Wire| w.1 != pin,
            ));
            assert(old(self)@.filter(|w: Wire| !f.spec_keeps(w)) =~= old(self)@.filter(
                |w: Wire| w.1 == pin,
            ));
        }
        r
    }

    /// Removes every wire that leaves `pin`; returns how many.
    pub fn drop_outputs(&mut self, pin: OutPinId) -> (r: usize)
        requires
            old(self).wf(),
        ensures
            final(self).wf(),
            final(self)@ == old(self)@.filter(|w: Wire| w.0 != pin),
            r == old(self)@.filter(|w: Wire| w.0 == pin).len(),
    {
        let f = WireFilter::AvoidOutput(pin);
        let r = self.drop_where(f);
        proof {
            assert(old(self)@.filter(|w: Wire| f.spec_keeps(w)) =~= old(self)@.filter(
                |w: Wire| w.0 != pin,
            ));
            assert(old(self)@.filter(|w: Wire| !f.spec_keeps(w)) =~= old(self)@.filter(
                |w: Wire| w.0 == pin,
            ));
        }
        r
    }

    /// Every wire once, in an order that nothing states.
    pub fn iter(&self) -> (r: Vec<Wire>)
        ensures
            r@.to_set() == self@,
            r@.no_duplicates(),
    {
        set_elements(&self.wires)
    }

    /// The input pins that wires from `out_pin` enter, each once, in an order
    /// that nothing states.
    pub fn wired_inputs(&self, out_pin: OutPinId) -> (r: Vec<InPinId>)
        ensures
            r@.to_set() == inputs_from(self@, out_pin),
            forall|i: InPinId| #[trigger] r@.contains(i) <==> self@.contains((out_pin, i)),
            r@.no_duplicates(),
    {
        let all = set_elements(&self.wires);
        let mut r: Vec<InPinId> = Vec::new();
        let mut k: usize = 0;
        while k < all.len()
            invariant
                k <= all@.len(),
                all@.no_duplicates(),
                r@.no_duplicates(),
                forall|i: InPinId| #[trigger] r@.contains(i) <==> exists|j: int|
                    0 <= j < k && all@[j] == (out_pin, i),
            decreases all@.len() - k,
        {
            let w = all[k];
            if w.0 == out_pin {
                proof {
                    if r@.contains(w.1) {
                        let j = choose|j: int| 0 <= j < k && all@[j] == (out_pin, w.1);
                        assert(all@[j] == all@[k as int]);
                    }
                    lemma_push_no_duplicates(r@, w.1);
                }
                let ghost prev = r@;
                r.push(w.1);
                proof {
                    assert forall|i: InPinId| #[trigger] r@.contains(i) <==> exists|j: int|
                        0 <= j < k + 1 && all@[j] == (out_pin, i) by {
                        lemma_push_contains(prev, w.1, i);
                        if i == w.1 {
                            assert(all@[k as int] == (out_pin, i));
                        }
                        if exists|j: int| 0 <= j < k + 1 && all@[j] == (out_pin, i) {
                            let j = choose|j: int| 0 <= j < k + 1 && all@[j] == (out_pin, i);
                            if j == k {
                                assert(i == w.1);
                            }
                        }
                    }
                }
            } else {
                proof {
                    assert forall|i: InPinId| #[trigger] r@.contains(i) <==> exists|j: int|
                        0 <= j < k + 1 && all@[j] == (out_pin, i) by {
                        if exists|j: int| 0 <= j < k + 1 && all@[j] == (out_pin, i) {
                            let j = choose|j: int| 0 <= j < k + 1 && all@[j] == (out_pin, i);
                            assert(j != k);
                        }
                    }
                }
            }
            k = k + 1;
        }
        proof {
            assert forall|i: InPinId| #[trigger] r@.to_set().contains(i) <==> inputs_from(
                self@,
                out_pin,
            ).contains(i) by {
                if self@.contains((out_pin, i)) {
                    assert(all@.to_set().contains((out_pin, i)));
                }
            }
            assert(r@.to_set() =~= inputs_from(self@, out_pin));
        }
        r
    }

    /// The output pins whose wires enter `in_pin`, each once, in an order
    /// that nothing states.
    pub fn wired_outputs(&self, in_pin: InPinId) -> (r: Vec<OutPinId>)
        ensures
            r@.to_set() == outputs_into(self@, in_pin),
            forall|o: OutPinId| #[trigger] r@.contains(o) <==> self@.contains((o, in_pin)),
            r@.no_duplicates(),
    {
        let all = set_elements(&self.wires);
        let mut r: Vec<OutPinId> = Vec::new();
        let mut k: usize = 0;
        while k < all.len()
            invariant
                k <= all@.len(),
                all@.no_duplicates(),
                r@.no_duplicates(),
                forall|i: OutPinId| #[trigger] r@.contains(i) <==> exists|j: int|
                    0 <= j < k && all@[j] == (i, in_pin),
            decreases all@.len() - k,
        {
            let w = all[k];
            if w.1 == in_pin {
                proof {
                    if r@.contains(w.0) {
                        let j = choose|j: int| 0 <= j < k && all@[j] == (w.0, in_pin);
                        assert(all@[j] == all@[k as int]);
                    }
                    lemma_push_no_duplicates(r@, w.0);
                }
                let ghost prev = r@;
                r.push(w.0);
                proof {
                    assert forall|i: OutPinId| #[trigger] r@.contains(i) <==> exists|j: int|
                        0 <= j < k + 1 && all@[j] == (i, in_pin) by {
                        lemma_push_contains(prev, w.0, i);
                        if i == w.0 {
                            assert(all@[k as int] == (i, in_pin));
                        }
                        if exists|j: int| 0 <= j < k + 1 && all@[j] == (i, in_pin) {
                            let j = choose|j: int| 0 <= j < k + 1 && all@[j] == (i, in_pin);
                            if j == k {
                                assert(i == w.0);
                            }
                        }
                    }
                }
            } else {
                proof {
                    assert forall|i: OutPinId| #[trigger] r@.contains(i) <==> exists|j: int|
                        0 <= j < k + 1 && all@[j] == (i, in_pin) by {
                        if exists|j: int| 0 <= j < k + 1 && all@[j] == (i, in_pin) {
                            let j = choose|j: int| 0 <= j < k + 1 && all@[j] == (i, in_pin);
                            assert(j != k);
                        }
                    }
                }
            }
            k = k + 1;
        }
        proof {
            assert forall|i: OutPinId| #[trigger] r@.to_set().contains(i) <==> outputs_into(
                self@,
                in_pin,
            ).contains(i) by {
                if self@.contains((i, in_pin)) {
                    assert(all@.to_set().contains((i, in_pin)));
                }
            }
            assert(r@.to_set() =~= outputs_into(self@, in_pin));
        }
        r
    }
}

} // verus!
