//! Keyed storage with stable `usize` keys and last-in-first-out key reuse.
//!
//! A value inserted gets the key of the most recently vacated slot, or a
//! fresh slot at the end when no slot is vacant. Keys of live values never
//! change.
use vstd::prelude::*;

verus! {

/// One slot of an [`Arena`]: either a stored value, or a vacant slot that
/// links to the next vacant key (the slot count ends the chain).
#[derive(Clone, Debug)]
pub enum Slot<T> {
    Vacant(usize),
    Occupied(T),
}

/// Whether no key occurs twice among `pairs`.
pub open spec fn keys_distinct<T>(pairs: Seq<(usize, T)>) -> bool {
    forall|i: int, j: int|
        0 <= i < pairs.len() && 0 <= j < pairs.len() && i != j ==> #[trigger] pairs[i].0
            != #[trigger] pairs[j].0
}

/// Whether `k` is the key of one of `pairs`.
pub open spec fn has_key<T>(pairs: Seq<(usize, T)>, k: usize) -> bool {
    exists|i: int| 0 <= i < pairs.len() && #[trigger] pairs[i].0 == k
}

/// The map that `pairs` list: each key to the value listed with it.
pub open spec fn pairs_map<T>(pairs: Seq<(usize, T)>) -> Map<usize, T> {
    Map::new(
        |k: usize| has_key(pairs, k),
        |k: usize| pairs[choose|i: int| 0 <= i < pairs.len() && #[trigger] pairs[i].0 == k].1,
    )
}

/// Slot storage: values addressed by `usize` keys.
pub struct Arena<T> {
    entries: Vec<Slot<T>>,
    next: usize,
    vacant: Ghost<Seq<usize>>,
}

impl<T> View for Arena<T> {
    type V = Map<usize, T>;

    /// The stored values by key.
    closed spec fn view(&self) -> Map<usize, T> {
        Map::new(|k: usize| self.occupied(k), |k: usize| self.entries@[k as int]->Occupied_0)
    }
}

impl<T: Clone> Clone for Arena<T> {
    /// A copy with the same keys and vacancies, whose values are clones.
    fn clone(&self) -> (r: Self)
        ensures
            self.wf() ==> r.wf(),
            r@.dom() == self@.dom(),
            forall|k: usize| #[trigger] self@.contains_key(k) ==> cloned(self@[k], r@[k]),
            r.slot_count() == self.slot_count(),
            r.vacancies() == self.vacancies(),
    {
        let mut entries: Vec<Slot<T>> = Vec::new();
        let mut i: usize = 0;
        while i < self.entries.len()
            invariant
                i <= self.entries@.len(),
                entries@.len() == i,
                forall|j: int| 0 <= j < i ==> {
                    &&& (self.entries@[j] is Vacant ==> #[trigger] entries@[j] == self.entries@[j])
                    &&& (self.entries@[j] is Occupied ==> entries@[j] is Occupied
                        && cloned(self.entries@[j]->Occupied_0, entries@[j]->Occupied_0))
                },
            decreases self.entries@.len() - i,
        {
            let slot = match &self.entries[i] {
                Slot::Vacant(n) => Slot::Vacant(*n),
                Slot::Occupied(v) => Slot::Occupied(v.clone()),
            };
            entries.push(slot);
            i = i + 1;
        }
        let r = Arena { entries, next: self.next, vacant: Ghost(self.vacant@) };
        proof {
            assert(r@.dom() =~= self@.dom());
            assert forall|k: usize| #[trigger] self@.contains_key(k) implies cloned(self@[k], r@[k]) by {
                assert(self.entries@[k as int] is Occupied);
            }
            if self.wf() {
                assert forall|i: int|
                    #![trigger r.vacant@[i]]
                    0 <= i < r.vacant@.len() implies {
                    &&& r.vacant@[i] < r.entries@.len()
                    &&& r.entries@[r.vacant@[i] as int] == Slot::<T>::Vacant(r.link_after(i))
                } by {
                    assert(self.entries@[self.vacant@[i] as int] is Vacant);
                }
                assert forall|k: int|
                    0 <= k < r.entries@.len() && (#[trigger] r.entries@[k]) is Vacant
                        implies r.vacant@.contains(k as usize) by {
                    assert(self.entries@[k] is Vacant);
                }
            }
        }
        r
    }
}

impl<T> Arena<T> {
    /// Whether slot `k` holds a value.
    pub closed spec fn occupied(&self, k: usize) -> bool {
        k < self.entries@.len() && self.entries@[k as int] is Occupied
    }

    /// Number of slots, vacant ones included; every key is below it.
    pub closed spec fn slot_count(&self) -> nat {
        self.entries@.len()
    }

    /// Vacant keys, most recently vacated first.
    pub closed spec fn vacancies(&self) -> Seq<usize> {
        self.vacant@
    }

    /// The key that the next insertion uses.
    pub open spec fn next_key(&self) -> nat {
        if self.vacancies().len() == 0 {
            self.slot_count()
        } else {
            self.vacancies()[0] as nat
        }
    }

    spec fn link_after(&self, i: int) -> usize {
        if i + 1 < self.vacant@.len() {
            self.vacant@[i + 1]
        } else {
            self.entries@.len() as usize
        }
    }

    /// The representation invariant: the vacant slots form a chain starting
    /// at `next`, in the order of `vacancies()`.
    pub closed spec fn wf(&self) -> bool {
        &&& self@.dom().finite()
        &&& self.vacant@.no_duplicates()
        &&& forall|i: int|
            #![trigger self.vacant@[i]]
            0 <= i < self.vacant@.len() ==> {
                &&& self.vacant@[i] < self.entries@.len()
                &&& self.entries@[self.vacant@[i] as int] == Slot::<T>::Vacant(self.link_after(i))
            }
        &&& self.next as nat == self.next_key()
        &&& forall|k: int|
            0 <= k < self.entries@.len() && (#[trigger] self.entries@[k]) is Vacant
                ==> self.vacant@.contains(k as usize)
    }

    /// Facts that follow from the invariant: keys are below the slot count,
    /// and the vacant keys are exactly the free slots.
    pub proof fn lemma_wf(&self)
        requires
            self.wf(),
        ensures
            forall|k: usize| #[trigger] self@.contains_key(k) ==> k < self.slot_count(),
            forall|k: usize|
                #[trigger] self.vacancies().contains(k) <==> (k < self.slot_count()
                    && !self@.contains_key(k)),
            !self@.contains_key(self.next_key() as usize),
            self.next_key() <= self.slot_count(),
            self.vacancies().no_duplicates(),
            self@.dom().finite(),
    {
        assert forall|k: usize| #[trigger] self.vacancies().contains(k) implies (k
            < self.slot_count() && !self@.contains_key(k)) by {
            let i = choose|i: int| 0 <= i < self.vacant@.len() && self.vacant@[i] == k;
            assert(self.vacant@[i] == k);
        }
        if self.vacant@.len() > 0 {
            assert(self.vacant@[0] == self.vacant@[0]);
            assert(self.vacancies().contains(self.vacant@[0]));
        }
    }

    /// An empty arena.
    pub fn new() -> (r: Self)
        ensures
            r.wf(),
            r@ == Map::<usize, T>::empty(),
            r.slot_count() == 0,
            r.vacancies() == Seq::<usize>::empty(),
    {
        let r = Arena { entries: Vec::new(), next: 0, vacant: Ghost(Seq::empty()) };
        assert(r@ =~= Map::<usize, T>::empty());
        r
    }

    /// Number of slots, vacant ones included.
    pub fn slots(&self) -> (r: usize)
        ensures
            r == self.slot_count(),
    {
        self.entries.len()
    }

    /// Whether `k` is the key of a stored value.
    pub fn contains(&self, k: usize) -> (r: bool)
        ensures
            r == self@.contains_key(k),
    {
        if k < self.entries.len() {
            match &self.entries[k] {
                Slot::Occupied(_) => true,
                Slot::Vacant(_) => false,
            }
        } else {
            false
        }
    }

    /// The value stored at `k`, if any.
    pub fn get(&self, k: usize) -> (r: Option<&T>)
        ensures
            r is Some <==> self@.contains_key(k),
            r matches Some(v) ==> *v == self@[k],
    {
        if k < self.entries.len() {
            match &self.entries[k] {
                Slot::Occupied(v) => Some(v),
                Slot::Vacant(_) => None,
            }
        } else {
            None
        }
    }

    /// A mutable reference to the value stored at `k`, if any.
    pub fn get_mut(&mut self, k: usize) -> (r: Option<&mut T>)
        ensures
            r is Some <==> old(self)@.contains_key(k),
            r matches Some(v) ==> {
                &&& *v == old(self)@[k]
                &&& final(self)@ == old(self)@.insert(k, *final(v))
                &&& old(self).wf() ==> final(self).wf()
                &&& final(self).slot_count() == old(self).slot_count()
                &&& final(self).vacancies() == old(self).vacancies()
            },
            r is None ==> *final(self) == *old(self),
    {
        if self.contains(k) {
            match &mut self.entries[k] {
                Slot::Occupied(v) => Some(v),
                Slot::Vacant(_) => None,
            }
        } else {
            None
        }
    }

    /// Stores `value` under `next_key()` and returns that key.
    pub fn insert(&mut self, value: T) -> (key: usize)
        requires
            old(self).wf(),
        ensures
            final(self).wf(),
            key == old(self).next_key(),
            !old(self)@.contains_key(key),
            final(self)@ == old(self)@.insert(key, value),
            old(self).vacancies().len() == 0 ==> {
                &&& final(self).slot_count() == old(self).slot_count() + 1
                &&& final(self).vacancies() == old(self).vacancies()
            },
            old(self).vacancies().len() > 0 ==> {
                &&& final(self).slot_count() == old(self).slot_count()
                &&& final(self).vacancies() == old(self).vacancies().drop_first()
            },
    {
        proof {
            self.lemma_wf();
        }
        let key: usize = self.next;
        let ghost old_self = *self;
        if key == self.entries.len() {
            self.entries.push(Slot::Occupied(value));
            self.next = self.entries.len();
            proof {
                assert forall|k: int|
                    0 <= k < self.entries@.len() && (#[trigger] self.entries@[k]) is Vacant
                        implies self.vacant@.contains(k as usize) by {
                    assert(old_self.entries@[k] is Vacant);
                }
                assert(self@ =~= old_self@.insert(key, value));
            }
        } else {
            assert(self.vacant@[0] == key);
            let link = match &self.entries[key] {
                Slot::Vacant(n) => *n,
                Slot::Occupied(_) => key,
            };
            self.entries.set(key, Slot::Occupied(value));
            self.next = link;
            proof {
                let old_vacant = self.vacant@;
                self.vacant@ = old_vacant.drop_first();
                assert forall|i: int|
                    #![trigger self.vacant@[i]]
                    0 <= i < self.vacant@.len() implies {
                    &&& self.vacant@[i] < self.entries@.len()
                    &&& self.entries@[self.vacant@[i] as int] == Slot::<T>::Vacant(
                        self.link_after(i),
                    )
                } by {
                    assert(old_vacant[i + 1] == self.vacant@[i]);
                    assert(old_vacant[0] != old_vacant[i + 1]);
                }
                assert forall|k: int|
                    0 <= k < self.entries@.len() && (#[trigger] self.entries@[k]) is Vacant
                        implies self.vacant@.contains(k as usize) by {
                    assert(old_self.entries@[k] is Vacant);
                    assert(old_vacant.contains(k as usize));
                    let i = choose|i: int| 0 <= i < old_vacant.len() && old_vacant[i] == k;
                    assert(i != 0);
                    assert(self.vacant@[i - 1] == k);
                }
                if old_vacant.len() > 1 {
                    assert(self.vacant@[0] == old_vacant[1]);
                }
                assert(self@ =~= old_self@.insert(key, value));
            }
        }
        key
    }

    /// Takes the value stored at `k` out; `k` becomes the next key handed out.
    pub fn remove(&mut self, k: usize) -> (value: T)
        requires
            old(self).wf(),
            old(self)@.contains_key(k),
        ensures
            final(self).wf(),
            value == old(self)@[k],
            final(self)@ == old(self)@.remove(k),
            final(self).slot_count() == old(self).slot_count(),
            final(self).vacancies() == seq![k].add(old(self).vacancies()),
            final(self).next_key() == k,
    {
        proof {
            self.lemma_wf();
        }
        let ghost old_self = *self;
        let mut slot = Slot::Vacant(self.next);
        std::mem::swap(&mut slot, &mut self.entries[k]);
        self.next = k;
        proof {
            let old_vacant = self.vacant@;
            self.vacant@ = seq![k].add(old_vacant);
            assert(!old_vacant.contains(k));
            assert forall|i: int|
                #![trigger self.vacant@[i]]
                0 <= i < self.vacant@.len() implies {
                &&& self.vacant@[i] < self.entries@.len()
                &&& self.entries@[self.vacant@[i] as int] == Slot::<T>::Vacant(self.link_after(i))
            } by {
                if i > 0 {
                    assert(self.vacant@[i] == old_vacant[i - 1]);
                    assert(old_vacant.contains(old_vacant[i - 1]));
                    assert(old_vacant[i - 1] != k);
                } else if old_vacant.len() > 0 {
                    assert(self.vacant@[1] == old_vacant[0]);
                }
            }
            assert forall|i: int, j: int|
                0 <= i < self.vacant@.len() && 0 <= j < self.vacant@.len() && i != j implies
                self.vacant@[i] != self.vacant@[j] by {
                if i > 0 && j > 0 {
                    assert(self.vacant@[i] == old_vacant[i - 1]);
                    assert(self.vacant@[j] == old_vacant[j - 1]);
                } else if i > 0 {
                    assert(old_vacant.contains(old_vacant[i - 1]));
                } else if j > 0 {
                    assert(old_vacant.contains(old_vacant[j - 1]));
                }
            }
            assert forall|j: int|
                0 <= j < self.entries@.len() && (#[trigger] self.entries@[j]) is Vacant
                    implies self.vacant@.contains(j as usize) by {
                let ju: usize = j as usize;
                if ju != k {
                    assert(old_self.entries@[j] is Vacant);
                    assert(old_vacant.contains(ju));
                    let i = choose|i: int| 0 <= i < old_vacant.len() && old_vacant[i] == ju;
                    assert(self.vacant@[i + 1] == ju);
                } else {
                    assert(self.vacant@[0] == k);
                }
            }
            assert(self@ =~= old_self@.remove(k));
        }
        let taken = match slot {
            Slot::Occupied(v) => Some(v),
            Slot::Vacant(_) => None,
        };
        taken.unwrap()
    }

    /// The keys of stored values below `n`, in increasing order.
    pub closed spec fn keys_below(&self, n: nat) -> Seq<usize>
        decreases n,
    {
        if n == 0 {
            Seq::empty()
        } else if self.occupied((n - 1) as usize) {
            self.keys_below((n - 1) as nat).push((n - 1) as usize)
        } else {
            self.keys_below((n - 1) as nat)
        }
    }

    /// The keys of stored values, in increasing order.
    pub open spec fn keys(&self) -> Seq<usize> {
        self.keys_below(self.slot_count())
    }

    proof fn lemma_keys_below(&self, n: nat)
        requires
            n <= self.slot_count(),
        ensures
            forall|i: int, j: int|
                0 <= i < j < self.keys_below(n).len() ==> self.keys_below(n)[i] < self.keys_below(n)[j],
            forall|k: usize| #[trigger]
                self.keys_below(n).contains(k) <==> (k < n && self@.contains_key(k)),
        decreases n,
    {
        assert(self.entries@.len() == self.entries.len());
        if n > 0 {
            self.lemma_keys_below((n - 1) as nat);
            let prev = self.keys_below((n - 1) as nat);
            if self.occupied((n - 1) as usize) {
                assert forall|k: usize| #[trigger]
                    self.keys_below(n).contains(k) <==> (k < n && self@.contains_key(k)) by {
                    crate::seq_facts::lemma_push_contains(prev, (n - 1) as usize, k);
                }
                assert forall|i: int, j: int|
                    0 <= i < j < self.keys_below(n).len() implies self.keys_below(n)[i] < self.keys_below(n)[j] by {
                    let cur = self.keys_below(n);
                    assert(cur == prev.push((n - 1) as usize));
                    assert(cur[i] == prev[i]);
                    if j == prev.len() {
                        assert(prev.contains(prev[i]));
                        assert(prev[i] < n - 1);
                    } else {
                        assert(cur[j] == prev[j]);
                    }
                }
            }
        }
    }

    /// The keys are increasing, and they are exactly the keys of stored values.
    pub proof fn lemma_keys(&self)
        requires
            self.wf(),
        ensures
            forall|i: int, j: int| 0 <= i < j < self.keys().len() ==> self.keys()[i] < self.keys()[j],
            forall|k: usize| #[trigger] self.keys().contains(k) <==> self@.contains_key(k),
            self.keys().no_duplicates(),
            self.keys().len() == self@.len(),
    {
        self.lemma_wf();
        self.lemma_keys_below(self.slot_count());
        assert(self.keys().to_set() =~= self@.dom());
        self.keys().unique_seq_to_set();
    }

    /// An arena that holds exactly the listed values under their keys, or
    /// `None` when a key is listed twice. Its slot count is one past the
    /// largest key, and the free keys below that are vacant, highest first.
    pub fn from_pairs(pairs: Vec<(usize, T)>) -> (r: Option<Self>)
        requires
            forall|i: int| 0 <= i < pairs@.len() ==> #[trigger] pairs@[i].0 < usize::MAX,
        ensures
            r is None <==> !keys_distinct(pairs@),
            r matches Some(a) ==> {
                &&& a.wf()
                &&& a@ == pairs_map(pairs@)
                &&& (a.slot_count() == 0 || a@.contains_key((a.slot_count() - 1) as usize))
                &&& forall|k: usize| #[trigger]
                    a.vacancies().contains(k) <==> (k < a.slot_count() && !a@.contains_key(k))
                &&& forall|i: int, j: int|
                    0 <= i < j < a.vacancies().len() ==> a.vacancies()[i] > a.vacancies()[j]
            },
    {
        let ghost orig = pairs@;
        // One past the largest key.
        let mut n: usize = 0;
        let mut i: usize = 0;
        while i < pairs.len()
            invariant
                i <= pairs@.len(),
                pairs@ == orig,
                forall|j: int| 0 <= j < pairs@.len() ==> #[trigger] pairs@[j].0 < usize::MAX,
                forall|j: int| 0 <= j < i ==> #[trigger] pairs@[j].0 < n,
                n == 0 || exists|j: int| 0 <= j < i && #[trigger] pairs@[j].0 == n - 1,
            decreases pairs@.len() - i,
        {
            let k = pairs[i].0;
            if k >= n {
                n = k + 1;
            }
            i = i + 1;
        }
        assert(n == 0 || has_key(orig, (n - 1) as usize));
        // `n` vacant slots.
        let mut entries: Vec<Slot<T>> = Vec::new();
        while entries.len() < n
            invariant
                entries@.len() <= n,
                forall|k: int| 0 <= k < entries@.len() ==> (#[trigger] entries@[k]) is Vacant,
            decreases n - entries@.len(),
        {
            entries.push(Slot::Vacant(0));
        }
        // Each value into its slot; a slot already taken means a repeated key.
        let mut rest = pairs;
        while rest.len() > 0
            invariant
                orig == pairs@,
                rest@.len() <= orig.len(),
                rest@ == orig.subrange(0, rest@.len() as int),
                entries@.len() == n,
                forall|j: int| 0 <= j < orig.len() ==> #[trigger] orig[j].0 < n,
                forall|j: int|
                    rest@.len() <= j < orig.len() ==> entries@[#[trigger] orig[j].0 as int]
                        == Slot::Occupied(orig[j].1),
                forall|k: int|
                    0 <= k < n && (#[trigger] entries@[k]) is Occupied ==> exists|j: int|
                        rest@.len() <= j < orig.len() && #[trigger] orig[j].0 == k,
                forall|a: int, b: int|
                    rest@.len() <= a < orig.len() && rest@.len() <= b < orig.len() && a != b
                        ==> #[trigger] orig[a].0 != #[trigger] orig[b].0,
            decreases rest@.len(),
        {
            let ghost m = rest@.len() - 1;
            let (k, v) = rest.pop().unwrap();
            assert(orig[m] == (k, v));
            let taken = match &entries[k] {
                Slot::Occupied(_) => true,
                Slot::Vacant(_) => false,
            };
            if taken {
                proof {
                    assert(entries@[k as int] is Occupied);
                    assert(exists|j: int| rest@.len() < j < orig.len() && #[trigger] orig[j].0 == k);
                    let j = choose|j: int| rest@.len() < j < orig.len() && #[trigger] orig[j].0 == k;
                    assert(orig[m].0 == orig[j].0);
                    assert(!keys_distinct(orig));
                }
                return None;
            }
            entries.set(k, Slot::Occupied(v));
            proof {
                assert forall|j: int| rest@.len() < j < orig.len() implies #[trigger] orig[j].0 != k by {
                    assert(entries@[orig[j].0 as int] is Occupied);
                }
            }
        }
        assert(keys_distinct(orig));
        // Link the vacant slots, highest key first.
        let ghost placed = entries@;
        let mut next: usize = n;
        let ghost mut vac: Seq<usize> = Seq::empty();
        let mut idx: usize = 0;
        while idx < n
            invariant
                idx <= n,
                entries@.len() == n,
                placed.len() == n,
                forall|k: int| 0 <= k < n ==> ((#[trigger] entries@[k]) is Occupied) == (placed[k] is Occupied),
                forall|k: int| 0 <= k < n && placed[k] is Occupied ==> #[trigger] entries@[k] == placed[k],
                forall|k: usize| #[trigger] vac.contains(k) <==> (k < idx && placed[k as int] is Vacant),
                forall|a: int, b: int| 0 <= a < b < vac.len() ==> vac[a] > vac[b],
                forall|a: int|
                    #![trigger vac[a]]
                    0 <= a < vac.len() ==> vac[a] < idx && entries@[vac[a] as int] == Slot::<T>::Vacant(
                        if a + 1 < vac.len() { vac[a + 1] } else { n },
                    ),
                next == (if vac.len() == 0 { n } else { vac[0] }),
            decreases n - idx,
        {
            let vacant = match &entries[idx] {
                Slot::Vacant(_) => true,
                Slot::Occupied(_) => false,
            };
            if vacant {
                entries.set(idx, Slot::Vacant(next));
                proof {
                    let old_vac = vac;
                    vac = seq![idx].add(old_vac);
                    assert forall|k: usize| #[trigger] vac.contains(k) <==> (k < idx + 1 && placed[k as int] is Vacant) by {
                        if k == idx {
                            assert(vac[0] == idx);
                        } else if old_vac.contains(k) {
                            let a = choose|a: int| 0 <= a < old_vac.len() && old_vac[a] == k;
                            assert(vac[a + 1] == k);
                        } else if vac.contains(k) {
                            let a = choose|a: int| 0 <= a < vac.len() && vac[a] == k;
                            assert(a != 0);
                            assert(old_vac[a - 1] == k);
                        }
                    }
                    assert forall|a: int|
                        #![trigger vac[a]]
                        0 <= a < vac.len() implies vac[a] < idx + 1 && entries@[vac[a] as int] == Slot::<T>::Vacant(
                            if a + 1 < vac.len() { vac[a + 1] } else { n },
                        ) by {
                        if a > 0 {
                            assert(vac[a] == old_vac[a - 1]);
                        }
                    }
                    assert forall|a: int, b: int| 0 <= a < b < vac.len() implies vac[a] > vac[b] by {
                        if a > 0 {
                            assert(vac[a] == old_vac[a - 1]);
                            assert(vac[b] == old_vac[b - 1]);
                        } else {
                            assert(vac[b] == old_vac[b - 1]);
                        }
                    }
                }
                next = idx;
            }
            idx = idx + 1;
        }
        let a = Arena { entries, next, vacant: Ghost(vac) };
        proof {
            broadcast use vstd::set_lib::full_set_properties;
            assert(Set::<usize>::full().finite());
            vstd::set_lib::lemma_set_subset_finite(Set::<usize>::full(), a@.dom());
            assert forall|x: int, y: int|
                0 <= x < vac.len() && 0 <= y < vac.len() && x != y implies vac[x] != vac[y] by {
                if x < y {
                    assert(vac[x] > vac[y]);
                } else {
                    assert(vac[y] > vac[x]);
                }
            }
            assert forall|k: int|
                0 <= k < a.entries@.len() && (#[trigger] a.entries@[k]) is Vacant
                    implies a.vacant@.contains(k as usize) by {
                assert(placed[k] is Vacant);
            }
            assert forall|k: usize| #[trigger] a@.contains_key(k) <==> has_key(orig, k) by {
                if has_key(orig, k) {
                    let j = choose|j: int| 0 <= j < orig.len() && #[trigger] orig[j].0 == k;
                    assert(placed[orig[j].0 as int] == Slot::Occupied(orig[j].1));
                }
                if a@.contains_key(k) {
                    assert(placed[k as int] is Occupied);
                }
            }
            assert forall|k: usize| #[trigger] a@.contains_key(k) implies a@[k] == pairs_map(orig)[k] by {
                let j = choose|j: int| 0 <= j < orig.len() && #[trigger] orig[j].0 == k;
                assert(placed[orig[j].0 as int] == Slot::Occupied(orig[j].1));
            }
            assert(a@ =~= pairs_map(orig));
            if n > 0 {
                let j = choose|j: int| 0 <= j < orig.len() && #[trigger] orig[j].0 == (n - 1) as usize;
                assert(placed[orig[j].0 as int] == Slot::Occupied(orig[j].1));
            }
        }
        Some(a)
    }

    /// The keys of stored values, in increasing order.
    pub fn key_list(&self) -> (r: Vec<usize>)
        ensures
            r@ == self.keys(),
    {
        let mut r: Vec<usize> = Vec::new();
        let mut k: usize = 0;
        while k < self.entries.len()
            invariant
                k <= self.entries@.len(),
                r@ == self.keys_below(k as nat),
            decreases self.entries@.len() - k,
        {
            if self.contains(k) {
                r.push(k);
            }
            k = k + 1;
        }
        r
    }
}

} // verus!
