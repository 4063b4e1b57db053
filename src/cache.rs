//! Caches of arrangements keyed by a plan and a sequence of key columns.
use vstd::prelude::*;
use crate::datum::{all_columns, copy_indices, default_keys};
use crate::plan::{Plan, PlanModel};

verus! {

/// The cache key of an arrangement: the plan's model and the key columns.
pub type ArrangementKey = (PlanModel, Seq<usize>);

/// The key columns named, or all columns of the plan when none are named.
pub open spec fn normalized_keys(plan: PlanModel, keys: Option<Seq<usize>>) -> Seq<usize> {
    match keys {
        Some(k) => k,
        None => all_columns(plan.arity),
    }
}

/// The columns of an optional key list.
pub open spec fn key_columns(keys: Option<&[usize]>) -> Option<Seq<usize>> {
    match keys {
        Some(k) => Some(k@),
        None => None,
    }
}

/// The key at position `i` of aligned lists of plans and key columns.
pub open spec fn key_of(plans: Seq<Plan>, keys: Seq<Vec<usize>>, i: int) -> ArrangementKey {
    (plans[i].model(), keys[i]@)
}

/// A map from `(plan, key columns)` to handles of arrangements.
pub struct ArrangementCache<H> {
    plans: Vec<Plan>,
    keys: Vec<Vec<usize>>,
    handles: Vec<H>,
}

impl<H> ArrangementCache<H> {
    /// The key of the entry at position `i`.
    pub closed spec fn key_at(&self, i: int) -> ArrangementKey {
        key_of(self.plans@, self.keys@, i)
    }

    /// The keys of the entries, in order.
    pub closed spec fn key_list(&self) -> Seq<ArrangementKey> {
        Seq::new(self.plans@.len(), |i: int| self.key_at(i))
    }

    /// The number of entries.
    pub closed spec fn len(&self) -> nat {
        self.handles@.len()
    }

    /// The entries are aligned and no key occurs twice.
    pub closed spec fn wf(&self) -> bool {
        &&& self.plans@.len() == self.handles@.len()
        &&& self.keys@.len() == self.handles@.len()
        &&& forall|i: int, j: int|
            0 <= i < self.len() && 0 <= j < self.len() && i != j
                ==> key_of(self.plans@, self.keys@, i) != key_of(self.plans@, self.keys@, j)
    }

    /// The cache as a map.
    pub closed spec fn view(&self) -> Map<ArrangementKey, H> {
        Map::new(
            |k: ArrangementKey| exists|i: int| 0 <= i < self.len() && self.key_at(i) == k,
            |k: ArrangementKey| self.handles@[choose|i: int| 0 <= i < self.len() && self.key_at(i) == k],
        )
    }

    /// Position `i` holds the handle of its key.
    pub proof fn lemma_view_at(&self, i: int)
        requires
            self.wf(),
            0 <= i < self.len(),
        ensures
            self@.contains_key(self.key_at(i)),
            self@[self.key_at(i)] == self.handle_at(i),
    {
        let k = self.key_at(i);
        assert(exists|j: int| 0 <= j < self.len() && self.key_at(j) == k);
        let j = choose|j: int| 0 <= j < self.len() && self.key_at(j) == k;
        assert(i == j);
    }

    /// An empty cache.
    pub fn new() -> (r: Self)
        ensures
            r.wf(),
            r@ == Map::<ArrangementKey, H>::empty(),
    {
        let r = ArrangementCache { plans: Vec::new(), keys: Vec::new(), handles: Vec::new() };
        assert(r@ =~= Map::<ArrangementKey, H>::empty());
        r
    }

    /// The position of the entry for `(plan, keys)`, if there is one.
    fn position(&self, plan: &Plan, keys: &[usize]) -> (r: Option<usize>)
        requires
            self.wf(),
        ensures
            match r {
                Some(i) => i < self.len() && self.key_at(i as int) == (plan.model(), keys@),
                None => !self@.contains_key((plan.model(), keys@)),
            },
    {
        let mut i: usize = 0;
        while i < self.handles.len()
            invariant
                self.wf(),
                i <= self.len(),
                forall|j: int| 0 <= j < i ==> self.key_at(j) != (plan.model(), keys@),
            decreases self.len() - i,
        {
            if self.plans[i].equals(plan) && slices_equal(self.keys[i].as_slice(), keys) {
                return Some(i);
            }
            i = i + 1;
        }
        None
    }

    /// The handle for `(plan, keys)`; with no keys named, for all columns of `plan`.
    pub fn get(&self, plan: &Plan, keys: Option<&[usize]>) -> (r: Option<&H>)
        requires
            self.wf(),
        ensures
            ({
                let k = (plan.model(), normalized_keys(plan.model(), key_columns(keys)));
                match r {
                    Some(h) => self@.contains_key(k) && *h == self@[k],
                    None => !self@.contains_key(k),
                }
            }),
    {
        let found = match keys {
            Some(keys) => self.position(plan, keys),
            None => {
                let all = default_keys(plan.arity);
                self.position(plan, all.as_slice())
            },
        };
        match found {
            Some(i) => {
                proof {
                    self.lemma_view_at(i as int);
                }
                Some(&self.handles[i])
            },
            None => None,
        }
    }

    /// Installs `handle` for `(plan, keys)`, replacing any earlier one; with no
    /// keys named, for all columns of `plan`.
    pub fn set(&mut self, plan: Plan, keys: Option<&[usize]>, handle: H)
        requires
            old(self).wf(),
        ensures
            final(self).wf(),
            final(self)@ == old(self)@.insert(
                (plan.model(), normalized_keys(plan.model(), key_columns(keys))),
                handle,
            ),
    {
        let key_vec = match keys {
            Some(k) => copy_indices(k),
            None => default_keys(plan.arity),
        };
        let ghost k = (plan.model(), key_vec@);
        let ghost before = self@;
        match self.position(&plan, key_vec.as_slice()) {
            Some(i) => {
                self.handles.set(i, handle);
                proof {
                    assert(self.plans@ == old(self).plans@ && self.keys@ == old(self).keys@);
                    assert(self.wf());
                    assert(self.key_at(i as int) == k);
                    assert forall|j: int| 0 <= j < self.len() && j != i implies
                        #[trigger] self.key_at(j) == old(self).key_at(j) && self.handles@[j] == old(self).handles@[j] by {}
                    assert forall|key: ArrangementKey| #[trigger] self@.contains_key(key) == before.insert(k, handle).contains_key(key) by {
                        if self@.contains_key(key) {
                            let j = choose|j: int| 0 <= j < self.len() && self.key_at(j) == key;
                            if j != i {
                                old(self).lemma_view_at(j);
                            }
                        }
                        if before.contains_key(key) {
                            let j = choose|j: int| 0 <= j < old(self).len() && old(self).key_at(j) == key;
                            assert(self.key_at(j) == key);
                        }
                        if key == k {
                            assert(self.key_at(i as int) == key);
                        }
                    }
                    assert forall|key: ArrangementKey| #[trigger] self@.contains_key(key) implies self@[key] == before.insert(k, handle)[key] by {
                        let j = choose|j: int| 0 <= j < self.len() && self.key_at(j) == key;
                        self.lemma_view_at(j);
                        if j != i {
                            old(self).lemma_view_at(j);
                        }
                    }
                    assert(self@ =~= before.insert(k, handle));
                }
            },
            None => {
                let ghost n = self.len() as int;
                self.plans.push(plan);
                self.keys.push(key_vec);
                self.handles.push(handle);
                proof {
                    assert(self.key_at(n) == k);
                    assert forall|j: int| 0 <= j < n implies
                        #[trigger] self.key_at(j) == old(self).key_at(j) && self.handles@[j] == old(self).handles@[j] by {}
                    assert forall|a: int, b: int| 0 <= a < self.len() && 0 <= b < self.len() && a != b
                        implies key_of(self.plans@, self.keys@, a) != key_of(self.plans@, self.keys@, b) by {
                        if a < n && b < n {
                            assert(self.key_at(a) == old(self).key_at(a));
                            assert(self.key_at(b) == old(self).key_at(b));
                        } else if a == n && b < n {
                            old(self).lemma_view_at(b);
                        } else if b == n && a < n {
                            old(self).lemma_view_at(a);
                        }
                    }
                    assert forall|key: ArrangementKey| #[trigger] self@.contains_key(key) == before.insert(k, handle).contains_key(key) by {
                        if self@.contains_key(key) {
                            let j = choose|j: int| 0 <= j < self.len() && self.key_at(j) == key;
                            if j < n {
                                old(self).lemma_view_at(j);
                            }
                        }
                        if before.contains_key(key) {
                            let j = choose|j: int| 0 <= j < old(self).len() && old(self).key_at(j) == key;
                            assert(self.key_at(j) == key);
                        }
                        if key == k {
                            assert(self.key_at(n) == key);
                        }
                    }
                    assert forall|key: ArrangementKey| #[trigger] self@.contains_key(key) implies self@[key] == before.insert(k, handle)[key] by {
                        let j = choose|j: int| 0 <= j < self.len() && self.key_at(j) == key;
                        self.lemma_view_at(j);
                        if j < n {
                            old(self).lemma_view_at(j);
                        }
                    }
                    assert(self@ =~= before.insert(k, handle));
                }
            },
        }
    }

    /// Removes every entry.
    pub fn clear(&mut self)
        ensures
            final(self).wf(),
            final(self)@ == Map::<ArrangementKey, H>::empty(),
    {
        self.plans.clear();
        self.keys.clear();
        self.handles.clear();
        assert(self@ =~= Map::<ArrangementKey, H>::empty());
    }

    /// The number of entries.
    pub fn count(&self) -> (r: usize)
        ensures
            r == self.len(),
    {
        self.handles.len()
    }

    /// The handle of the entry at position `i`.
    pub closed spec fn handle_at(&self, i: int) -> H {
        self.handles@[i]
    }

    /// The handle at position `i`, for work on it; only that handle changes.
    pub fn handle_mut(&mut self, i: usize) -> (r: &mut H)
        requires
            old(self).wf(),
            i < old(self).len(),
        ensures
            *r == old(self).handle_at(i as int),
            final(self).wf(),
            final(self).len() == old(self).len(),
            final(self).key_list() == old(self).key_list(),
            final(self).handle_at(i as int) == *final(r),
            forall|j: int| 0 <= j < old(self).len() && j != i ==> #[trigger] final(self).handle_at(j) == old(self).handle_at(j),
    {
        &mut self.handles[i]
    }
}

/// Element-wise equality of two slices of column indices.
pub fn slices_equal(a: &[usize], b: &[usize]) -> (r: bool)
    ensures
        r == (a@ == b@),
{
    if a.len() != b.len() {
        return false;
    }
    let mut k: usize = 0;
    while k < a.len()
        invariant
            k <= a@.len(),
            a@.len() == b@.len(),
            forall|j: int| 0 <= j < k ==> a@[j] == b@[j],
        decreases a@.len() - k,
    {
        if a[k] != b[k] {
            return false;
        }
        k = k + 1;
    }
    assert(a@ =~= b@);
    true
}

} // verus!
