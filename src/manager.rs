//! Management of input sessions, maintained traces and the logical frontier.
use vstd::prelude::*;
use crate::cache::{ArrangementCache, ArrangementKey, key_columns, normalized_keys};
use crate::plan::{Plan, source_model};
use crate::datum::all_columns;

verus! {

/// A logical time: a duration since the start, in seconds and nanoseconds.
#[derive(Clone, Copy, Debug, PartialEq, Eq, Structural, Hash)]
pub struct Time {
    pub secs: u64,
    pub nanos: u32,
}

/// The time as a number of nanoseconds since the start.
pub open spec fn time_nanos(t: Time) -> int {
    t.secs * 1_000_000_000 + t.nanos
}

/// `a` is strictly earlier than `b`, comparing their durations (so a time
/// whose nanoseconds exceed a second is read as the duration it denotes).
pub open spec fn time_lt(a: Time, b: Time) -> bool {
    time_nanos(a) < time_nanos(b)
}

impl Time {
    /// The time `secs` seconds after the start.
    pub fn from_secs(secs: u64) -> (r: Time)
        ensures
            r == (Time { secs, nanos: 0 }),
    {
        Time { secs, nanos: 0 }
    }

    /// Whether `self` is strictly earlier than `other`.
    pub fn less_than(&self, other: &Time) -> (r: bool)
        ensures
            r == time_lt(*self, *other),
    {
        let a: u128 = (self.secs as u128) * 1_000_000_000 + (self.nanos as u128);
        let b: u128 = (other.secs as u128) * 1_000_000_000 + (other.nanos as u128);
        a < b
    }
}

/// Some element of the frontier `upper` is strictly earlier than `time`.
pub open spec fn frontier_lt(upper: Seq<Time>, time: Time) -> bool {
    exists|k: int| 0 <= k < upper.len() && time_lt(#[trigger] upper[k], time)
}

/// Whether some element of a frontier is strictly earlier than `time`.
pub fn frontier_less_than(upper: &[Time], time: &Time) -> (r: bool)
    ensures
        r == frontier_lt(upper@, *time),
{
    let mut k: usize = 0;
    while k < upper.len()
        invariant
            k <= upper@.len(),
            forall|j: int| 0 <= j < k ==> !time_lt(#[trigger] upper@[j], *time),
        decreases upper@.len() - k,
    {
        if upper[k].less_than(time) {
            return true;
        }
        k = k + 1;
    }
    false
}

/// Input sessions by name.
pub struct InputManager<S> {
    names: Vec<String>,
    sessions: Vec<S>,
}

impl<S> InputManager<S> {
    /// The name of the session at position `i`.
    pub closed spec fn name_at(&self, i: int) -> Seq<char> {
        self.names@[i]@
    }

    /// The names of the sessions, in order.
    pub closed spec fn name_list(&self) -> Seq<Seq<char>> {
        Seq::new(self.names@.len(), |i: int| self.name_at(i))
    }

    /// The names and sessions are aligned, and no name occurs twice.
    pub closed spec fn wf(&self) -> bool {
        &&& self.names@.len() == self.sessions@.len()
        &&& forall|i: int, j: int|
            0 <= i < self.names@.len() && 0 <= j < self.names@.len() && i != j
                ==> self.names@[i]@ != self.names@[j]@
    }

    /// The sessions by name.
    pub closed spec fn view(&self) -> Map<Seq<char>, S> {
        Map::new(
            |n: Seq<char>| exists|i: int| 0 <= i < self.names@.len() && self.name_at(i) == n,
            |n: Seq<char>| self.sessions@[choose|i: int| 0 <= i < self.names@.len() && self.name_at(i) == n],
        )
    }

    /// Position `i` holds the session of its name.
    pub proof fn lemma_view_at(&self, i: int)
        requires
            self.wf(),
            0 <= i < self.name_list().len(),
        ensures
            self@.contains_key(self.name_at(i)),
            self@[self.name_at(i)] == self.session_at(i),
    {
        let n = self.name_at(i);
        assert(exists|j: int| 0 <= j < self.names@.len() && self.name_at(j) == n);
        let j = choose|j: int| 0 <= j < self.names@.len() && self.name_at(j) == n;
        assert(i == j);
    }

    /// No sessions.
    pub fn new() -> (r: Self)
        ensures
            r.wf(),
            r@ == Map::<Seq<char>, S>::empty(),
    {
        let r = InputManager { names: Vec::new(), sessions: Vec::new() };
        assert(r@ =~= Map::<Seq<char>, S>::empty());
        r
    }

    fn position(&self, name: &str) -> (r: Option<usize>)
        requires
            self.wf(),
        ensures
            match r {
                Some(i) => i < self.names@.len() && self.name_at(i as int) == name@,
                None => !self@.contains_key(name@),
            },
    {
        let wanted = name.to_owned();
        let mut i: usize = 0;
        while i < self.names.len()
            invariant
                self.wf(),
                wanted@ == name@,
                i <= self.names@.len(),
                forall|j: int| 0 <= j < i ==> self.name_at(j) != name@,
            decreases self.names@.len() - i,
        {
            if self.names[i] == wanted {
                return Some(i);
            }
            i = i + 1;
        }
        None
    }

    /// Whether a session of this name exists.
    pub fn contains(&self, name: &str) -> (r: bool)
        requires
            self.wf(),
        ensures
            r == self@.contains_key(name@),
    {
        match self.position(name) {
            Some(i) => {
                proof {
                    self.lemma_view_at(i as int);
                }
                true
            },
            None => false,
        }
    }

    /// The position of the session of this name, if there is one.
    pub fn find(&self, name: &str) -> (r: Option<usize>)
        requires
            self.wf(),
        ensures
            match r {
                Some(i) => i < self.name_list().len() && self.name_at(i as int) == name@,
                None => !self@.contains_key(name@),
            },
    {
        self.position(name)
    }

    /// The number of sessions.
    pub fn count(&self) -> (r: usize)
        requires
            self.wf(),
        ensures
            r == self.name_list().len(),
    {
        self.sessions.len()
    }

    /// The session at position `i`.
    pub closed spec fn session_at(&self, i: int) -> S {
        self.sessions@[i]
    }

    /// The session at position `i`, for work on it; only that session changes.
    pub fn session_mut(&mut self, i: usize) -> (r: &mut S)
        requires
            old(self).wf(),
            i < old(self).name_list().len(),
        ensures
            *r == old(self).session_at(i as int),
            final(self).wf(),
            final(self).name_list() == old(self).name_list(),
            final(self).session_at(i as int) == *final(r),
            forall|j: int| 0 <= j < old(self).name_list().len() && j != i
                ==> #[trigger] final(self).session_at(j) == old(self).session_at(j),
    {
        &mut self.sessions[i]
    }

    /// Adds a session under `name`, replacing any session of that name.
    pub fn insert(&mut self, name: String, session: S)
        requires
            old(self).wf(),
        ensures
            final(self).wf(),
            final(self)@ == old(self)@.insert(name@, session),
    {
        let ghost before = self@;
        let ghost k = name@;
        match self.position(name.as_str()) {
            Some(i) => {
                self.sessions.set(i, session);
                proof {
                    assert(self.names@ == old(self).names@);
                    assert forall|j: int| 0 <= j < self.names@.len() implies
                        #[trigger] self.name_at(j) == old(self).name_at(j) by {}
                    assert(self.wf());
                    assert forall|n: Seq<char>| #[trigger] self@.contains_key(n) == before.insert(k, session).contains_key(n) by {
                        if self@.contains_key(n) {
                            let j = choose|j: int| 0 <= j < self.names@.len() && self.name_at(j) == n;
                            if j != i {
                                old(self).lemma_view_at(j);
                            }
                        }
                        if before.contains_key(n) {
                            let j = choose|j: int| 0 <= j < old(self).names@.len() && old(self).name_at(j) == n;
                            assert(self.name_at(j) == n);
                        }
                        if n == k {
                            assert(self.name_at(i as int) == n);
                        }
                    }
                    assert forall|n: Seq<char>| #[trigger] self@.contains_key(n) implies self@[n] == before.insert(k, session)[n] by {
                        let j = choose|j: int| 0 <= j < self.names@.len() && self.name_at(j) == n;
                        self.lemma_view_at(j);
                        if j != i {
                            old(self).lemma_view_at(j);
                        }
                    }
                    assert(self@ =~= before.insert(k, session));
                }
            },
            None => {
                let ghost n0 = self.names@.len() as int;
                self.names.push(name);
                self.sessions.push(session);
                proof {
                    assert(self.name_at(n0) == k);
                    assert forall|j: int| 0 <= j < n0 implies #[trigger] self.name_at(j) == old(self).name_at(j) by {}
                    assert forall|a: int, b: int| 0 <= a < self.names@.len() && 0 <= b < self.names@.len() && a != b
                        implies self.names@[a]@ != self.names@[b]@ by {
                        if a == n0 && b < n0 {
                            old(self).lemma_view_at(b);
                        } else if b == n0 && a < n0 {
                            old(self).lemma_view_at(a);
                        }
                    }
                    assert forall|n: Seq<char>| #[trigger] self@.contains_key(n) == before.insert(k, session).contains_key(n) by {
                        if self@.contains_key(n) {
                            let j = choose|j: int| 0 <= j < self.names@.len() && self.name_at(j) == n;
                            if j < n0 {
                                old(self).lemma_view_at(j);
                            }
                        }
                        if before.contains_key(n) {
                            let j = choose|j: int| 0 <= j < old(self).names@.len() && old(self).name_at(j) == n;
                            assert(self.name_at(j) == n);
                        }
                        if n == k {
                            assert(self.name_at(n0) == n);
                        }
                    }
                    assert forall|n: Seq<char>| #[trigger] self@.contains_key(n) implies self@[n] == before.insert(k, session)[n] by {
                        let j = choose|j: int| 0 <= j < self.names@.len() && self.name_at(j) == n;
                        self.lemma_view_at(j);
                        if j < n0 {
                            old(self).lemma_view_at(j);
                        }
                    }
                    assert(self@ =~= before.insert(k, session));
                }
            },
        }
    }

    /// Removes the session of this name, if there is one, and returns it.
    pub fn remove(&mut self, name: &str) -> (r: Option<S>)
        requires
            old(self).wf(),
        ensures
            final(self).wf(),
            final(self)@ == old(self)@.remove(name@),
            match r {
                Some(s) => old(self)@.contains_key(name@) && s == old(self)@[name@],
                None => !old(self)@.contains_key(name@),
            },
    {
        let ghost before = self@;
        match self.position(name) {
            Some(i) => {
                proof {
                    self.lemma_view_at(i as int);
                }
                self.names.remove(i);
                let s = self.sessions.remove(i);
                proof {
                    let len = self.names@.len() as int;
                    assert forall|j: int| 0 <= j < len implies #[trigger] self.name_at(j) == old(self).name_at(
                        if j < i { j } else { j + 1 },
                    ) && self.sessions@[j] == old(self).sessions@[if j < i { j } else { j + 1 }] by {}
                    assert forall|a: int, b: int| 0 <= a < len && 0 <= b < len && a != b
                        implies self.names@[a]@ != self.names@[b]@ by {
                        assert(self.name_at(a) == old(self).name_at(if a < i { a } else { a + 1 }));
                        assert(self.name_at(b) == old(self).name_at(if b < i { b } else { b + 1 }));
                    }
                    assert forall|n: Seq<char>| #[trigger] self@.contains_key(n) == before.remove(name@).contains_key(n) by {
                        if self@.contains_key(n) {
                            let j = choose|j: int| 0 <= j < len && self.name_at(j) == n;
                            let oj = if j < i { j } else { j + 1 };
                            assert(old(self).name_at(oj) == n);
                            old(self).lemma_view_at(oj);
                        }
                        if before.remove(name@).contains_key(n) {
                            let j = choose|j: int| 0 <= j < old(self).names@.len() && old(self).name_at(j) == n;
                            assert(j != i);
                            let nj = if j < i { j } else { j - 1 };
                            assert(self.name_at(nj) == n);
                        }
                    }
                    assert forall|n: Seq<char>| #[trigger] self@.contains_key(n) implies self@[n] == before.remove(name@)[n] by {
                        let j = choose|j: int| 0 <= j < len && self.name_at(j) == n;
                        self.lemma_view_at(j);
                        let oj = if j < i { j } else { j + 1 };
                        old(self).lemma_view_at(oj);
                    }
                    assert(self@ =~= before.remove(name@));
                }
                Some(s)
            },
            None => {
                assert(self@ =~= before.remove(name@));
                None
            },
        }
    }

    /// Removes every session.
    pub fn clear(&mut self)
        ensures
            final(self).wf(),
            final(self)@ == Map::<Seq<char>, S>::empty(),
    {
        self.names.clear();
        self.sessions.clear();
        assert(self@ =~= Map::<Seq<char>, S>::empty());
    }

}

/// Root handles to maintained arrangements, by plan and key columns.
pub struct TraceManager<H> {
    arrangements: ArrangementCache<H>,
}

impl<H> TraceManager<H> {
    /// The arrangements are well formed.
    pub closed spec fn wf(&self) -> bool {
        self.arrangements.wf()
    }

    /// The maintained arrangements as a map.
    pub closed spec fn view(&self) -> Map<ArrangementKey, H> {
        self.arrangements@
    }

    /// No arrangements.
    pub fn new() -> (r: Self)
        ensures
            r.wf(),
            r@ == Map::<ArrangementKey, H>::empty(),
    {
        TraceManager { arrangements: ArrangementCache::new() }
    }

    /// The arrangement of `plan` by `keys`, if it is maintained; with no keys
    /// named, by all columns.
    pub fn get(&self, plan: &Plan, keys: Option<&[usize]>) -> (r: Option<&H>)
        requires
            self.wf(),
        ensures
            ({
                let k = (plan.model(), normalized_keys(plan.model(), key_columns(keys)));
                match r {
                    Some(h) => self@.contains_key(k) && *h == self@[k],
                    None => !self@.contains_key(k),
                }
            }),
    {
        self.arrangements.get(plan, keys)
    }

    /// Installs an arrangement of `plan` by `keys`, replacing an earlier one.
    pub fn set(&mut self, plan: Plan, keys: Option<&[usize]>, handle: H)
        requires
            old(self).wf(),
        ensures
            final(self).wf(),
            final(self)@ == old(self)@.insert(
                (plan.model(), normalized_keys(plan.model(), key_columns(keys))),
                handle,
            ),
    {
        self.arrangements.set(plan, keys, handle)
    }

    /// Drops every arrangement.
    pub fn clear(&mut self)
        ensures
            final(self).wf(),
            final(self)@ == Map::<ArrangementKey, H>::empty(),
    {
        self.arrangements.clear()
    }

    /// The number of maintained arrangements.
    pub closed spec fn len(&self) -> nat {
        self.arrangements.len()
    }

    /// The keys of the arrangements, in order.
    pub closed spec fn key_list(&self) -> Seq<ArrangementKey> {
        self.arrangements.key_list()
    }

    /// The handle at position `i`.
    pub closed spec fn handle_at(&self, i: int) -> H {
        self.arrangements.handle_at(i)
    }

    /// The number of maintained arrangements.
    pub fn count(&self) -> (r: usize)
        requires
            self.wf(),
        ensures
            r == self.len(),
    {
        self.arrangements.count()
    }

    /// The handle at position `i`, for advancing it; the map's keys stay as
    /// they are and only that handle changes.
    pub fn handle_mut(&mut self, i: usize) -> (r: &mut H)
        requires
            old(self).wf(),
            i < old(self).len(),
        ensures
            *r == old(self).handle_at(i as int),
            final(self).wf(),
            final(self).len() == old(self).len(),
            final(self).key_list() == old(self).key_list(),
            final(self).handle_at(i as int) == *final(r),
            forall|j: int| 0 <= j < old(self).len() && j != i
                ==> #[trigger] final(self).handle_at(j) == old(self).handle_at(j),
    {
        self.arrangements.handle_mut(i)
    }
}

/// Manages inputs, traces and the frontier up to which time has advanced.
pub struct Manager<S, H> {
    /// Input sessions.
    pub inputs: InputManager<S>,
    /// Maintained arrangements.
    pub traces: TraceManager<H>,
    /// The latest time that inputs and traces were advanced to.
    pub frontier: Time,
}

impl<S, H> Manager<S, H> {
    /// Inputs and traces are well formed.
    pub open spec fn wf(&self) -> bool {
        self.inputs.wf() && self.traces.wf()
    }

    /// A manager with no inputs and no traces, at the start of time.
    pub fn new() -> (r: Self)
        ensures
            r.wf(),
            r.inputs@ == Map::<Seq<char>, S>::empty(),
            r.traces@ == Map::<ArrangementKey, H>::empty(),
            r.frontier == (Time { secs: 0, nanos: 0 }),
    {
        Manager { inputs: InputManager::new(), traces: TraceManager::new(), frontier: Time { secs: 0, nanos: 0 } }
    }

    /// Registers an input session and its arrangement by all columns, under
    /// the source plan of that name and arity.
    pub fn insert_input(&mut self, name: String, arity: usize, input: S, trace: H)
        requires
            old(self).wf(),
        ensures
            final(self).wf(),
            final(self).inputs@ == old(self).inputs@.insert(name@, input),
            final(self).traces@ == old(self).traces@.insert(
                (source_model(name@, arity as nat), all_columns(arity as nat)),
                trace,
            ),
            final(self).frontier == old(self).frontier,
    {
        let plan = Plan::source(name.as_str(), arity);
        self.inputs.insert(name, input);
        self.traces.set(plan, None, trace);
    }

    /// Clears the managed inputs and traces.
    pub fn shutdown(&mut self)
        ensures
            final(self).wf(),
            final(self).inputs@ == Map::<Seq<char>, S>::empty(),
            final(self).traces@ == Map::<ArrangementKey, H>::empty(),
            final(self).frontier == old(self).frontier,
    {
        self.inputs.clear();
        self.traces.clear();
    }

    /// Moves the frontier to `time` if that is later, and says whether it moved:
    /// a time not after the frontier leaves everything as it was.
    pub fn advance_time(&mut self, time: &Time) -> (r: bool)
        ensures
            r == time_lt(old(self).frontier, *time),
            final(self).frontier == if r { *time } else { old(self).frontier },
            final(self).inputs == old(self).inputs,
            final(self).traces == old(self).traces,
    {
        if self.frontier.less_than(time) {
            self.frontier = *time;
            true
        } else {
            false
        }
    }

    /// Whether the upper frontier of some maintained trace is still strictly
    /// below `time`, given the upper frontier read from each trace.
    pub fn less_than(uppers: &Vec<Vec<Time>>, time: &Time) -> (r: bool)
        ensures
            r == exists|k: int| 0 <= k < uppers@.len() && frontier_lt((#[trigger] uppers@[k])@, *time),
    {
        let mut k: usize = 0;
        while k < uppers.len()
            invariant
                k <= uppers@.len(),
                forall|j: int| 0 <= j < k ==> !frontier_lt((#[trigger] uppers@[j])@, *time),
            decreases uppers@.len() - k,
        {
            if frontier_less_than(uppers[k].as_slice(), time) {
                return true;
            }
            k = k + 1;
        }
        false
    }
}

} // verus!
