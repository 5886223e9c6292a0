//! Timers: callbacks sorted by expiry date.
//!
//! A [`TimerList`] holds the records of all timers in a slot table and the
//! armed timers in a list sorted by deadline. Time is a count of milliseconds
//! since the list's origin. The host loop runs a dispatch pass in three kinds
//! of steps: [`TimerList::take_due_timers`], then [`TimerList::next_due`]
//! until it yields nothing, calling the callback of each timer it yields and
//! then [`TimerList::after_fire`].
//!
//! Callbacks may start, stop or restart any timer while a pass runs. The
//! entries of the pass stay in the registry until their turn, so a timer
//! stopped or re-armed by an earlier callback of the same pass does not fire
//! in it. Timers due at the same instant fire in the order in which they
//! were last armed.
use vstd::prelude::*;

verus! {

/// What happens to a timer after it fired.
#[derive(Clone, Copy, Debug, PartialEq, Eq, Structural)]
pub enum TimerMode {
    /// Fired only once.
    SingleShot,
    /// Fired repeatedly until it is stopped.
    Repeated,
}

/// The stored state of one timer.
#[derive(Clone, Copy, Debug)]
pub struct TimerData {
    pub duration: u64,
    pub mode: TimerMode,
    pub running: bool,
}

/// A timer's slot id together with the instant at which it is due.
#[derive(Clone, Copy, Debug)]
pub struct ActiveTimer {
    pub id: usize,
    pub timeout: u64,
}

/// The instant a deadline falls on; it saturates at the largest instant.
pub open spec fn deadline(now: u64, duration: u64) -> u64 {
    if now + duration > u64::MAX {
        u64::MAX
    } else {
        (now + duration) as u64
    }
}

pub open spec fn sorted(s: Seq<ActiveTimer>) -> bool {
    forall|i: int, j: int| 0 <= i <= j < s.len() ==> s[i].timeout <= s[j].timeout
}

pub open spec fn unique_ids(s: Seq<ActiveTimer>) -> bool {
    forall|i: int, j: int| 0 <= i < j < s.len() ==> s[i].id != s[j].id
}

pub open spec fn holds_id(s: Seq<ActiveTimer>, id: usize) -> bool {
    exists|k: int| 0 <= k < s.len() && s[k].id == id
}

/// `s` with the entry of timer `id` taken out, if it has one.
pub open spec fn without(s: Seq<ActiveTimer>, id: usize) -> Seq<ActiveTimer> {
    if holds_id(s, id) {
        s.remove(choose|k: int| 0 <= k < s.len() && s[k].id == id)
    } else {
        s
    }
}

/// The number of leading entries of `s` due no later than `t`.
pub open spec fn insertion_index(s: Seq<ActiveTimer>, t: u64) -> int
    decreases s.len(),
{
    if s.len() == 0 || s[0].timeout > t {
        0
    } else {
        1 + insertion_index(s.drop_first(), t)
    }
}

/// `s` with `e` placed after every entry due no later than it.
pub open spec fn insert_sorted(s: Seq<ActiveTimer>, e: ActiveTimer) -> Seq<ActiveTimer> {
    s.insert(insertion_index(s, e.timeout), e)
}


proof fn lemma_insertion_index(s: Seq<ActiveTimer>, t: u64)
    requires
        sorted(s),
    ensures
        0 <= insertion_index(s, t) <= s.len(),
        forall|i: int| 0 <= i < insertion_index(s, t) ==> s[i].timeout <= t,
        forall|i: int| insertion_index(s, t) <= i < s.len() ==> s[i].timeout > t,
    decreases s.len(),
{
    if s.len() > 0 && s[0].timeout <= t {
        let r = s.drop_first();
        assert(sorted(r));
        lemma_insertion_index(r, t);
        assert forall|i: int| 0 <= i < insertion_index(s, t) implies s[i].timeout <= t by {
            if i > 0 {
                assert(s[i] == r[i - 1]);
            }
        }
        assert forall|i: int| insertion_index(s, t) <= i < s.len() implies s[i].timeout > t by {
            assert(s[i] == r[i - 1]);
        }
    }
}

/// The index that splits a sorted list at `t` is the insertion index.
proof fn lemma_insertion_index_unique(s: Seq<ActiveTimer>, t: u64, k: int)
    requires
        sorted(s),
        0 <= k <= s.len(),
        forall|i: int| 0 <= i < k ==> s[i].timeout <= t,
        forall|i: int| k <= i < s.len() ==> s[i].timeout > t,
    ensures
        k == insertion_index(s, t),
{
    lemma_insertion_index(s, t);
    let j = insertion_index(s, t);
    if k < j {
        assert(s[k].timeout > t);
    } else if j < k {
        assert(s[j].timeout > t);
    }
}

proof fn lemma_insert_sorted(s: Seq<ActiveTimer>, e: ActiveTimer)
    requires
        sorted(s),
    ensures
        sorted(insert_sorted(s, e)),
        0 <= insertion_index(s, e.timeout) <= s.len(),
        insert_sorted(s, e).len() == s.len() + 1,
        insert_sorted(s, e)[insertion_index(s, e.timeout)] == e,
        forall|i: int|
            0 <= i < insertion_index(s, e.timeout) ==> #[trigger] insert_sorted(s, e)[i] == s[i],
        forall|i: int|
            insertion_index(s, e.timeout) < i <= s.len() ==> #[trigger] insert_sorted(s, e)[i]
                == s[i - 1],
{
    lemma_insertion_index(s, e.timeout);
    s.insert_ensures(insertion_index(s, e.timeout), e);
}

proof fn lemma_without(s: Seq<ActiveTimer>, id: usize, i: int)
    requires
        unique_ids(s),
        0 <= i < s.len(),
        s[i].id == id,
    ensures
        without(s, id) == s.remove(i),
{
    assert(holds_id(s, id));
    let k = choose|k: int| 0 <= k < s.len() && s[k].id == id;
    if k < i {
        assert(s[k].id != s[i].id);
    } else if i < k {
        assert(s[i].id != s[k].id);
    }
}

proof fn lemma_without_facts(s: Seq<ActiveTimer>, id: usize)
    requires
        unique_ids(s),
        sorted(s),
    ensures
        unique_ids(without(s, id)),
        sorted(without(s, id)),
        !holds_id(without(s, id), id),
        forall|j: int| 0 <= j < without(s, id).len() ==> s.contains(#[trigger] without(s, id)[j]),
        forall|i: int| 0 <= i < s.len() && s[i].id != id ==> holds_id(without(s, id), #[trigger] s[i].id),
{
    if holds_id(s, id) {
        let k = choose|k: int| 0 <= k < s.len() && s[k].id == id;
        s.remove_ensures(k);
        let w = s.remove(k);
        assert(w == without(s, id));
        assert forall|j: int| 0 <= j < w.len() implies s.contains(#[trigger] w[j]) by {
            if j < k {
                assert(s[j] == w[j]);
            } else {
                assert(s[j + 1] == w[j]);
            }
        }
        assert forall|i: int| 0 <= i < s.len() && s[i].id != id implies holds_id(w, #[trigger] s[i].id) by {
            if i < k {
                assert(w[i] == s[i]);
            } else {
                assert(i != k);
                assert(w[i - 1] == s[i]);
            }
        }
        assert(!holds_id(w, id)) by {
            if holds_id(w, id) {
                let j = choose|j: int| 0 <= j < w.len() && w[j].id == id;
                if j < k {
                    assert(s[j].id == s[k].id);
                } else {
                    assert(s[j + 1].id == s[k].id);
                }
            }
        }
    } else {
        let w = without(s, id);
        assert forall|j: int| 0 <= j < w.len() implies s.contains(#[trigger] w[j]) by {
            assert(s[j] == w[j]);
        }
        assert forall|i: int| 0 <= i < s.len() && s[i].id != id implies holds_id(s, #[trigger] s[i].id) by {}
    }
}


proof fn lemma_holds_concat(a: Seq<ActiveTimer>, b: Seq<ActiveTimer>, x: usize)
    ensures
        holds_id(a + b, x) <==> holds_id(a, x) || holds_id(b, x),
{
    if holds_id(a + b, x) {
        let k = choose|k: int| 0 <= k < (a + b).len() && (a + b)[k].id == x;
        if k < a.len() {
            assert(a[k] == (a + b)[k]);
        } else {
            assert(b[k - a.len()] == (a + b)[k]);
        }
    }
    if holds_id(a, x) {
        let k = choose|k: int| 0 <= k < a.len() && a[k].id == x;
        assert((a + b)[k] == a[k]);
    }
    if holds_id(b, x) {
        let k = choose|k: int| 0 <= k < b.len() && b[k].id == x;
        assert((a + b)[k + a.len()] == b[k]);
    }
}

proof fn lemma_unique_concat(a: Seq<ActiveTimer>, b: Seq<ActiveTimer>)
    ensures
        unique_ids(a + b) <==> (unique_ids(a) && unique_ids(b) && forall|i: int, j: int|
            0 <= i < a.len() && 0 <= j < b.len() ==> a[i].id != b[j].id),
{
    let c = a + b;
    if unique_ids(c) {
        assert forall|i: int, j: int| 0 <= i < j < a.len() implies a[i].id != a[j].id by {
            assert(c[i] == a[i] && c[j] == a[j]);
        }
        assert forall|i: int, j: int| 0 <= i < j < b.len() implies b[i].id != b[j].id by {
            assert(c[i + a.len()] == b[i] && c[j + a.len()] == b[j]);
        }
        assert forall|i: int, j: int| 0 <= i < a.len() && 0 <= j < b.len() implies a[i].id
            != b[j].id by {
            assert(c[i] == a[i] && c[j + a.len()] == b[j]);
        }
    }
    if unique_ids(a) && unique_ids(b) && forall|i: int, j: int|
        0 <= i < a.len() && 0 <= j < b.len() ==> a[i].id != b[j].id {
        assert forall|i: int, j: int| 0 <= i < j < c.len() implies c[i].id != c[j].id by {
            if j < a.len() {
                assert(c[i] == a[i] && c[j] == a[j]);
            } else if i < a.len() {
                assert(c[i] == a[i] && c[j] == b[j - a.len()]);
            } else {
                assert(c[i] == b[i - a.len()] && c[j] == b[j - a.len()]);
            }
        }
    }
}


proof fn lemma_insert_sorted_facts(s: Seq<ActiveTimer>, e: ActiveTimer)
    requires
        sorted(s),
        unique_ids(s),
        !holds_id(s, e.id),
    ensures
        sorted(insert_sorted(s, e)),
        unique_ids(insert_sorted(s, e)),
        holds_id(insert_sorted(s, e), e.id),
        forall|x: usize| holds_id(s, x) ==> holds_id(insert_sorted(s, e), x),
        forall|j: int|
            0 <= j < insert_sorted(s, e).len() ==> #[trigger] insert_sorted(s, e)[j] == e
                || s.contains(insert_sorted(s, e)[j]),
{
    lemma_insert_sorted(s, e);
    let k = insertion_index(s, e.timeout);
    let w = insert_sorted(s, e);
    assert(w[k] == e);
    assert forall|x: usize| holds_id(s, x) implies holds_id(w, x) by {
        let i = choose|i: int| 0 <= i < s.len() && s[i].id == x;
        if i < k {
            assert(w[i] == s[i]);
        } else {
            assert(w[i + 1] == s[i]);
        }
    }
    assert forall|j: int| 0 <= j < w.len() implies #[trigger] w[j] == e || s.contains(w[j]) by {
        if j < k {
            assert(w[j] == s[j]);
        } else if j > k {
            assert(w[j] == s[j - 1]);
        }
    }
    assert forall|i: int, j: int| 0 <= i < j < w.len() implies w[i].id != w[j].id by {
        if i == k {
            assert(w[j] == s[j - 1]);
        } else if j == k {
            assert(w[i] == s[i]);
        } else {
            let i0 = if i < k { i } else { i - 1 };
            let j0 = if j < k { j } else { j - 1 };
            assert(w[i] == s[i0] && w[j] == s[j0]);
        }
    }
}

/// The abstract state of a timer list: the slot table, the armed timers in
/// deadline order, and the entries of a dispatch pass not yet handled.
pub struct Sched {
    pub slots: Map<usize, TimerData>,
    pub active: Seq<ActiveTimer>,
    pub pending: Seq<ActiveTimer>,
}

impl Sched {
    pub open spec fn entries(self) -> Seq<ActiveTimer> {
        self.active + self.pending
    }

    /// Everything of `wf` but that each running timer has an entry.
    pub open spec fn partial_wf(self) -> bool {
        &&& sorted(self.active)
        &&& sorted(self.pending)
        &&& unique_ids(self.entries())
        &&& forall|i: int|
            0 <= i < self.entries().len() ==> #[trigger] self.slots.contains_key(
                self.entries()[i].id,
            ) && self.slots[self.entries()[i].id].running
    }

    pub open spec fn covered(self, id: usize) -> bool {
        self.slots.contains_key(id) && self.slots[id].running ==> holds_id(self.entries(), id)
    }

    /// A timer is running if and only if it has exactly one entry.
    pub open spec fn wf(self) -> bool {
        &&& self.partial_wf()
        &&& forall|id: usize| #[trigger] self.covered(id)
    }

    pub open spec fn is_running(self, id: usize) -> bool {
        self.slots.contains_key(id) && self.slots[id].running
    }

    pub open spec fn set_running(self, id: usize, r: bool) -> Sched {
        Sched {
            slots: if self.slots.contains_key(id) {
                self.slots.insert(id, TimerData { running: r, ..self.slots[id] })
            } else {
                self.slots
            },
            ..self
        }
    }

    /// Takes the entry of timer `id` out of both lists and clears its flag.
    pub open spec fn deactivate(self, id: usize) -> Sched {
        if holds_id(self.entries(), id) {
            Sched {
                active: without(self.active, id),
                pending: without(self.pending, id),
                ..self
            }.set_running(id, false)
        } else {
            self
        }
    }

    pub open spec fn register(self, e: ActiveTimer) -> Sched {
        Sched { active: insert_sorted(self.active, e), ..self }.set_running(e.id, true)
    }

    pub open spec fn activate(self, id: usize, now: u64) -> Sched {
        self.register(ActiveTimer { id, timeout: deadline(now, self.slots[id].duration) })
    }

    /// Stores a fresh record in slot `id` and arms it.
    pub open spec fn place(self, id: usize, mode: TimerMode, duration: u64, now: u64) -> Sched {
        Sched {
            slots: self.slots.insert(id, TimerData { duration, mode, running: false }),
            ..self
        }.activate(id, now)
    }

    pub open spec fn start(self, id: usize, mode: TimerMode, duration: u64, now: u64) -> Sched {
        self.deactivate(id).place(id, mode, duration, now)
    }

    pub open spec fn restart(self, id: usize, now: u64) -> Sched {
        if self.slots.contains_key(id) {
            self.deactivate(id).activate(id, now)
        } else {
            self
        }
    }

    pub open spec fn remove(self, id: usize) -> Sched {
        Sched { slots: self.deactivate(id).slots.remove(id), ..self.deactivate(id) }
    }

    /// Whether a dispatch pass at `now` has work: none under way, and an
    /// armed timer due.
    pub open spec fn has_due(self, now: u64) -> bool {
        self.pending.len() == 0 && self.active.len() > 0 && self.active[0].timeout <= now
    }

    /// Begins a dispatch pass: all armed entries become the pass's entries.
    pub open spec fn take_due(self, now: u64) -> Sched {
        if self.has_due(now) {
            Sched { active: Seq::empty(), pending: self.active, ..self }
        } else {
            self
        }
    }

    /// Handles the pass's entries in order up to the first that is due, which
    /// is disarmed and whose id is returned; entries not due are armed again.
    pub open spec fn next_due(self, now: u64) -> (Sched, Option<usize>)
        decreases self.pending.len(),
    {
        if self.pending.len() == 0 {
            (self, None)
        } else {
            let e = self.pending[0];
            let rest = Sched { pending: self.pending.drop_first(), ..self };
            if e.timeout <= now {
                (rest.set_running(e.id, false), Some(e.id))
            } else {
                rest.register(e).next_due(now)
            }
        }
    }

    /// After the callback of timer `id` ran: a repeated timer that the
    /// callback neither stopped nor armed again is armed for `now` plus its
    /// duration.
    pub open spec fn after_fire(self, id: usize, now: u64) -> Sched {
        if self.slots.contains_key(id) && self.slots[id].mode == TimerMode::Repeated
            && !self.slots[id].running {
            self.activate(id, now)
        } else {
            self
        }
    }
}


impl Sched {
    #[verifier::spinoff_prover]
    #[verifier::rlimit(30)]
    proof fn lemma_deactivate(self, id: usize)
        requires
            self.wf(),
        ensures
            self.deactivate(id).wf(),
            !holds_id(self.deactivate(id).entries(), id),
            self.deactivate(id).slots.dom() == self.slots.dom(),
            forall|x: usize|
                x != id && self.slots.contains_key(x) ==> self.deactivate(id).slots[x]
                    == self.slots[x],
            self.slots.contains_key(id) ==> self.deactivate(id).slots[id] == (TimerData {
                running: false,
                ..self.slots[id]
            }),
    {
        let d = self.deactivate(id);
        lemma_unique_concat(self.active, self.pending);
        lemma_holds_concat(self.active, self.pending, id);
        if holds_id(self.entries(), id) {
            lemma_without_facts(self.active, id);
            lemma_without_facts(self.pending, id);
            let a = without(self.active, id);
            let p = without(self.pending, id);
            assert(d.active == a && d.pending == p);
            lemma_holds_concat(a, p, id);
            assert forall|i: int, j: int| 0 <= i < a.len() && 0 <= j < p.len() implies a[i].id
                != p[j].id by {
                assert(self.active.contains(a[i]));
                assert(self.pending.contains(p[j]));
            }
            lemma_unique_concat(a, p);
            assert(d.entries() == a + p);
            assert(unique_ids(d.entries()));
            assert forall|i: int| 0 <= i < d.entries().len() implies #[trigger] d.slots.contains_key(
                d.entries()[i].id,
            ) && d.slots[d.entries()[i].id].running by {
                let e = d.entries()[i];
                if i < a.len() {
                    assert(e == a[i]);
                    assert(self.active.contains(e));
                    let i0 = choose|i0: int| 0 <= i0 < self.active.len() && self.active[i0] == e;
                    assert(self.entries()[i0] == e);
                    assert(self.slots.contains_key(self.entries()[i0].id));
                    if e.id == id {
                        assert(a[i].id == id);
                    }
                } else {
                    assert(e == p[i - a.len()]);
                    assert(self.pending.contains(e));
                    let i0 = choose|i0: int| 0 <= i0 < self.pending.len() && self.pending[i0] == e;
                    assert(self.entries()[i0 + self.active.len()] == e);
                    assert(self.slots.contains_key(self.entries()[i0 + self.active.len()].id));
                    if e.id == id {
                        assert(p[i - a.len()].id == id);
                    }
                }
            }
            assert(sorted(d.active) && sorted(d.pending));
            assert(d.partial_wf());
            assert forall|x: usize| #[trigger] d.covered(x) by {
                if x == id {
                    assert(d.slots.contains_key(id) ==> !d.slots[id].running);
                } else if d.slots.contains_key(x) && d.slots[x].running {
                    assert(self.covered(x));
                    lemma_holds_concat(self.active, self.pending, x);
                    lemma_holds_concat(a, p, x);
                    if holds_id(self.active, x) {
                        let k = choose|k: int| 0 <= k < self.active.len() && self.active[k].id == x;
                        assert(holds_id(a, self.active[k].id));
                    } else {
                        let k = choose|k: int|
                            0 <= k < self.pending.len() && self.pending[k].id == x;
                        assert(holds_id(p, self.pending[k].id));
                    }
                }
            }
        } else {
            assert(self.covered(id));
        }
    }

    #[verifier::spinoff_prover]
    proof fn lemma_register(self, e: ActiveTimer)
        requires
            self.partial_wf(),
            forall|x: usize| x != e.id ==> #[trigger] self.covered(x),
            self.slots.contains_key(e.id),
            !holds_id(self.entries(), e.id),
        ensures
            self.register(e).wf(),
    {
        let r = self.register(e);
        let a = insert_sorted(self.active, e);
        lemma_unique_concat(self.active, self.pending);
        lemma_holds_concat(self.active, self.pending, e.id);
        lemma_insert_sorted_facts(self.active, e);
        assert(r.active == a);
        assert forall|i: int, j: int| 0 <= i < a.len() && 0 <= j < r.pending.len() implies a[i].id
            != r.pending[j].id by {
            if a[i] != e {
                let i0 = choose|i0: int| 0 <= i0 < self.active.len() && self.active[i0] == a[i];
                assert(self.active[i0].id != self.pending[j].id);
            } else {
                if a[i].id == r.pending[j].id {
                    assert(self.pending[j].id == e.id);
                }
            }
        }
        lemma_unique_concat(a, r.pending);
        assert forall|i: int| 0 <= i < r.entries().len() implies #[trigger] r.slots.contains_key(
            r.entries()[i].id,
        ) && r.slots[r.entries()[i].id].running by {
            let x = r.entries()[i];
            if x != e {
                if i < a.len() {
                    assert(x == a[i]);
                    let i0 = choose|i0: int| 0 <= i0 < self.active.len() && self.active[i0] == x;
                    assert(self.entries()[i0] == x);
                    assert(self.slots.contains_key(self.entries()[i0].id));
                    if x.id == e.id {
                        assert(self.active[i0].id == e.id);
                    }
                } else {
                    assert(x == self.pending[i - a.len()]);
                    assert(self.entries()[i - a.len() + self.active.len()] == x);
                    assert(self.slots.contains_key(self.entries()[i - a.len() + self.active.len()].id));
                    if x.id == e.id {
                        assert(self.pending[i - a.len()].id == e.id);
                    }
                }
            }
        }
        assert forall|x: usize| #[trigger] r.covered(x) by {
            lemma_holds_concat(a, r.pending, x);
            if x != e.id {
                assert(self.covered(x));
                lemma_holds_concat(self.active, self.pending, x);
            }
        }
    }
}


impl Sched {
    /// Taking the first entry of the pass out leaves every rule in place but
    /// that its timer is running without an entry.
    #[verifier::spinoff_prover]
    proof fn lemma_pop(self)
        requires
            self.wf(),
            self.pending.len() > 0,
        ensures
            ({
                let e = self.pending[0];
                let rest = Sched { pending: self.pending.drop_first(), ..self };
                &&& rest.partial_wf()
                &&& forall|x: usize| x != e.id ==> #[trigger] rest.covered(x)
                &&& rest.slots.contains_key(e.id)
                &&& !holds_id(rest.entries(), e.id)
                &&& rest.set_running(e.id, false).wf()
            }),
    {
        let e = self.pending[0];
        let rest = Sched { pending: self.pending.drop_first(), ..self };
        let n = self.active.len() as int;
        assert(self.entries()[n] == e);
        assert(self.slots.contains_key(self.entries()[n].id));
        lemma_unique_concat(self.active, self.pending);
        lemma_unique_concat(rest.active, rest.pending);
        assert forall|i: int| 0 <= i < rest.entries().len() implies #[trigger] rest.entries()[i].id != e.id by {
            let j = if i < n { i } else { i + 1 };
            assert(rest.entries()[i] == self.entries()[j]);
        }
        assert forall|i: int| 0 <= i < rest.entries().len() implies #[trigger] rest.slots.contains_key(
            rest.entries()[i].id,
        ) && rest.slots[rest.entries()[i].id].running by {
            let j = if i < n { i } else { i + 1 };
            assert(rest.entries()[i] == self.entries()[j]);
            assert(self.slots.contains_key(self.entries()[j].id));
        }
        assert(!holds_id(rest.entries(), e.id)) by {
            if holds_id(rest.entries(), e.id) {
                let k = choose|k: int| 0 <= k < rest.entries().len() && rest.entries()[k].id == e.id;
                assert(rest.entries()[k].id != e.id);
            }
        }
        assert forall|x: usize| x != e.id implies #[trigger] rest.covered(x) by {
            if rest.slots.contains_key(x) && rest.slots[x].running {
                assert(self.covered(x));
                let k = choose|k: int| 0 <= k < self.entries().len() && self.entries()[k].id == x;
                if k < n {
                    assert(rest.entries()[k] == self.entries()[k]);
                } else {
                    assert(k != n);
                    assert(rest.entries()[k - 1] == self.entries()[k]);
                }
            }
        }
        let z = rest.set_running(e.id, false);
        assert forall|i: int| 0 <= i < z.entries().len() implies #[trigger] z.slots.contains_key(
            z.entries()[i].id,
        ) && z.slots[z.entries()[i].id].running by {
            assert(rest.slots.contains_key(rest.entries()[i].id));
            assert(rest.entries()[i].id != e.id);
        }
        assert forall|x: usize| #[trigger] z.covered(x) by {
            if x != e.id {
                assert(rest.covered(x));
            }
        }
    }

    proof fn lemma_remove(self, id: usize)
        requires
            self.wf(),
        ensures
            self.remove(id).wf(),
    {
        self.lemma_deactivate(id);
        let d = self.deactivate(id);
        let r = self.remove(id);
        assert forall|i: int| 0 <= i < r.entries().len() implies #[trigger] r.slots.contains_key(
            r.entries()[i].id,
        ) && r.slots[r.entries()[i].id].running by {
            assert(d.slots.contains_key(d.entries()[i].id));
            if d.entries()[i].id == id {
                assert(holds_id(d.entries(), id));
            }
        }
        assert forall|x: usize| #[trigger] r.covered(x) by {
            assert(d.covered(x));
        }
    }
}

/// Relies on vec_arena's `Arena`: a table of slots, each vacant or holding an
/// object, addressed by a stable index.
#[verifier::external_type_specification]
#[verifier::external_body]
#[verifier::reject_recursive_types(T)]
pub struct ExArena<T>(vec_arena::Arena<T>);

/// Relies on instant's `Instant`: a reading of the monotonic clock.
#[verifier::external_type_specification]
#[verifier::external_body]
pub struct ExInstant(instant::Instant);

/// The record held in each occupied slot of a slot table.
pub uninterp spec fn arena_slots(a: vec_arena::Arena<TimerData>) -> Map<usize, TimerData>;

/// Relies on vec_arena::Arena::new: a new arena has no occupied slot.
#[verifier::external_body]
fn arena_new() -> (r: vec_arena::Arena<TimerData>)
    ensures
        arena_slots(r) =~= Map::empty(),
{
    vec_arena::Arena::new()
}

/// Relies on vec_arena::Arena::insert: the object goes into a slot that was
/// vacant, whose index is returned.
#[verifier::external_body]
fn arena_insert(a: &mut vec_arena::Arena<TimerData>, d: TimerData) -> (k: usize)
    ensures
        !arena_slots(*old(a)).contains_key(k),
        arena_slots(*final(a)) == arena_slots(*old(a)).insert(k, d),
{
    a.insert(d)
}

/// Relies on vec_arena::Arena::remove: the slot at `k` is vacant afterwards.
#[verifier::external_body]
fn arena_remove(a: &mut vec_arena::Arena<TimerData>, k: usize)
    ensures
        arena_slots(*final(a)) == arena_slots(*old(a)).remove(k),
{
    a.remove(k);
}

/// Relies on vec_arena::Arena::get: the object in slot `k`, if it is occupied.
#[verifier::external_body]
fn arena_get(a: &vec_arena::Arena<TimerData>, k: usize) -> (r: Option<TimerData>)
    ensures
        r == (if arena_slots(*a).contains_key(k) {
            Some(arena_slots(*a)[k])
        } else {
            None
        }),
{
    a.get(k).copied()
}

/// Relies on vec_arena's `IndexMut`: replaces the object in the occupied slot `k`.
#[verifier::external_body]
fn arena_set(a: &mut vec_arena::Arena<TimerData>, k: usize, d: TimerData)
    requires
        arena_slots(*old(a)).contains_key(k),
    ensures
        arena_slots(*final(a)) == arena_slots(*old(a)).insert(k, d),
{
    a[k] = d;
}

/// Relies on instant::Instant::now: reads the monotonic clock.
#[verifier::external_body]
fn clock_now() -> (r: instant::Instant) {
    instant::Instant::now()
}

/// Relies on Instant::elapsed: whole milliseconds since `origin`.
#[verifier::external_body]
fn millis_since(origin: &instant::Instant) -> (r: u128) {
    origin.elapsed().as_millis()
}

/// Index of the first entry of `vec` due later than `timeout`: the place at
/// which a timer due at `timeout` goes, after those due at the same instant.
pub fn lower_bound(vec: &Vec<ActiveTimer>, timeout: u64) -> (r: usize)
    requires
        sorted(vec@),
    ensures
        r as int == insertion_index(vec@, timeout),
        r <= vec.len(),
{
    let mut left: usize = 0;
    let mut right: usize = vec.len();
    while left != right
        invariant
            sorted(vec@),
            0 <= left <= right <= vec.len(),
            forall|i: int| 0 <= i < left ==> vec@[i].timeout <= timeout,
            forall|i: int| right <= i < vec.len() ==> vec@[i].timeout > timeout,
        decreases right - left,
    {
        let mid = left + (right - left) / 2;
        if vec[mid].timeout <= timeout {
            assert forall|i: int| 0 <= i <= mid implies vec@[i].timeout <= timeout by {
                assert(vec@[i].timeout <= vec@[mid as int].timeout);
            }
            left = mid + 1;
        } else {
            assert forall|i: int| mid <= i < vec.len() implies vec@[i].timeout > timeout by {
                assert(vec@[mid as int].timeout <= vec@[i].timeout);
            }
            right = mid;
        }
    }
    proof {
        lemma_insertion_index_unique(vec@, timeout, left as int);
    }
    left
}

fn find_entry(v: &Vec<ActiveTimer>, id: usize) -> (r: Option<usize>)
    ensures
        r is None ==> !holds_id(v@, id),
        r matches Some(i) ==> i < v.len() && v@[i as int].id == id,
{
    let mut i: usize = 0;
    while i < v.len()
        invariant
            i <= v.len(),
            forall|k: int| 0 <= k < i ==> v@[k].id != id,
        decreases v.len() - i,
    {
        if v[i].id == id {
            return Some(i);
        }
        i = i + 1;
    }
    None
}

/// The registry of all timers of one thread: the host loop asks it when to
/// wake up, and runs the dispatch passes on it.
pub struct TimerList {
    timers: vec_arena::Arena<TimerData>,
    active_timers: Vec<ActiveTimer>,
    pending: Vec<ActiveTimer>,
    origin: instant::Instant,
}

impl TimerList {
    pub closed spec fn model(&self) -> Sched {
        Sched {
            slots: arena_slots(self.timers),
            active: self.active_timers@,
            pending: self.pending@,
        }
    }

    /// An empty registry whose clock starts now.
    pub fn new() -> (r: Self)
        ensures
            r.model().wf(),
            r.model().slots == Map::<usize, TimerData>::empty(),
            r.model().active.len() == 0,
            r.model().pending.len() == 0,
    {
        TimerList {
            timers: arena_new(),
            active_timers: Vec::new(),
            pending: Vec::new(),
            origin: clock_now(),
        }
    }

    /// Milliseconds since this registry was made, read from the clock.
    pub fn now(&self) -> u64 {
        let ms = millis_since(&self.origin);
        if ms > u64::MAX as u128 {
            u64::MAX
        } else {
            ms as u64
        }
    }

    /// The deadline of the timer due soonest, or `None` when no timer is armed.
    pub fn next_timeout(&self) -> (r: Option<u64>)
        requires
            self.model().wf(),
        ensures
            self.model().active.len() == 0 <==> r is None,
            r matches Some(t) ==> t == self.model().active[0].timeout && forall|i: int|
                0 <= i < self.model().active.len() ==> t <= #[trigger] self.model().active[i].timeout,
    {
        if self.active_timers.len() == 0 {
            None
        } else {
            Some(self.active_timers[0].timeout)
        }
    }

    /// Whether the timer in slot `id` is running.
    pub fn is_running(&self, id: usize) -> (r: bool)
        ensures
            r == self.model().is_running(id),
    {
        match arena_get(&self.timers, id) {
            Some(d) => d.running,
            None => false,
        }
    }

    fn set_running(&mut self, id: usize, r: bool)
        ensures
            final(self).model() == old(self).model().set_running(id, r),
    {
        match arena_get(&self.timers, id) {
            Some(d) => arena_set(&mut self.timers, id, TimerData { running: r, ..d }),
            None => {},
        }
    }

    fn deactivate_timer(&mut self, id: usize)
        requires
            old(self).model().wf(),
        ensures
            final(self).model() == old(self).model().deactivate(id),
            final(self).model().wf(),
    {
        let ghost m = self.model();
        proof {
            m.lemma_deactivate(id);
            lemma_unique_concat(m.active, m.pending);
            lemma_holds_concat(m.active, m.pending, id);
        }
        let in_active = find_entry(&self.active_timers, id);
        let in_pending = find_entry(&self.pending, id);
        if let Some(i) = in_active {
            proof {
                lemma_without(m.active, id, i as int);
            }
            self.active_timers.remove(i);
        }
        if let Some(i) = in_pending {
            proof {
                lemma_without(m.pending, id, i as int);
            }
            self.pending.remove(i);
        }
        if in_active.is_some() || in_pending.is_some() {
            self.set_running(id, false);
        }
        proof {
            if holds_id(m.entries(), id) {
                assert(self.model() =~= m.deactivate(id));
            }
        }
    }

    fn register_active_timer(&mut self, e: ActiveTimer)
        requires
            sorted(old(self).model().active),
        ensures
            final(self).model() == old(self).model().register(e),
    {
        let i = lower_bound(&self.active_timers, e.timeout);
        self.active_timers.insert(i, e);
        self.set_running(e.id, true);
    }

    fn activate_timer(&mut self, id: usize, now: u64)
        requires
            sorted(old(self).model().active),
            old(self).model().slots.contains_key(id),
        ensures
            final(self).model() == old(self).model().activate(id, now),
    {
        if let Some(d) = arena_get(&self.timers, id) {
            self.register_active_timer(ActiveTimer { id, timeout: now.saturating_add(d.duration) });
        }
    }

    fn start_or_restart_timer(&mut self, id: Option<usize>, mode: TimerMode, duration: u64, now: u64) -> (r: usize)
        requires
            old(self).model().wf(),
        ensures
            match id {
                Some(i) => old(self).model().slots.contains_key(i) ==> r == i,
                None => true,
            },
            (id matches Some(i) && old(self).model().slots.contains_key(i)) || !old(
                self,
            ).model().slots.contains_key(r),
            final(self).model() == old(self).model().start(r, mode, duration, now),
            final(self).model().wf(),
    {
        let ghost m = self.model();
        let data = TimerData { duration, mode, running: false };
        let existing = match id {
            Some(i) => match arena_get(&self.timers, i) {
                Some(_) => Some(i),
                None => None,
            },
            None => None,
        };
        let slot = match existing {
            Some(i) => {
                self.deactivate_timer(i);
                arena_set(&mut self.timers, i, data);
                i
            },
            None => {
                let k = arena_insert(&mut self.timers, data);
                proof {
                    if holds_id(m.entries(), k) {
                        let j = choose|j: int| 0 <= j < m.entries().len() && m.entries()[j].id == k;
                        assert(m.slots.contains_key(m.entries()[j].id));
                    }
                }
                k
            },
        };
        proof {
            m.lemma_deactivate(slot);
            let d = m.deactivate(slot);
            let p = Sched { slots: d.slots.insert(slot, data), ..d };
            assert(self.model() == p);
            assert forall|i: int| 0 <= i < p.entries().len() implies #[trigger] p.slots.contains_key(
                p.entries()[i].id,
            ) && p.slots[p.entries()[i].id].running by {
                assert(d.slots.contains_key(d.entries()[i].id));
                if d.entries()[i].id == slot {
                    assert(holds_id(d.entries(), slot));
                }
            }
            assert forall|x: usize| x != slot implies #[trigger] p.covered(x) by {
                assert(d.covered(x));
            }
            p.lemma_register(ActiveTimer { id: slot, timeout: deadline(now, duration) });
        }
        self.activate_timer(slot, now);
        slot
    }

    fn remove_timer(&mut self, id: usize)
        requires
            old(self).model().wf(),
        ensures
            final(self).model() == old(self).model().remove(id),
            final(self).model().wf(),
    {
        proof {
            self.model().lemma_remove(id);
        }
        self.deactivate_timer(id);
        arena_remove(&mut self.timers, id);
    }

    /// Begins a dispatch pass at `now`. When no pass is under way and an
    /// armed timer is due, all armed entries become the pass's entries and the
    /// result is `true`; otherwise nothing changes and the result is `false`.
    pub fn take_due_timers(&mut self, now: u64) -> (r: bool)
        requires
            old(self).model().wf(),
        ensures
            r == old(self).model().has_due(now),
            final(self).model() == old(self).model().take_due(now),
            final(self).model().wf(),
    {
        if self.pending.len() == 0 && self.active_timers.len() > 0 && self.active_timers[0].timeout <= now {
            let ghost m = self.model();
            core::mem::swap(&mut self.active_timers, &mut self.pending);
            proof {
                assert(self.model().active =~= Seq::<ActiveTimer>::empty());
                assert(self.model().pending =~= m.active);
                assert(self.model().entries() =~= m.entries());
                assert(self.model() == m.take_due(now));
                assert forall|x: usize| #[trigger] self.model().covered(x) by {
                    assert(m.covered(x));
                }
            }
            true
        } else {
            false
        }
    }

    /// The next timer of the pass to fire at `now`, disarmed, or `None` when
    /// the pass is over. Entries of the pass not yet due are armed again.
    pub fn next_due(&mut self, now: u64) -> (r: Option<usize>)
        requires
            old(self).model().wf(),
        ensures
            (final(self).model(), r) == old(self).model().next_due(now),
            final(self).model().wf(),
    {
        while self.pending.len() > 0
            invariant
                self.model().wf(),
                self.model().next_due(now) == old(self).model().next_due(now),
            decreases self.pending.len(),
        {
            let ghost m = self.model();
            proof {
                m.lemma_pop();
            }
            let e = self.pending.remove(0);
            proof {
                assert(self.model() =~= Sched { pending: m.pending.drop_first(), ..m });
            }
            if e.timeout <= now {
                self.set_running(e.id, false);
                return Some(e.id);
            }
            proof {
                self.model().lemma_register(e);
            }
            self.register_active_timer(e);
        }
        None
    }

    /// Ends the firing of timer `id` in a pass at `now`: a repeated timer that
    /// its callback neither stopped nor armed again is armed for `now` plus its
    /// duration.
    pub fn after_fire(&mut self, id: usize, now: u64)
        requires
            old(self).model().wf(),
        ensures
            final(self).model() == old(self).model().after_fire(id, now),
            final(self).model().wf(),
    {
        if let Some(d) = arena_get(&self.timers, id) {
            if d.mode == TimerMode::Repeated && !d.running {
                proof {
                    let m = self.model();
                    if holds_id(m.entries(), id) {
                        let j = choose|j: int| 0 <= j < m.entries().len() && m.entries()[j].id == id;
                        assert(m.slots.contains_key(m.entries()[j].id));
                    }
                    m.lemma_register(ActiveTimer { id, timeout: deadline(now, d.duration) });
                }
                self.activate_timer(id, now);
            }
        }
    }
}


impl Default for TimerList {
    fn default() -> (r: Self)
        ensures
            r.model().wf(),
            r.model().slots == Map::<usize, TimerData>::empty(),
            r.model().active.len() == 0,
            r.model().pending.len() == 0,
    {
        TimerList::new()
    }
}

/// A handle to one timer of a [`TimerList`]: it calls back after a period of
/// time. It knows the slot of its timer from its first start until it is
/// stopped.
pub struct Timer {
    id: Option<usize>,
}

impl Timer {
    pub closed spec fn slot(&self) -> Option<usize> {
        self.id
    }

    /// A handle that has not been started.
    pub fn new() -> (r: Self)
        ensures
            r.slot() is None,
    {
        Timer { id: None }
    }

    /// The slot of the timer, while the handle owns one.
    pub fn id(&self) -> (r: Option<usize>)
        ensures
            r == self.slot(),
    {
        self.id
    }

    /// Starts the timer at `now`: it is due `duration` milliseconds later.
    /// A handle that owns a slot keeps it, with a fresh record; otherwise it
    /// takes a vacant slot.
    pub fn start_at(&mut self, timers: &mut TimerList, mode: TimerMode, duration: u64, now: u64)
        requires
            old(timers).model().wf(),
        ensures
            final(timers).model().wf(),
            final(self).slot() matches Some(k) && final(timers).model() == old(
                timers,
            ).model().start(k, mode, duration, now),
            match old(self).slot() {
                Some(i) => old(timers).model().slots.contains_key(i) ==> final(self).slot() == Some(i),
                None => true,
            },
            (old(self).slot() matches Some(i) && old(timers).model().slots.contains_key(i))
                || (final(self).slot() matches Some(k) && !old(timers).model().slots.contains_key(k)),
    {
        let k = timers.start_or_restart_timer(self.id, mode, duration, now);
        self.id = Some(k);
    }

    /// Starts the timer at the instant the registry's clock reads.
    pub fn start(&mut self, timers: &mut TimerList, mode: TimerMode, duration: u64)
        requires
            old(timers).model().wf(),
        ensures
            final(timers).model().wf(),
            final(self).slot() matches Some(k) && exists|now: u64|
                final(timers).model() == #[trigger] old(timers).model().start(k, mode, duration, now),
    {
        let now = timers.now();
        self.start_at(timers, mode, duration, now);
    }

    /// Stops the timer and gives up its slot; nothing happens to a handle
    /// that owns none. A stopped timer is started again with `start`.
    pub fn stop(&mut self, timers: &mut TimerList)
        requires
            old(timers).model().wf(),
        ensures
            final(timers).model().wf(),
            final(self).slot() is None,
            final(timers).model() == match old(self).slot() {
                Some(i) => old(timers).model().remove(i),
                None => old(timers).model(),
            },
    {
        if let Some(id) = self.id {
            timers.remove_timer(id);
        }
        self.id = None;
    }

    /// Arms the timer again at `now` with its stored duration, if it owns a
    /// slot.
    pub fn restart_at(&self, timers: &mut TimerList, now: u64)
        requires
            old(timers).model().wf(),
        ensures
            final(timers).model().wf(),
            final(timers).model() == match self.slot() {
                Some(i) => old(timers).model().restart(i, now),
                None => old(timers).model(),
            },
    {
        if let Some(id) = self.id {
            if arena_get(&timers.timers, id).is_some() {
                proof {
                    let m = timers.model();
                    m.lemma_deactivate(id);
                    let d = m.deactivate(id);
                    d.lemma_register(ActiveTimer { id, timeout: deadline(now, d.slots[id].duration) });
                }
                timers.deactivate_timer(id);
                timers.activate_timer(id, now);
            }
        }
    }

    /// Arms the timer again at the instant the registry's clock reads.
    pub fn restart(&self, timers: &mut TimerList)
        requires
            old(timers).model().wf(),
        ensures
            final(timers).model().wf(),
            match self.slot() {
                Some(i) => exists|now: u64|
                    final(timers).model() == #[trigger] old(timers).model().restart(i, now),
                None => final(timers).model() == old(timers).model(),
            },
    {
        let now = timers.now();
        self.restart_at(timers, now);
    }

    /// Whether the timer is running.
    pub fn running(&self, timers: &TimerList) -> (r: bool)
        ensures
            r == match self.slot() {
                Some(i) => timers.model().is_running(i),
                None => false,
            },
    {
        match self.id {
            Some(id) => timers.is_running(id),
            None => false,
        }
    }

    /// Disposes of the handle: its timer is stopped and its slot freed.
    pub fn release(self, timers: &mut TimerList)
        requires
            old(timers).model().wf(),
        ensures
            final(timers).model().wf(),
            final(timers).model() == match self.slot() {
                Some(i) => old(timers).model().remove(i),
                None => old(timers).model(),
            },
    {
        if let Some(id) = self.id {
            timers.remove_timer(id);
        }
    }
}


impl Sched {
    /// A dispatch pass at `t` that fires timer `id` with a callback that
    /// leaves the registry alone: the state after it, what the first step
    /// yielded, and what the step after the firing yielded.
    pub open spec fn quiet_pass(self, id: usize, t: u64) -> (Sched, Option<usize>, Option<usize>) {
        let (s1, first) = self.take_due(t).next_due(t);
        let (s2, second) = s1.after_fire(id, t).next_due(t);
        (s2, first, second)
    }
}

impl Default for Timer {
    fn default() -> (r: Self)
        ensures
            r.slot() is None,
    {
        Timer::new()
    }
}

/// Two timers armed one after the other with equal deadlines stay in the
/// order in which they were armed.
pub proof fn law_ties_keep_arming_order(s: Seq<ActiveTimer>, a: ActiveTimer, b: ActiveTimer)
    requires
        sorted(s),
        a.timeout == b.timeout,
    ensures
        ({
            let s1 = insert_sorted(s, a);
            let s2 = insert_sorted(s1, b);
            let ka = insertion_index(s, a.timeout);
            let kb = insertion_index(s1, b.timeout);
            &&& 0 <= ka < kb < s2.len()
            &&& s2[ka] == a
            &&& s2[kb] == b
        }),
{
    let s1 = insert_sorted(s, a);
    lemma_insert_sorted(s, a);
    lemma_insert_sorted(s1, b);
    lemma_insertion_index(s1, b.timeout);
    let ka = insertion_index(s, a.timeout);
    assert(s1[ka].timeout <= b.timeout);
}

/// With no timer armed, a timer is one-shot: started at `now` for `d`, a
/// pass at `now + d` fires it once, and it is not running afterwards.
pub proof fn law_single_shot_fires_once(s: Sched, id: usize, d: u64, now: u64)
    requires
        s.wf(),
        s.active.len() == 0,
        s.pending.len() == 0,
        now + d <= u64::MAX,
    ensures
        ({
            let t = (now + d) as u64;
            let s1 = s.start(id, TimerMode::SingleShot, d, now);
            let (s2, first, second) = s1.quiet_pass(id, t);
            &&& s1.has_due(t)
            &&& first == Some(id)
            &&& second is None
            &&& !s2.is_running(id)
        }),
{
    let t = (now + d) as u64;
    let e = ActiveTimer { id, timeout: t };
    assert(!holds_id(s.entries(), id));
    let s1 = s.start(id, TimerMode::SingleShot, d, now);
    assert(insertion_index(s.active, t) == 0);
    assert(s1.active =~= seq![e]);
    let p = s1.take_due(t);
    assert(p.pending =~= seq![e]);
    let (q, first) = p.next_due(t);
    assert(q.pending.len() == 0);
}

/// With no other timer armed, a repeated timer due at `t` fires once in a
/// pass at `t`, and is armed again for `t` plus its duration.
proof fn lemma_repeated_pass(s: Sched, id: usize, t: u64)
    requires
        s.pending.len() == 0,
        s.active == seq![ActiveTimer { id, timeout: t }],
        s.slots.contains_key(id),
        s.slots[id].running,
        s.slots[id].mode == TimerMode::Repeated,
    ensures
        ({
            let (s2, first, second) = s.quiet_pass(id, t);
            &&& first == Some(id)
            &&& second is None
            &&& s2.is_running(id)
            &&& s2.pending.len() == 0
            &&& s2.active == seq![ActiveTimer { id, timeout: deadline(t, s.slots[id].duration) }]
            &&& s2.slots[id] == s.slots[id]
        }),
{
    let e = ActiveTimer { id, timeout: t };
    let p = s.take_due(t);
    assert(p.pending =~= seq![e]);
    let (q, first) = p.next_due(t);
    assert(q.pending.len() == 0);
    assert(q.active.len() == 0);
    let r = q.after_fire(id, t);
    assert(insertion_index(q.active, deadline(t, s.slots[id].duration)) == 0);
    assert(r.active =~= seq![ActiveTimer { id, timeout: deadline(t, s.slots[id].duration) }]);
    assert(r.slots[id] == s.slots[id]);
}

/// With no timer armed, a repeated timer started at `now` for `d` fires once
/// in each of the passes at `now + d`, `now + 2d` and `now + 3d`, and is
/// running after each.
pub proof fn law_repeated_fires_each_period(s: Sched, id: usize, d: u64, now: u64)
    requires
        s.wf(),
        s.active.len() == 0,
        s.pending.len() == 0,
        now + 3 * d <= u64::MAX,
    ensures
        ({
            let s1 = s.start(id, TimerMode::Repeated, d, now);
            let p1 = s1.quiet_pass(id, (now + d) as u64);
            let p2 = p1.0.quiet_pass(id, (now + 2 * d) as u64);
            let p3 = p2.0.quiet_pass(id, (now + 3 * d) as u64);
            &&& p1.1 == Some(id) && p1.2 is None && p1.0.is_running(id)
            &&& p2.1 == Some(id) && p2.2 is None && p2.0.is_running(id)
            &&& p3.1 == Some(id) && p3.2 is None && p3.0.is_running(id)
        }),
{
    assert(!holds_id(s.entries(), id));
    let s1 = s.start(id, TimerMode::Repeated, d, now);
    let t1 = (now + d) as u64;
    assert(insertion_index(s.active, t1) == 0);
    assert(s1.active =~= seq![ActiveTimer { id, timeout: t1 }]);
    lemma_repeated_pass(s1, id, t1);
    let p1 = s1.quiet_pass(id, t1);
    lemma_repeated_pass(p1.0, id, (now + 2 * d) as u64);
    let p2 = p1.0.quiet_pass(id, (now + 2 * d) as u64);
    lemma_repeated_pass(p2.0, id, (now + 3 * d) as u64);
}

/// A timer stopped during a pass, by the callback of another timer, does not
/// fire in the rest of that pass, even when it was due at the pass's start:
/// it keeps no entry, and the next step of the pass yields another timer or
/// none.
pub proof fn law_stopped_timer_does_not_fire(s: Sched, id: usize, now: u64)
    requires
        s.wf(),
    ensures
        !holds_id(s.remove(id).entries(), id),
        s.remove(id).next_due(now).1 != Some(id),
{
    s.lemma_remove(id);
    s.lemma_deactivate(id);
    lemma_next_due_yields_pending(s.remove(id), id, now);
}

/// A step of a pass yields only a timer that had an entry of the pass.
proof fn lemma_next_due_yields_pending(s: Sched, id: usize, now: u64)
    requires
        s.wf(),
        !holds_id(s.entries(), id),
    ensures
        s.next_due(now).1 != Some(id),
    decreases s.pending.len(),
{
    if s.pending.len() > 0 {
        let e = s.pending[0];
        let n = s.active.len() as int;
        assert(s.entries()[n] == e);
        s.lemma_pop();
        let rest = Sched { pending: s.pending.drop_first(), ..s };
        if e.timeout > now {
            rest.lemma_register(e);
            let r = rest.register(e);
            lemma_unique_concat(s.active, s.pending);
            lemma_insert_sorted_facts(rest.active, e);
            lemma_holds_concat(rest.active, rest.pending, id);
            lemma_holds_concat(r.active, r.pending, id);
            lemma_holds_concat(s.active, s.pending, id);
            if holds_id(r.active, id) {
                let j = choose|j: int| 0 <= j < r.active.len() && r.active[j].id == id;
                if r.active[j] != e {
                    let k = choose|k: int| 0 <= k < rest.active.len() && rest.active[k] == r.active[j];
                    assert(s.active[k].id == id);
                }
            }
            if holds_id(rest.pending, id) {
                let j = choose|j: int| 0 <= j < rest.pending.len() && rest.pending[j].id == id;
                assert(s.pending[j + 1].id == id);
            }
            lemma_next_due_yields_pending(r, id, now);
        }
    }
}


/// Entries of a pass that are not due go back, in order, behind the armed
/// ones.
proof fn lemma_rearm_rest(s: Sched, now: u64)
    requires
        sorted(s.active + s.pending),
        forall|i: int| 0 <= i < s.pending.len() ==> #[trigger] s.pending[i].timeout > now,
        forall|i: int|
            0 <= i < s.pending.len() ==> s.slots.contains_key(#[trigger] s.pending[i].id)
                && s.slots[s.pending[i].id].running,
    ensures
        s.next_due(now) == (Sched { active: s.active + s.pending, pending: Seq::empty(), slots: s.slots }, None::<usize>),
    decreases s.pending.len(),
{
    let all = s.active + s.pending;
    if s.pending.len() == 0 {
        assert(all =~= s.active);
        assert(s.pending =~= Seq::<ActiveTimer>::empty());
    } else {
        let e = s.pending[0];
        let n = s.active.len() as int;
        assert(all[n] == e);
        assert(sorted(s.active)) by {
            assert forall|i: int, j: int| 0 <= i <= j < n implies s.active[i].timeout <= s.active[j].timeout by {
                assert(all[i] == s.active[i] && all[j] == s.active[j]);
            }
        }
        assert forall|i: int| 0 <= i < n implies s.active[i].timeout <= e.timeout by {
            assert(all[i] == s.active[i]);
        }
        lemma_insertion_index_unique(s.active, e.timeout, n);
        let rest = Sched { pending: s.pending.drop_first(), ..s };
        let r = rest.register(e);
        s.active.insert_ensures(n, e);
        assert(r.active =~= s.active.push(e));
        assert(s.slots.contains_key(s.pending[0].id));
        assert(r.slots =~= s.slots);
        assert(r.active + r.pending =~= all);
        lemma_rearm_rest(r, now);
    }
}

/// With no pass under way, when the earliest armed timer is one-shot and
/// the only one due at `t`, a pass at `t` fires it and leaves the other armed
/// timers as they were, so the next timeout becomes the deadline that came
/// second, or none.
pub proof fn law_next_timeout_after_earliest_fires(s: Sched, t: u64)
    requires
        s.wf(),
        s.pending.len() == 0,
        s.active.len() >= 1,
        s.active[0].timeout <= t,
        s.active.len() > 1 ==> s.active[1].timeout > t,
        s.slots[s.active[0].id].mode == TimerMode::SingleShot,
    ensures
        ({
            let id = s.active[0].id;
            let (s2, first, second) = s.quiet_pass(id, t);
            &&& first == Some(id)
            &&& second is None
            &&& s2.active == s.active.drop_first()
            &&& s2.pending.len() == 0
        }),
{
    let id = s.active[0].id;
    let p = s.take_due(t);
    let rest = Sched { pending: p.pending.drop_first(), ..p };
    let q = rest.set_running(id, false);
    assert(s.entries()[0] == s.active[0]);
    assert(s.slots.contains_key(s.entries()[0].id));
    assert(q.after_fire(id, t) == q);
    let tail = s.active.drop_first();
    assert(q.pending == tail);
    assert(q.active + q.pending =~= tail);
    assert forall|i: int| 0 <= i < tail.len() implies #[trigger] tail[i].timeout > t by {
        assert(s.active[1].timeout <= s.active[i + 1].timeout);
    }
    assert forall|i: int| 0 <= i < tail.len() implies q.slots.contains_key(#[trigger] tail[i].id)
        && q.slots[tail[i].id].running by {
        assert(s.entries()[i + 1] == tail[i]);
        assert(s.slots.contains_key(s.entries()[i + 1].id));
        assert(s.entries()[0].id != s.entries()[i + 1].id);
    }
    assert(sorted(q.active + q.pending)) by {
        assert forall|i: int, j: int| 0 <= i <= j < tail.len() implies tail[i].timeout <= tail[j].timeout by {
            assert(s.active[i + 1].timeout <= s.active[j + 1].timeout);
        }
    }
    lemma_rearm_rest(q, t);
}

} // verus!
