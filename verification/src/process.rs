//! The scheduler core: a time-ordered queue of scheduled reminders, the
//! pending list that reconciliation feeds, and the pop/validate/re-arm
//! step of the scheduling loop.
//!
//! Time is relative: an instant is the number of milliseconds elapsed
//! since the scheduler's reference point, supplied by the host on each
//! call. The host also runs the loop itself — blocking, sleeping and
//! delivering notifications — around the steps this module verifies.
//!
//! Re-arm policy: a definition that newly appears on a reload waits in
//! the pending list and is armed when the scheduler next merges, falling
//! due one full interval after the merge — never immediately.

use vstd::prelude::*;
use vstd::seq_lib::lemma_multiset_commutative;
use crate::config::{Config, ConfigManager};
use crate::entry::Entry;

verus! {

/// A live, queued instance of a definition: a snapshot of the definition
/// plus the relative instant, in milliseconds, at which it falls due.
#[derive(Debug)]
pub struct Remind {
    pub entry: Entry,
    pub life_time: u64,
}

impl Clone for Remind {
    fn clone(&self) -> (r: Remind)
        ensures
            r == *self,
    {
        Remind { entry: self.entry.clone(), life_time: self.life_time }
    }
}

/// The queue is ordered by due time, earliest first.
pub open spec fn queue_sorted(q: Seq<Remind>) -> bool {
    forall|i: int, j: int| 0 <= i < j < q.len() ==> q[i].life_time <= q[j].life_time
}

/// No two queued reminders carry the same identity.
pub open spec fn remind_ids_unique(q: Seq<Remind>) -> bool {
    forall|i: int, j: int|
        0 <= i < j < q.len() ==> q[i].entry.creation_time != q[j].entry.creation_time
}

/// No two definitions carry the same identity.
pub open spec fn ids_unique(s: Seq<Entry>) -> bool {
    forall|i: int, j: int| 0 <= i < j < s.len() ==> s[i].creation_time != s[j].creation_time
}

/// Some definition in `s` equals `e` in full, identity included.
pub open spec fn contains_def(s: Seq<Entry>, e: Entry) -> bool {
    exists|i: int| 0 <= i < s.len() && s[i].same_def(e)
}

/// Some definition in `s` carries the identity `id`.
pub open spec fn has_identity(s: Seq<Entry>, id: u128) -> bool {
    exists|i: int| 0 <= i < s.len() && s[i].creation_time == id
}

/// The index of the first definition at or after `i` whose identity is
/// `id`, or `s.len()` if there is none.
pub open spec fn first_match_from(s: Seq<Entry>, id: u128, i: int) -> int
    decreases s.len() - i,
{
    if i < 0 || i >= s.len() {
        s.len() as int
    } else if s[i].creation_time == id {
        i
    } else {
        first_match_from(s, id, i + 1)
    }
}

/// The index of the first definition whose identity is `id`, or `s.len()`.
pub open spec fn first_match(s: Seq<Entry>, id: u128) -> int {
    first_match_from(s, id, 0)
}

proof fn lemma_first_match_from(s: Seq<Entry>, id: u128, i: int)
    requires
        0 <= i <= s.len(),
    ensures
        i <= first_match_from(s, id, i) <= s.len(),
        first_match_from(s, id, i) < s.len() ==> s[first_match_from(s, id, i)].creation_time == id,
        forall|j: int| i <= j < first_match_from(s, id, i) ==> s[j].creation_time != id,
    decreases s.len() - i,
{
    if i < s.len() && s[i].creation_time != id {
        lemma_first_match_from(s, id, i + 1);
    }
}

/// What `first_match` returns: the first identity match if any definition
/// matches, `s.len()` otherwise.
pub proof fn lemma_first_match(s: Seq<Entry>, id: u128)
    ensures
        0 <= first_match(s, id) <= s.len(),
        first_match(s, id) < s.len() ==> s[first_match(s, id)].creation_time == id,
        forall|j: int| 0 <= j < first_match(s, id) ==> s[j].creation_time != id,
        first_match(s, id) == s.len() ==> !has_identity(s, id),
{
    lemma_first_match_from(s, id, 0);
}

/// The relative instant `interval` seconds after `elapsed`, capped at the
/// largest representable instant.
pub open spec fn due_time(elapsed: u64, interval: u64) -> u64 {
    if elapsed + interval * 1000 > u64::MAX {
        u64::MAX
    } else {
        (elapsed + interval * 1000) as u64
    }
}

/// The scheduled reminder that arming `e` at `elapsed` produces.
pub open spec fn scheduled_at(e: Entry, elapsed: u64) -> Remind {
    Remind { entry: e, life_time: due_time(elapsed, e.interval) }
}

/// The reminders that arming a definition list at `elapsed` produces: one
/// per enabled definition, in list order; disabled definitions are never
/// scheduled.
pub open spec fn schedule_of(entries: Seq<Entry>, elapsed: u64) -> Seq<Remind>
    decreases entries.len(),
{
    if entries.len() == 0 {
        Seq::empty()
    } else {
        let rest = schedule_of(entries.drop_last(), elapsed);
        if entries.last().enabled {
            rest.push(scheduled_at(entries.last(), elapsed))
        } else {
            rest
        }
    }
}

fn due_at(elapsed: u64, interval: u64) -> (r: u64)
    ensures
        r == due_time(elapsed, interval),
{
    match interval.checked_mul(1000) {
        None => u64::MAX,
        Some(ms) => elapsed.saturating_add(ms),
    }
}

proof fn lemma_insert_to_multiset(s: Seq<Remind>, i: int, a: Remind)
    requires
        0 <= i <= s.len(),
    ensures
        s.insert(i, a).to_multiset() == s.to_multiset().insert(a),
{
    broadcast use vstd::seq_lib::group_to_multiset_ensures;

    let left = s.subrange(0, i);
    let right = s.subrange(i, s.len() as int);
    assert(s.insert(i, a) == left.push(a) + right);
    lemma_multiset_commutative(left.push(a), right);
    lemma_multiset_commutative(left, right);
    assert(left + right =~= s);
    assert(s.insert(i, a).to_multiset() =~= s.to_multiset().insert(a));
}

/// Inserts `r` into a sorted queue, after any reminder already due at the
/// same instant, so that arrival order breaks ties.
fn insert_sorted(q: &mut Vec<Remind>, r: Remind)
    requires
        queue_sorted(old(q)@),
    ensures
        queue_sorted(final(q)@),
        final(q)@.len() == old(q)@.len() + 1,
        final(q)@.to_multiset() == old(q)@.to_multiset().insert(r),
        forall|k: int|
            0 <= k < final(q)@.len() ==> (final(q)@[k] == r || old(q)@.contains(final(q)@[k])),
        remind_ids_unique(old(q)@) && !queue_has_identity(old(q)@, r.entry.creation_time)
            ==> remind_ids_unique(final(q)@),
{
    let mut i: usize = q.len();
    while i > 0 && q[i - 1].life_time > r.life_time
        invariant
            0 <= i <= q@.len(),
            queue_sorted(q@),
            q == old(q),
            forall|j: int| i <= j < q@.len() ==> q@[j].life_time > r.life_time,
        decreases i,
    {
        i = i - 1;
    }
    proof {
        old(q)@.insert_ensures(i as int, r);
        lemma_insert_to_multiset(old(q)@, i as int, r);
    }
    q.insert(i, r);
}

/// `q` holds a reminder with identity `id`.
pub open spec fn queue_has_identity(q: Seq<Remind>, id: u128) -> bool {
    exists|i: int| 0 <= i < q.len() && q[i].entry.creation_time == id
}

/// Every definition in `s` is enabled.
pub open spec fn all_enabled(s: Seq<Entry>) -> bool {
    forall|i: int| 0 <= i < s.len() ==> s[i].enabled
}

/// Facts about an armed definition list: its length counts the enabled
/// definitions, every reminder in it snapshots an enabled definition from
/// the list at its due time, and arming preserves identity uniqueness.
pub proof fn lemma_schedule_of(entries: Seq<Entry>, elapsed: u64)
    ensures
        schedule_of(entries, elapsed).len() <= entries.len(),
        all_enabled(entries) ==> schedule_of(entries, elapsed).len() == entries.len(),
        forall|k: int|
            0 <= k < schedule_of(entries, elapsed).len()
                ==> #[trigger] schedule_of(entries, elapsed)[k].entry.enabled,
        forall|k: int|
            0 <= k < schedule_of(entries, elapsed).len()
                ==> exists|i: int|
                0 <= i < entries.len() && #[trigger] schedule_of(entries, elapsed)[k]
                    == scheduled_at(entries[i], elapsed),
        ids_unique(entries) ==> remind_ids_unique(schedule_of(entries, elapsed)),
        forall|k: int|
            0 <= k < schedule_of(entries, elapsed).len()
                ==> has_identity(entries, #[trigger] schedule_of(entries, elapsed)[k].entry.creation_time),
    decreases entries.len(),
{
    if entries.len() > 0 {
        lemma_schedule_of(entries.drop_last(), elapsed);
        let head = entries.drop_last();
        let sched = schedule_of(entries, elapsed);
        assert forall|k: int| 0 <= k < sched.len() implies exists|i: int|
            0 <= i < entries.len() && #[trigger] sched[k] == scheduled_at(entries[i], elapsed) by {
            if k < schedule_of(head, elapsed).len() {
                let i = choose|i: int|
                    0 <= i < head.len() && schedule_of(head, elapsed)[k] == scheduled_at(
                        head[i],
                        elapsed,
                    );
                assert(sched[k] == scheduled_at(entries[i], elapsed));
            } else {
                assert(sched[k] == scheduled_at(entries[entries.len() - 1], elapsed));
            }
        }
        assert forall|k: int| 0 <= k < sched.len() implies has_identity(
            entries,
            #[trigger] sched[k].entry.creation_time,
        ) by {
            let i = choose|i: int|
                0 <= i < entries.len() && sched[k] == scheduled_at(entries[i], elapsed);
            assert(entries[i].creation_time == sched[k].entry.creation_time);
        }
        if ids_unique(entries) {
            assert(ids_unique(head));
            if entries.last().enabled {
                let prev = schedule_of(head, elapsed);
                assert forall|i: int, j: int| 0 <= i < j < sched.len() implies sched[i].entry.creation_time
                    != sched[j].entry.creation_time by {
                    if j < prev.len() {
                    } else {
                        assert(sched[j].entry == entries.last());
                        assert(has_identity(head, sched[i].entry.creation_time));
                        let m = choose|m: int|
                            0 <= m < head.len() && head[m].creation_time
                                == sched[i].entry.creation_time;
                        assert(entries[m].creation_time != entries.last().creation_time);
                    }
                }
            }
        }
    }
}

/// The scheduler core's state: the held definition set, the time-ordered
/// queue of scheduled reminders, the pending additions produced by
/// reconciliation and not yet merged, and the stop flag.
pub struct Process {
    pub configman: ConfigManager,
    pub queue: Vec<Remind>,
    pub pending: Vec<Entry>,
    pub stopped: bool,
}

impl Process {
    /// Well-formedness: the queue is sorted by due time, and nothing
    /// disabled ever waits in the pending list.
    pub open spec fn wf(self) -> bool {
        &&& queue_sorted(self.queue@)
        &&& all_enabled(self.pending@)
    }

    /// A scheduler around a held definition set, with nothing scheduled,
    /// nothing pending, and not yet stopped.
    pub fn new(configman: ConfigManager) -> (r: Process)
        ensures
            r.wf(),
            r.configman == configman,
            r.queue@.len() == 0,
            r.pending@.len() == 0,
            !r.stopped,
    {
        Process { configman, queue: Vec::new(), pending: Vec::new(), stopped: false }
    }

    /// Requests a stop: the loop observes the flag and exits. Nothing
    /// else changes; an in-flight delivery is never cancelled.
    pub fn terminate(&mut self)
        ensures
            final(self).stopped,
            final(self).configman == old(self).configman,
            final(self).queue == old(self).queue,
            final(self).pending == old(self).pending,
            old(self).wf() ==> final(self).wf(),
    {
        self.stopped = true;
    }

    /// Whether a stop has been requested; the host's control plane polls
    /// this.
    pub fn is_running(&self) -> (r: bool)
        ensures
            r == !self.stopped,
    {
        !self.stopped
    }

    /// Whether the scheduler has no work at all — nothing queued and
    /// nothing pending — so the loop may block until a change signal.
    pub fn is_idle(&self) -> (r: bool)
        ensures
            r == (self.queue@.len() == 0 && self.pending@.len() == 0),
    {
        self.queue.len() == 0 && self.pending.len() == 0
    }

    /// Builds the queue from the held definition set: every enabled
    /// definition is armed to fall due one interval from the reference
    /// point, and the queue is sorted by due time. Exactly the enabled
    /// definitions are scheduled — one reminder each, none for a disabled
    /// definition, with no identity queued twice when the definitions'
    /// identities are unique.
    pub fn initialize(&mut self)
        requires
            old(self).wf(),
        ensures
            final(self).wf(),
            final(self).configman == old(self).configman,
            final(self).pending == old(self).pending,
            final(self).stopped == old(self).stopped,
            final(self).queue@.to_multiset() == schedule_of(
                old(self).configman.config.entries@,
                0,
            ).to_multiset(),
            final(self).queue@.len() == schedule_of(old(self).configman.config.entries@, 0).len(),
            forall|k: int|
                0 <= k < final(self).queue@.len() ==> #[trigger] final(self).queue@[k].entry.enabled,
            all_enabled(old(self).configman.config.entries@) ==> final(self).queue@.len() == old(
                self,
            ).configman.config.entries@.len(),
            ids_unique(old(self).configman.config.entries@) ==> remind_ids_unique(
                final(self).queue@,
            ),
    {
        let ghost entries = self.configman.config.entries@;
        let mut fresh_queue: Vec<Remind> = Vec::new();
        proof {
            broadcast use vstd::seq_lib::group_to_multiset_ensures;

            assert(entries.take(0) =~= Seq::<Entry>::empty());
        }
        let n = self.configman.config.entries.len();
        let mut idx: usize = 0;
        while idx < n
            invariant
                0 <= idx <= n,
                n == entries.len(),
                self.configman.config.entries@ == entries,
                queue_sorted(fresh_queue@),
                fresh_queue@.to_multiset() == schedule_of(entries.take(idx as int), 0).to_multiset(),
                fresh_queue@.len() == schedule_of(entries.take(idx as int), 0).len(),
                forall|k: int|
                    0 <= k < fresh_queue@.len() ==> #[trigger] fresh_queue@[k].entry.enabled,
                forall|k: int|
                    0 <= k < fresh_queue@.len() ==> has_identity(
                        entries.take(idx as int),
                        #[trigger] fresh_queue@[k].entry.creation_time,
                    ),
                ids_unique(entries) ==> remind_ids_unique(fresh_queue@),
            decreases n - idx,
        {
            let ghost prefix = entries.take(idx as int);
            let ghost prefix1 = entries.take(idx as int + 1);
            proof {
                broadcast use vstd::seq_lib::group_to_multiset_ensures;

                assert(prefix1.drop_last() =~= prefix);
                assert(prefix1.last() == entries[idx as int]);
            }
            let e = &self.configman.config.entries[idx];
            if e.enabled {
                let armed = Remind { entry: e.clone(), life_time: due_at(0, e.interval) };
                proof {
                    assert(armed == scheduled_at(entries[idx as int], 0));
                    if ids_unique(entries) {
                        if queue_has_identity(fresh_queue@, armed.entry.creation_time) {
                            let k = choose|k: int|
                                0 <= k < fresh_queue@.len() && fresh_queue@[k].entry.creation_time
                                    == armed.entry.creation_time;
                            let m = choose|m: int|
                                0 <= m < prefix.len() && prefix[m].creation_time
                                    == fresh_queue@[k].entry.creation_time;
                            assert(entries[m].creation_time == entries[idx as int].creation_time);
                            assert(false);
                        }
                    }
                }
                let ghost before = fresh_queue@;
                insert_sorted(&mut fresh_queue, armed);
                proof {
                    assert forall|k: int| 0 <= k < fresh_queue@.len() implies has_identity(
                        prefix1,
                        #[trigger] fresh_queue@[k].entry.creation_time,
                    ) by {
                        if fresh_queue@[k] == armed {
                            assert(prefix1[idx as int].creation_time
                                == fresh_queue@[k].entry.creation_time);
                        } else {
                            assert(before.contains(fresh_queue@[k]));
                            assert(has_identity(prefix, fresh_queue@[k].entry.creation_time));
                            let m = choose|m: int|
                                0 <= m < prefix.len() && prefix[m].creation_time
                                    == fresh_queue@[k].entry.creation_time;
                            assert(prefix1[m].creation_time == fresh_queue@[k].entry.creation_time);
                        }
                    }
                }
            } else {
                proof {
                    assert forall|k: int| 0 <= k < fresh_queue@.len() implies has_identity(
                        prefix1,
                        #[trigger] fresh_queue@[k].entry.creation_time,
                    ) by {
                        let m = choose|m: int|
                            0 <= m < prefix.len() && prefix[m].creation_time
                                == fresh_queue@[k].entry.creation_time;
                        assert(prefix1[m].creation_time == fresh_queue@[k].entry.creation_time);
                    }
                }
            }
            idx = idx + 1;
        }
        proof {
            assert(entries.take(n as int) =~= entries);
            lemma_schedule_of(entries, 0);
        }
        self.queue = fresh_queue;
    }

    /// Merges the pending additions into the queue: each pending
    /// definition is armed to fall due one interval after `elapsed`, in
    /// the order reconciliation appended them, and the pending list ends
    /// empty. Nothing already queued is touched.
    pub fn drain_pending(&mut self, elapsed: u64)
        requires
            old(self).wf(),
        ensures
            final(self).wf(),
            final(self).configman == old(self).configman,
            final(self).stopped == old(self).stopped,
            final(self).pending@.len() == 0,
            final(self).queue@.to_multiset() == old(self).queue@.to_multiset().add(
                schedule_of(old(self).pending@, elapsed).to_multiset(),
            ),
            final(self).queue@.len() == old(self).queue@.len() + old(self).pending@.len(),
    {
        let ghost pend = self.pending@;
        let ghost start = self.queue@;
        proof {
            broadcast use vstd::seq_lib::group_to_multiset_ensures;

            broadcast use vstd::multiset::group_multiset_axioms;

            assert(pend.take(0) =~= Seq::<Entry>::empty());
            assert(start.to_multiset().add(schedule_of(pend.take(0), elapsed).to_multiset())
                =~= start.to_multiset());
        }
        let n = self.pending.len();
        let mut idx: usize = 0;
        while idx < n
            invariant
                0 <= idx <= n,
                n == pend.len(),
                self.pending@ == pend,
                self.configman == old(self).configman,
                self.stopped == old(self).stopped,
                all_enabled(pend),
                queue_sorted(self.queue@),
                self.queue@.to_multiset() == start.to_multiset().add(
                    schedule_of(pend.take(idx as int), elapsed).to_multiset(),
                ),
                self.queue@.len() == start.len() + idx,
            decreases n - idx,
        {
            let ghost prefix = pend.take(idx as int);
            let ghost prefix1 = pend.take(idx as int + 1);
            proof {
                broadcast use vstd::seq_lib::group_to_multiset_ensures;

                broadcast use vstd::multiset::group_multiset_axioms;

                assert(prefix1.drop_last() =~= prefix);
                assert(prefix1.last() == pend[idx as int]);
            }
            let e = &self.pending[idx];
            let armed = Remind { entry: e.clone(), life_time: due_at(elapsed, e.interval) };
            proof {
                assert(armed == scheduled_at(pend[idx as int], elapsed));
            }
            insert_sorted(&mut self.queue, armed);
            proof {
                assert(schedule_of(prefix1, elapsed) == schedule_of(prefix, elapsed).push(armed));
                assert(self.queue@.to_multiset() =~= start.to_multiset().add(
                    schedule_of(prefix1, elapsed).to_multiset(),
                ));
            }
            idx = idx + 1;
        }
        proof {
            assert(pend.take(n as int) =~= pend);
        }
        self.pending.clear();
    }
}

/// How a due reminder is judged against the live definition set.
#[derive(Clone, Copy, Debug, PartialEq, Eq, Structural)]
pub enum Verdict {
    /// Its definition is gone, or its content was edited since it was
    /// scheduled: dropped silently.
    Stale,
    /// Its definition still matches but is disabled: dropped silently.
    Disabled,
    /// Its definition still matches and is enabled: delivered and
    /// re-armed.
    Deliver,
}

/// Judges a due reminder's snapshot against the live definitions: find
/// the first definition with the snapshot's identity; none, or one whose
/// content no longer matches, makes the snapshot stale; a matching but
/// disabled one suppresses delivery; otherwise the reminder is delivered.
pub open spec fn pop_verdict(snapshot: Entry, live: Seq<Entry>) -> Verdict {
    let m = first_match(live, snapshot.creation_time);
    if m == live.len() {
        Verdict::Stale
    } else if !live[m].same_content(snapshot) {
        Verdict::Stale
    } else if !live[m].enabled {
        Verdict::Disabled
    } else {
        Verdict::Deliver
    }
}

/// What one pop attempt did.
#[derive(Debug)]
pub enum PopOutcome {
    /// The queue was empty; the loop may block for a change signal.
    Empty,
    /// The earliest reminder is not yet due — and the queue being sorted,
    /// neither is any other.
    NotDue,
    /// The earliest reminder was due but stale or disabled: popped and
    /// dropped without delivery.
    Dropped,
    /// The earliest reminder was due and valid: popped, to be delivered
    /// with the carried live definition's fields, and re-armed one live
    /// interval after `elapsed`.
    Fired(Entry),
}

fn find_by_identity(entries: &Vec<Entry>, id: u128) -> (r: Option<usize>)
    ensures
        match r {
            Some(i) => i as int == first_match(entries@, id) && i < entries@.len(),
            None => first_match(entries@, id) == entries@.len() as int,
        },
{
    let n = entries.len();
    let mut i: usize = 0;
    while i < n
        invariant
            0 <= i <= n,
            n == entries@.len(),
            first_match(entries@, id) == first_match_from(entries@, id, i as int),
        decreases n - i,
    {
        if entries[i].creation_time == id {
            return Some(i);
        }
        i = i + 1;
    }
    None
}

impl Process {
    /// One pop attempt at relative instant `elapsed`, the heart of the
    /// scheduling loop. A reminder is popped only once due — never early —
    /// and then judged by [`pop_verdict`]: a stale or disabled one is
    /// dropped silently, a valid one is returned for delivery and re-armed
    /// one interval after `elapsed`, with the interval re-read from the
    /// live definition so edits apply to the next firing.
    pub fn pop_step(&mut self, elapsed: u64) -> (r: PopOutcome)
        requires
            old(self).wf(),
        ensures
            final(self).wf(),
            final(self).configman == old(self).configman,
            final(self).pending == old(self).pending,
            final(self).stopped == old(self).stopped,
            (r is Empty) <==> old(self).queue@.len() == 0,
            (r is NotDue) <==> (old(self).queue@.len() > 0 && old(self).queue@[0].life_time
                > elapsed),
            (r is Empty || r is NotDue) ==> final(self).queue == old(self).queue,
            (r is Fired) ==> old(self).queue@.len() > 0 && old(self).queue@[0].life_time
                <= elapsed,
            remind_ids_unique(old(self).queue@) ==> remind_ids_unique(final(self).queue@),
            (old(self).queue@.len() > 0 && old(self).queue@[0].life_time <= elapsed) ==> ({
                let head = old(self).queue@[0];
                let live = old(self).configman.config.entries@;
                let m = first_match(live, head.entry.creation_time);
                match pop_verdict(head.entry, live) {
                    Verdict::Deliver => {
                        &&& r == PopOutcome::Fired(live[m])
                        &&& live[m].enabled
                        &&& live[m].same_content(head.entry)
                        &&& final(self).queue@.to_multiset() == old(
                            self,
                        ).queue@.drop_first().to_multiset().insert(scheduled_at(live[m], elapsed))
                        &&& final(self).queue@.len() == old(self).queue@.len()
                    },
                    _ => {
                        &&& r is Dropped
                        &&& final(self).queue@ == old(self).queue@.drop_first()
                    },
                }
            }),
    {
        if self.queue.len() == 0 {
            return PopOutcome::Empty;
        }
        if self.queue[0].life_time > elapsed {
            return PopOutcome::NotDue;
        }
        let head = self.queue.remove(0);
        proof {
            assert(self.queue@ =~= old(self).queue@.drop_first());
        }
        match find_by_identity(&self.configman.config.entries, head.entry.creation_time) {
            None => PopOutcome::Dropped,
            Some(idx) => {
                let live = self.configman.config.entries[idx].clone();
                if !live.eq_content(&head.entry) {
                    PopOutcome::Dropped
                } else if !live.enabled {
                    PopOutcome::Dropped
                } else {
                    let due = due_at(elapsed, live.interval);
                    let fired = live.clone();
                    proof {
                        lemma_first_match(
                            old(self).configman.config.entries@,
                            head.entry.creation_time,
                        );
                        if remind_ids_unique(old(self).queue@) {
                            assert forall|k: int| 0 <= k < self.queue@.len() implies self.queue@[k].entry.creation_time
                                != live.creation_time by {
                                assert(self.queue@[k] == old(self).queue@[k + 1]);
                            }
                            assert(!queue_has_identity(self.queue@, live.creation_time));
                        }
                    }
                    insert_sorted(&mut self.queue, Remind { entry: live, life_time: due });
                    PopOutcome::Fired(fired)
                }
            },
        }
    }
}

/// The definitions of `fresh` that reconciliation must newly arm: those
/// enabled and absent — by full content — from `olds`, in the order they
/// appear in `fresh`. An edited definition changes content, so its old
/// version "disappears" and its new version "appears" here; a disabled
/// definition is never armed.
pub open spec fn added_defs(olds: Seq<Entry>, fresh: Seq<Entry>) -> Seq<Entry>
    decreases fresh.len(),
{
    if fresh.len() == 0 {
        Seq::empty()
    } else {
        let rest = added_defs(olds, fresh.drop_last());
        if fresh.last().enabled && !contains_def(olds, fresh.last()) {
            rest.push(fresh.last())
        } else {
            rest
        }
    }
}

/// Law: reconciliation never arms a disabled definition.
pub proof fn lemma_added_defs_enabled(olds: Seq<Entry>, fresh: Seq<Entry>)
    ensures
        all_enabled(added_defs(olds, fresh)),
    decreases fresh.len(),
{
    if fresh.len() > 0 {
        lemma_added_defs_enabled(olds, fresh.drop_last());
    }
}

/// Law: a reload whose definitions are all already held by content
/// produces no pending additions — reloading an unchanged set is
/// idempotent.
pub proof fn lemma_unchanged_reload_adds_nothing(olds: Seq<Entry>, fresh: Seq<Entry>)
    requires
        forall|i: int| 0 <= i < fresh.len() ==> contains_def(olds, #[trigger] fresh[i]),
    ensures
        added_defs(olds, fresh) == Seq::<Entry>::empty(),
    decreases fresh.len(),
{
    if fresh.len() > 0 {
        assert(forall|i: int|
            0 <= i < fresh.drop_last().len() ==> contains_def(
                olds,
                #[trigger] fresh.drop_last()[i],
            ));
        lemma_unchanged_reload_adds_nothing(olds, fresh.drop_last());
        assert(contains_def(olds, fresh[fresh.len() - 1]));
    }
}

fn contains_def_exec(entries: &Vec<Entry>, e: &Entry) -> (r: bool)
    ensures
        r == contains_def(entries@, *e),
{
    let n = entries.len();
    let mut i: usize = 0;
    while i < n
        invariant
            0 <= i <= n,
            n == entries@.len(),
            forall|j: int| 0 <= j < i ==> !(#[trigger] entries@[j]).same_def(*e),
        decreases n - i,
    {
        if entries[i].eq_def(e) {
            return true;
        }
        i = i + 1;
    }
    false
}

impl Process {
    /// Merges a freshly loaded definition set: every enabled definition
    /// newly appearing by content joins the pending list, in fresh-set
    /// order, and the fresh set replaces the held one. Returns whether
    /// anything was added, so the host knows to wake a blocked loop.
    /// A fresh set equal to the held one by content adds nothing.
    pub fn reconcile(&mut self, fresh: Config) -> (changed: bool)
        requires
            old(self).wf(),
        ensures
            final(self).wf(),
            final(self).queue == old(self).queue,
            final(self).stopped == old(self).stopped,
            final(self).configman.config.entries@ == fresh.entries@,
            final(self).configman.config_path@ == old(self).configman.config_path@,
            final(self).pending@ == old(self).pending@ + added_defs(
                old(self).configman.config.entries@,
                fresh.entries@,
            ),
            changed == (added_defs(old(self).configman.config.entries@, fresh.entries@).len()
                > 0),
            (forall|i: int|
                0 <= i < fresh.entries@.len() ==> contains_def(
                    old(self).configman.config.entries@,
                    #[trigger] fresh.entries@[i],
                )) ==> (final(self).pending@ == old(self).pending@ && !changed),
    {
        let ghost olds = self.configman.config.entries@;
        let ghost fr = fresh.entries@;
        let ghost pend0 = self.pending@;
        proof {
            assert(fr.take(0) =~= Seq::<Entry>::empty());
            assert(pend0 + added_defs(olds, fr.take(0)) =~= pend0);
        }
        let n = fresh.entries.len();
        let mut i: usize = 0;
        let mut changed = false;
        while i < n
            invariant
                0 <= i <= n,
                n == fr.len(),
                fresh.entries@ == fr,
                self.configman == old(self).configman,
                self.queue == old(self).queue,
                self.stopped == old(self).stopped,
                olds == old(self).configman.config.entries@,
                pend0 == old(self).pending@,
                all_enabled(pend0),
                self.pending@ == pend0 + added_defs(olds, fr.take(i as int)),
                all_enabled(self.pending@),
                changed == (added_defs(olds, fr.take(i as int)).len() > 0),
            decreases n - i,
        {
            let ghost prefix = fr.take(i as int);
            let ghost prefix1 = fr.take(i as int + 1);
            proof {
                assert(prefix1.drop_last() =~= prefix);
                assert(prefix1.last() == fr[i as int]);
            }
            let e = &fresh.entries[i];
            if e.enabled && !contains_def_exec(&self.configman.config.entries, e) {
                self.pending.push(e.clone());
                changed = true;
                proof {
                    assert(self.pending@ =~= pend0 + added_defs(olds, prefix1));
                }
            } else {
                proof {
                    assert(added_defs(olds, prefix1) == added_defs(olds, prefix));
                }
            }
            i = i + 1;
        }
        proof {
            assert(fr.take(n as int) =~= fr);
            if forall|j: int| 0 <= j < fr.len() ==> contains_def(olds, #[trigger] fr[j]) {
                lemma_unchanged_reload_adds_nothing(olds, fr);
                assert(pend0 + added_defs(olds, fr) =~= pend0);
            }
        }
        self.configman.config = fresh;
        changed
    }
}

/// Law: in a sorted queue whose earliest reminder is not yet due, no
/// reminder is due — the pop loop may stop at the head without scanning
/// the rest.
pub proof fn lemma_head_not_due_none_due(q: Seq<Remind>, elapsed: u64)
    requires
        queue_sorted(q),
        q.len() > 0,
        q[0].life_time > elapsed,
    ensures
        forall|k: int| 0 <= k < q.len() ==> #[trigger] q[k].life_time > elapsed,
{
    assert forall|k: int| 0 <= k < q.len() implies #[trigger] q[k].life_time > elapsed by {
        if k > 0 {
            assert(q[0].life_time <= q[k].life_time);
        }
    }
}

/// Law: a stale snapshot — its identity no longer present, or present
/// with different content — is judged stale, so it is dropped and never
/// delivered.
pub proof fn lemma_stale_never_delivered(snapshot: Entry, live: Seq<Entry>)
    requires
        ({
            let m = first_match(live, snapshot.creation_time);
            m == live.len() || !live[m].same_content(snapshot)
        }),
    ensures
        pop_verdict(snapshot, live) is Stale,
{
}

/// Law: a snapshot whose identity has vanished from the live set is
/// judged stale — removing a definition silently retires its queued
/// reminder at pop time.
pub proof fn lemma_removed_is_stale(snapshot: Entry, live: Seq<Entry>)
    requires
        !has_identity(live, snapshot.creation_time),
    ensures
        pop_verdict(snapshot, live) is Stale,
{
    lemma_first_match(live, snapshot.creation_time);
    let m = first_match(live, snapshot.creation_time);
    if m < live.len() {
        assert(has_identity(live, snapshot.creation_time));
    }
}

/// Law: a reminder whose live definition is disabled is never delivered,
/// even though it was queued while enabled — the check happens at pop
/// time.
pub proof fn lemma_disabled_never_delivered(snapshot: Entry, live: Seq<Entry>)
    requires
        ({
            let m = first_match(live, snapshot.creation_time);
            m < live.len() && !live[m].enabled
        }),
    ensures
        !(pop_verdict(snapshot, live) is Deliver),
{
}

} // verus!
