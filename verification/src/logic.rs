//! The shared queue engine: named priority queues, the id-to-queue index,
//! the in-progress set, the id allocator and the waiter registry, with the
//! invariant that every issued id sits in exactly one place.
use vstd::prelude::*;
use std::sync::Arc;
use tokio::sync::Notify;
use crate::parser::{Id, Job, job_lt, job_le};
use crate::trusted::notify_waiter;

verus! {

/// One named queue. Jobs are kept in strictly increasing (priority, id)
/// order, so the last element is the next one to hand out.
pub struct Queue {
    pub name: String,
    pub jobs: Vec<Job>,
}

/// One entry of the id-to-queue index: the job with this id currently
/// rests in the queue of this name.
pub struct IndexEntry {
    pub id: Id,
    pub queue: String,
}

/// A sequence of jobs in strictly increasing (priority, id) order.
pub open spec fn jobs_sorted(s: Seq<Job>) -> bool {
    forall|k: int, l: int| 0 <= k < l < s.len() ==> job_lt(#[trigger] s[k], #[trigger] s[l])
}

/// The job `j` rests in a queue named `name`.
pub open spec fn queues_has_job(qs: Seq<Queue>, j: Job, name: Seq<char>) -> bool {
    exists|i: int| 0 <= i < qs.len() && qs[i].name@ == name && #[trigger] qs[i].jobs@.contains(j)
}

/// Some job with id `id` rests in some queue.
pub open spec fn queues_have_id(qs: Seq<Queue>, id: Id) -> bool {
    exists|i: int, j: Job| 0 <= i < qs.len() && #[trigger] qs[i].jobs@.contains(j) && j.id == id
}

/// A queue named `name` exists and holds at least one job.
pub open spec fn queues_nonempty(qs: Seq<Queue>, name: Seq<char>) -> bool {
    exists|i: int| 0 <= i < qs.len() && #[trigger] qs[i].name@ == name && qs[i].jobs@.len() > 0
}

/// Some job with id `id` is among `active`.
pub open spec fn active_has_id(active: Seq<Job>, id: Id) -> bool {
    exists|j: Job| #[trigger] active.contains(j) && j.id == id
}

/// The index holds an entry mapping `id` to the queue named `name`.
pub open spec fn index_maps(index: Seq<IndexEntry>, id: Id, name: Seq<char>) -> bool {
    exists|n: int| 0 <= n < index.len() && (#[trigger] index[n]).id == id && index[n].queue@
        == name
}

/// Queue names are pairwise distinct.
pub open spec fn names_distinct(qs: Seq<Queue>) -> bool {
    forall|i: int, j: int|
        0 <= i < j < qs.len() ==> (#[trigger] qs[i]).name@ != (#[trigger] qs[j]).name@
}

/// Every queue is sorted in strictly increasing (priority, id) order.
pub open spec fn queues_sorted(qs: Seq<Queue>) -> bool {
    forall|i: int| 0 <= i < qs.len() ==> jobs_sorted((#[trigger] qs[i]).jobs@)
}

/// Each index entry points at a resident of the named queue, each queued
/// job is indexed under its queue's name, and index entries are unique.
pub open spec fn index_synced(qs: Seq<Queue>, index: Seq<IndexEntry>) -> bool {
    &&& forall|n: int| 0 <= n < index.len() ==> queues_has_id_in(
        qs,
        (#[trigger] index[n]).id,
        index[n].queue@,
    )
    &&& forall|i: int, k: int|
        0 <= i < qs.len() && 0 <= k < qs[i].jobs@.len() ==> index_maps(
            index,
            (#[trigger] qs[i].jobs@[k]).id,
            qs[i].name@,
        )
    &&& forall|n: int, m: int|
        0 <= n < m < index.len() ==> (#[trigger] index[n]).id != (#[trigger] index[m]).id
}

/// Some job with id `id` rests in a queue named `name`.
pub open spec fn queues_has_id_in(qs: Seq<Queue>, id: Id, name: Seq<char>) -> bool {
    exists|j: Job| #[trigger] queues_has_job(qs, j, name) && j.id == id
}

/// No id occurs twice among queued jobs, twice among in-progress jobs, or
/// on both sides at once.
pub open spec fn ids_distinct(qs: Seq<Queue>, active: Seq<Job>) -> bool {
    &&& forall|i: int, k: int, i2: int, k2: int|
        0 <= i < qs.len() && 0 <= k < qs[i].jobs@.len() && 0 <= i2 < qs.len() && 0 <= k2
            < qs[i2].jobs@.len() && (i != i2 || k != k2) ==> (#[trigger] qs[i].jobs@[k]).id != (
        #[trigger] qs[i2].jobs@[k2]).id
    &&& forall|k: int, l: int|
        0 <= k < l < active.len() ==> (#[trigger] active[k]).id != (#[trigger] active[l]).id
    &&& forall|i: int, k: int, l: int|
        0 <= i < qs.len() && 0 <= k < qs[i].jobs@.len() && 0 <= l < active.len() ==> (
        #[trigger] qs[i].jobs@[k]).id != (#[trigger] active[l]).id
}

/// Every resident id is issued and not deleted; every issued, undeleted id
/// other than `missing` resides somewhere; deleted ids were issued; issued
/// ids are below the allocator counter. With `missing` set to an id, this
/// is the invariant as it stands in the middle of a PUT or an ABORT.
pub open spec fn accounted_except(
    qs: Seq<Queue>,
    active: Seq<Job>,
    issued: Set<Id>,
    deleted: Set<Id>,
    counter: Id,
    missing: Option<Id>,
) -> bool {
    &&& forall|i: int, k: int|
        0 <= i < qs.len() && 0 <= k < qs[i].jobs@.len() ==> issued.contains(
            (#[trigger] qs[i].jobs@[k]).id,
        ) && !deleted.contains(qs[i].jobs@[k].id)
    &&& forall|l: int|
        0 <= l < active.len() ==> issued.contains((#[trigger] active[l]).id)
            && !deleted.contains(active[l].id)
    &&& forall|id: Id|
        issued.contains(id) && !deleted.contains(id) && missing != Some(id)
            ==> queues_have_id(qs, id) || active_has_id(active, id)
    &&& forall|id: Id| deleted.contains(id) ==> issued.contains(id)
    &&& forall|id: Id| issued.contains(id) ==> id < counter
}

/// The mathematical content of the engine: where every job sits, and which
/// ids have ever been issued or have been deleted for good.
pub struct Store {
    pub queues: Seq<Queue>,
    pub index: Seq<IndexEntry>,
    pub active: Seq<Job>,
    pub issued: Set<Id>,
    pub deleted: Set<Id>,
}

impl Store {
    /// How many queues exist (empty ones are never dropped).
    pub open spec fn nq(self) -> int {
        self.queues.len() as int
    }

    /// The jobs of the queue at position `i`, in increasing order.
    pub open spec fn qjobs(self, i: int) -> Seq<Job> {
        self.queues[i].jobs@
    }

    /// The name of the queue at position `i`.
    pub open spec fn qname(self, i: int) -> Seq<char> {
        self.queues[i].name@
    }

    /// The job `j` rests in a queue named `name`.
    pub open spec fn has_queued_job(self, j: Job, name: Seq<char>) -> bool {
        queues_has_job(self.queues, j, name)
    }

    /// Some job with id `id` rests in a queue named `name`.
    pub open spec fn queued_in(self, id: Id, name: Seq<char>) -> bool {
        queues_has_id_in(self.queues, id, name)
    }

    /// Some job with id `id` rests in some queue.
    pub open spec fn id_queued(self, id: Id) -> bool {
        queues_have_id(self.queues, id)
    }

    /// The job `j` has been handed to some client and not yet returned.
    pub open spec fn has_active_job(self, j: Job) -> bool {
        self.active.contains(j)
    }

    /// Some job with id `id` is in progress.
    pub open spec fn id_active(self, id: Id) -> bool {
        active_has_id(self.active, id)
    }

    /// A queue named `name` exists and holds at least one job.
    pub open spec fn queue_nonempty(self, name: Seq<char>) -> bool {
        queues_nonempty(self.queues, name)
    }

    /// The in-progress job carrying `id`; meaningful when `id_active(id)`.
    pub open spec fn active_job_of(self, id: Id) -> Job {
        choose|j: Job| self.active.contains(j) && j.id == id
    }

    /// The engine invariant, relative to the allocator counter.
    pub open spec fn wf(self, counter: Id) -> bool {
        &&& names_distinct(self.queues)
        &&& queues_sorted(self.queues)
        &&& index_synced(self.queues, self.index)
        &&& ids_distinct(self.queues, self.active)
        &&& accounted_except(
            self.queues,
            self.active,
            self.issued,
            self.deleted,
            counter,
            None,
        )
    }

    /// The invariant as it stands in the middle of a PUT or an ABORT: the
    /// id `id` is issued and not deleted, but its job is in nobody's hands
    /// and in no queue yet. Everything else is as `wf` demands.
    pub open spec fn wf_missing(self, counter: Id, id: Id) -> bool {
        &&& names_distinct(self.queues)
        &&& queues_sorted(self.queues)
        &&& index_synced(self.queues, self.index)
        &&& ids_distinct(self.queues, self.active)
        &&& accounted_except(
            self.queues,
            self.active,
            self.issued,
            self.deleted,
            counter,
            Some(id),
        )
        &&& self.issued.contains(id)
        &&& !self.deleted.contains(id)
        &&& !self.id_queued(id)
        &&& !self.id_active(id)
    }
}

/// Every job whose id is not `id` keeps its place and its content across
/// the two stores.
pub open spec fn others_unchanged(pre: Store, post: Store, id: Id) -> bool {
    &&& forall|j: Job, n: Seq<char>|
        j.id != id ==> (#[trigger] queues_has_job(pre.queues, j, n) <==> #[trigger] queues_has_job(
            post.queues,
            j,
            n,
        ))
    &&& forall|j: Job|
        j.id != id ==> (#[trigger] pre.active.contains(j) <==> #[trigger] post.active.contains(j))
}

/// The id-level readings of `others_unchanged`: ids other than `id` are
/// queued, queued-under-a-name, and in progress in `post` exactly as in
/// `pre`.
pub proof fn lemma_others_unchanged(pre: Store, post: Store, id: Id)
    requires
        others_unchanged(pre, post, id),
    ensures
        forall|id2: Id, n: Seq<char>|
            id2 != id ==> (#[trigger] pre.queued_in(id2, n) <==> #[trigger] post.queued_in(
                id2,
                n,
            )),
        forall|id2: Id|
            id2 != id ==> (#[trigger] pre.id_queued(id2) <==> #[trigger] post.id_queued(id2)),
        forall|id2: Id|
            id2 != id ==> (#[trigger] pre.id_active(id2) <==> #[trigger] post.id_active(id2)),
{
    assert forall|id2: Id, n: Seq<char>|
        id2 != id implies (#[trigger] pre.queued_in(id2, n) <==> #[trigger] post.queued_in(
        id2,
        n,
    )) by {
        if pre.queued_in(id2, n) {
            let j = choose|j: Job| #[trigger] queues_has_job(pre.queues, j, n) && j.id == id2;
            assert(pre.has_queued_job(j, n));
            assert(post.has_queued_job(j, n));
        }
        if post.queued_in(id2, n) {
            let j = choose|j: Job| #[trigger] queues_has_job(post.queues, j, n) && j.id == id2;
            assert(post.has_queued_job(j, n));
            assert(pre.has_queued_job(j, n));
        }
    }
    assert forall|id2: Id|
        id2 != id implies (#[trigger] pre.id_queued(id2) <==> #[trigger] post.id_queued(id2)) by {
        if pre.id_queued(id2) {
            let (i, j) = choose|i: int, j: Job|
                0 <= i < pre.queues.len() && #[trigger] pre.queues[i].jobs@.contains(j) && j.id
                    == id2;
            assert(pre.has_queued_job(j, pre.qname(i)));
            assert(post.has_queued_job(j, pre.qname(i)));
            let i2 = choose|i2: int|
                0 <= i2 < post.queues.len() && post.queues[i2].name@ == pre.qname(i) && (
                #[trigger] post.queues[i2].jobs@).contains(j);
            assert(post.id_queued(id2));
        }
        if post.id_queued(id2) {
            let (i, j) = choose|i: int, j: Job|
                0 <= i < post.queues.len() && #[trigger] post.queues[i].jobs@.contains(j) && j.id
                    == id2;
            assert(post.has_queued_job(j, post.qname(i)));
            assert(pre.has_queued_job(j, post.qname(i)));
            let i2 = choose|i2: int|
                0 <= i2 < pre.queues.len() && pre.queues[i2].name@ == post.qname(i) && (
                #[trigger] pre.queues[i2].jobs@).contains(j);
            assert(pre.id_queued(id2));
        }
    }
    assert forall|id2: Id|
        id2 != id implies (#[trigger] pre.id_active(id2) <==> #[trigger] post.id_active(id2)) by {
        if pre.id_active(id2) {
            let j = choose|j: Job| #[trigger] pre.active.contains(j) && j.id == id2;
            assert(pre.has_active_job(j));
            assert(post.has_active_job(j));
            assert(post.active.contains(j));
        }
        if post.id_active(id2) {
            let j = choose|j: Job| #[trigger] post.active.contains(j) && j.id == id2;
            assert(post.has_active_job(j));
            assert(pre.has_active_job(j));
            assert(pre.active.contains(j));
        }
    }
}

/// Inserting into a sequence adds exactly the new element to its members.
proof fn lemma_insert_membership(s: Seq<Job>, pos: int, x: Job)
    requires
        0 <= pos <= s.len(),
    ensures
        forall|j: Job| #[trigger] s.insert(pos, x).contains(j) <==> (s.contains(j) || j == x),
{
    s.insert_ensures(pos, x);
    assert forall|j: Job| #[trigger] s.insert(pos, x).contains(j) <==> (s.contains(j) || j
        == x) by {
        let t = s.insert(pos, x);
        if t.contains(j) {
            let k = choose|k: int| 0 <= k < t.len() && t[k] == j;
            if k < pos {
                assert(s[k] == j);
                assert(s.contains(j));
            } else if k > pos {
                assert(t[(k - 1) + 1] == s[k - 1]);
                assert(s.contains(j));
            }
        }
        if s.contains(j) {
            let k = choose|k: int| 0 <= k < s.len() && s[k] == j;
            if k < pos {
                assert(t[k] == j);
            } else {
                assert(t[k + 1] == j);
            }
            assert(t.contains(j));
        }
        assert(t[pos] == x);
        assert(t.contains(x));
    }
}

/// Removing position `pos` from a duplicate-free sequence removes exactly
/// that element from its members.
proof fn lemma_remove_membership(s: Seq<Job>, pos: int)
    requires
        0 <= pos < s.len(),
        forall|k: int, l: int| 0 <= k < l < s.len() ==> s[k] != s[l],
    ensures
        forall|j: Job| #[trigger] s.remove(pos).contains(j) <==> (s.contains(j) && j != s[pos]),
{
    s.remove_ensures(pos);
    assert forall|j: Job| #[trigger] s.remove(pos).contains(j) <==> (s.contains(j) && j
        != s[pos]) by {
        let t = s.remove(pos);
        if t.contains(j) {
            let k = choose|k: int| 0 <= k < t.len() && t[k] == j;
            if k < pos {
                assert(s[k] == j);
                assert(s.contains(j));
            } else {
                assert(s[k + 1] == j);
                assert(s.contains(j));
            }
        }
        if s.contains(j) && j != s[pos] {
            let k = choose|k: int| 0 <= k < s.len() && s[k] == j;
            if k < pos {
                assert(t[k] == j);
            } else {
                assert(t[k - 1] == j);
            }
            assert(t.contains(j));
        }
    }
}

/// The error reported by DELETE and ABORT when no job with the asked-for
/// id is where the operation looks for it.
#[derive(Debug)]
pub struct JobNotFound;

/// The name `n` occurs in the list of queue names.
pub open spec fn name_listed(names: Seq<String>, n: Seq<char>) -> bool {
    exists|i: int| 0 <= i < names.len() && (#[trigger] names[i])@ == n
}

/// Some queue named in the list exists and holds a job.
pub open spec fn some_listed_nonempty(s: Store, names: Seq<String>) -> bool {
    exists|i: int| 0 <= i < names.len() && s.queue_nonempty((#[trigger] names[i])@)
}

/// The shared broker state, protected by one lock in a running broker.
pub struct State {
    pub customers_served: u32,
    queues: Vec<Queue>,
    id_to_queue: Vec<IndexEntry>,
    active_jobs: Vec<Job>,
    next_id: Id,
    notifications: Vec<Arc<Notify>>,
    issued: Ghost<Set<Id>>,
    deleted: Ghost<Set<Id>>,
}

impl State {
    /// The mathematical content of this state.
    pub closed spec fn store(self) -> Store {
        Store {
            queues: self.queues@,
            index: self.id_to_queue@,
            active: self.active_jobs@,
            issued: self.issued@,
            deleted: self.deleted@,
        }
    }

    /// How many connections have been served.
    pub closed spec fn served(self) -> u32 {
        self.customers_served
    }

    /// The smallest id never yet issued.
    pub closed spec fn id_counter(self) -> Id {
        self.next_id
    }

    /// The registered notifiers of blocked GET requests, oldest first.
    pub closed spec fn waiters(self) -> Seq<Arc<Notify>> {
        self.notifications@
    }

    /// How many notifiers are registered.
    pub open spec fn waiter_count(self) -> nat {
        self.waiters().len()
    }

    /// The ids ever handed out to deposited jobs.
    pub open spec fn issued_ids(self) -> Set<Id> {
        self.store().issued
    }

    /// The ids removed for good by DELETE.
    pub open spec fn deleted_ids(self) -> Set<Id> {
        self.store().deleted
    }

    /// The job `j` rests in a queue named `name`.
    pub open spec fn has_queued_job(self, j: Job, name: Seq<char>) -> bool {
        self.store().has_queued_job(j, name)
    }

    /// Some job with id `id` rests in a queue named `name`.
    pub open spec fn queued_in(self, id: Id, name: Seq<char>) -> bool {
        self.store().queued_in(id, name)
    }

    /// Some job with id `id` rests in some queue.
    pub open spec fn id_queued(self, id: Id) -> bool {
        self.store().id_queued(id)
    }

    /// The job `j` has been handed to some client and not yet returned.
    pub open spec fn has_active_job(self, j: Job) -> bool {
        self.store().has_active_job(j)
    }

    /// Some job with id `id` is in progress.
    pub open spec fn id_active(self, id: Id) -> bool {
        self.store().id_active(id)
    }

    /// A queue named `name` exists and holds at least one job.
    pub open spec fn queue_nonempty(self, name: Seq<char>) -> bool {
        self.store().queue_nonempty(name)
    }

    /// The engine invariant.
    pub open spec fn wf(self) -> bool {
        self.store().wf(self.id_counter())
    }

    /// A fresh broker: nothing issued, nothing queued, counter at zero.
    pub fn new() -> (s: State)
        ensures
            s.wf(),
            s.id_counter() == 0,
            s.issued_ids() == Set::<Id>::empty(),
            s.deleted_ids() == Set::<Id>::empty(),
            s.waiter_count() == 0,
            s.store().nq() == 0,
            s.store().active.len() == 0,
            s.served() == 0,
    {
        State {
            customers_served: 0,
            queues: Vec::new(),
            id_to_queue: Vec::new(),
            active_jobs: Vec::new(),
            next_id: 0,
            notifications: Vec::new(),
            issued: Ghost(Set::empty()),
            deleted: Ghost(Set::empty()),
        }
    }

    /// Count one served connection.
    pub fn serve_customer(&mut self)
        requires
            old(self).served() < u32::MAX,
        ensures
            final(self).served() == old(self).served() + 1,
            final(self).store() == old(self).store(),
            final(self).waiters() == old(self).waiters(),
            final(self).id_counter() == old(self).id_counter(),
    {
        self.customers_served = self.customers_served + 1;
    }

    /// Register a blocked GET's notifier in the waiter registry.
    pub fn request_notification(&mut self, notifier: Arc<Notify>)
        ensures
            final(self).waiters() == old(self).waiters().push(notifier),
            final(self).store() == old(self).store(),
            final(self).id_counter() == old(self).id_counter(),
            final(self).served() == old(self).served(),
    {
        self.notifications.push(notifier);
    }

    /// Hand out the next fresh id and advance the allocator.
    pub fn next_id(&mut self) -> (id: Id)
        requires
            old(self).id_counter() < u32::MAX,
        ensures
            id == old(self).id_counter(),
            final(self).id_counter() == old(self).id_counter() + 1,
            final(self).store() == old(self).store(),
            final(self).waiters() == old(self).waiters(),
            final(self).served() == old(self).served(),
    {
        let old_id = self.next_id;
        self.next_id = self.next_id + 1;
        old_id
    }

    /// The allocator's next id, for callers that must check headroom
    /// before a PUT.
    pub fn counter_value(&self) -> (r: Id)
        ensures
            r == self.id_counter(),
    {
        self.next_id
    }

    /// Wake every registered waiter and clear the registry; called on any
    /// change that could let some GET succeed.
    fn notify_changes(&mut self)
        ensures
            final(self).waiter_count() == 0,
            final(self).store() == old(self).store(),
            final(self).id_counter() == old(self).id_counter(),
            final(self).served() == old(self).served(),
    {
        let ghost pre = *self;
        let mut n: usize = 0;
        while n < self.notifications.len()
            invariant
                *self == pre,
            decreases self.notifications@.len() - n,
        {
            notify_waiter(&self.notifications[n]);
            n = n + 1;
        }
        self.notifications.clear();
    }

    /// The position of the queue with this name, if one exists.
    fn queue_position(&self, name: &String) -> (r: Option<usize>)
        ensures
            match r {
                Some(qi) => qi < self.store().nq() && self.store().qname(qi as int) == name@,
                None => forall|i: int| 0 <= i < self.store().nq() ==> self.store().qname(i)
                    != name@,
            },
    {
        let mut i: usize = 0;
        while i < self.queues.len()
            invariant
                i <= self.queues.len(),
                forall|k: int| 0 <= k < i ==> self.store().qname(k) != name@,
            decreases self.queues@.len() - i,
        {
            if self.queues[i].name == *name {
                return Some(i);
            }
            i = i + 1;
        }
        None
    }

    /// The position of the queue with this name, creating an empty queue
    /// of that name if none exists yet. Nothing moves.
    fn ensure_queue(&mut self, name: &String, missing: Ghost<Id>) -> (qi: usize)
        requires
            old(self).store().wf_missing(old(self).id_counter(), missing@),
        ensures
            final(self).store().wf_missing(final(self).id_counter(), missing@),
            qi < final(self).store().nq(),
            final(self).store().qname(qi as int) == name@,
            final(self).id_counter() == old(self).id_counter(),
            final(self).served() == old(self).served(),
            final(self).waiters() == old(self).waiters(),
            final(self).store().index == old(self).store().index,
            final(self).store().active == old(self).store().active,
            final(self).store().issued == old(self).store().issued,
            final(self).store().deleted == old(self).store().deleted,
            old(self).store().nq() <= final(self).store().nq(),
            forall|i: int|
                0 <= i < old(self).store().nq() ==> final(self).store().queues[i] == old(
                    self,
                ).store().queues[i],
            forall|j: Job, n: Seq<char>|
                #[trigger] final(self).store().has_queued_job(j, n) <==> #[trigger] old(
                    self,
                ).store().has_queued_job(j, n),
            forall|n: Seq<char>|
                #[trigger] final(self).store().queue_nonempty(n) <==> #[trigger] old(
                    self,
                ).store().queue_nonempty(n),
            forall|id2: Id|
                #[trigger] final(self).store().id_queued(id2) <==> #[trigger] old(
                    self,
                ).store().id_queued(id2),
    {
        let r = self.queue_position(name);
        match r {
            Some(qi) => qi,
            None => {
                let ghost qs0 = self.store().queues;
                let qi = self.queues.len();
                self.queues.push(Queue { name: name.clone(), jobs: Vec::new() });
                proof {
                    let qs1 = self.store().queues;
                    assert(qs1.len() == qs0.len() + 1);
                    assert(forall|i: int| 0 <= i < qs0.len() ==> qs1[i] == qs0[i]);
                    assert(qs1[qs0.len() as int].name@ == name@);
                    assert(qs1[qs0.len() as int].jobs@.len() == 0);
                    assert forall|j: Job, n: Seq<char>| #[trigger] queues_has_job(qs1, j, n)
                        <==> queues_has_job(qs0, j, n) by {
                        if queues_has_job(qs1, j, n) {
                            let i = choose|i: int|
                                0 <= i < qs1.len() && qs1[i].name@ == n
                                    && #[trigger] qs1[i].jobs@.contains(j);
                            assert(i < qs0.len());
                            assert(qs0[i].jobs@.contains(j));
                        }
                        if queues_has_job(qs0, j, n) {
                            let i = choose|i: int|
                                0 <= i < qs0.len() && qs0[i].name@ == n
                                    && #[trigger] qs0[i].jobs@.contains(j);
                            assert(qs1[i].jobs@.contains(j));
                        }
                    }
                    assert forall|n: Seq<char>| #[trigger] queues_nonempty(qs1, n)
                        <==> queues_nonempty(qs0, n) by {
                        if queues_nonempty(qs1, n) {
                            let i = choose|i: int|
                                0 <= i < qs1.len() && #[trigger] qs1[i].name@ == n
                                    && qs1[i].jobs@.len() > 0;
                            assert(i < qs0.len());
                            assert(qs0[i].name@ == n && qs0[i].jobs@.len() > 0);
                        }
                        if queues_nonempty(qs0, n) {
                            let i = choose|i: int|
                                0 <= i < qs0.len() && #[trigger] qs0[i].name@ == n
                                    && qs0[i].jobs@.len() > 0;
                            assert(qs1[i].name@ == n && qs1[i].jobs@.len() > 0);
                        }
                    }
                    assert forall|id2: Id| #[trigger] queues_have_id(qs1, id2) <==> queues_have_id(
                        qs0,
                        id2,
                    ) by {
                        if queues_have_id(qs1, id2) {
                            let (i, j) = choose|i: int, j: Job|
                                0 <= i < qs1.len() && #[trigger] qs1[i].jobs@.contains(j) && j.id
                                    == id2;
                            assert(i < qs0.len());
                            assert(qs0[i].jobs@.contains(j));
                        }
                        if queues_have_id(qs0, id2) {
                            let (i, j) = choose|i: int, j: Job|
                                0 <= i < qs0.len() && #[trigger] qs0[i].jobs@.contains(j) && j.id
                                    == id2;
                            assert(qs1[i].jobs@.contains(j));
                        }
                    }
                    let index = self.store().index;
                    assert forall|n: int|
                        0 <= n < index.len() implies queues_has_id_in(
                        qs1,
                        (#[trigger] index[n]).id,
                        index[n].queue@,
                    ) by {
                        assert(queues_has_id_in(qs0, index[n].id, index[n].queue@));
                        let j = choose|j: Job|
                            #[trigger] queues_has_job(qs0, j, index[n].queue@) && j.id
                                == index[n].id;
                        assert(queues_has_job(qs1, j, index[n].queue@));
                    }
                    assert forall|i: int, k: int|
                        0 <= i < qs1.len() && 0 <= k < qs1[i].jobs@.len() implies index_maps(
                        index,
                        (#[trigger] qs1[i].jobs@[k]).id,
                        qs1[i].name@,
                    ) by {
                        assert(i < qs0.len());
                        assert(index_maps(index, qs0[i].jobs@[k].id, qs0[i].name@));
                    }
                    let st = self.store();
                    let counter = self.id_counter();
                    assert forall|i: int, j2: int| 0 <= i < j2 < qs1.len() implies (
                    #[trigger] qs1[i]).name@ != (#[trigger] qs1[j2]).name@ by {
                        if j2 < qs0.len() {
                        } else {
                            assert(qs1[j2].name@ == name@);
                            assert(old(self).store().qname(i) != name@);
                            assert(old(self).store().qname(i) == qs0[i].name@);
                        }
                    }
                    assert forall|i: int| 0 <= i < qs1.len() implies jobs_sorted(
                        (#[trigger] qs1[i]).jobs@,
                    ) by {
                        if i < qs0.len() {
                            assert(jobs_sorted(qs0[i].jobs@));
                        }
                    }
                    assert(index_synced(qs1, index));
                    assert(ids_distinct(qs1, st.active));
                    assert(accounted_except(
                        qs1,
                        st.active,
                        st.issued,
                        st.deleted,
                        counter,
                        Some(missing@),
                    ));
                    assert(!queues_have_id(qs1, missing@));
                    assert(st.wf_missing(counter, missing@));
                }
                qi
            },
        }
    }

    /// Put `job`, whose id must already be issued but homeless, into the
    /// queue of the given name, record it in the index, and wake waiters.
    #[verifier::rlimit(100)]
    fn add_with_id(&mut self, queue: String, job: Job)
        requires
            old(self).store().wf_missing(old(self).id_counter(), job.id),
        ensures
            final(self).wf(),
            final(self).has_queued_job(job, queue@),
            final(self).queued_in(job.id, queue@),
            final(self).queue_nonempty(queue@),
            final(self).waiter_count() == 0,
            final(self).id_counter() == old(self).id_counter(),
            final(self).served() == old(self).served(),
            final(self).store().issued == old(self).store().issued,
            final(self).store().deleted == old(self).store().deleted,
            final(self).store().active == old(self).store().active,
            others_unchanged(old(self).store(), final(self).store(), job.id),
    {
        let ghost jobg = job;
        let jid = job.id;
        let qi = self.ensure_queue(&queue, Ghost(job.id));
        let ghost mid = self.store();
        let ghost sjobs = mid.qjobs(qi as int);
        proof {
            assert forall|k: int| 0 <= k < sjobs.len() implies (#[trigger] sjobs[k]).id
                != jobg.id by {
                if sjobs[k].id == jobg.id {
                    assert(mid.queues[qi as int].jobs@.contains(sjobs[k]));
                    assert(queues_have_id(mid.queues, jobg.id));
                }
            }
        }
        let qlen = self.queues[qi].jobs.len();
        let mut pos: usize = qlen;
        while pos > 0 && crate::parser::job_before(&job, &self.queues[qi].jobs[pos - 1])
            invariant
                self.store() == mid,
                qi < self.queues@.len(),
                sjobs == self.store().qjobs(qi as int),
                0 <= pos <= sjobs.len(),
                forall|k: int| pos <= k < sjobs.len() ==> job_lt(jobg, #[trigger] sjobs[k]),
                job == jobg,
            decreases pos,
        {
            pos = pos - 1;
        }
        proof {
            assert(jobs_sorted(sjobs));
            if pos > 0 {
                assert(!job_lt(jobg, sjobs[pos - 1]));
                assert(sjobs[pos - 1].id != jobg.id);
                assert(job_lt(sjobs[pos - 1], jobg));
            }
            assert forall|k: int| 0 <= k < pos implies job_lt(#[trigger] sjobs[k], jobg) by {
                if k < pos - 1 {
                    assert(job_lt(sjobs[k], sjobs[pos - 1]));
                }
            }
        }
        self.queues[qi].jobs.insert(pos, job);
        self.id_to_queue.push(IndexEntry { id: jid, queue });
        proof {
            let post = self.store();
            let njobs = sjobs.insert(pos as int, jobg);
            sjobs.insert_ensures(pos as int, jobg);
            lemma_insert_membership(sjobs, pos as int, jobg);
            assert(post.nq() == mid.nq());
            assert(forall|i: int|
                0 <= i < post.nq() && i != qi ==> post.queues[i] == mid.queues[i]);
            assert(post.qname(qi as int) == mid.qname(qi as int));
            assert(post.qjobs(qi as int) == njobs);
            assert(forall|k: int| 0 <= k < pos ==> njobs[k] == sjobs[k]);
            assert(njobs[pos as int] == jobg);
            assert forall|k: int| pos < k < njobs.len() implies njobs[k] == sjobs[k - 1] by {
                assert(njobs[(k - 1) + 1] == sjobs[k - 1]);
            }
            assert(post.index.len() == mid.index.len() + 1);
            assert(forall|n: int| 0 <= n < mid.index.len() ==> post.index[n] == mid.index[n]);
            assert(post.index[mid.index.len() as int].id == jobg.id);
            assert(post.index[mid.index.len() as int].queue@ == queue@);
            assert(post.active == mid.active);
            assert(post.issued == mid.issued);
            assert(post.deleted == mid.deleted);
            // every id in any queue of mid differs from the new id
            assert forall|i: int, k: int|
                0 <= i < mid.nq() && 0 <= k < mid.qjobs(i).len() implies (
            #[trigger] mid.qjobs(i)[k]).id != jobg.id by {
                if mid.qjobs(i)[k].id == jobg.id {
                    assert(mid.queues[i].jobs@.contains(mid.qjobs(i)[k]));
                    assert(queues_have_id(mid.queues, jobg.id));
                }
            }
            // the new queue seq is sorted
            assert forall|k: int, l: int| 0 <= k < l < njobs.len() implies job_lt(
                #[trigger] njobs[k],
                #[trigger] njobs[l],
            ) by {
                if l < pos {
                } else if k < pos && l == pos {
                } else if k < pos && l > pos {
                    assert(njobs[l] == sjobs[l - 1]);
                    if k < l - 1 {
                        assert(job_lt(sjobs[k], sjobs[l - 1]));
                    }
                } else if k == pos {
                    assert(njobs[l] == sjobs[l - 1]);
                } else {
                    assert(njobs[k] == sjobs[k - 1]);
                    assert(njobs[l] == sjobs[l - 1]);
                }
            }
            assert(jobs_sorted(njobs));
            assert(queues_sorted(post.queues));
            assert(names_distinct(post.queues));
            // membership in the changed store
            assert forall|j: Job, n: Seq<char>| #[trigger] queues_has_job(post.queues, j, n) <==> (
            queues_has_job(mid.queues, j, n) || (j == jobg && n == queue@)) by {
                if queues_has_job(post.queues, j, n) {
                    let i = choose|i: int|
                        0 <= i < post.nq() && post.queues[i].name@ == n
                            && #[trigger] post.queues[i].jobs@.contains(j);
                    if i == qi {
                        assert(njobs.contains(j));
                        if j != jobg {
                            assert(sjobs.contains(j));
                            assert(mid.queues[i].jobs@.contains(j));
                        } else {
                            assert(n == queue@);
                        }
                    } else {
                        assert(mid.queues[i].jobs@.contains(j));
                    }
                }
                if queues_has_job(mid.queues, j, n) {
                    let i = choose|i: int|
                        0 <= i < mid.nq() && mid.queues[i].name@ == n
                            && #[trigger] mid.queues[i].jobs@.contains(j);
                    if i == qi {
                        assert(njobs.contains(j));
                        assert(post.queues[i].jobs@.contains(j));
                    } else {
                        assert(post.queues[i].jobs@.contains(j));
                    }
                }
                if j == jobg && n == queue@ {
                    assert(njobs.contains(jobg));
                    assert(post.queues[qi as int].jobs@.contains(j));
                }
            }
            assert(post.has_queued_job(jobg, queue@));
            assert(post.queued_in(jobg.id, queue@));
            assert(post.queue_nonempty(queue@));
            // the index stays synced
            assert forall|n: int|
                0 <= n < post.index.len() implies queues_has_id_in(
                post.queues,
                (#[trigger] post.index[n]).id,
                post.index[n].queue@,
            ) by {
                if n < mid.index.len() {
                    assert(queues_has_id_in(mid.queues, mid.index[n].id, mid.index[n].queue@));
                    let j = choose|j: Job|
                        #[trigger] queues_has_job(mid.queues, j, mid.index[n].queue@) && j.id
                            == mid.index[n].id;
                    assert(queues_has_job(post.queues, j, mid.index[n].queue@));
                } else {
                    assert(queues_has_job(post.queues, jobg, queue@));
                }
            }
            assert forall|i: int, k: int|
                0 <= i < post.nq() && 0 <= k < post.qjobs(i).len() implies index_maps(
                post.index,
                (#[trigger] post.queues[i].jobs@[k]).id,
                post.queues[i].name@,
            ) by {
                if i == qi {
                    if k == pos {
                        assert(post.index[mid.index.len() as int].id == jobg.id);
                    } else {
                        let k0: int = if k < pos {
                            k
                        } else {
                            k - 1
                        };
                        assert(post.queues[i].jobs@[k] == sjobs[k0]);
                        assert(index_maps(mid.index, mid.qjobs(i)[k0].id, mid.qname(i)));
                        let n = choose|n: int|
                            0 <= n < mid.index.len() && (#[trigger] mid.index[n]).id == mid.qjobs(
                                i,
                            )[k0].id && mid.index[n].queue@ == mid.qname(i);
                        assert(post.index[n].id == post.queues[i].jobs@[k].id);
                    }
                } else {
                    assert(index_maps(mid.index, mid.qjobs(i)[k].id, mid.qname(i)));
                    let n = choose|n: int|
                        0 <= n < mid.index.len() && (#[trigger] mid.index[n]).id == mid.qjobs(
                            i,
                        )[k].id && mid.index[n].queue@ == mid.qname(i);
                    assert(post.index[n].id == post.queues[i].jobs@[k].id);
                }
            }
            assert forall|n: int, m: int|
                0 <= n < m < post.index.len() implies (#[trigger] post.index[n]).id != (
            #[trigger] post.index[m]).id by {
                if m < mid.index.len() {
                } else {
                    assert(queues_has_id_in(mid.queues, mid.index[n].id, mid.index[n].queue@));
                    let j = choose|j: Job|
                        #[trigger] queues_has_job(mid.queues, j, mid.index[n].queue@) && j.id
                            == mid.index[n].id;
                    let i = choose|i: int|
                        0 <= i < mid.nq() && mid.queues[i].name@ == mid.index[n].queue@
                            && #[trigger] mid.queues[i].jobs@.contains(j);
                    assert(queues_have_id(mid.queues, j.id));
                    assert(mid.index[n].id != jobg.id);
                }
            }
            assert(index_synced(post.queues, post.index));
            // ids stay distinct
            assert forall|i: int, k: int, i2: int, k2: int|
                0 <= i < post.nq() && 0 <= k < post.qjobs(i).len() && 0 <= i2 < post.nq() && 0 <= k2
                    < post.qjobs(i2).len() && (i != i2 || k != k2) implies (
            #[trigger] post.queues[i].jobs@[k]).id != (#[trigger] post.queues[i2].jobs@[k2]).id by {
                let k0: int = if i == qi && k > pos {
                    k - 1
                } else {
                    k
                };
                let k20: int = if i2 == qi && k2 > pos {
                    k2 - 1
                } else {
                    k2
                };
                if i == qi && k == pos {
                    if i2 == qi && k2 != pos {
                        assert(post.queues[i2].jobs@[k2] == sjobs[k20]);
                    } else {
                        assert(post.queues[i2].jobs@[k2] == mid.queues[i2].jobs@[k20]);
                    }
                } else if i2 == qi && k2 == pos {
                    if i == qi {
                        assert(post.queues[i].jobs@[k] == sjobs[k0]);
                    } else {
                        assert(post.queues[i].jobs@[k] == mid.queues[i].jobs@[k0]);
                    }
                } else {
                    assert(post.queues[i].jobs@[k] == mid.queues[i].jobs@[k0]);
                    assert(post.queues[i2].jobs@[k2] == mid.queues[i2].jobs@[k20]);
                }
            }
            assert forall|i: int, k: int, l: int|
                0 <= i < post.nq() && 0 <= k < post.qjobs(i).len() && 0 <= l
                    < post.active.len() implies (#[trigger] post.queues[i].jobs@[k]).id != (
            #[trigger] post.active[l]).id by {
                let k0: int = if i == qi && k > pos {
                    k - 1
                } else {
                    k
                };
                if i == qi && k == pos {
                    if post.active[l].id == jobg.id {
                        assert(mid.active.contains(mid.active[l]));
                        assert(active_has_id(mid.active, jobg.id));
                    }
                } else {
                    assert(post.queues[i].jobs@[k] == mid.queues[i].jobs@[k0]);
                }
            }
            assert(ids_distinct(post.queues, post.active));
            // accounting
            assert forall|id2: Id|
                post.issued.contains(id2) && !post.deleted.contains(id2) implies queues_have_id(
                post.queues,
                id2,
            ) || active_has_id(post.active, id2) by {
                if id2 == jobg.id {
                    assert(post.queues[qi as int].jobs@.contains(jobg));
                    assert(queues_have_id(post.queues, id2));
                } else {
                    assert(queues_have_id(mid.queues, id2) || active_has_id(mid.active, id2));
                    if queues_have_id(mid.queues, id2) {
                        let (i, j) = choose|i: int, j: Job|
                            0 <= i < mid.nq() && #[trigger] mid.queues[i].jobs@.contains(j) && j.id
                                == id2;
                        if i == qi {
                            assert(njobs.contains(j));
                            assert(post.queues[i].jobs@.contains(j));
                        } else {
                            assert(post.queues[i].jobs@.contains(j));
                        }
                        assert(queues_have_id(post.queues, id2));
                    }
                }
            }
            assert forall|i: int, k: int|
                0 <= i < post.nq() && 0 <= k < post.qjobs(i).len() implies post.issued.contains(
                (#[trigger] post.queues[i].jobs@[k]).id,
            ) && !post.deleted.contains(post.queues[i].jobs@[k].id) by {
                let k0: int = if i == qi && k > pos {
                    k - 1
                } else {
                    k
                };
                if i == qi && k == pos {
                } else {
                    assert(post.queues[i].jobs@[k] == mid.queues[i].jobs@[k0]);
                }
            }
            assert(accounted_except(
                post.queues,
                post.active,
                post.issued,
                post.deleted,
                self.id_counter(),
                None,
            ));
            assert(post.wf(self.id_counter()));
            // nothing else moved
            assert forall|j: Job, n: Seq<char>|
                j.id != jobg.id implies (#[trigger] queues_has_job(mid.queues, j, n)
                <==> #[trigger] queues_has_job(post.queues, j, n)) by {
                assert(queues_has_job(post.queues, j, n) <==> (queues_has_job(mid.queues, j, n) || (
                j == jobg && n == queue@)));
            }
        }
        self.notify_changes();
    }

    /// The position of the index entry carrying `id`; the entry must exist.
    fn index_position(&self, id: Id) -> (n: usize)
        requires
            exists|n0: int|
                0 <= n0 < self.store().index.len() && (#[trigger] self.store().index[n0]).id == id,
        ensures
            n < self.store().index.len(),
            self.store().index[n as int].id == id,
    {
        let mut n: usize = 0;
        while n < self.id_to_queue.len()
            invariant
                n <= self.store().index.len(),
                forall|m: int| 0 <= m < n ==> (#[trigger] self.store().index[m]).id != id,
                exists|n0: int|
                    0 <= n0 < self.store().index.len() && (#[trigger] self.store().index[n0]).id
                        == id,
            decreases self.store().index.len() - n,
        {
            if self.id_to_queue[n].id == id {
                return n;
            }
            n = n + 1;
        }
        proof {
            assert(false);
        }
        0
    }

    /// Take the highest-priority job of the named queue, move it to the
    /// in-progress set, and return it; nothing if the queue is missing or
    /// empty.
    #[verifier::rlimit(100)]
    pub fn take_job(&mut self, queue: &String) -> (r: Option<Job>)
        requires
            old(self).wf(),
        ensures
            final(self).wf(),
            final(self).id_counter() == old(self).id_counter(),
            final(self).served() == old(self).served(),
            final(self).waiters() == old(self).waiters(),
            final(self).issued_ids() == old(self).issued_ids(),
            final(self).deleted_ids() == old(self).deleted_ids(),
            (r is Some) <==> old(self).queue_nonempty(queue@),
            match r {
                Option::None => *final(self) == *old(self),
                Option::Some(j) => {
                    &&& old(self).has_queued_job(j, queue@)
                    &&& forall|j2: Job| #[trigger] old(self).has_queued_job(j2, queue@)
                        ==> job_le(j2, j)
                    &&& final(self).has_active_job(j)
                    &&& final(self).id_active(j.id)
                    &&& forall|n: Seq<char>| !final(self).queued_in(j.id, n)
                    &&& !final(self).id_queued(j.id)
                    &&& others_unchanged(old(self).store(), final(self).store(), j.id)
                    &&& final(self).store().active == old(self).store().active.push(j)
                },
            },
    {
        let qi_opt = self.queue_position(queue);
        let qi = match qi_opt {
            Option::Some(qi) => qi,
            Option::None => {
                proof {
                    if self.store().queue_nonempty(queue@) {
                        let i = choose|i: int|
                            0 <= i < self.store().queues.len()
                                && #[trigger] self.store().queues[i].name@ == queue@
                                && self.store().queues[i].jobs@.len() > 0;
                        assert(self.store().qname(i) == queue@);
                    }
                }
                return Option::None;
            },
        };
        let qlen = self.queues[qi].jobs.len();
        if qlen == 0 {
            proof {
                if self.store().queue_nonempty(queue@) {
                    let i = choose|i: int|
                        0 <= i < self.store().queues.len()
                            && #[trigger] self.store().queues[i].name@ == queue@
                            && self.store().queues[i].jobs@.len() > 0;
                    assert(i == qi);
                }
            }
            return Option::None;
        }
        let ghost pre = self.store();
        let ghost sjobs = pre.qjobs(qi as int);
        proof {
            assert(pre.queue_nonempty(queue@));
        }
        let popped = self.queues[qi].jobs.pop();
        let j = match popped {
            Option::Some(j) => j,
            Option::None => {
                proof {
                    assert(false);
                }
                return Option::None;
            },
        };
        let ghost jg = j;
        proof {
            assert(jg == sjobs.last());
            assert(sjobs.contains(jg));
            assert(pre.has_queued_job(jg, queue@));
            assert(index_maps(pre.index, jg.id, pre.qname(qi as int)));
            assert(self.store().index == pre.index);
            assert(index_maps(self.store().index, jg.id, pre.qname(qi as int)));
        }
        let n = self.index_position(j.id);
        let _entry = self.id_to_queue.remove(n);
        let dup = Job { priority: j.priority, id: j.id, data: crate::trusted::dup_data(&j.data) };
        proof {
            assert(dup == jg);
        }
        self.active_jobs.push(dup);
        proof {
            let post = self.store();
            let last: int = sjobs.len() - 1;
            let njobs = sjobs.remove(last);
            assert forall|k: int, l: int| 0 <= k < l < sjobs.len() implies sjobs[k] != sjobs[l] by {
                assert(job_lt(sjobs[k], sjobs[l]));
            }
            lemma_remove_membership(sjobs, last);
            sjobs.remove_ensures(last);
            assert(njobs =~= sjobs.subrange(0, last));
            assert(post.qjobs(qi as int) =~= njobs);
            assert(post.nq() == pre.nq());
            assert(forall|i: int|
                0 <= i < post.nq() && i != qi ==> post.queues[i] == pre.queues[i]);
            assert(post.qname(qi as int) == pre.qname(qi as int));
            assert(post.index =~= pre.index.remove(n as int));
            pre.index.remove_ensures(n as int);
            assert(post.active == pre.active.push(jg));
            assert(post.issued == pre.issued);
            assert(post.deleted == pre.deleted);
            // ids at all surviving queue positions differ from the taken id
            assert forall|i: int, k: int|
                0 <= i < post.nq() && 0 <= k < post.qjobs(i).len() implies (
            #[trigger] post.queues[i].jobs@[k]).id != jg.id && post.queues[i].jobs@[k]
                == pre.queues[i].jobs@[k] by {
                assert(pre.queues[i].jobs@[k].id == post.queues[i].jobs@[k].id || true);
                if i == qi {
                    assert(post.queues[i].jobs@[k] == sjobs[k]);
                    assert(sjobs[k].id != sjobs[last].id);
                } else {
                    assert(pre.queues[i].jobs@[k].id != pre.queues[qi as int].jobs@[last].id);
                }
            }
            // membership: exactly jg left the queues
            assert forall|j2: Job, nm: Seq<char>| #[trigger] queues_has_job(post.queues, j2, nm)
                <==> (queues_has_job(pre.queues, j2, nm) && !(j2 == jg && nm == queue@)) by {
                if queues_has_job(post.queues, j2, nm) {
                    let i = choose|i: int|
                        0 <= i < post.nq() && post.queues[i].name@ == nm
                            && #[trigger] post.queues[i].jobs@.contains(j2);
                    if i == qi {
                        assert(njobs.contains(j2));
                        assert(sjobs.contains(j2) && j2 != jg);
                        assert(pre.queues[i].jobs@.contains(j2));
                    } else {
                        assert(pre.queues[i].jobs@.contains(j2));
                        if j2 == jg && nm == queue@ {
                            assert(pre.queues[i].name@ == pre.qname(qi as int));
                            assert(false);
                        }
                    }
                }
                if queues_has_job(pre.queues, j2, nm) && !(j2 == jg && nm == queue@) {
                    let i = choose|i: int|
                        0 <= i < pre.nq() && pre.queues[i].name@ == nm
                            && #[trigger] pre.queues[i].jobs@.contains(j2);
                    if i == qi {
                        assert(j2 != jg);
                        assert(njobs.contains(j2));
                        assert(post.queues[i].jobs@.contains(j2));
                    } else {
                        assert(post.queues[i].jobs@.contains(j2));
                    }
                }
            }
            // the index stays synced
            assert forall|m: int|
                0 <= m < post.index.len() implies queues_has_id_in(
                post.queues,
                (#[trigger] post.index[m]).id,
                post.index[m].queue@,
            ) by {
                let m0: int = if m < n {
                    m
                } else {
                    m + 1
                };
                assert(post.index[m] == pre.index[m0]);
                assert(pre.index[m0].id != pre.index[n as int].id);
                assert(queues_has_id_in(pre.queues, pre.index[m0].id, pre.index[m0].queue@));
                let j2 = choose|j2: Job|
                    #[trigger] queues_has_job(pre.queues, j2, pre.index[m0].queue@) && j2.id
                        == pre.index[m0].id;
                assert(j2.id != jg.id);
                assert(queues_has_job(post.queues, j2, pre.index[m0].queue@));
            }
            assert forall|i: int, k: int|
                0 <= i < post.nq() && 0 <= k < post.qjobs(i).len() implies index_maps(
                post.index,
                (#[trigger] post.queues[i].jobs@[k]).id,
                post.queues[i].name@,
            ) by {
                assert(post.queues[i].jobs@[k] == pre.queues[i].jobs@[k]);
                assert(index_maps(pre.index, pre.queues[i].jobs@[k].id, pre.queues[i].name@));
                let m0 = choose|m0: int|
                    0 <= m0 < pre.index.len() && (#[trigger] pre.index[m0]).id
                        == pre.queues[i].jobs@[k].id && pre.index[m0].queue@
                        == pre.queues[i].name@;
                assert(pre.index[m0].id != jg.id);
                assert(m0 != n);
                let m: int = if m0 < n {
                    m0
                } else {
                    m0 - 1
                };
                assert(post.index[m] == pre.index[m0]);
            }
            assert forall|m: int, m2: int|
                0 <= m < m2 < post.index.len() implies (#[trigger] post.index[m]).id != (
            #[trigger] post.index[m2]).id by {
                let a0: int = if m < n {
                    m
                } else {
                    m + 1
                };
                let b0: int = if m2 < n {
                    m2
                } else {
                    m2 + 1
                };
                assert(post.index[m] == pre.index[a0]);
                assert(post.index[m2] == pre.index[b0]);
            }
            assert(index_synced(post.queues, post.index));
            // sortedness and distinctness
            assert forall|i: int| 0 <= i < post.nq() implies jobs_sorted(
                (#[trigger] post.queues[i]).jobs@,
            ) by {
                if i == qi {
                    assert(forall|k: int| 0 <= k < njobs.len() ==> njobs[k] == sjobs[k]);
                } else {
                    assert(jobs_sorted(pre.queues[i].jobs@));
                }
            }
            assert forall|l: int|
                0 <= l < post.active.len() implies post.issued.contains(
                (#[trigger] post.active[l]).id,
            ) && !post.deleted.contains(post.active[l].id) by {
                if l < pre.active.len() {
                } else {
                    assert(post.active[l] == jg);
                    assert(pre.issued.contains(sjobs[last].id));
                }
            }
            assert forall|k: int, l: int|
                0 <= k < l < post.active.len() implies (#[trigger] post.active[k]).id != (
            #[trigger] post.active[l]).id by {
                if l == pre.active.len() {
                    assert(post.active[l] == jg);
                    assert(pre.queues[qi as int].jobs@[last].id != pre.active[k].id);
                }
            }
            assert forall|i: int, k: int, l: int|
                0 <= i < post.nq() && 0 <= k < post.qjobs(i).len() && 0 <= l
                    < post.active.len() implies (#[trigger] post.queues[i].jobs@[k]).id != (
            #[trigger] post.active[l]).id by {
                assert(post.queues[i].jobs@[k] == pre.queues[i].jobs@[k]);
                if l == pre.active.len() {
                    assert(post.active[l] == jg);
                } else {
                    assert(pre.queues[i].jobs@[k].id != pre.active[l].id);
                }
            }
            assert(ids_distinct(post.queues, post.active));
            assert(active_has_id(post.active, jg.id)) by {
                assert(post.active.last() == jg);
                assert(post.active.contains(jg));
            }
            assert forall|id2: Id|
                post.issued.contains(id2) && !post.deleted.contains(id2) implies queues_have_id(
                post.queues,
                id2,
            ) || active_has_id(post.active, id2) by {
                if id2 == jg.id {
                } else {
                    assert(queues_have_id(pre.queues, id2) || active_has_id(pre.active, id2));
                    if queues_have_id(pre.queues, id2) {
                        let (i, j2) = choose|i: int, j2: Job|
                            0 <= i < pre.nq() && #[trigger] pre.queues[i].jobs@.contains(j2)
                                && j2.id == id2;
                        assert(pre.has_queued_job(j2, pre.qname(i)));
                        assert(queues_has_job(post.queues, j2, pre.qname(i)));
                        let i2 = choose|i2: int|
                            0 <= i2 < post.nq() && post.queues[i2].name@ == pre.qname(i) && (
                            #[trigger] post.queues[i2].jobs@).contains(j2);
                        assert(queues_have_id(post.queues, id2));
                    } else {
                        let j2 = choose|j2: Job| #[trigger] pre.active.contains(j2) && j2.id
                            == id2;
                        assert(post.active.contains(j2)) by {
                            let l = choose|l: int| 0 <= l < pre.active.len() && pre.active[l]
                                == j2;
                            assert(post.active[l] == j2);
                        }
                    }
                }
            }
            assert(accounted_except(
                post.queues,
                post.active,
                post.issued,
                post.deleted,
                self.id_counter(),
                None,
            ));
            assert(post.wf(self.id_counter()));
            // the taken job is nowhere queued any more
            assert forall|nm: Seq<char>| !post.queued_in(jg.id, nm) by {
                if post.queued_in(jg.id, nm) {
                    let j2 = choose|j2: Job| #[trigger] queues_has_job(post.queues, j2, nm)
                        && j2.id == jg.id;
                    let i = choose|i: int|
                        0 <= i < post.nq() && post.queues[i].name@ == nm
                            && #[trigger] post.queues[i].jobs@.contains(j2);
                    let k = choose|k: int| 0 <= k < post.queues[i].jobs@.len()
                        && post.queues[i].jobs@[k] == j2;
                    assert(post.queues[i].jobs@[k].id != jg.id);
                }
            }
            assert(!post.id_queued(jg.id)) by {
                if post.id_queued(jg.id) {
                    let (i, j2) = choose|i: int, j2: Job|
                        0 <= i < post.nq() && #[trigger] post.queues[i].jobs@.contains(j2)
                            && j2.id == jg.id;
                    let k = choose|k: int| 0 <= k < post.queues[i].jobs@.len()
                        && post.queues[i].jobs@[k] == j2;
                    assert(post.queues[i].jobs@[k].id != jg.id);
                }
            }
            // the taken job is the queue's maximum
            assert forall|j2: Job| #[trigger] queues_has_job(pre.queues, j2, queue@) implies job_le(
                j2,
                jg,
            ) by {
                let i = choose|i: int|
                    0 <= i < pre.nq() && pre.queues[i].name@ == queue@
                        && #[trigger] pre.queues[i].jobs@.contains(j2);
                assert(i == qi);
                let k = choose|k: int| 0 <= k < sjobs.len() && sjobs[k] == j2;
                if k < last {
                    assert(job_lt(sjobs[k], sjobs[last]));
                }
            }
        }
        Option::Some(j)
    }

    /// Deposit a job: assign it a fresh id, place it on the named queue
    /// (created on first use), and wake every waiter. Returns the new id.
    pub fn add_job(&mut self, queue: String, job: Job) -> (id: Id)
        requires
            old(self).wf(),
            old(self).id_counter() < u32::MAX,
        ensures
            final(self).wf(),
            id == old(self).id_counter(),
            final(self).id_counter() == old(self).id_counter() + 1,
            final(self).issued_ids() == old(self).issued_ids().insert(id),
            !old(self).issued_ids().contains(id),
            final(self).deleted_ids() == old(self).deleted_ids(),
            final(self).has_queued_job((Job { id, ..job }), queue@),
            final(self).queued_in(id, queue@),
            final(self).queue_nonempty(queue@),
            final(self).waiter_count() == 0,
            final(self).served() == old(self).served(),
            final(self).store().active == old(self).store().active,
            others_unchanged(old(self).store(), final(self).store(), id),
    {
        let mut job = job;
        let id = self.next_id();
        job.id = id;
        proof {
            if self.issued@.contains(id) {
                assert(false);
            }
        }
        self.issued = Ghost(self.issued@.insert(id));
        proof {
            let s = self.store();
            assert(s.issued =~= old(self).store().issued.insert(id));
            if s.deleted.contains(id) {
                assert(s.issued.contains(id));
                assert(old(self).store().deleted.contains(id));
                assert(old(self).store().issued.contains(id));
                assert(false);
            }
            if s.id_queued(id) {
                let (i, j) = choose|i: int, j: Job|
                    0 <= i < s.queues.len() && #[trigger] s.queues[i].jobs@.contains(j) && j.id
                        == id;
                let k = choose|k: int| 0 <= k < s.queues[i].jobs@.len() && s.queues[i].jobs@[k]
                    == j;
                assert(old(self).store().issued.contains(j.id));
                assert(false);
            }
            if s.id_active(id) {
                let j = choose|j: Job| #[trigger] s.active.contains(j) && j.id == id;
                let l = choose|l: int| 0 <= l < s.active.len() && s.active[l] == j;
                assert(old(self).store().issued.contains(j.id));
                assert(false);
            }
            assert(s.wf_missing(self.id_counter(), id));
        }
        let ghost before = self.store();
        self.add_with_id(queue, job);
        proof {
            assert(others_unchanged(before, self.store(), id));
        }
        id
    }

    /// The position in queue `qi` of the job carrying `id`; it must exist.
    fn job_position(&self, qi: usize, id: Id) -> (k: usize)
        requires
            qi < self.store().nq(),
            exists|k0: int|
                0 <= k0 < self.store().qjobs(qi as int).len() && (#[trigger] self.store().qjobs(
                    qi as int,
                )[k0]).id == id,
        ensures
            k < self.store().qjobs(qi as int).len(),
            self.store().qjobs(qi as int)[k as int].id == id,
    {
        let mut k: usize = 0;
        while k < self.queues[qi].jobs.len()
            invariant
                qi < self.store().nq(),
                k <= self.store().qjobs(qi as int).len(),
                forall|m: int| 0 <= m < k ==> (#[trigger] self.store().qjobs(qi as int)[m]).id
                    != id,
                exists|k0: int|
                    0 <= k0 < self.store().qjobs(qi as int).len() && (#[trigger] self.store().qjobs(
                        qi as int,
                    )[k0]).id == id,
            decreases self.store().qjobs(qi as int).len() - k,
        {
            if self.queues[qi].jobs[k].id == id {
                return k;
            }
            k = k + 1;
        }
        proof {
            assert(false);
        }
        0
    }

    /// Across the named queues, take the job that is greatest in the
    /// (priority, id) order, move it to the in-progress set, and return it
    /// with its queue's name; nothing if every named queue is empty.
    pub fn find_job(&mut self, queues: &[String]) -> (r: Option<(Job, String)>)
        requires
            old(self).wf(),
        ensures
            final(self).wf(),
            final(self).id_counter() == old(self).id_counter(),
            final(self).served() == old(self).served(),
            final(self).waiters() == old(self).waiters(),
            final(self).issued_ids() == old(self).issued_ids(),
            final(self).deleted_ids() == old(self).deleted_ids(),
            (r is Some) <==> some_listed_nonempty(old(self).store(), queues@),
            match r {
                Option::None => *final(self) == *old(self),
                Option::Some((j, qn)) => {
                    &&& name_listed(queues@, qn@)
                    &&& old(self).has_queued_job(j, qn@)
                    &&& forall|j2: Job, m: int|
                        #![trigger old(self).has_queued_job(j2, queues@[m]@)]
                        0 <= m < queues@.len() && old(self).has_queued_job(j2, queues@[m]@)
                            ==> job_le(j2, j)
                    &&& final(self).has_active_job(j)
                    &&& final(self).id_active(j.id)
                    &&& forall|n2: Seq<char>| !final(self).queued_in(j.id, n2)
                    &&& !final(self).id_queued(j.id)
                    &&& others_unchanged(old(self).store(), final(self).store(), j.id)
                    &&& final(self).store().active == old(self).store().active.push(j)
                },
            },
    {
        let ghost pre = *self;
        let mut best: Option<usize> = Option::None;
        let mut i: usize = 0;
        while i < queues.len()
            invariant
                *self == pre,
                pre.wf(),
                i <= queues@.len(),
                match best {
                    Option::None => forall|m: int|
                        0 <= m < i ==> !pre.queue_nonempty((#[trigger] queues@[m])@),
                    Option::Some(b) => {
                        &&& b < pre.store().nq()
                        &&& pre.store().qjobs(b as int).len() > 0
                        &&& exists|m: int|
                            0 <= m < i && (#[trigger] queues@[m])@ == pre.store().qname(b as int)
                        &&& forall|j2: Job, m: int|
                            #![trigger pre.has_queued_job(j2, queues@[m]@)]
                            0 <= m < i && pre.has_queued_job(j2, queues@[m]@) ==> job_le(
                                j2,
                                pre.store().qjobs(b as int).last(),
                            )
                    },
                },
            decreases queues@.len() - i,
        {
            let name = &queues[i];
            let cand = self.queue_position(name);
            proof {
                if self.store().queue_nonempty(name@) && cand is None {
                    let w = choose|w: int|
                        0 <= w < self.store().queues.len()
                            && #[trigger] self.store().queues[w].name@ == name@
                            && self.store().queues[w].jobs@.len() > 0;
                    assert(self.store().qname(w) == name@);
                }
            }
            match cand {
                Option::None => {},
                Option::Some(qi) => {
                    let qlen = self.queues[qi].jobs.len();
                    if qlen > 0 {
                        proof {
                            // every job queued under this name sits in queue qi
                            assert forall|j2: Job|
                                #[trigger] pre.has_queued_job(j2, name@) implies job_le(
                                j2,
                                pre.store().qjobs(qi as int).last(),
                            ) by {
                                let w = choose|w: int|
                                    0 <= w < pre.store().nq() && pre.store().queues[w].name@
                                        == name@ && #[trigger] pre.store().queues[w].jobs@.contains(
                                        j2,
                                    );
                                assert(w == qi);
                                let k = choose|k: int|
                                    0 <= k < pre.store().qjobs(qi as int).len()
                                        && pre.store().qjobs(qi as int)[k] == j2;
                                if k < pre.store().qjobs(qi as int).len() - 1 {
                                    assert(job_lt(
                                        pre.store().qjobs(qi as int)[k],
                                        pre.store().qjobs(qi as int).last(),
                                    ));
                                }
                            }
                        }
                        match best {
                            Option::None => {
                                best = Option::Some(qi);
                            },
                            Option::Some(b) => {
                                let blen = self.queues[b].jobs.len();
                                let better = crate::parser::job_before(
                                    &self.queues[b].jobs[blen - 1],
                                    &self.queues[qi].jobs[qlen - 1],
                                );
                                proof {
                                    let bl = pre.store().qjobs(b as int).last();
                                    let cl = pre.store().qjobs(qi as int).last();
                                    if !job_lt(bl, cl) {
                                        // the old best stays at least as great
                                        if b != qi {
                                            assert(pre.store().qjobs(b as int).contains(bl));
                                            assert(pre.store().qjobs(qi as int).contains(cl));
                                            let lb: int = pre.store().qjobs(b as int).len() - 1;
                                            let lc: int = pre.store().qjobs(qi as int).len() - 1;
                                            assert(pre.store().qjobs(b as int)[lb].id
                                                != pre.store().qjobs(qi as int)[lc].id);
                                            assert(job_lt(cl, bl));
                                        }
                                    }
                                }
                                if better {
                                    best = Option::Some(qi);
                                }
                            },
                        }
                    }
                }
            }
            i = i + 1;
        }
        let b = match best {
            Option::None => {
                return Option::None;
            },
            Option::Some(b) => b,
        };
        let name = self.queues[b].name.clone();
        proof {
            assert(pre.store().queue_nonempty(name@));
            assert(some_listed_nonempty(pre.store(), queues@)) by {
                let m = choose|m: int|
                    0 <= m < queues@.len() && (#[trigger] queues@[m])@ == pre.store().qname(
                        b as int,
                    );
                assert(pre.store().queue_nonempty(queues@[m]@));
            }
        }
        let taken = self.take_job(&name);
        match taken {
            Option::None => {
                proof {
                    assert(false);
                }
                Option::None
            },
            Option::Some(j) => {
                proof {
                    let bl = pre.store().qjobs(b as int).last();
                    assert(pre.store().qjobs(b as int).contains(bl));
                    assert(pre.has_queued_job(bl, name@));
                    assert(job_le(bl, j));
                    assert forall|j2: Job, m: int|
                        #![trigger pre.has_queued_job(j2, queues@[m]@)]
                        0 <= m < queues@.len() && pre.has_queued_job(j2, queues@[m]@) implies job_le(
                        j2,
                        j,
                    ) by {
                        assert(job_le(j2, bl));
                    }
                }
                Option::Some((j, name))
            },
        }
    }

    /// Delete the job carrying `id`, wherever it is: out of its queue, or
    /// out of the in-progress set. Reports whether it was found.
    #[verifier::rlimit(100)]
    pub fn delete_job(&mut self, id: Id) -> (r: Result<(), JobNotFound>)
        requires
            old(self).wf(),
        ensures
            final(self).wf(),
            final(self).id_counter() == old(self).id_counter(),
            final(self).served() == old(self).served(),
            final(self).waiters() == old(self).waiters(),
            final(self).issued_ids() == old(self).issued_ids(),
            (r is Ok) <==> (old(self).id_queued(id) || old(self).id_active(id)),
            r is Err ==> *final(self) == *old(self),
            r is Ok ==> final(self).deleted_ids() == old(self).deleted_ids().insert(id),
            !final(self).id_queued(id),
            !final(self).id_active(id),
            forall|n2: Seq<char>| !final(self).queued_in(id, n2),
            others_unchanged(old(self).store(), final(self).store(), id),
    {
        let ghost pre = self.store();
        let mut n: usize = 0;
        while n < self.id_to_queue.len()
            invariant
                self.store() == pre,
                *self == *old(self),
                pre.wf(self.id_counter()),
                n <= pre.index.len(),
                forall|m: int| 0 <= m < n ==> (#[trigger] pre.index[m]).id != id,
            decreases pre.index.len() - n,
        {
            if self.id_to_queue[n].id == id {
                let entry = self.id_to_queue.remove(n);
                proof {
                    assert(queues_has_id_in(pre.queues, id, entry.queue@));
                    let jw = choose|jw: Job|
                        #[trigger] queues_has_job(pre.queues, jw, entry.queue@) && jw.id == id;
                    let iw = choose|iw: int|
                        0 <= iw < pre.queues.len() && pre.queues[iw].name@ == entry.queue@
                            && #[trigger] pre.queues[iw].jobs@.contains(jw);
                    assert(self.store().queue_nonempty(entry.queue@)) by {
                        assert(self.store().queues[iw].name@ == entry.queue@);
                        assert(self.store().queues[iw].jobs@.len() > 0);
                    }
                }
                let qi_opt = self.queue_position(&entry.queue);
                let qi = match qi_opt {
                    Option::Some(qi) => qi,
                    Option::None => {
                        proof {
                            let w = choose|w: int|
                                0 <= w < self.store().queues.len()
                                    && #[trigger] self.store().queues[w].name@ == entry.queue@
                                    && self.store().queues[w].jobs@.len() > 0;
                            assert(self.store().qname(w) == entry.queue@);
                            assert(false);
                        }
                        return Result::Err(JobNotFound);
                    },
                };
                proof {
                    let jw = choose|jw: Job|
                        #[trigger] queues_has_job(pre.queues, jw, entry.queue@) && jw.id == id;
                    let iw = choose|iw: int|
                        0 <= iw < pre.queues.len() && pre.queues[iw].name@ == entry.queue@
                            && #[trigger] pre.queues[iw].jobs@.contains(jw);
                    assert(iw == qi);
                    let kw = choose|kw: int|
                        0 <= kw < pre.queues[iw].jobs@.len() && pre.queues[iw].jobs@[kw] == jw;
                    assert(self.store().qjobs(qi as int)[kw].id == id);
                }
                let k = self.job_position(qi, id);
                let ghost jd = self.store().qjobs(qi as int)[k as int];
                let _job = self.queues[qi].jobs.remove(k);
                self.deleted = Ghost(self.deleted@.insert(id));
                proof {
                    let post = self.store();
                    let sjobs = pre.qjobs(qi as int);
                    assert forall|k2: int, l2: int|
                        0 <= k2 < l2 < sjobs.len() implies sjobs[k2] != sjobs[l2] by {
                        assert(job_lt(sjobs[k2], sjobs[l2]));
                    }
                    lemma_remove_membership(sjobs, k as int);
                    sjobs.remove_ensures(k as int);
                    pre.index.remove_ensures(n as int);
                    let njobs = sjobs.remove(k as int);
                    assert(post.qjobs(qi as int) == njobs);
                    assert(post.nq() == pre.nq());
                    assert(forall|i2: int|
                        0 <= i2 < post.nq() && i2 != qi ==> post.queues[i2] == pre.queues[i2]);
                    assert(post.qname(qi as int) == pre.qname(qi as int));
                    assert(post.index == pre.index.remove(n as int));
                    assert(post.active == pre.active);
                    assert(post.issued == pre.issued);
                    assert(post.deleted == pre.deleted.insert(id));
                    // every surviving queue position keeps its job, whose id is not `id`
                    assert forall|i2: int, k2: int|
                        0 <= i2 < post.nq() && 0 <= k2 < post.qjobs(i2).len() implies (
                    #[trigger] post.queues[i2].jobs@[k2]).id != id && post.queues[i2].jobs@.contains(
                        post.queues[i2].jobs@[k2],
                    ) by {
                        if i2 == qi {
                            let k0: int = if k2 < k {
                                k2
                            } else {
                                k2 + 1
                            };
                            assert(post.queues[i2].jobs@[k2] == sjobs[k0]);
                            assert(pre.queues[qi as int].jobs@[k0].id
                                != pre.queues[qi as int].jobs@[k as int].id);
                        } else {
                            assert(post.queues[i2].jobs@[k2] == pre.queues[i2].jobs@[k2]);
                            assert(pre.queues[i2].jobs@[k2].id
                                != pre.queues[qi as int].jobs@[k as int].id);
                        }
                    }
                    // membership: exactly jd left the queues
                    assert forall|j2: Job, nm: Seq<char>| #[trigger] queues_has_job(
                        post.queues,
                        j2,
                        nm,
                    ) <==> (queues_has_job(pre.queues, j2, nm) && !(j2 == jd && nm
                        == entry.queue@)) by {
                        if queues_has_job(post.queues, j2, nm) {
                            let i2 = choose|i2: int|
                                0 <= i2 < post.nq() && post.queues[i2].name@ == nm
                                    && #[trigger] post.queues[i2].jobs@.contains(j2);
                            if i2 == qi {
                                assert(njobs.contains(j2));
                                assert(sjobs.contains(j2) && j2 != jd);
                                assert(pre.queues[i2].jobs@.contains(j2));
                            } else {
                                assert(pre.queues[i2].jobs@.contains(j2));
                                if j2 == jd && nm == entry.queue@ {
                                    assert(pre.queues[i2].name@ == pre.qname(qi as int));
                                    assert(false);
                                }
                            }
                        }
                        if queues_has_job(pre.queues, j2, nm) && !(j2 == jd && nm
                            == entry.queue@) {
                            let i2 = choose|i2: int|
                                0 <= i2 < pre.nq() && pre.queues[i2].name@ == nm
                                    && #[trigger] pre.queues[i2].jobs@.contains(j2);
                            if i2 == qi {
                                if j2 == jd {
                                    assert(nm == entry.queue@);
                                    assert(false);
                                }
                                assert(njobs.contains(j2));
                                assert(post.queues[i2].jobs@.contains(j2));
                            } else {
                                assert(post.queues[i2].jobs@.contains(j2));
                            }
                        }
                    }
                    // the index stays synced
                    assert forall|m: int|
                        0 <= m < post.index.len() implies queues_has_id_in(
                        post.queues,
                        (#[trigger] post.index[m]).id,
                        post.index[m].queue@,
                    ) by {
                        let m0: int = if m < n {
                            m
                        } else {
                            m + 1
                        };
                        assert(post.index[m] == pre.index[m0]);
                        assert(pre.index[m0].id != pre.index[n as int].id);
                        assert(queues_has_id_in(pre.queues, pre.index[m0].id, pre.index[m0].queue@));
                        let j2 = choose|j2: Job|
                            #[trigger] queues_has_job(pre.queues, j2, pre.index[m0].queue@)
                                && j2.id == pre.index[m0].id;
                        assert(j2.id != jd.id);
                        assert(queues_has_job(post.queues, j2, pre.index[m0].queue@));
                    }
                    assert forall|i2: int, k2: int|
                        0 <= i2 < post.nq() && 0 <= k2 < post.qjobs(i2).len() implies index_maps(
                        post.index,
                        (#[trigger] post.queues[i2].jobs@[k2]).id,
                        post.queues[i2].name@,
                    ) by {
                        let jx = post.queues[i2].jobs@[k2];
                        let k0: int = if i2 == qi && k2 >= k {
                            k2 + 1
                        } else {
                            k2
                        };
                        assert(jx == pre.queues[i2].jobs@[k0]);
                        assert(index_maps(pre.index, pre.queues[i2].jobs@[k0].id,
                        pre.queues[i2].name@));
                        let m0 = choose|m0: int|
                            0 <= m0 < pre.index.len() && (#[trigger] pre.index[m0]).id
                                == pre.queues[i2].jobs@[k0].id && pre.index[m0].queue@
                                == pre.queues[i2].name@;
                        assert(jx.id != id);
                        assert(m0 != n);
                        let m: int = if m0 < n {
                            m0
                        } else {
                            m0 - 1
                        };
                        assert(post.index[m] == pre.index[m0]);
                    }
                    assert forall|m: int, m2: int|
                        0 <= m < m2 < post.index.len() implies (#[trigger] post.index[m]).id != (
                    #[trigger] post.index[m2]).id by {
                        let a0: int = if m < n {
                            m
                        } else {
                            m + 1
                        };
                        let b0: int = if m2 < n {
                            m2
                        } else {
                            m2 + 1
                        };
                        assert(post.index[m] == pre.index[a0]);
                        assert(post.index[m2] == pre.index[b0]);
                    }
                    assert(index_synced(post.queues, post.index));
                    assert forall|i2: int| 0 <= i2 < post.nq() implies jobs_sorted(
                        (#[trigger] post.queues[i2]).jobs@,
                    ) by {
                        if i2 == qi {
                            assert forall|k2: int, l2: int|
                                0 <= k2 < l2 < njobs.len() implies job_lt(
                                #[trigger] njobs[k2],
                                #[trigger] njobs[l2],
                            ) by {
                                let a0: int = if k2 < k {
                                    k2
                                } else {
                                    k2 + 1
                                };
                                let b0: int = if l2 < k {
                                    l2
                                } else {
                                    l2 + 1
                                };
                                assert(njobs[k2] == sjobs[a0]);
                                assert(njobs[l2] == sjobs[b0]);
                            }
                        } else {
                            assert(jobs_sorted(pre.queues[i2].jobs@));
                        }
                    }
                    assert forall|i2: int, k2: int, i3: int, k3: int|
                        0 <= i2 < post.nq() && 0 <= k2 < post.qjobs(i2).len() && 0 <= i3
                            < post.nq() && 0 <= k3 < post.qjobs(i3).len() && (i2 != i3 || k2
                            != k3) implies (#[trigger] post.queues[i2].jobs@[k2]).id != (
                    #[trigger] post.queues[i3].jobs@[k3]).id by {
                        let a0: int = if i2 == qi && k2 >= k {
                            k2 + 1
                        } else {
                            k2
                        };
                        let b0: int = if i3 == qi && k3 >= k {
                            k3 + 1
                        } else {
                            k3
                        };
                        assert(post.queues[i2].jobs@[k2] == pre.queues[i2].jobs@[a0]);
                        assert(post.queues[i3].jobs@[k3] == pre.queues[i3].jobs@[b0]);
                    }
                    assert forall|i2: int, k2: int, l2: int|
                        0 <= i2 < post.nq() && 0 <= k2 < post.qjobs(i2).len() && 0 <= l2
                            < post.active.len() implies (#[trigger] post.queues[i2].jobs@[k2]).id
                        != (#[trigger] post.active[l2]).id by {
                        let a0: int = if i2 == qi && k2 >= k {
                            k2 + 1
                        } else {
                            k2
                        };
                        assert(post.queues[i2].jobs@[k2] == pre.queues[i2].jobs@[a0]);
                    }
                    assert(ids_distinct(post.queues, post.active));
                    assert forall|id2: Id|
                        post.issued.contains(id2) && !post.deleted.contains(id2)
                            implies queues_have_id(post.queues, id2) || active_has_id(
                        post.active,
                        id2,
                    ) by {
                        assert(id2 != id);
                        assert(queues_have_id(pre.queues, id2) || active_has_id(pre.active, id2));
                        if queues_have_id(pre.queues, id2) {
                            let (i2, j2) = choose|i2: int, j2: Job|
                                0 <= i2 < pre.nq() && #[trigger] pre.queues[i2].jobs@.contains(j2)
                                    && j2.id == id2;
                            assert(queues_has_job(pre.queues, j2, pre.qname(i2)));
                            assert(j2 != jd);
                            assert(queues_has_job(post.queues, j2, pre.qname(i2)));
                            let i3 = choose|i3: int|
                                0 <= i3 < post.nq() && post.queues[i3].name@ == pre.qname(i2) && (
                                #[trigger] post.queues[i3].jobs@).contains(j2);
                            assert(queues_have_id(post.queues, id2));
                        }
                    }
                    assert(accounted_except(
                        post.queues,
                        post.active,
                        post.issued,
                        post.deleted,
                        self.id_counter(),
                        None,
                    ));
                    assert(post.wf(self.id_counter()));
                    assert(!post.id_active(id)) by {
                        if post.id_active(id) {
                            let j2 = choose|j2: Job| #[trigger] post.active.contains(j2) && j2.id
                                == id;
                            let l2 = choose|l2: int|
                                0 <= l2 < post.active.len() && post.active[l2] == j2;
                            assert(pre.queues[qi as int].jobs@[k as int].id
                                != pre.active[l2].id);
                        }
                    }
                    assert(!post.id_queued(id)) by {
                        if post.id_queued(id) {
                            let (i2, j2) = choose|i2: int, j2: Job|
                                0 <= i2 < post.nq() && #[trigger] post.queues[i2].jobs@.contains(j2)
                                    && j2.id == id;
                            let k2 = choose|k2: int|
                                0 <= k2 < post.queues[i2].jobs@.len() && post.queues[i2].jobs@[k2]
                                    == j2;
                            assert(post.queues[i2].jobs@[k2].id != id);
                        }
                    }
                    assert forall|n2: Seq<char>| !post.queued_in(id, n2) by {
                        if post.queued_in(id, n2) {
                            let j2 = choose|j2: Job| #[trigger] queues_has_job(
                                post.queues,
                                j2,
                                n2,
                            ) && j2.id == id;
                            let i2 = choose|i2: int|
                                0 <= i2 < post.nq() && post.queues[i2].name@ == n2 && (
                                #[trigger] post.queues[i2].jobs@).contains(j2);
                            let k2 = choose|k2: int|
                                0 <= k2 < post.queues[i2].jobs@.len() && post.queues[i2].jobs@[k2]
                                    == j2;
                            assert(post.queues[i2].jobs@[k2].id != id);
                        }
                    }
                    assert(pre.id_queued(id)) by {
                        assert(pre.queues[qi as int].jobs@.contains(jd));
                    }
                }
                return Result::Ok(());
            }
            n = n + 1;
        }
        proof {
            // id is in no queue, or the index would carry it
            if pre.id_queued(id) {
                let (i2, j2) = choose|i2: int, j2: Job|
                    0 <= i2 < pre.queues.len() && #[trigger] pre.queues[i2].jobs@.contains(j2)
                        && j2.id == id;
                let k2 = choose|k2: int|
                    0 <= k2 < pre.queues[i2].jobs@.len() && pre.queues[i2].jobs@[k2] == j2;
                assert(index_maps(pre.index, pre.queues[i2].jobs@[k2].id, pre.queues[i2].name@));
                let m0 = choose|m0: int|
                    0 <= m0 < pre.index.len() && (#[trigger] pre.index[m0]).id
                        == pre.queues[i2].jobs@[k2].id && pre.index[m0].queue@
                        == pre.queues[i2].name@;
                assert(false);
            }
        }
        let mut l: usize = 0;
        while l < self.active_jobs.len()
            invariant
                self.store() == pre,
                *self == *old(self),
                pre.wf(self.id_counter()),
                !pre.id_queued(id),
                l <= pre.active.len(),
                forall|m: int| 0 <= m < l ==> (#[trigger] pre.active[m]).id != id,
            decreases pre.active.len() - l,
        {
            if self.active_jobs[l].id == id {
                let ghost jd = pre.active[l as int];
                let _job = self.active_jobs.remove(l);
                self.deleted = Ghost(self.deleted@.insert(id));
                proof {
                    let post = self.store();
                    pre.active.remove_ensures(l as int);
                    assert forall|k2: int, l2: int|
                        0 <= k2 < l2 < pre.active.len() implies pre.active[k2] != pre.active[l2] by {
                        assert(pre.active[k2].id != pre.active[l2].id);
                    }
                    lemma_remove_membership(pre.active, l as int);
                    assert(post.queues == pre.queues);
                    assert(post.index == pre.index);
                    assert(post.active == pre.active.remove(l as int));
                    assert(post.issued == pre.issued);
                    assert(post.deleted == pre.deleted.insert(id));
                    assert forall|l2: int|
                        0 <= l2 < post.active.len() implies (#[trigger] post.active[l2]).id != id
                            && pre.active.contains(post.active[l2]) by {
                        let l0: int = if l2 < l {
                            l2
                        } else {
                            l2 + 1
                        };
                        assert(post.active[l2] == pre.active[l0]);
                        assert(pre.active[l0].id != pre.active[l as int].id);
                    }
                    assert forall|k2: int, l2: int|
                        0 <= k2 < l2 < post.active.len() implies (#[trigger] post.active[k2]).id
                        != (#[trigger] post.active[l2]).id by {
                        let a0: int = if k2 < l {
                            k2
                        } else {
                            k2 + 1
                        };
                        let b0: int = if l2 < l {
                            l2
                        } else {
                            l2 + 1
                        };
                        assert(post.active[k2] == pre.active[a0]);
                        assert(post.active[l2] == pre.active[b0]);
                    }
                    assert forall|i2: int, k2: int, l2: int|
                        0 <= i2 < post.nq() && 0 <= k2 < post.qjobs(i2).len() && 0 <= l2
                            < post.active.len() implies (#[trigger] post.queues[i2].jobs@[k2]).id
                        != (#[trigger] post.active[l2]).id by {
                        let l0: int = if l2 < l {
                            l2
                        } else {
                            l2 + 1
                        };
                        assert(post.active[l2] == pre.active[l0]);
                    }
                    assert(ids_distinct(post.queues, post.active));
                    assert forall|id2: Id|
                        post.issued.contains(id2) && !post.deleted.contains(id2)
                            implies queues_have_id(post.queues, id2) || active_has_id(
                        post.active,
                        id2,
                    ) by {
                        assert(id2 != id);
                        if active_has_id(pre.active, id2) {
                            let j2 = choose|j2: Job| #[trigger] pre.active.contains(j2) && j2.id
                                == id2;
                            assert(j2 != jd);
                            assert(post.active.contains(j2));
                        }
                    }
                    assert forall|l2: int|
                        0 <= l2 < post.active.len() implies post.issued.contains(
                        (#[trigger] post.active[l2]).id,
                    ) && !post.deleted.contains(post.active[l2].id) by {
                        let l0: int = if l2 < l {
                            l2
                        } else {
                            l2 + 1
                        };
                        assert(post.active[l2] == pre.active[l0]);
                    }
                    assert forall|i2: int, k2: int|
                        0 <= i2 < post.nq() && 0 <= k2 < post.qjobs(i2).len()
                            implies post.issued.contains((#[trigger] post.queues[i2].jobs@[k2]).id)
                            && !post.deleted.contains(post.queues[i2].jobs@[k2].id) by {
                        assert(post.queues[i2].jobs@[k2].id != id) by {
                            if post.queues[i2].jobs@[k2].id == id {
                                assert(post.queues[i2].jobs@.contains(post.queues[i2].jobs@[k2]));
                                assert(queues_have_id(pre.queues, id));
                            }
                        }
                    }
                    assert(accounted_except(
                        post.queues,
                        post.active,
                        post.issued,
                        post.deleted,
                        self.id_counter(),
                        None,
                    ));
                    assert(post.wf(self.id_counter()));
                    assert(!post.id_active(id)) by {
                        if post.id_active(id) {
                            let j2 = choose|j2: Job| #[trigger] post.active.contains(j2) && j2.id
                                == id;
                            let l2 = choose|l2: int|
                                0 <= l2 < post.active.len() && post.active[l2] == j2;
                        }
                    }
                    assert forall|n2: Seq<char>| !post.queued_in(id, n2) by {
                        if post.queued_in(id, n2) {
                            let j2 = choose|j2: Job| #[trigger] queues_has_job(
                                post.queues,
                                j2,
                                n2,
                            ) && j2.id == id;
                            let i2 = choose|i2: int|
                                0 <= i2 < post.nq() && post.queues[i2].name@ == n2 && (
                                #[trigger] post.queues[i2].jobs@).contains(j2);
                            assert(queues_have_id(pre.queues, id));
                        }
                    }
                    assert(pre.id_active(id)) by {
                        assert(pre.active.contains(jd));
                    }
                }
                return Result::Ok(());
            }
            l = l + 1;
        }
        proof {
            if pre.id_active(id) {
                let j2 = choose|j2: Job| #[trigger] pre.active.contains(j2) && j2.id == id;
                let l2 = choose|l2: int| 0 <= l2 < pre.active.len() && pre.active[l2] == j2;
                assert(false);
            }
        }
        Result::Err(JobNotFound)
    }

    /// Return the in-progress job carrying `id` to the named queue with its
    /// original id, priority and payload, and wake every waiter. Reports
    /// whether the id was in progress at all.
    pub fn abort_job(&mut self, id: Id, queue: String) -> (r: Result<(), JobNotFound>)
        requires
            old(self).wf(),
        ensures
            final(self).wf(),
            final(self).id_counter() == old(self).id_counter(),
            final(self).served() == old(self).served(),
            final(self).issued_ids() == old(self).issued_ids(),
            final(self).deleted_ids() == old(self).deleted_ids(),
            (r is Ok) <==> old(self).id_active(id),
            r is Err ==> *final(self) == *old(self),
            r is Ok ==> {
                &&& final(self).has_queued_job(old(self).store().active_job_of(id), queue@)
                &&& final(self).queued_in(id, queue@)
                &&& final(self).queue_nonempty(queue@)
                &&& !final(self).id_active(id)
                &&& final(self).waiter_count() == 0
                &&& others_unchanged(old(self).store(), final(self).store(), id)
            },
    {
        let ghost pre = self.store();
        let mut l: usize = 0;
        while l < self.active_jobs.len()
            invariant
                self.store() == pre,
                *self == *old(self),
                pre.wf(self.id_counter()),
                l <= pre.active.len(),
                forall|m: int| 0 <= m < l ==> (#[trigger] pre.active[m]).id != id,
            decreases pre.active.len() - l,
        {
            if self.active_jobs[l].id == id {
                let ghost jd = pre.active[l as int];
                let job = self.active_jobs.remove(l);
                proof {
                    let mid = self.store();
                    pre.active.remove_ensures(l as int);
                    assert forall|k2: int, l2: int|
                        0 <= k2 < l2 < pre.active.len() implies pre.active[k2] != pre.active[l2] by {
                        assert(pre.active[k2].id != pre.active[l2].id);
                    }
                    lemma_remove_membership(pre.active, l as int);
                    assert(mid.queues == pre.queues);
                    assert(mid.index == pre.index);
                    assert(mid.active == pre.active.remove(l as int));
                    assert(mid.issued == pre.issued);
                    assert(mid.deleted == pre.deleted);
                    assert forall|l2: int|
                        0 <= l2 < mid.active.len() implies (#[trigger] mid.active[l2]).id != id
                            && pre.active.contains(mid.active[l2]) by {
                        let l0: int = if l2 < l {
                            l2
                        } else {
                            l2 + 1
                        };
                        assert(mid.active[l2] == pre.active[l0]);
                        assert(pre.active[l0].id != pre.active[l as int].id);
                    }
                    assert forall|k2: int, l2: int|
                        0 <= k2 < l2 < mid.active.len() implies (#[trigger] mid.active[k2]).id != (
                    #[trigger] mid.active[l2]).id by {
                        let a0: int = if k2 < l {
                            k2
                        } else {
                            k2 + 1
                        };
                        let b0: int = if l2 < l {
                            l2
                        } else {
                            l2 + 1
                        };
                        assert(mid.active[k2] == pre.active[a0]);
                        assert(mid.active[l2] == pre.active[b0]);
                    }
                    assert forall|i2: int, k2: int, l2: int|
                        0 <= i2 < mid.nq() && 0 <= k2 < mid.qjobs(i2).len() && 0 <= l2
                            < mid.active.len() implies (#[trigger] mid.queues[i2].jobs@[k2]).id
                        != (#[trigger] mid.active[l2]).id by {
                        let l0: int = if l2 < l {
                            l2
                        } else {
                            l2 + 1
                        };
                        assert(mid.active[l2] == pre.active[l0]);
                    }
                    assert forall|l2: int|
                        0 <= l2 < mid.active.len() implies mid.issued.contains(
                        (#[trigger] mid.active[l2]).id,
                    ) && !mid.deleted.contains(mid.active[l2].id) by {
                        let l0: int = if l2 < l {
                            l2
                        } else {
                            l2 + 1
                        };
                        assert(mid.active[l2] == pre.active[l0]);
                    }
                    assert forall|id2: Id|
                        mid.issued.contains(id2) && !mid.deleted.contains(id2) && id2 != id
                            implies queues_have_id(mid.queues, id2) || active_has_id(
                        mid.active,
                        id2,
                    ) by {
                        if active_has_id(pre.active, id2) {
                            let j2 = choose|j2: Job| #[trigger] pre.active.contains(j2) && j2.id
                                == id2;
                            assert(j2 != jd);
                            assert(mid.active.contains(j2));
                        }
                    }
                    assert(pre.active.contains(jd));
                    assert(pre.issued.contains(jd.id));
                    assert(!pre.deleted.contains(jd.id));
                    assert(!mid.id_queued(id)) by {
                        if queues_have_id(mid.queues, id) {
                            let (i2, j2) = choose|i2: int, j2: Job|
                                0 <= i2 < mid.queues.len() && #[trigger] mid.queues[i2].jobs@.contains(
                                    j2,
                                ) && j2.id == id;
                            let k2 = choose|k2: int|
                                0 <= k2 < mid.queues[i2].jobs@.len() && mid.queues[i2].jobs@[k2]
                                    == j2;
                            let l2 = choose|l2: int|
                                0 <= l2 < pre.active.len() && pre.active[l2] == jd;
                            assert(pre.queues[i2].jobs@[k2].id != pre.active[l2].id);
                        }
                    }
                    assert(!mid.id_active(id)) by {
                        if active_has_id(mid.active, id) {
                            let j2 = choose|j2: Job| #[trigger] mid.active.contains(j2) && j2.id
                                == id;
                            let l2 = choose|l2: int|
                                0 <= l2 < mid.active.len() && mid.active[l2] == j2;
                        }
                    }
                    assert(mid.wf_missing(self.id_counter(), id));
                    assert(job == jd) by {
                        assert(pre.active[l as int] == jd);
                    }
                    assert(jd == pre.active_job_of(id)) by {
                        let jc = pre.active_job_of(id);
                        assert(pre.active.contains(jd) && jd.id == id);
                        assert(pre.active.contains(jc) && jc.id == id);
                        let la = choose|la: int| 0 <= la < pre.active.len() && pre.active[la]
                            == jd;
                        let lb = choose|lb: int| 0 <= lb < pre.active.len() && pre.active[lb]
                            == jc;
                        if la != lb {
                            assert(pre.active[la].id != pre.active[lb].id);
                        }
                    }
                }
                let ghost mid = self.store();
                self.add_with_id(queue, job);
                proof {
                    assert(others_unchanged(pre, self.store(), id)) by {
                        assert(others_unchanged(mid, self.store(), id));
                        assert forall|j2: Job, n2: Seq<char>|
                            j2.id != id implies (#[trigger] queues_has_job(pre.queues, j2, n2)
                            <==> #[trigger] queues_has_job(self.store().queues, j2, n2)) by {
                            assert(queues_has_job(mid.queues, j2, n2) <==> queues_has_job(
                                self.store().queues,
                                j2,
                                n2,
                            ));
                        }
                    }
                }
                return Result::Ok(());
            }
            l = l + 1;
        }
        proof {
            if pre.id_active(id) {
                let j2 = choose|j2: Job| #[trigger] pre.active.contains(j2) && j2.id == id;
                let l2 = choose|l2: int| 0 <= l2 < pre.active.len() && pre.active[l2] == j2;
                assert(false);
            }
        }
        Result::Err(JobNotFound)
    }
}

/// Law: at any well-formed state, no id is both queued and in progress,
/// and the ids that are queued or in progress are exactly the issued ids
/// less the deleted ones.
pub proof fn lemma_location_partition(s: State)
    requires
        s.wf(),
    ensures
        forall|id: Id| !(#[trigger] s.id_queued(id) && s.id_active(id)),
        forall|id: Id|
            (#[trigger] s.id_queued(id) || #[trigger] s.id_active(id)) <==> (
            s.issued_ids().contains(id) && !s.deleted_ids().contains(id)),
{
    let st = s.store();
    assert forall|id: Id| !(#[trigger] s.id_queued(id) && s.id_active(id)) by {
        if s.id_queued(id) && s.id_active(id) {
            let (i, j) = choose|i: int, j: Job|
                0 <= i < st.queues.len() && #[trigger] st.queues[i].jobs@.contains(j) && j.id
                    == id;
            let k = choose|k: int| 0 <= k < st.queues[i].jobs@.len() && st.queues[i].jobs@[k]
                == j;
            let j2 = choose|j2: Job| #[trigger] st.active.contains(j2) && j2.id == id;
            let l = choose|l: int| 0 <= l < st.active.len() && st.active[l] == j2;
            assert(st.queues[i].jobs@[k].id != st.active[l].id);
        }
    }
    assert forall|id: Id|
        (#[trigger] s.id_queued(id) || #[trigger] s.id_active(id)) implies (
    s.issued_ids().contains(id) && !s.deleted_ids().contains(id)) by {
        if s.id_queued(id) {
            let (i, j) = choose|i: int, j: Job|
                0 <= i < st.queues.len() && #[trigger] st.queues[i].jobs@.contains(j) && j.id
                    == id;
            let k = choose|k: int| 0 <= k < st.queues[i].jobs@.len() && st.queues[i].jobs@[k]
                == j;
            assert(st.issued.contains(st.queues[i].jobs@[k].id));
        } else {
            let j2 = choose|j2: Job| #[trigger] st.active.contains(j2) && j2.id == id;
            let l = choose|l: int| 0 <= l < st.active.len() && st.active[l] == j2;
            assert(st.issued.contains(st.active[l].id));
        }
    }
}

/// Law: the id allocator stays strictly above every issued id; with
/// `add_job`'s promise that each PUT issues and returns the old counter
/// value, the counter is strictly greater than every id a PUT ever
/// returned.
pub proof fn lemma_ids_below_counter(s: State)
    requires
        s.wf(),
    ensures
        forall|id: Id| s.issued_ids().contains(id) ==> id < s.id_counter(),
{
}

/// Law: takes from one queue come out in strictly decreasing (priority,
/// id) order. `pre` is the state before a take that returned `j1`, `mid`
/// the state after it; a take from the same queue then returning `j2`
/// lies strictly below `j1`.
pub proof fn lemma_take_order(pre: State, mid: State, j1: Job, j2: Job, queue: Seq<char>)
    requires
        forall|x: Job| #[trigger] pre.has_queued_job(x, queue) ==> job_le(x, j1),
        others_unchanged(pre.store(), mid.store(), j1.id),
        forall|n: Seq<char>| !mid.queued_in(j1.id, n),
        mid.has_queued_job(j2, queue),
    ensures
        job_lt(j2, j1),
{
    if j2.id == j1.id {
        assert(mid.queued_in(j1.id, queue));
    }
    assert(pre.has_queued_job(j2, queue));
    assert(job_le(j2, j1));
}

/// Law: a PUT that lands on a queue some pending GET names makes that
/// GET's re-evaluation succeed: with the target queue non-empty and
/// listed, the listed set is non-empty as a whole, which is exactly when
/// `find_job` returns a job.
pub proof fn lemma_put_enables_get(s: State, queue: Seq<char>, names: Seq<String>, m: int)
    requires
        s.queue_nonempty(queue),
        0 <= m < names.len(),
        names[m]@ == queue,
    ensures
        some_listed_nonempty(s.store(), names),
{
    assert(s.store().queue_nonempty(names[m]@));
}

/// Law: at most one receiver per put. Once a take has moved a job out of
/// every queue, no later take can return a job with its id.
pub proof fn lemma_single_receiver(mid: State, j1: Job, j2: Job, n2: Seq<char>)
    requires
        forall|n: Seq<char>| !mid.queued_in(j1.id, n),
        mid.has_queued_job(j2, n2),
    ensures
        j1.id != j2.id,
{
    if j2.id == j1.id {
        assert(mid.queued_in(j1.id, n2));
    }
}

/// Law: the greatest job across a set of named queues is unique, so every
/// waiter that re-evaluates the same queues competes for the same job and
/// only the one that moves it wins.
pub proof fn lemma_max_unique(
    s: State,
    j: Job,
    jr: Job,
    names: Seq<String>,
    qn: Seq<char>,
    qn2: Seq<char>,
)
    requires
        s.wf(),
        s.has_queued_job(j, qn),
        name_listed(names, qn),
        forall|j2: Job, m: int|
            #![trigger s.has_queued_job(j2, names[m]@)]
            0 <= m < names.len() && s.has_queued_job(j2, names[m]@) ==> job_le(j2, j),
        s.has_queued_job(jr, qn2),
        name_listed(names, qn2),
        forall|j2: Job, m: int|
            #![trigger s.has_queued_job(j2, names[m]@)]
            0 <= m < names.len() && s.has_queued_job(j2, names[m]@) ==> job_le(j2, jr),
    ensures
        jr == j,
{
    let st = s.store();
    let m1 = choose|m1: int| 0 <= m1 < names.len() && (#[trigger] names[m1])@ == qn;
    let m2 = choose|m2: int| 0 <= m2 < names.len() && (#[trigger] names[m2])@ == qn2;
    assert(s.has_queued_job(j, names[m1]@));
    assert(s.has_queued_job(jr, names[m2]@));
    assert(job_le(j, jr));
    assert(job_le(jr, j));
    assert(j.id == jr.id);
    let i1 = choose|i1: int|
        0 <= i1 < st.queues.len() && st.queues[i1].name@ == qn && #[trigger] st.queues[i1].jobs@.contains(
            j,
        );
    let k1 = choose|k1: int| 0 <= k1 < st.queues[i1].jobs@.len() && st.queues[i1].jobs@[k1] == j;
    let i2 = choose|i2: int|
        0 <= i2 < st.queues.len() && st.queues[i2].name@ == qn2
            && #[trigger] st.queues[i2].jobs@.contains(jr);
    let k2 = choose|k2: int| 0 <= k2 < st.queues[i2].jobs@.len() && st.queues[i2].jobs@[k2] == jr;
    if i1 != i2 || k1 != k2 {
        assert(st.queues[i1].jobs@[k1].id != st.queues[i2].jobs@[k2].id);
    }
}

/// Law: DELETE is terminal and idempotent in effect: a deleted id is in no
/// queue and not in progress, so a later DELETE or ABORT of it reports
/// no-job and no take can ever return it again.
pub proof fn lemma_delete_terminal(s: State, id: Id)
    requires
        s.wf(),
        s.deleted_ids().contains(id),
    ensures
        !s.id_queued(id),
        !s.id_active(id),
        forall|n: Seq<char>| !s.queued_in(id, n),
{
    let st = s.store();
    if st.id_queued(id) {
        let (i, j) = choose|i: int, j: Job|
            0 <= i < st.queues.len() && #[trigger] st.queues[i].jobs@.contains(j) && j.id == id;
        let k = choose|k: int| 0 <= k < st.queues[i].jobs@.len() && st.queues[i].jobs@[k] == j;
        assert(!st.deleted.contains(st.queues[i].jobs@[k].id));
    }
    if st.id_active(id) {
        let j2 = choose|j2: Job| #[trigger] st.active.contains(j2) && j2.id == id;
        let l = choose|l: int| 0 <= l < st.active.len() && st.active[l] == j2;
        assert(!st.deleted.contains(st.active[l].id));
    }
    assert forall|n: Seq<char>| !s.queued_in(id, n) by {
        if s.queued_in(id, n) {
            let j = choose|j: Job| #[trigger] queues_has_job(st.queues, j, n) && j.id == id;
            let i = choose|i: int|
                0 <= i < st.queues.len() && st.queues[i].name@ == n
                    && #[trigger] st.queues[i].jobs@.contains(j);
            assert(queues_have_id(st.queues, id));
        }
    }
}

} // verus!
