//! Per-connection context and the request dispatchers: the ledger of jobs
//! a client holds, and the pure decision taken for each request under the
//! engine lock. The surrounding process runs the socket loop and calls in
//! here with parsed requests.
use vstd::prelude::*;
use std::sync::Arc;
use tokio::sync::Notify;
use crate::logic::{State, others_unchanged, some_listed_nonempty, name_listed};
use crate::parser::{
    Id, Job, job_le, PutRequest, GetRequest, DeleteRequest, AbortRequest, Request, Response,
    ResponseSpecifics, Status,
};
use crate::trusted::{new_notifier, dup_notifier};

verus! {

/// One held job in a client's ledger: its id and its origin queue.
pub struct LedgerEntry {
    pub id: Id,
    pub queue: String,
}

/// Per-connection context: the jobs this client currently holds as in
/// progress, each with the queue it must return to.
pub struct Client {
    in_progress_jobs: Vec<LedgerEntry>,
}

/// What a dispatcher hands back: either a finished response, or a notifier
/// to await together with the request to try again afterwards.
pub enum MaybeRetry<T> {
    Now(T),
    Retry(Arc<Notify>, Request),
}

impl Client {
    /// The ledger as it stands, oldest entry first.
    pub closed spec fn ledger(self) -> Seq<LedgerEntry> {
        self.in_progress_jobs@
    }

    /// This client holds the job with id `id`.
    pub open spec fn holds(self, id: Id) -> bool {
        exists|k: int| 0 <= k < self.ledger().len() && (#[trigger] self.ledger()[k]).id == id
    }

    /// This client holds the job with id `id`, recorded with origin `n`.
    pub open spec fn holds_with(self, id: Id, n: Seq<char>) -> bool {
        exists|k: int|
            0 <= k < self.ledger().len() && (#[trigger] self.ledger()[k]).id == id
                && self.ledger()[k].queue@ == n
    }

    /// No id occurs twice in the ledger.
    pub open spec fn wf(self) -> bool {
        forall|k: int, l: int|
            0 <= k < l < self.ledger().len() ==> (#[trigger] self.ledger()[k]).id != (
            #[trigger] self.ledger()[l]).id
    }

    /// A fresh connection context with an empty ledger.
    pub fn new() -> (c: Client)
        ensures
            c.wf(),
            c.ledger().len() == 0,
    {
        Client { in_progress_jobs: Vec::new() }
    }

    /// Record that this client now holds `id`, taken from `queue`.
    fn ledger_insert(&mut self, id: Id, queue: String)
        requires
            old(self).wf(),
        ensures
            final(self).wf(),
            final(self).holds(id),
            final(self).holds_with(id, queue@),
            forall|id2: Id, n: Seq<char>|
                id2 != id ==> (#[trigger] final(self).holds_with(id2, n) <==> old(self).holds_with(
                    id2,
                    n,
                )),
            forall|id2: Id|
                id2 != id ==> (#[trigger] final(self).holds(id2) <==> old(self).holds(id2)),
    {
        let ghost led0 = self.in_progress_jobs@;
        let mut k: usize = 0;
        while k < self.in_progress_jobs.len()
            invariant
                *self == *old(self),
                led0 == old(self).ledger(),
                old(self).wf(),
                k <= led0.len(),
                forall|m: int| 0 <= m < k ==> (#[trigger] led0[m]).id != id,
            decreases led0.len() - k,
        {
            if self.in_progress_jobs[k].id == id {
                let ghost pre = self.in_progress_jobs@;
                let entry = &mut self.in_progress_jobs[k];
                entry.queue = queue;
                proof {
                    let led = self.in_progress_jobs@;
                    assert(old(self).ledger() == pre);
                    assert(self.ledger() == led);
                    assert(led[k as int].id == id && led[k as int].queue@ == queue@);
                    assert(forall|m: int| 0 <= m < led.len() && m != k ==> led[m] == pre[m]);
                    assert forall|id2: Id, n: Seq<char>|
                        id2 != id implies (#[trigger] self.holds_with(id2, n) <==> old(
                        self,
                    ).holds_with(id2, n)) by {
                        if self.holds_with(id2, n) {
                            let m = choose|m: int|
                                0 <= m < led.len() && (#[trigger] led[m]).id == id2 && led[m].queue@
                                    == n;
                            assert(pre[m].id == id2 && pre[m].queue@ == n);
                        }
                        if old(self).holds_with(id2, n) {
                            let m = choose|m: int|
                                0 <= m < pre.len() && (#[trigger] pre[m]).id == id2 && pre[m].queue@
                                    == n;
                            assert(m != k);
                            assert(led[m].id == id2 && led[m].queue@ == n);
                        }
                    }
                    assert forall|id2: Id|
                        id2 != id implies (#[trigger] self.holds(id2) <==> old(self).holds(
                        id2,
                    )) by {
                        if self.holds(id2) {
                            let m = choose|m: int| 0 <= m < led.len() && (#[trigger] led[m]).id
                                == id2;
                            assert(pre[m].id == id2);
                        }
                        if old(self).holds(id2) {
                            let m = choose|m: int| 0 <= m < pre.len() && (#[trigger] pre[m]).id
                                == id2;
                            assert(m != k);
                            assert(led[m].id == id2);
                        }
                    }
                }
                return ;
            }
            k = k + 1;
        }
        self.in_progress_jobs.push(LedgerEntry { id, queue });
        proof {
            let led = self.in_progress_jobs@;
            assert(old(self).ledger() == led0);
            assert(self.ledger() == led);
            assert(led[led0.len() as int].id == id);
            assert(forall|m: int| 0 <= m < led0.len() ==> led[m] == led0[m]);
            assert forall|id2: Id, n: Seq<char>|
                id2 != id implies (#[trigger] self.holds_with(id2, n) <==> old(self).holds_with(
                id2,
                n,
            )) by {
                if self.holds_with(id2, n) {
                    let m = choose|m: int|
                        0 <= m < led.len() && (#[trigger] led[m]).id == id2 && led[m].queue@ == n;
                    assert(m < led0.len());
                    assert(led0[m].id == id2 && led0[m].queue@ == n);
                }
                if old(self).holds_with(id2, n) {
                    let m = choose|m: int|
                        0 <= m < led0.len() && (#[trigger] led0[m]).id == id2 && led0[m].queue@
                            == n;
                    assert(led[m].id == id2 && led[m].queue@ == n);
                }
            }
            assert forall|id2: Id|
                id2 != id implies (#[trigger] self.holds(id2) <==> old(self).holds(id2)) by {
                if self.holds(id2) {
                    let m = choose|m: int| 0 <= m < led.len() && (#[trigger] led[m]).id == id2;
                    assert(m < led0.len());
                    assert(led0[m].id == id2);
                }
                if old(self).holds(id2) {
                    let m = choose|m: int| 0 <= m < led0.len() && (#[trigger] led0[m]).id == id2;
                    assert(led[m].id == id2);
                }
            }
        }
    }

    /// Drop `id` from the ledger, returning the recorded origin queue.
    fn ledger_remove(&mut self, id: Id) -> (r: Option<String>)
        requires
            old(self).wf(),
        ensures
            final(self).wf(),
            match r {
                Option::None => !old(self).holds(id) && *final(self) == *old(self),
                Option::Some(q) => {
                    &&& old(self).holds_with(id, q@)
                    &&& !final(self).holds(id)
                    &&& forall|id2: Id, n: Seq<char>|
                        id2 != id ==> (#[trigger] final(self).holds_with(id2, n) <==> old(
                            self,
                        ).holds_with(id2, n))
                    &&& forall|id2: Id|
                        id2 != id ==> (#[trigger] final(self).holds(id2) <==> old(self).holds(id2))
                },
            },
    {
        let ghost led0 = self.in_progress_jobs@;
        let mut k: usize = 0;
        while k < self.in_progress_jobs.len()
            invariant
                *self == *old(self),
                led0 == old(self).ledger(),
                old(self).wf(),
                k <= led0.len(),
                forall|m: int| 0 <= m < k ==> (#[trigger] led0[m]).id != id,
            decreases led0.len() - k,
        {
            if self.in_progress_jobs[k].id == id {
                let entry = self.in_progress_jobs.remove(k);
                proof {
                    let led = self.in_progress_jobs@;
                    assert(old(self).ledger() == led0);
                    assert(self.ledger() == led);
                    led0.remove_ensures(k as int);
                    assert forall|m: int|
                        0 <= m < led.len() implies (#[trigger] led[m]) == led0[(
                    if m < k {
                        m
                    } else {
                        m + 1
                    })] by {}
                    assert forall|id2: Id, n: Seq<char>|
                        id2 != id implies (#[trigger] self.holds_with(id2, n) <==> old(
                        self,
                    ).holds_with(id2, n)) by {
                        if self.holds_with(id2, n) {
                            let m = choose|m: int|
                                0 <= m < led.len() && (#[trigger] led[m]).id == id2 && led[m].queue@
                                    == n;
                            let m0: int = if m < k {
                                m
                            } else {
                                m + 1
                            };
                            assert(led0[m0].id == id2 && led0[m0].queue@ == n);
                        }
                        if old(self).holds_with(id2, n) {
                            let m0 = choose|m0: int|
                                0 <= m0 < led0.len() && (#[trigger] led0[m0]).id == id2
                                    && led0[m0].queue@ == n;
                            assert(m0 != k);
                            let m: int = if m0 < k {
                                m0
                            } else {
                                m0 - 1
                            };
                            assert(led[m].id == id2 && led[m].queue@ == n);
                        }
                    }
                    assert forall|id2: Id|
                        id2 != id implies (#[trigger] self.holds(id2) <==> old(self).holds(
                        id2,
                    )) by {
                        if self.holds(id2) {
                            let m = choose|m: int| 0 <= m < led.len() && (#[trigger] led[m]).id
                                == id2;
                            let m0: int = if m < k {
                                m
                            } else {
                                m + 1
                            };
                            assert(led0[m0].id == id2);
                        }
                        if old(self).holds(id2) {
                            let m0 = choose|m0: int| 0 <= m0 < led0.len() && (
                            #[trigger] led0[m0]).id == id2;
                            assert(m0 != k);
                            let m: int = if m0 < k {
                                m0
                            } else {
                                m0 - 1
                            };
                            assert(led[m].id == id2);
                        }
                    }
                    assert(!self.holds(id)) by {
                        if self.holds(id) {
                            let m = choose|m: int| 0 <= m < led.len() && (#[trigger] led[m]).id
                                == id;
                            let m0: int = if m < k {
                                m
                            } else {
                                m + 1
                            };
                            assert(led0[m0].id != led0[k as int].id);
                        }
                    }
                    assert forall|a: int, b: int|
                        0 <= a < b < led.len() implies (#[trigger] led[a]).id != (
                    #[trigger] led[b]).id by {
                        let a0: int = if a < k {
                            a
                        } else {
                            a + 1
                        };
                        let b0: int = if b < k {
                            b
                        } else {
                            b + 1
                        };
                        assert(led[a] == led0[a0] && led[b] == led0[b0]);
                    }
                }
                return Option::Some(entry.queue);
            }
            k = k + 1;
        }
        proof {
            if old(self).holds(id) {
                let m = choose|m: int| 0 <= m < led0.len() && (#[trigger] led0[m]).id == id;
                assert(false);
            }
        }
        Option::None
    }
}

/// Handle a PUT: deposit the job under a fresh id, wake every waiter, and
/// answer `ok` with the id.
pub fn handle_put_req(state: &mut State, req: PutRequest) -> (r: MaybeRetry<Response>)
    requires
        old(state).wf(),
        old(state).id_counter() < u32::MAX,
    ensures
        final(state).wf(),
        final(state).id_counter() == old(state).id_counter() + 1,
        final(state).served() == old(state).served(),
        final(state).waiter_count() == 0,
        r matches MaybeRetry::Now(resp) && resp.status is Okay && (resp.rest matches
            ResponseSpecifics::IdResponse { id } && id == old(state).id_counter()),
        exists|j: Job|
            {
                &&& #[trigger] final(state).has_queued_job(j, req.queue@)
                &&& j.id == old(state).id_counter()
                &&& j.priority == req.pri
                &&& j.data == req.job
            },
        final(state).queue_nonempty(req.queue@),
        final(state).issued_ids() == old(state).issued_ids().insert(old(state).id_counter()),
        final(state).deleted_ids() == old(state).deleted_ids(),
        others_unchanged(old(state).store(), final(state).store(), old(state).id_counter()),
{
    let job = Job { priority: req.pri, data: Box::new(req.job), id: 0 };
    let id = state.add_job(req.queue, job);
    MaybeRetry::Now(
        Response { status: Status::Okay, rest: ResponseSpecifics::IdResponse { id } },
    )
}

/// Handle a GET: take the greatest job across the named queues if any is
/// there, recording it in the client's ledger; otherwise either answer
/// `no-job` or, when the request asks to wait, register a notifier and
/// hand the request back to be retried after a wake.
pub fn handle_get_req(state: &mut State, req: GetRequest, client: &mut Client) -> (r: MaybeRetry<
    Response,
>)
    requires
        old(state).wf(),
        old(client).wf(),
    ensures
        final(state).wf(),
        final(client).wf(),
        final(state).id_counter() == old(state).id_counter(),
        final(state).served() == old(state).served(),
        final(state).issued_ids() == old(state).issued_ids(),
        final(state).deleted_ids() == old(state).deleted_ids(),
        some_listed_nonempty(old(state).store(), req.queues@) ==> (r matches MaybeRetry::Now(resp)
            && resp.status is Okay && (resp.rest matches ResponseSpecifics::JobResponse {
            job,
            queue,
        } && {
            &&& name_listed(req.queues@, queue@)
            &&& old(state).has_queued_job(job, queue@)
            &&& forall|j2: Job, m: int|
                #![trigger old(state).has_queued_job(j2, req.queues@[m]@)]
                0 <= m < req.queues@.len() && old(state).has_queued_job(j2, req.queues@[m]@)
                    ==> job_le(j2, job)
            &&& final(state).id_active(job.id)
            &&& final(state).has_active_job(job)
            &&& !final(state).id_queued(job.id)
            &&& forall|n2: Seq<char>| !final(state).queued_in(job.id, n2)
            &&& final(client).holds_with(job.id, queue@)
            &&& forall|id2: Id|
                id2 != job.id ==> (#[trigger] final(client).holds(id2) <==> old(client).holds(id2))
            &&& others_unchanged(old(state).store(), final(state).store(), job.id)
            &&& final(state).waiters() == old(state).waiters()
        })),
        !some_listed_nonempty(old(state).store(), req.queues@) && req.wait ==> (r matches
            MaybeRetry::Retry(n, rq) && {
            &&& rq == Request::Get(req)
            &&& final(state).store() == old(state).store()
            &&& final(state).waiters() == old(state).waiters().push(n)
            &&& *final(client) == *old(client)
        }),
        !some_listed_nonempty(old(state).store(), req.queues@) && !req.wait ==> (r matches
            MaybeRetry::Now(resp) && resp.status is NoJob && resp.rest is Empty && *final(state)
            == *old(state) && *final(client) == *old(client)),
{
    let found = state.find_job(req.queues.as_slice());
    match found {
        Option::Some((job, queue)) => {
            let jid = job.id;
            client.ledger_insert(jid, queue.clone());
            MaybeRetry::Now(
                Response {
                    status: Status::Okay,
                    rest: ResponseSpecifics::JobResponse { job, queue },
                },
            )
        },
        Option::None => {
            if req.wait {
                let notifier = new_notifier();
                state.request_notification(dup_notifier(&notifier));
                MaybeRetry::Retry(notifier, Request::Get(req))
            } else {
                MaybeRetry::Now(Response::error(Status::NoJob))
            }
        },
    }
}

/// Handle a DELETE: drop the job with this id wherever it is; `ok` when it
/// existed, `no-job` when it did not. The requester need not hold the job.
pub fn handle_delete_req(state: &mut State, req: DeleteRequest) -> (r: MaybeRetry<Response>)
    requires
        old(state).wf(),
    ensures
        final(state).wf(),
        final(state).id_counter() == old(state).id_counter(),
        final(state).served() == old(state).served(),
        final(state).waiters() == old(state).waiters(),
        final(state).issued_ids() == old(state).issued_ids(),
        (old(state).id_queued(req.id) || old(state).id_active(req.id)) ==> (r matches
            MaybeRetry::Now(resp) && resp.status is Okay && resp.rest is Empty
            && final(state).deleted_ids() == old(state).deleted_ids().insert(req.id)),
        !(old(state).id_queued(req.id) || old(state).id_active(req.id)) ==> (r matches
            MaybeRetry::Now(resp) && resp.status is NoJob && resp.rest is Empty && *final(state)
            == *old(state)),
        !final(state).id_queued(req.id),
        !final(state).id_active(req.id),
        forall|n2: Seq<char>| !final(state).queued_in(req.id, n2),
        others_unchanged(old(state).store(), final(state).store(), req.id),
{
    let outcome = state.delete_job(req.id);
    match outcome {
        Result::Ok(_) => MaybeRetry::Now(Response::error(Status::Okay)),
        Result::Err(_) => MaybeRetry::Now(Response::error(Status::NoJob)),
    }
}

/// Handle an ABORT: only a job this client holds may be aborted. When the
/// engine still has it in progress it goes back to its origin queue and
/// the answer is `ok`; when someone deleted it meanwhile the answer is
/// `no-job`; when the client never held it, `error` and nothing changes.
pub fn handle_abort_req(state: &mut State, req: AbortRequest, client: &mut Client) -> (r:
    MaybeRetry<Response>)
    requires
        old(state).wf(),
        old(client).wf(),
    ensures
        final(state).wf(),
        final(client).wf(),
        final(state).id_counter() == old(state).id_counter(),
        final(state).served() == old(state).served(),
        final(state).issued_ids() == old(state).issued_ids(),
        final(state).deleted_ids() == old(state).deleted_ids(),
        !old(client).holds(req.id) ==> (r matches MaybeRetry::Now(resp) && resp.status is Error
            && resp.rest is Empty && *final(state) == *old(state) && *final(client) == *old(
            client,
        )),
        old(client).holds(req.id) ==> {
            &&& !final(client).holds(req.id)
            &&& forall|id2: Id|
                id2 != req.id ==> (#[trigger] final(client).holds(id2) <==> old(client).holds(id2))
            &&& others_unchanged(old(state).store(), final(state).store(), req.id)
        },
        old(client).holds(req.id) && old(state).id_active(req.id) ==> (r matches MaybeRetry::Now(
            resp,
        ) && resp.status is Okay && resp.rest is Empty && {
            &&& !final(state).id_active(req.id)
            &&& forall|n: Seq<char>|
                old(client).holds_with(req.id, n) ==> (#[trigger] final(state).queued_in(req.id, n)
                    && final(state).has_queued_job(
                    old(state).store().active_job_of(req.id),
                    n,
                ))
            &&& final(state).waiter_count() == 0
        }),
        old(client).holds(req.id) && !old(state).id_active(req.id) ==> (r matches MaybeRetry::Now(
            resp,
        ) && resp.status is NoJob && resp.rest is Empty && *final(state) == *old(state)),
{
    let queue = match client.ledger_remove(req.id) {
        Option::None => {
            return MaybeRetry::Now(Response::error(Status::Error));
        },
        Option::Some(queue) => queue,
    };
    let ghost qv = queue@;
    let outcome = state.abort_job(req.id, queue);
    match outcome {
        Result::Err(_) => MaybeRetry::Now(Response::error(Status::NoJob)),
        Result::Ok(_) => {
            proof {
                assert forall|n: Seq<char>|
                    old(client).holds_with(req.id, n) implies (#[trigger] state.queued_in(
                    req.id,
                    n,
                ) && state.has_queued_job(old(state).store().active_job_of(req.id), n)) by {
                    let k = choose|k: int|
                        0 <= k < old(client).ledger().len() && (#[trigger] old(client).ledger()[k]).id
                            == req.id && old(client).ledger()[k].queue@ == n;
                    let k2 = choose|k2: int|
                        0 <= k2 < old(client).ledger().len() && (#[trigger] old(
                            client,
                        ).ledger()[k2]).id == req.id && old(client).ledger()[k2].queue@ == qv;
                    if k != k2 {
                        assert(old(client).ledger()[k].id != old(client).ledger()[k2].id);
                    }
                }
            }
            MaybeRetry::Now(Response::error(Status::Okay))
        },
    }
}

impl Client {
    /// Disconnect-time cleanup: return every held job to its origin queue,
    /// swallowing the error of any job someone else deleted meanwhile.
    /// Each id the ledger held ends deleted or back on its origin queue.
    pub fn drop_cleanup(&mut self, state: &mut State)
        requires
            old(self).wf(),
            old(state).wf(),
        ensures
            final(self).wf(),
            final(state).wf(),
            final(self).ledger().len() == 0,
            final(state).id_counter() == old(state).id_counter(),
            final(state).served() == old(state).served(),
            final(state).issued_ids() == old(state).issued_ids(),
            final(state).deleted_ids() == old(state).deleted_ids(),
            forall|k: int|
                0 <= k < old(self).ledger().len() && old(state).id_active(
                    (#[trigger] old(self).ledger()[k]).id,
                ) ==> final(state).queued_in(old(self).ledger()[k].id, old(self).ledger()[k].queue@)
                    && final(state).has_queued_job(
                    old(state).store().active_job_of(old(self).ledger()[k].id),
                    old(self).ledger()[k].queue@,
                ),
            forall|k: int|
                0 <= k < old(self).ledger().len() && (old(state).id_active(
                    (#[trigger] old(self).ledger()[k]).id,
                ) || old(state).deleted_ids().contains(old(self).ledger()[k].id))
                    ==> (final(state).deleted_ids().contains(old(self).ledger()[k].id)
                    || final(state).queued_in(
                    old(self).ledger()[k].id,
                    old(self).ledger()[k].queue@,
                )),
    {
        let ghost led0 = self.in_progress_jobs@;
        let ghost st0 = *state;
        while self.in_progress_jobs.len() > 0
            invariant
                state.wf(),
                st0 == *old(state),
                led0 == old(self).ledger(),
                st0.wf(),
                state.id_counter() == st0.id_counter(),
                state.served() == st0.served(),
                state.issued_ids() == st0.issued_ids(),
                state.deleted_ids() == st0.deleted_ids(),
                self.in_progress_jobs@.len() <= led0.len(),
                self.in_progress_jobs@ == led0.subrange(0, self.in_progress_jobs@.len() as int),
                forall|a: int, b: int|
                    0 <= a < b < led0.len() ==> (#[trigger] led0[a]).id != (#[trigger] led0[b]).id,
                forall|k: int|
                    self.in_progress_jobs@.len() <= k < led0.len() && st0.id_active(
                        (#[trigger] led0[k]).id,
                    ) ==> state.queued_in(led0[k].id, led0[k].queue@) && state.has_queued_job(
                        st0.store().active_job_of(led0[k].id),
                        led0[k].queue@,
                    ),
                forall|k: int|
                    0 <= k < self.in_progress_jobs@.len() ==> ((state.id_active(
                        (#[trigger] led0[k]).id,
                    ) <==> st0.id_active(led0[k].id)) && (forall|j: Job|
                        j.id == led0[k].id ==> (#[trigger] state.has_active_job(j)
                            <==> st0.has_active_job(j)))),
            decreases self.in_progress_jobs@.len(),
        {
            let ghost len0 = self.in_progress_jobs@.len() as int;
            let ghost stpre = *state;
            let entry = match self.in_progress_jobs.pop() {
                Option::Some(entry) => entry,
                Option::None => {
                    proof {
                        assert(false);
                    }
                    return ;
                },
            };
            let ghost e = led0[len0 - 1];
            proof {
                assert(self.in_progress_jobs@ =~= led0.subrange(0, len0 - 1));
                assert(entry == e);
            }
            let outcome = state.abort_job(entry.id, entry.queue);
            proof {
                let stn = *state;
                if outcome is Ok {
                    assert(stpre.id_active(e.id));
                    assert(st0.id_active(e.id));
                    assert(stn.queued_in(e.id, e.queue@));
                    assert(stn.has_queued_job(stpre.store().active_job_of(e.id), e.queue@));
                    assert(stpre.store().active_job_of(e.id) == st0.store().active_job_of(
                        e.id,
                    )) by {
                        let ja = stpre.store().active_job_of(e.id);
                        let jb = st0.store().active_job_of(e.id);
                        assert(stpre.has_active_job(ja) && ja.id == e.id);
                        assert(st0.has_active_job(jb) && jb.id == e.id);
                        assert(stpre.has_active_job(jb));
                        if ja != jb {
                            let la = choose|la: int|
                                0 <= la < stpre.store().active.len()
                                    && stpre.store().active[la] == ja;
                            let lb = choose|lb: int|
                                0 <= lb < stpre.store().active.len()
                                    && stpre.store().active[lb] == jb;
                            assert(stpre.store().active[la].id != stpre.store().active[lb].id
                                || la == lb);
                        }
                    }
                } else {
                    assert(!stpre.id_active(e.id));
                    assert(!st0.id_active(e.id));
                    assert(stn == stpre);
                }
                // already-returned jobs stay where they were put
                if outcome is Ok {
                    crate::logic::lemma_others_unchanged(stpre.store(), stn.store(), e.id);
                }
                assert forall|k: int|
                    len0 - 1 <= k < led0.len() && st0.id_active((#[trigger] led0[k]).id)
                        implies stn.queued_in(led0[k].id, led0[k].queue@) && stn.has_queued_job(
                    st0.store().active_job_of(led0[k].id),
                    led0[k].queue@,
                ) by {
                    if k > len0 - 1 {
                        assert(led0[k].id != e.id);
                        assert(stpre.queued_in(led0[k].id, led0[k].queue@));
                        assert(stpre.has_queued_job(
                            st0.store().active_job_of(led0[k].id),
                            led0[k].queue@,
                        ));
                        if outcome is Ok {
                            assert(stn.queued_in(led0[k].id, led0[k].queue@));
                            assert(stn.has_queued_job(
                                st0.store().active_job_of(led0[k].id),
                                led0[k].queue@,
                            ));
                        }
                    }
                }
                assert forall|k: int|
                    0 <= k < len0 - 1 implies ((stn.id_active((#[trigger] led0[k]).id)
                        <==> st0.id_active(led0[k].id)) && (forall|j: Job|
                        j.id == led0[k].id ==> (#[trigger] stn.has_active_job(j)
                            <==> st0.has_active_job(j)))) by {
                    assert(led0[k].id != e.id);
                    if outcome is Ok {
                        assert(stn.id_active(led0[k].id) <==> stpre.id_active(led0[k].id));
                        assert forall|j: Job|
                            j.id == led0[k].id implies (#[trigger] stn.has_active_job(j)
                            <==> st0.has_active_job(j)) by {
                            assert(stn.has_active_job(j) <==> stpre.has_active_job(j));
                        }
                    }
                }
            }
        }
        proof {
            assert(self.in_progress_jobs@.len() == 0);
        }
    }
}

} // verus!
