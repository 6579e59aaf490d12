//! Job broker: priority queues of jobs, per-client assignment, and
//! requeueing on disconnect.
//!
//! Every job lives in exactly one place: a queue, waiting to be
//! handed out, or the list of the client working on it.

use vstd::prelude::*;

verus! {

/// One job: its id, the queue it belongs to, its priority, and its
/// payload (an opaque byte string, handed back verbatim).
pub struct Job {
    pub id: u64,
    pub queue: Vec<u8>,
    pub priority: u64,
    pub payload: Vec<u8>,
}

/// Mathematical image of a job.
#[verifier::ext_equal]
pub struct JobView {
    pub id: u64,
    pub queue: Seq<u8>,
    pub priority: u64,
    pub payload: Seq<u8>,
}

impl View for Job {
    type V = JobView;

    open spec fn view(&self) -> JobView {
        JobView { id: self.id, queue: self.queue@, priority: self.priority, payload: self.payload@ }
    }
}

pub open spec fn jviews(js: Seq<Job>) -> Seq<JobView> {
    js.map_values(|j: Job| j@)
}

pub open spec fn qviews(qs: Seq<(Vec<u8>, Vec<Job>)>) -> Seq<(Seq<u8>, Seq<JobView>)> {
    qs.map_values(|q: (Vec<u8>, Vec<Job>)| (q.0@, jviews(q.1@)))
}

pub open spec fn cviews(cs: Seq<(u64, Vec<Job>)>) -> Seq<(u64, Seq<JobView>)> {
    cs.map_values(|c: (u64, Vec<Job>)| (c.0, jviews(c.1@)))
}

pub open spec fn wviews(ws: Seq<(u64, Vec<Vec<u8>>)>) -> Seq<(u64, Seq<Seq<u8>>)> {
    ws.map_values(|w: (u64, Vec<Vec<u8>>)| (w.0, w.1.deep_view()))
}

/// What the broker says back, or does, after one request.
pub enum BrokerMsg {
    /// A put was accepted under this job id.
    PutOk { id: u64 },
    /// A job is handed to the requesting client.
    JobGiven { id: u64, priority: u64, queue: Vec<u8>, payload: Vec<u8> },
    /// No job is available and the client did not ask to wait.
    NoJob,
    /// A delete or abort succeeded.
    Done,
    /// The request was wrong: aborting a job the client does not hold.
    Rejected,
    /// The client now blocks until a wake-up.
    Waiting,
    /// Wake this waiting client so that it retries its get.
    Notify { client: u64 },
}

/// Mathematical image of a broker answer.
#[verifier::ext_equal]
pub enum BrokerMsgView {
    PutOk { id: u64 },
    JobGiven { id: u64, priority: u64, queue: Seq<u8>, payload: Seq<u8> },
    NoJob,
    Done,
    Rejected,
    Waiting,
    Notify { client: u64 },
}

impl View for BrokerMsg {
    type V = BrokerMsgView;

    open spec fn view(&self) -> BrokerMsgView {
        match self {
            BrokerMsg::PutOk { id } => BrokerMsgView::PutOk { id: *id },
            BrokerMsg::JobGiven { id, priority, queue, payload } => BrokerMsgView::JobGiven {
                id: *id,
                priority: *priority,
                queue: queue@,
                payload: payload@,
            },
            BrokerMsg::NoJob => BrokerMsgView::NoJob,
            BrokerMsg::Done => BrokerMsgView::Done,
            BrokerMsg::Rejected => BrokerMsgView::Rejected,
            BrokerMsg::Waiting => BrokerMsgView::Waiting,
            BrokerMsg::Notify { client } => BrokerMsgView::Notify { client: *client },
        }
    }
}

pub open spec fn bviews(ms: Seq<BrokerMsg>) -> Seq<BrokerMsgView> {
    ms.map_values(|m: BrokerMsg| m@)
}

/// The index of a queue name, or -1.
pub open spec fn qidx(qv: Seq<(Seq<u8>, Seq<JobView>)>, name: Seq<u8>) -> int
    decreases qv.len(),
{
    if qv.len() == 0 {
        -1
    } else if qv[0].0 == name {
        0
    } else {
        let r = qidx(qv.drop_first(), name);
        if r < 0 {
            -1
        } else {
            r + 1
        }
    }
}

/// The index of a client in the assignment table, or -1.
pub open spec fn cidx(cv: Seq<(u64, Seq<JobView>)>, client: u64) -> int
    decreases cv.len(),
{
    if cv.len() == 0 {
        -1
    } else if cv[0].0 == client {
        0
    } else {
        let r = cidx(cv.drop_first(), client);
        if r < 0 {
            -1
        } else {
            r + 1
        }
    }
}

/// The index of a client among the waiters, or -1.
pub open spec fn widx(wv: Seq<(u64, Seq<Seq<u8>>)>, client: u64) -> int
    decreases wv.len(),
{
    if wv.len() == 0 {
        -1
    } else if wv[0].0 == client {
        0
    } else {
        let r = widx(wv.drop_first(), client);
        if r < 0 {
            -1
        } else {
            r + 1
        }
    }
}

/// The first waiter blocked on `queue`, or -1.
pub open spec fn first_waiter(wv: Seq<(u64, Seq<Seq<u8>>)>, queue: Seq<u8>) -> int
    decreases wv.len(),
{
    if wv.len() == 0 {
        -1
    } else if wv[0].1.contains(queue) {
        0
    } else {
        let r = first_waiter(wv.drop_first(), queue);
        if r < 0 {
            -1
        } else {
            r + 1
        }
    }
}

/// `id` stands in some queue.
pub open spec fn id_in_queues(qv: Seq<(Seq<u8>, Seq<JobView>)>, id: u64) -> bool {
    exists|q: int, j: int|
        0 <= q < qv.len() && 0 <= j < (#[trigger] qv[q]).1.len() && (#[trigger] qv[q].1[j]).id
            == id
}

/// `id` is assigned to some client.
pub open spec fn id_in_clients(cv: Seq<(u64, Seq<JobView>)>, id: u64) -> bool {
    exists|c: int, j: int|
        0 <= c < cv.len() && 0 <= j < (#[trigger] cv[c]).1.len() && (#[trigger] cv[c].1[j]).id
            == id
}

/// The broker's conservation invariant: queue names and client ids
/// are unique; every job id is below the id counter; job ids never
/// repeat inside the queues or inside the assignments; a job queued
/// under a name carries that name; and no id is both queued and
/// assigned.
pub open spec fn broker_wf(st: BrokerView) -> bool {
    &&& forall|a: int, b: int|
        0 <= a < b < st.queues.len() ==> (#[trigger] st.queues[a]).0 != (#[trigger] st.queues[b]).0
    &&& forall|a: int, b: int|
        0 <= a < b < st.clients.len() ==> (#[trigger] st.clients[a]).0 != (
        #[trigger] st.clients[b]).0
    &&& forall|a: int, b: int|
        0 <= a < b < st.waiting.len() ==> (#[trigger] st.waiting[a]).0 != (
        #[trigger] st.waiting[b]).0
    &&& forall|q: int, j: int|
        0 <= q < st.queues.len() && 0 <= j < (#[trigger] st.queues[q]).1.len() ==> (
        #[trigger] st.queues[q].1[j]).id < st.next_id
    &&& forall|c: int, j: int|
        0 <= c < st.clients.len() && 0 <= j < (#[trigger] st.clients[c]).1.len() ==> (
        #[trigger] st.clients[c].1[j]).id < st.next_id
    &&& forall|q: int, j: int|
        0 <= q < st.queues.len() && 0 <= j < (#[trigger] st.queues[q]).1.len() ==> (
        #[trigger] st.queues[q].1[j]).queue == st.queues[q].0
    &&& forall|q: int, j: int, q2: int, j2: int|
        0 <= q < st.queues.len() && 0 <= j < (#[trigger] st.queues[q]).1.len() && 0 <= q2
            < st.queues.len() && 0 <= j2 < (#[trigger] st.queues[q2]).1.len() && (q != q2 || j
            != j2) ==> (#[trigger] st.queues[q].1[j]).id != (#[trigger] st.queues[q2].1[j2]).id
    &&& forall|c: int, j: int, c2: int, j2: int|
        0 <= c < st.clients.len() && 0 <= j < (#[trigger] st.clients[c]).1.len() && 0 <= c2
            < st.clients.len() && 0 <= j2 < (#[trigger] st.clients[c2]).1.len() && (c != c2 || j
            != j2) ==> (#[trigger] st.clients[c].1[j]).id != (#[trigger] st.clients[c2].1[j2]).id
    &&& forall|id: u64| !(#[trigger] id_in_queues(st.queues, id) && id_in_clients(st.clients, id))
}

/// Mathematical image of the whole broker.
#[verifier::ext_equal]
pub struct BrokerView {
    pub next_id: u64,
    pub queues: Seq<(Seq<u8>, Seq<JobView>)>,
    pub clients: Seq<(u64, Seq<JobView>)>,
    pub waiting: Seq<(u64, Seq<Seq<u8>>)>,
}

/// The broker's shared state.
pub struct BrokerState {
    pub next_job_id: u64,
    pub queues: Vec<(Vec<u8>, Vec<Job>)>,
    pub client_jobs: Vec<(u64, Vec<Job>)>,
    pub waiting_clients: Vec<(u64, Vec<Vec<u8>>)>,
}

impl View for BrokerState {
    type V = BrokerView;

    open spec fn view(&self) -> BrokerView {
        BrokerView {
            next_id: self.next_job_id,
            queues: qviews(self.queues@),
            clients: cviews(self.client_jobs@),
            waiting: wviews(self.waiting_clients@),
        }
    }
}


pub proof fn lemma_qidx_is_match(qv: Seq<(Seq<u8>, Seq<JobView>)>, name: Seq<u8>)
    ensures
        qidx(qv, name) >= 0 ==> qidx(qv, name) < qv.len() && qv[qidx(qv, name)].0 == name,
    decreases qv.len(),
{
    if qv.len() > 0 && qv[0].0 != name {
        lemma_qidx_is_match(qv.drop_first(), name);
        if qidx(qv, name) >= 0 {
            assert(qv.drop_first()[qidx(qv.drop_first(), name)] == qv[qidx(qv, name)]);
        }
    }
}

pub proof fn lemma_qidx_at_least(qv: Seq<(Seq<u8>, Seq<JobView>)>, name: Seq<u8>, k: int)
    requires
        0 <= k < qv.len(),
        qv[k].0 == name,
    ensures
        0 <= qidx(qv, name) <= k,
    decreases qv.len(),
{
    if qv[0].0 != name {
        assert(qv.drop_first()[k - 1] == qv[k]);
        lemma_qidx_at_least(qv.drop_first(), name, k - 1);
    }
}

pub proof fn lemma_qidx_from(qv: Seq<(Seq<u8>, Seq<JobView>)>, name: Seq<u8>, i: int)
    requires
        0 <= i <= qv.len(),
        forall|k: int| 0 <= k < i ==> (#[trigger] qv[k]).0 != name,
        i == qv.len() || qv[i].0 == name,
    ensures
        qidx(qv, name) == if i == qv.len() {
            -1int
        } else {
            i
        },
    decreases qv.len(),
{
    if qv.len() > 0 && i > 0 {
        assert(qv[0].0 != name);
        assert forall|k: int| 0 <= k < i - 1 implies (#[trigger] qv.drop_first()[k]).0 != name by {
            assert(qv.drop_first()[k] == qv[k + 1]);
        }
        if i < qv.len() {
            assert(qv.drop_first()[i - 1] == qv[i]);
        }
        lemma_qidx_from(qv.drop_first(), name, i - 1);
    }
}

pub proof fn lemma_cidx_is_match(cv: Seq<(u64, Seq<JobView>)>, client: u64)
    ensures
        cidx(cv, client) >= 0 ==> cidx(cv, client) < cv.len() && cv[cidx(cv, client)].0 == client,
    decreases cv.len(),
{
    if cv.len() > 0 && cv[0].0 != client {
        lemma_cidx_is_match(cv.drop_first(), client);
        if cidx(cv, client) >= 0 {
            assert(cv.drop_first()[cidx(cv.drop_first(), client)] == cv[cidx(cv, client)]);
        }
    }
}

pub proof fn lemma_cidx_from(cv: Seq<(u64, Seq<JobView>)>, client: u64, i: int)
    requires
        0 <= i <= cv.len(),
        forall|k: int| 0 <= k < i ==> (#[trigger] cv[k]).0 != client,
        i == cv.len() || cv[i].0 == client,
    ensures
        cidx(cv, client) == if i == cv.len() {
            -1int
        } else {
            i
        },
    decreases cv.len(),
{
    if cv.len() > 0 && i > 0 {
        assert(cv[0].0 != client);
        assert forall|k: int| 0 <= k < i - 1 implies (#[trigger] cv.drop_first()[k]).0
            != client by {
            assert(cv.drop_first()[k] == cv[k + 1]);
        }
        if i < cv.len() {
            assert(cv.drop_first()[i - 1] == cv[i]);
        }
        lemma_cidx_from(cv.drop_first(), client, i - 1);
    }
}

pub proof fn lemma_widx_from(wv: Seq<(u64, Seq<Seq<u8>>)>, client: u64, i: int)
    requires
        0 <= i <= wv.len(),
        forall|k: int| 0 <= k < i ==> (#[trigger] wv[k]).0 != client,
        i == wv.len() || wv[i].0 == client,
    ensures
        widx(wv, client) == if i == wv.len() {
            -1int
        } else {
            i
        },
    decreases wv.len(),
{
    if wv.len() > 0 && i > 0 {
        assert(wv[0].0 != client);
        assert forall|k: int| 0 <= k < i - 1 implies (#[trigger] wv.drop_first()[k]).0
            != client by {
            assert(wv.drop_first()[k] == wv[k + 1]);
        }
        if i < wv.len() {
            assert(wv.drop_first()[i - 1] == wv[i]);
        }
        lemma_widx_from(wv.drop_first(), client, i - 1);
    }
}

pub proof fn lemma_first_waiter_from(wv: Seq<(u64, Seq<Seq<u8>>)>, queue: Seq<u8>, i: int)
    requires
        0 <= i <= wv.len(),
        forall|k: int| 0 <= k < i ==> !(#[trigger] wv[k]).1.contains(queue),
        i == wv.len() || wv[i].1.contains(queue),
    ensures
        first_waiter(wv, queue) == if i == wv.len() {
            -1int
        } else {
            i
        },
    decreases wv.len(),
{
    if wv.len() > 0 && i > 0 {
        assert(!wv[0].1.contains(queue));
        assert forall|k: int| 0 <= k < i - 1 implies !(#[trigger] wv.drop_first()[k]).1.contains(
            queue,
        ) by {
            assert(wv.drop_first()[k] == wv[k + 1]);
        }
        if i < wv.len() {
            assert(wv.drop_first()[i - 1] == wv[i]);
        }
        lemma_first_waiter_from(wv.drop_first(), queue, i - 1);
    }
}

/// Whether a list of queue names holds `name`.
fn list_contains(qs: &Vec<Vec<u8>>, name: &[u8]) -> (r: bool)
    ensures
        r == qs.deep_view().contains(name@),
{
    let ghost dv = qs.deep_view();
    let mut i: usize = 0;
    while i < qs.len()
        invariant
            0 <= i <= qs@.len(),
            dv == qs.deep_view(),
            dv.len() == qs@.len(),
            forall|k: int| 0 <= k < i ==> dv[k] != name@,
        decreases qs@.len() - i,
    {
        proof {
            assert(dv[i as int] =~= qs@[i as int]@);
        }
        if crate::util::bytes_eq(qs[i].as_slice(), name) {
            return true;
        }
        i = i + 1;
    }
    proof {
        if dv.contains(name@) {
            let k = choose|k: int| 0 <= k < dv.len() && dv[k] == name@;
            assert(false);
        }
    }
    false
}

impl BrokerState {
    pub fn new() -> (r: BrokerState)
        ensures
            r@.next_id == 1,
            r@.queues == Seq::<(Seq<u8>, Seq<JobView>)>::empty(),
            r@.clients == Seq::<(u64, Seq<JobView>)>::empty(),
            r@.waiting == Seq::<(u64, Seq<Seq<u8>>)>::empty(),
            broker_wf(r@),
    {
        let r = BrokerState {
            next_job_id: 1,
            queues: Vec::new(),
            client_jobs: Vec::new(),
            waiting_clients: Vec::new(),
        };
        proof {
            assert(r@.queues =~= Seq::<(Seq<u8>, Seq<JobView>)>::empty());
            assert(r@.clients =~= Seq::<(u64, Seq<JobView>)>::empty());
            assert(r@.waiting =~= Seq::<(u64, Seq<Seq<u8>>)>::empty());
        }
        r
    }

    fn find_queue(&self, name: &[u8]) -> (r: Option<usize>)
        ensures
            match r {
                Some(i) => i < self.queues@.len() && qidx(self@.queues, name@) == i as int,
                None => qidx(self@.queues, name@) == -1,
            },
    {
        let ghost qv = self@.queues;
        let mut i: usize = 0;
        while i < self.queues.len()
            invariant
                0 <= i <= self.queues@.len(),
                qv == self@.queues,
                qv.len() == self.queues@.len(),
                forall|k: int| 0 <= k < i ==> (#[trigger] qv[k]).0 != name@,
            decreases self.queues@.len() - i,
        {
            if crate::util::bytes_eq(self.queues[i].0.as_slice(), name) {
                proof {
                    assert(qv[i as int].0 == name@);
                    lemma_qidx_from(qv, name@, i as int);
                }
                return Some(i);
            }
            proof {
                assert(qv[i as int].0 != name@);
            }
            i = i + 1;
        }
        proof {
            lemma_qidx_from(qv, name@, qv.len() as int);
        }
        None
    }

    fn find_client(&self, client: u64) -> (r: Option<usize>)
        ensures
            match r {
                Some(i) => i < self.client_jobs@.len() && cidx(self@.clients, client) == i as int,
                None => cidx(self@.clients, client) == -1,
            },
    {
        let ghost cv = self@.clients;
        let mut i: usize = 0;
        while i < self.client_jobs.len()
            invariant
                0 <= i <= self.client_jobs@.len(),
                cv == self@.clients,
                cv.len() == self.client_jobs@.len(),
                forall|k: int| 0 <= k < i ==> (#[trigger] cv[k]).0 != client,
            decreases self.client_jobs@.len() - i,
        {
            if self.client_jobs[i].0 == client {
                proof {
                    lemma_cidx_from(cv, client, i as int);
                }
                return Some(i);
            }
            i = i + 1;
        }
        proof {
            lemma_cidx_from(cv, client, cv.len() as int);
        }
        None
    }

    fn find_waiter_for(&self, queue: &[u8]) -> (r: Option<usize>)
        ensures
            match r {
                Some(i) => i < self.waiting_clients@.len() && first_waiter(self@.waiting, queue@)
                    == i as int,
                None => first_waiter(self@.waiting, queue@) == -1,
            },
    {
        let ghost wv = self@.waiting;
        let mut i: usize = 0;
        while i < self.waiting_clients.len()
            invariant
                0 <= i <= self.waiting_clients@.len(),
                wv == self@.waiting,
                wv.len() == self.waiting_clients@.len(),
                forall|k: int| 0 <= k < i ==> !(#[trigger] wv[k]).1.contains(queue@),
            decreases self.waiting_clients@.len() - i,
        {
            proof {
                assert(wv[i as int].1 == self.waiting_clients@[i as int].1.deep_view());
            }
            if list_contains(&self.waiting_clients[i].1, queue) {
                proof {
                    lemma_first_waiter_from(wv, queue@, i as int);
                }
                return Some(i);
            }
            i = i + 1;
        }
        proof {
            lemma_first_waiter_from(wv, queue@, wv.len() as int);
        }
        None
    }

    /// Accept one job, waking at most one waiter of its queue.
    pub fn put(&mut self, queue: &[u8], priority: u64, payload: Vec<u8>) -> (r: Vec<BrokerMsg>)
        requires
            broker_wf(old(self)@),
            old(self)@.next_id < u64::MAX,
        ensures
            broker_wf(final (self)@),
            final (self)@.next_id == old(self)@.next_id + 1,
            final (self)@.clients == old(self)@.clients,
            final (self)@.waiting == old(self)@.waiting,
            ({
                let st = old(self)@;
                let job = JobView { id: st.next_id, queue: queue@, priority, payload: payload@ };
                let qi = qidx(st.queues, queue@);
                &&& (if qi >= 0 {
                    final (self)@.queues =~~= st.queues.update(
                        qi,
                        (queue@, st.queues[qi].1.push(job)),
                    )
                } else {
                    final (self)@.queues =~~= st.queues.push((queue@, seq![job]))
                })
                &&& ({
                    let w = first_waiter(st.waiting, queue@);
                    if w >= 0 {
                        bviews(r@) =~~= seq![
                            BrokerMsgView::PutOk { id: st.next_id },
                            BrokerMsgView::Notify { client: st.waiting[w].0 },
                        ]
                    } else {
                        bviews(r@) =~~= seq![BrokerMsgView::PutOk { id: st.next_id }]
                    }
                })
            }),
    {
        let ghost st = old(self)@;
        let id = self.next_job_id;
        self.next_job_id = self.next_job_id + 1;
        let mut r: Vec<BrokerMsg> = Vec::new();
        r.push(BrokerMsg::PutOk { id });
        match self.find_waiter_for(queue) {
            Some(w) => {
                let c = self.waiting_clients[w].0;
                r.push(BrokerMsg::Notify { client: c });
            },
            None => {},
        }
        let mut qname: Vec<u8> = Vec::new();
        qname.extend_from_slice(queue);
        proof {
            assert(qname@ =~= queue@);
        }
        let job = Job { id, queue: qname, priority, payload };
        let ghost jv = job@;
        proof {
            assert(jv =~= (JobView {
                id: st.next_id,
                queue: queue@,
                priority: jv.priority,
                payload: jv.payload,
            }));
        }
        match self.find_queue(queue) {
            Some(qi) => {
                proof {
                    lemma_qidx_is_match(st.queues, queue@);
                    assert(st.queues[qi as int] == (
                        self.queues@[qi as int].0@,
                        jviews(self.queues@[qi as int].1@),
                    ));
                }
                self.queues[qi].1.push(job);
                proof {
                    assert(jviews(self.queues@[qi as int].1@) =~~= st.queues[qi as int].1.push(
                        jv,
                    ));
                    assert(self@.queues =~~= st.queues.update(
                        qi as int,
                        (queue@, st.queues[qi as int].1.push(jv)),
                    ));
                }
            },
            None => {
                let mut js: Vec<Job> = Vec::new();
                js.push(job);
                let mut qname2: Vec<u8> = Vec::new();
                qname2.extend_from_slice(queue);
                self.queues.push((qname2, js));
                proof {
                    assert(self@.queues =~~= st.queues.push((queue@, seq![jv])));
                }
            },
        }
        proof {
            let st1 = BrokerView {
                next_id: (st.next_id + 1) as u64,
                queues: st.queues,
                clients: st.clients,
                waiting: st.waiting,
            };
            assert(broker_wf(st1));
            assert(!id_in_queues(st1.queues, jv.id) && !id_in_clients(st1.clients, jv.id)) by {
                lemma_fresh_id_nowhere(st);
            }
            lemma_enqueue_preserves_wf(st1, jv);
            assert(self@.queues =~~= enqueue(st1.queues, jv));
            assert(bviews(r@) =~~= (if first_waiter(st.waiting, queue@) >= 0 {
                seq![
                    BrokerMsgView::PutOk { id: st.next_id },
                    BrokerMsgView::Notify { client: st.waiting[first_waiter(st.waiting, queue@)].0 },
                ]
            } else {
                seq![BrokerMsgView::PutOk { id: st.next_id }]
            }));
        }
        r
    }
}

/// The queues after `job` is appended to its queue (the queue is
/// created when absent).
pub open spec fn enqueue(qv: Seq<(Seq<u8>, Seq<JobView>)>, job: JobView) -> Seq<
    (Seq<u8>, Seq<JobView>),
> {
    let qi = qidx(qv, job.queue);
    if qi >= 0 {
        qv.update(qi, (job.queue, qv[qi].1.push(job)))
    } else {
        qv.push((job.queue, seq![job]))
    }
}

/// Appending a job whose id stands nowhere keeps the broker well
/// formed.
proof fn lemma_enqueue_preserves_wf(st: BrokerView, job: JobView)
    requires
        broker_wf(st),
        job.id < st.next_id,
        !id_in_queues(st.queues, job.id),
        !id_in_clients(st.clients, job.id),
    ensures
        broker_wf(
            BrokerView {
                next_id: st.next_id,
                queues: enqueue(st.queues, job),
                clients: st.clients,
                waiting: st.waiting,
            },
        ),
{
    let queue = job.queue;
    let qi = qidx(st.queues, queue);
    lemma_qidx_is_match(st.queues, queue);
    let q2 = enqueue(st.queues, job);
    let st2 = BrokerView { next_id: st.next_id, queues: q2, clients: st.clients, waiting: st.waiting };
    if qi < 0 {
        assert forall|k: int| 0 <= k < st.queues.len() implies (#[trigger] st.queues[k]).0
            != queue by {
            if st.queues[k].0 == queue {
                lemma_qidx_at_least(st.queues, queue, k);
            }
        }
    }
    assert forall|a: int, b: int| 0 <= a < b < st2.queues.len() implies (#[trigger] st2.queues[a]).0
        != (#[trigger] st2.queues[b]).0 by {
        if qi >= 0 {
            assert(st2.queues[a].0 == st.queues[a].0 && st2.queues[b].0 == st.queues[b].0);
        } else if b < st.queues.len() {
            assert(st2.queues[a] == st.queues[a] && st2.queues[b] == st.queues[b]);
        } else {
            assert(st2.queues[a] == st.queues[a]);
        }
    }
    assert forall|id: u64| !(#[trigger] id_in_queues(st2.queues, id) && id_in_clients(
        st2.clients,
        id,
    )) by {
        if id_in_queues(st2.queues, id) && id_in_clients(st2.clients, id) {
            let (q, j) = choose|q: int, j: int|
                0 <= q < st2.queues.len() && 0 <= j < (#[trigger] st2.queues[q]).1.len() && (
                #[trigger] st2.queues[q].1[j]).id == id;
            if id == job.id {
                assert(!id_in_clients(st.clients, id));
            } else {
                assert(id_in_queues(st.queues, id)) by {
                    if qi >= 0 && q == qi && j == st.queues[qi].1.len() {
                        assert(false);
                    } else if qi < 0 && q == st.queues.len() {
                        assert(st2.queues[q].1 =~= seq![job]);
                        assert(false);
                    } else {
                        if qi >= 0 && q == qi {
                            assert(st.queues[q].1[j].id == id);
                        } else {
                            assert(st2.queues[q] == st.queues[q]);
                        }
                    }
                }
            }
        }
    }
    assert forall|q: int, j: int, q2q: int, j2: int|
        0 <= q < st2.queues.len() && 0 <= j < (#[trigger] st2.queues[q]).1.len() && 0 <= q2q
            < st2.queues.len() && 0 <= j2 < (#[trigger] st2.queues[q2q]).1.len() && (q != q2q || j
            != j2) implies (#[trigger] st2.queues[q].1[j]).id != (
    #[trigger] st2.queues[q2q].1[j2]).id by {
        let new1 = (qi >= 0 && q == qi && j == st.queues[qi].1.len()) || (qi < 0 && q
            == st.queues.len());
        let new2 = (qi >= 0 && q2q == qi && j2 == st.queues[qi].1.len()) || (qi < 0 && q2q
            == st.queues.len());
        if new1 && new2 {
            if qi < 0 {
                assert(st2.queues[q].1 =~= seq![job]);
                assert(j == 0 && j2 == 0 && q == q2q);
            }
            assert(false);
        } else if new1 {
            assert(st2.queues[q].1[j].id == job.id);
            assert(st2.queues[q2q].1[j2].id != job.id) by {
                if qi >= 0 && q2q == qi {
                    assert(st.queues[q2q].1[j2].id == st2.queues[q2q].1[j2].id);
                    if st.queues[q2q].1[j2].id == job.id {
                        assert(id_in_queues(st.queues, job.id));
                    }
                } else {
                    assert(st2.queues[q2q] == st.queues[q2q]);
                    if st.queues[q2q].1[j2].id == job.id {
                        assert(id_in_queues(st.queues, job.id));
                    }
                }
            }
        } else if new2 {
            assert(st2.queues[q2q].1[j2].id == job.id);
            assert(st2.queues[q].1[j].id != job.id) by {
                if qi >= 0 && q == qi {
                    if st.queues[q].1[j].id == job.id {
                        assert(id_in_queues(st.queues, job.id));
                    }
                } else {
                    assert(st2.queues[q] == st.queues[q]);
                    if st.queues[q].1[j].id == job.id {
                        assert(id_in_queues(st.queues, job.id));
                    }
                }
            }
        } else {
            assert(st2.queues[q].1[j] == st.queues[q].1[j]) by {
                if qi >= 0 && q == qi {
                } else if qi < 0 && q == st.queues.len() {
                    assert(false);
                } else {
                    assert(st2.queues[q] == st.queues[q]);
                }
            }
            assert(st2.queues[q2q].1[j2] == st.queues[q2q].1[j2]) by {
                if qi >= 0 && q2q == qi {
                } else if qi < 0 && q2q == st.queues.len() {
                    assert(false);
                } else {
                    assert(st2.queues[q2q] == st.queues[q2q]);
                }
            }
        }
    }
    assert forall|q: int, j: int|
        0 <= q < st2.queues.len() && 0 <= j < (#[trigger] st2.queues[q]).1.len() implies (
    #[trigger] st2.queues[q].1[j]).id < st2.next_id && (#[trigger] st2.queues[q].1[j]).queue
        == st2.queues[q].0 by {
        if qi >= 0 && q == qi && j == st.queues[qi].1.len() {
            assert(st.queues[qi].0 == queue);
        } else if qi < 0 && q == st.queues.len() {
            assert(st2.queues[q].1 =~= seq![job]);
        } else {
            if qi >= 0 && q == qi {
                assert(st.queues[q].1[j].id < st.next_id);
            } else {
                assert(st2.queues[q] == st.queues[q]);
            }
        }
    }
}

/// A job id below the counter that the invariant places nowhere.
proof fn lemma_fresh_id_nowhere(st: BrokerView)
    requires
        broker_wf(st),
    ensures
        !id_in_queues(st.queues, st.next_id),
        !id_in_clients(st.clients, st.next_id),
{
    if id_in_queues(st.queues, st.next_id) {
        let (q, j) = choose|q: int, j: int|
            0 <= q < st.queues.len() && 0 <= j < (#[trigger] st.queues[q]).1.len() && (
            #[trigger] st.queues[q].1[j]).id == st.next_id;
        assert(false);
    }
    if id_in_clients(st.clients, st.next_id) {
        let (c, j) = choose|c: int, j: int|
            0 <= c < st.clients.len() && 0 <= j < (#[trigger] st.clients[c]).1.len() && (
            #[trigger] st.clients[c].1[j]).id == st.next_id;
        assert(false);
    }
}


/// The highest priority among `jobs`.
pub open spec fn qmax(jobs: Seq<JobView>) -> Option<u64>
    decreases jobs.len(),
{
    if jobs.len() == 0 {
        None
    } else {
        match qmax(jobs.drop_last()) {
            None => Some(jobs.last().priority),
            Some(p) => if jobs.last().priority > p {
                Some(jobs.last().priority)
            } else {
                Some(p)
            },
        }
    }
}

pub proof fn lemma_qmax_props(jobs: Seq<JobView>)
    ensures
        jobs.len() == 0 <==> qmax(jobs) is None,
        qmax(jobs) is Some ==> (exists|j: int|
            0 <= j < jobs.len() && (#[trigger] jobs[j]).priority == qmax(jobs).unwrap()) && forall|
            j: int,
        | 0 <= j < jobs.len() ==> (#[trigger] jobs[j]).priority <= qmax(jobs).unwrap(),
    decreases jobs.len(),
{
    if jobs.len() > 0 {
        lemma_qmax_props(jobs.drop_last());
        let p = qmax(jobs).unwrap();
        assert forall|j: int| 0 <= j < jobs.len() implies (#[trigger] jobs[j]).priority <= p by {
            if j < jobs.len() - 1 {
                assert(jobs.drop_last()[j] == jobs[j]);
            }
        }
        if qmax(jobs.drop_last()) is Some && qmax(jobs.drop_last()).unwrap() == p {
            let j = choose|j: int|
                0 <= j < jobs.drop_last().len() && (#[trigger] jobs.drop_last()[j]).priority == p;
            assert(jobs[j].priority == p);
        } else {
            assert(jobs[jobs.len() - 1].priority == p);
        }
    }
}

/// The first job carrying priority `p`, or -1.
pub open spec fn pidx(jobs: Seq<JobView>, p: u64) -> int
    decreases jobs.len(),
{
    if jobs.len() == 0 {
        -1
    } else if jobs[0].priority == p {
        0
    } else {
        let r = pidx(jobs.drop_first(), p);
        if r < 0 {
            -1
        } else {
            r + 1
        }
    }
}

pub proof fn lemma_pidx_from(jobs: Seq<JobView>, p: u64, i: int)
    requires
        0 <= i <= jobs.len(),
        forall|k: int| 0 <= k < i ==> (#[trigger] jobs[k]).priority != p,
        i == jobs.len() || jobs[i].priority == p,
    ensures
        pidx(jobs, p) == if i == jobs.len() {
            -1int
        } else {
            i
        },
    decreases jobs.len(),
{
    if jobs.len() > 0 && i > 0 {
        assert(jobs[0].priority != p);
        assert forall|k: int| 0 <= k < i - 1 implies (#[trigger] jobs.drop_first()[k]).priority
            != p by {
            assert(jobs.drop_first()[k] == jobs[k + 1]);
        }
        if i < jobs.len() {
            assert(jobs.drop_first()[i - 1] == jobs[i]);
        }
        lemma_pidx_from(jobs.drop_first(), p, i - 1);
    }
}

/// The pick a get makes: scanning the requested queue names in
/// order, the queue whose best job has the strictly highest priority
/// seen so far; earlier queues win ties.
pub open spec fn best_acc(
    qv: Seq<(Seq<u8>, Seq<JobView>)>,
    names: Seq<Seq<u8>>,
    i: int,
    acc: Option<(int, u64)>,
) -> Option<(int, u64)>
    decreases names.len() - i,
{
    if i < 0 || i >= names.len() {
        acc
    } else {
        let qi = qidx(qv, names[i]);
        let acc2 = if qi >= 0 && qmax(qv[qi].1) is Some && (acc is None || qmax(
            qv[qi].1,
        ).unwrap() > acc.unwrap().1) {
            Some((qi, qmax(qv[qi].1).unwrap()))
        } else {
            acc
        };
        best_acc(qv, names, i + 1, acc2)
    }
}

pub open spec fn chosen_queue(qv: Seq<(Seq<u8>, Seq<JobView>)>, names: Seq<Seq<u8>>) -> Option<
    (int, u64),
> {
    best_acc(qv, names, 0, None)
}

/// The accumulator's validity is carried to the result.
pub proof fn lemma_best_acc_valid(
    qv: Seq<(Seq<u8>, Seq<JobView>)>,
    names: Seq<Seq<u8>>,
    i: int,
    acc: Option<(int, u64)>,
)
    requires
        acc is Some ==> 0 <= acc.unwrap().0 < qv.len() && qmax(qv[acc.unwrap().0].1) == Some(
            acc.unwrap().1,
        ),
    ensures
        best_acc(qv, names, i, acc) is Some ==> 0 <= best_acc(qv, names, i, acc).unwrap().0
            < qv.len() && qmax(qv[best_acc(qv, names, i, acc).unwrap().0].1) == Some(
            best_acc(qv, names, i, acc).unwrap().1,
        ),
    decreases names.len() - i,
{
    if 0 <= i < names.len() {
        let qi = qidx(qv, names[i]);
        lemma_qidx_is_match(qv, names[i]);
        let acc2 = if qi >= 0 && qmax(qv[qi].1) is Some && (acc is None || qmax(
            qv[qi].1,
        ).unwrap() > acc.unwrap().1) {
            Some((qi, qmax(qv[qi].1).unwrap()))
        } else {
            acc
        };
        lemma_best_acc_valid(qv, names, i + 1, acc2);
    }
}

/// Moving one job from a queue to a client's assignment keeps the
/// broker well formed.
proof fn lemma_take_preserves_wf(st: BrokerView, qi: int, j: int, client: u64)
    requires
        broker_wf(st),
        0 <= qi < st.queues.len(),
        0 <= j < st.queues[qi].1.len(),
    ensures
        ({
            let job = st.queues[qi].1[j];
            let q2 = st.queues.update(qi, (st.queues[qi].0, st.queues[qi].1.remove(j)));
            let ci = cidx(st.clients, client);
            let c2 = if ci >= 0 {
                st.clients.update(ci, (client, st.clients[ci].1.push(job)))
            } else {
                st.clients.push((client, seq![job]))
            };
            broker_wf(
                BrokerView { next_id: st.next_id, queues: q2, clients: c2, waiting: st.waiting },
            )
        }),
{
    let job = st.queues[qi].1[j];
    let q2 = st.queues.update(qi, (st.queues[qi].0, st.queues[qi].1.remove(j)));
    let ci = cidx(st.clients, client);
    lemma_cidx_is_match(st.clients, client);
    let c2 = if ci >= 0 {
        st.clients.update(ci, (client, st.clients[ci].1.push(job)))
    } else {
        st.clients.push((client, seq![job]))
    };
    let st2 = BrokerView { next_id: st.next_id, queues: q2, clients: c2, waiting: st.waiting };
    assert(id_in_queues(st.queues, job.id));
    assert(!id_in_clients(st.clients, job.id));
    if ci < 0 {
        assert forall|k: int| 0 <= k < st.clients.len() implies (#[trigger] st.clients[k]).0
            != client by {
            if st.clients[k].0 == client {
                lemma_cidx_at_least(st.clients, client, k);
            }
        }
    }
    // a queued job of q2 is a queued job of st at a mapped position
    assert forall|q: int, k: int|
        0 <= q < q2.len() && 0 <= k < (#[trigger] q2[q]).1.len() implies (#[trigger] q2[q].1[k])
        == st.queues[q].1[if q == qi && k >= j {
        k + 1
    } else {
        k
    }] && 0 <= (if q == qi && k >= j {
        k + 1
    } else {
        k
    }) < st.queues[q].1.len() && !(q == qi && (if q == qi && k >= j {
        k + 1
    } else {
        k
    }) == j) by {
        if q == qi {
            assert(q2[qi].1 == st.queues[qi].1.remove(j));
        } else {
            assert(q2[q] == st.queues[q]);
        }
    }
    assert forall|a: int, b: int| 0 <= a < b < c2.len() implies (#[trigger] c2[a]).0 != (
    #[trigger] c2[b]).0 by {
        if ci >= 0 {
            assert(c2[a].0 == st.clients[a].0 && c2[b].0 == st.clients[b].0);
        } else if b < st.clients.len() {
            assert(c2[a] == st.clients[a] && c2[b] == st.clients[b]);
        } else {
            assert(c2[a] == st.clients[a]);
        }
    }
    assert forall|c: int, k: int, c2i: int, k2: int|
        0 <= c < c2.len() && 0 <= k < (#[trigger] c2[c]).1.len() && 0 <= c2i < c2.len() && 0 <= k2
            < (#[trigger] c2[c2i]).1.len() && (c != c2i || k != k2) implies (
    #[trigger] c2[c].1[k]).id != (#[trigger] c2[c2i].1[k2]).id by {
        let new1 = (ci >= 0 && c == ci && k == st.clients[ci].1.len()) || (ci < 0 && c
            == st.clients.len());
        let new2 = (ci >= 0 && c2i == ci && k2 == st.clients[ci].1.len()) || (ci < 0 && c2i
            == st.clients.len());
        if new1 && new2 {
            if ci < 0 {
                assert(c2[c].1 =~= seq![job]);
                assert(k == 0 && k2 == 0 && c == c2i);
            }
            assert(false);
        } else if new1 {
            assert(c2[c].1[k].id == job.id);
            assert(c2[c2i].1[k2].id != job.id) by {
                if ci >= 0 && c2i == ci {
                    if st.clients[c2i].1[k2].id == job.id {
                        assert(id_in_clients(st.clients, job.id));
                    }
                } else {
                    assert(c2[c2i] == st.clients[c2i]);
                    if st.clients[c2i].1[k2].id == job.id {
                        assert(id_in_clients(st.clients, job.id));
                    }
                }
            }
        } else if new2 {
            assert(c2[c2i].1[k2].id == job.id);
            assert(c2[c].1[k].id != job.id) by {
                if ci >= 0 && c == ci {
                    if st.clients[c].1[k].id == job.id {
                        assert(id_in_clients(st.clients, job.id));
                    }
                } else {
                    assert(c2[c] == st.clients[c]);
                    if st.clients[c].1[k].id == job.id {
                        assert(id_in_clients(st.clients, job.id));
                    }
                }
            }
        } else {
            assert(c2[c].1[k] == st.clients[c].1[k]) by {
                if ci >= 0 && c == ci {
                } else if ci < 0 && c == st.clients.len() {
                    assert(false);
                } else {
                    assert(c2[c] == st.clients[c]);
                }
            }
            assert(c2[c2i].1[k2] == st.clients[c2i].1[k2]) by {
                if ci >= 0 && c2i == ci {
                } else if ci < 0 && c2i == st.clients.len() {
                    assert(false);
                } else {
                    assert(c2[c2i] == st.clients[c2i]);
                }
            }
        }
    }
    assert forall|id: u64| !(#[trigger] id_in_queues(st2.queues, id) && id_in_clients(
        st2.clients,
        id,
    )) by {
        if id_in_queues(st2.queues, id) && id_in_clients(st2.clients, id) {
            let (q, k) = choose|q: int, k: int|
                0 <= q < st2.queues.len() && 0 <= k < (#[trigger] st2.queues[q]).1.len() && (
                #[trigger] st2.queues[q].1[k]).id == id;
            assert(id_in_queues(st.queues, id));
            let (c, k2) = choose|c: int, k2: int|
                0 <= c < c2.len() && 0 <= k2 < (#[trigger] c2[c]).1.len() && (
                #[trigger] c2[c].1[k2]).id == id;
            let newc = (ci >= 0 && c == ci && k2 == st.clients[ci].1.len()) || (ci < 0 && c
                == st.clients.len());
            if newc {
                if ci < 0 {
                    assert(c2[c].1 =~= seq![job]);
                }
                assert(id == job.id);
                // but job.id no longer stands in the queues
                let m = if q == qi && k >= j {
                    k + 1
                } else {
                    k
                };
                assert(st.queues[q].1[m].id == job.id);
                assert(!(q == qi && m == j));
                assert(st.queues[q].1[m].id != st.queues[qi].1[j].id);
                assert(false);
            } else {
                assert(c2[c].1[k2] == st.clients[c].1[k2]) by {
                    if ci >= 0 && c == ci {
                    } else if ci < 0 && c == st.clients.len() {
                        assert(false);
                    } else {
                        assert(c2[c] == st.clients[c]);
                    }
                }
                assert(id_in_clients(st.clients, id));
            }
        }
    }
    assert forall|c: int, k: int|
        0 <= c < c2.len() && 0 <= k < (#[trigger] c2[c]).1.len() implies (#[trigger] c2[c].1[k]).id
        < st2.next_id by {
        if (ci >= 0 && c == ci && k == st.clients[ci].1.len()) || (ci < 0 && c
            == st.clients.len()) {
            if ci < 0 {
                assert(c2[c].1 =~= seq![job]);
            }
        } else {
            if ci >= 0 && c == ci {
            } else {
                assert(c2[c] == st.clients[c]);
            }
        }
    }
}

pub proof fn lemma_cidx_at_least(cv: Seq<(u64, Seq<JobView>)>, client: u64, k: int)
    requires
        0 <= k < cv.len(),
        cv[k].0 == client,
    ensures
        0 <= cidx(cv, client) <= k,
    decreases cv.len(),
{
    if cv[0].0 != client {
        assert(cv.drop_first()[k - 1] == cv[k]);
        lemma_cidx_at_least(cv.drop_first(), client, k - 1);
    }
}

impl BrokerState {
    /// The highest priority among the jobs of queue `qi`.
    fn queue_max(&self, qi: usize) -> (r: Option<u64>)
        requires
            qi < self.queues@.len(),
        ensures
            r == qmax(self@.queues[qi as int].1),
    {
        let ghost jobs = self@.queues[qi as int].1;
        let mut best: Option<u64> = None;
        let mut k: usize = 0;
        proof {
            assert(jobs.take(0) =~= Seq::<JobView>::empty());
        }
        while k < self.queues[qi].1.len()
            invariant
                qi < self.queues@.len(),
                0 <= k <= self.queues@[qi as int].1@.len(),
                jobs == self@.queues[qi as int].1,
                jobs.len() == self.queues@[qi as int].1@.len(),
                best == qmax(jobs.take(k as int)),
            decreases self.queues@[qi as int].1@.len() - k,
        {
            let p = self.queues[qi].1[k].priority;
            proof {
                assert(jobs[k as int] == self.queues@[qi as int].1@[k as int]@);
                assert(jobs.take(k + 1).drop_last() =~= jobs.take(k as int));
                assert(jobs.take(k + 1).last() == jobs[k as int]);
            }
            best = match best {
                None => Some(p),
                Some(b) => if p > b {
                    Some(p)
                } else {
                    Some(b)
                },
            };
            k = k + 1;
        }
        proof {
            assert(jobs.take(jobs.len() as int) =~= jobs);
        }
        best
    }

    /// Hand out the best job among the named queues, or record the
    /// client as a waiter (`wait` true), or answer that no job is
    /// there.  Of equal priorities, the earlier-named queue and the
    /// oldest job in it win; this choice is fixed.
    pub fn get(&mut self, client: u64, queue_names: Vec<Vec<u8>>, wait: bool) -> (r: Vec<
        BrokerMsg,
    >)
        requires
            broker_wf(old(self)@),
        ensures
            broker_wf(final (self)@),
            final (self)@.next_id == old(self)@.next_id,
            ({
                let st = old(self)@;
                let names = queue_names.deep_view();
                match chosen_queue(st.queues, names) {
                    Some((qi, p)) => {
                        let j = pidx(st.queues[qi].1, p);
                        let job = st.queues[qi].1[j];
                        &&& final (self)@.queues =~~= st.queues.update(
                            qi,
                            (st.queues[qi].0, st.queues[qi].1.remove(j)),
                        )
                        &&& ({
                            let ci = cidx(st.clients, client);
                            if ci >= 0 {
                                final (self)@.clients =~~= st.clients.update(
                                    ci,
                                    (client, st.clients[ci].1.push(job)),
                                )
                            } else {
                                final (self)@.clients =~~= st.clients.push((client, seq![job]))
                            }
                        })
                        &&& final (self)@.waiting == st.waiting
                        &&& bviews(r@) =~~= seq![
                            BrokerMsgView::JobGiven {
                                id: job.id,
                                priority: job.priority,
                                queue: job.queue,
                                payload: job.payload,
                            },
                        ]
                    },
                    None => {
                        &&& final (self)@.queues == st.queues
                        &&& final (self)@.clients == st.clients
                        &&& (if wait {
                            ({
                                let wi = widx(st.waiting, client);
                                if wi >= 0 {
                                    final (self)@.waiting =~~= st.waiting.update(
                                        wi,
                                        (client, names),
                                    )
                                } else {
                                    final (self)@.waiting =~~= st.waiting.push((client, names))
                                }
                            }) && bviews(r@) =~~= seq![BrokerMsgView::Waiting]
                        } else {
                            final (self)@.waiting == st.waiting && bviews(r@) =~~= seq![
                                BrokerMsgView::NoJob,
                            ]
                        })
                    },
                }
            }),
    {
        let ghost st = old(self)@;
        let ghost names = queue_names.deep_view();
        let mut best_q: usize = 0;
        let mut best_p: u64 = 0;
        let mut have: bool = false;
        let mut i: usize = 0;
        while i < queue_names.len()
            invariant
                0 <= i <= queue_names@.len(),
                st == self@,
                *self == *old(self),
                broker_wf(st),
                names == queue_names.deep_view(),
                names.len() == queue_names@.len(),
                chosen_queue(st.queues, names) == best_acc(
                    st.queues,
                    names,
                    i as int,
                    if have {
                        Some((best_q as int, best_p))
                    } else {
                        None::<(int, u64)>
                    },
                ),
                have ==> best_q < st.queues.len() && qmax(st.queues[best_q as int].1) == Some(
                    best_p,
                ),
            decreases queue_names@.len() - i,
        {
            proof {
                assert(names[i as int] =~= queue_names@[i as int]@);
            }
            match self.find_queue(queue_names[i].as_slice()) {
                Some(qi) => {
                    match self.queue_max(qi) {
                        Some(p) => {
                            if !have || p > best_p {
                                best_q = qi;
                                best_p = p;
                                have = true;
                            }
                        },
                        None => {},
                    }
                },
                None => {},
            }
            i = i + 1;
        }
        if !have {
            proof {
                assert(chosen_queue(st.queues, names) is None);
            }
            let mut r: Vec<BrokerMsg> = Vec::new();
            if wait {
                let ghost wv = st.waiting;
                let mut wi: usize = 0;
                let mut found = false;
                while !found && wi < self.waiting_clients.len()
                    invariant
                        0 <= wi <= self.waiting_clients@.len(),
                        st == self@,
                        *self == *old(self),
                        wv == st.waiting,
                        wv.len() == self.waiting_clients@.len(),
                        found ==> wi < wv.len() && wv[wi as int].0 == client,
                        forall|k: int| 0 <= k < wi ==> (#[trigger] wv[k]).0 != client,
                    decreases self.waiting_clients@.len() - wi, (if found {
                        0int
                    } else {
                        1int
                    }),
                {
                    if self.waiting_clients[wi].0 == client {
                        found = true;
                    } else {
                        wi = wi + 1;
                    }
                }
                proof {
                    if found {
                        lemma_widx_from(wv, client, wi as int);
                    } else {
                        lemma_widx_from(wv, client, wv.len() as int);
                    }
                }
                if found {
                    self.waiting_clients[wi] = (client, queue_names);
                    proof {
                        assert(self@.waiting =~~= st.waiting.update(wi as int, (client, names)));
                        assert forall|a: int, b: int|
                            0 <= a < b < self@.waiting.len() implies (#[trigger] self@.waiting[a]).0
                            != (#[trigger] self@.waiting[b]).0 by {
                            assert(self@.waiting[a].0 == st.waiting[a].0 && self@.waiting[b].0
                                == st.waiting[b].0);
                        }
                    }
                } else {
                    self.waiting_clients.push((client, queue_names));
                    proof {
                        assert(self@.waiting =~~= st.waiting.push((client, names)));
                        assert forall|a: int, b: int|
                            0 <= a < b < self@.waiting.len() implies (#[trigger] self@.waiting[a]).0
                            != (#[trigger] self@.waiting[b]).0 by {
                            if b < st.waiting.len() {
                                assert(self@.waiting[a] == st.waiting[a] && self@.waiting[b]
                                    == st.waiting[b]);
                            } else {
                                assert(self@.waiting[a] == st.waiting[a]);
                            }
                        }
                    }
                }
                r.push(BrokerMsg::Waiting);
                proof {
                    assert(bviews(r@) =~~= seq![BrokerMsgView::Waiting]);
                }
            } else {
                r.push(BrokerMsg::NoJob);
                proof {
                    assert(bviews(r@) =~~= seq![BrokerMsgView::NoJob]);
                }
            }
            return r;
        }
        proof {
            lemma_best_acc_valid(st.queues, names, 0, None::<(int, u64)>);
            lemma_qmax_props(st.queues[best_q as int].1);
        }
        let ghost jobs = st.queues[best_q as int].1;
        let mut ji: usize = 0;
        let mut jfound = false;
        while !jfound && ji < self.queues[best_q].1.len()
            invariant
                best_q < self.queues@.len(),
                0 <= ji <= self.queues@[best_q as int].1@.len(),
                st == self@,
                *self == *old(self),
                jobs == st.queues[best_q as int].1,
                jobs.len() == self.queues@[best_q as int].1@.len(),
                jfound ==> ji < jobs.len() && jobs[ji as int].priority == best_p,
                forall|k: int| 0 <= k < ji ==> (#[trigger] jobs[k]).priority != best_p,
            decreases self.queues@[best_q as int].1@.len() - ji, (if jfound {
                0int
            } else {
                1int
            }),
        {
            proof {
                assert(jobs[ji as int] == self.queues@[best_q as int].1@[ji as int]@);
            }
            if self.queues[best_q].1[ji].priority == best_p {
                jfound = true;
            } else {
                ji = ji + 1;
            }
        }
        proof {
            if !jfound {
                let w = choose|j: int| 0 <= j < jobs.len() && (#[trigger] jobs[j]).priority
                    == best_p;
                assert(false);
            }
            lemma_pidx_from(jobs, best_p, ji as int);
        }
        let job = self.queues[best_q].1.remove(ji);
        proof {
            assert(job@ == jobs[ji as int]);
            assert(jviews(self.queues@[best_q as int].1@) =~~= jobs.remove(ji as int));
            assert(self@.queues =~~= st.queues.update(
                best_q as int,
                (st.queues[best_q as int].0, jobs.remove(ji as int)),
            ));
        }
        let mut r: Vec<BrokerMsg> = Vec::new();
        r.push(
            BrokerMsg::JobGiven {
                id: job.id,
                priority: job.priority,
                queue: job.queue.clone(),
                payload: job.payload.clone(),
            },
        );
        proof {
            assert(bviews(r@) =~~= seq![
                BrokerMsgView::JobGiven {
                    id: job@.id,
                    priority: job@.priority,
                    queue: job@.queue,
                    payload: job@.payload,
                },
            ]);
            lemma_take_preserves_wf(st, best_q as int, ji as int, client);
        }
        match self.find_client(client) {
            Some(ci) => {
                proof {
                    lemma_cidx_is_match(st.clients, client);
                    assert(st.clients[ci as int].1 == jviews(self.client_jobs@[ci as int].1@));
                }
                self.client_jobs[ci].1.push(job);
                proof {
                    assert(self@.clients =~~= st.clients.update(
                        ci as int,
                        (client, st.clients[ci as int].1.push(jobs[ji as int])),
                    ));
                }
            },
            None => {
                let mut js: Vec<Job> = Vec::new();
                js.push(job);
                self.client_jobs.push((client, js));
                proof {
                    assert(self@.clients =~~= st.clients.push((client, seq![jobs[ji as int]])));
                }
            },
        }
        r
    }
}


/// The first job with `id` in a list, or -1.
pub open spec fn jpos(jobs: Seq<JobView>, id: u64) -> int
    decreases jobs.len(),
{
    if jobs.len() == 0 {
        -1
    } else if jobs[0].id == id {
        0
    } else {
        let r = jpos(jobs.drop_first(), id);
        if r < 0 {
            -1
        } else {
            r + 1
        }
    }
}

pub proof fn lemma_jpos_from(jobs: Seq<JobView>, id: u64, i: int)
    requires
        0 <= i <= jobs.len(),
        forall|k: int| 0 <= k < i ==> (#[trigger] jobs[k]).id != id,
        i == jobs.len() || jobs[i].id == id,
    ensures
        jpos(jobs, id) == if i == jobs.len() {
            -1int
        } else {
            i
        },
    decreases jobs.len(),
{
    if jobs.len() > 0 && i > 0 {
        assert(jobs[0].id != id);
        assert forall|k: int| 0 <= k < i - 1 implies (#[trigger] jobs.drop_first()[k]).id != id by {
            assert(jobs.drop_first()[k] == jobs[k + 1]);
        }
        if i < jobs.len() {
            assert(jobs.drop_first()[i - 1] == jobs[i]);
        }
        lemma_jpos_from(jobs.drop_first(), id, i - 1);
    }
}

/// The first queue holding `id`, or -1.
pub open spec fn qpos(qv: Seq<(Seq<u8>, Seq<JobView>)>, id: u64) -> int
    decreases qv.len(),
{
    if qv.len() == 0 {
        -1
    } else if jpos(qv[0].1, id) >= 0 {
        0
    } else {
        let r = qpos(qv.drop_first(), id);
        if r < 0 {
            -1
        } else {
            r + 1
        }
    }
}

pub proof fn lemma_qpos_from(qv: Seq<(Seq<u8>, Seq<JobView>)>, id: u64, i: int)
    requires
        0 <= i <= qv.len(),
        forall|k: int| 0 <= k < i ==> jpos((#[trigger] qv[k]).1, id) < 0,
        i == qv.len() || jpos(qv[i].1, id) >= 0,
    ensures
        qpos(qv, id) == if i == qv.len() {
            -1int
        } else {
            i
        },
    decreases qv.len(),
{
    if qv.len() > 0 && i > 0 {
        assert(jpos(qv[0].1, id) < 0);
        assert forall|k: int| 0 <= k < i - 1 implies jpos((#[trigger] qv.drop_first()[k]).1, id)
            < 0 by {
            assert(qv.drop_first()[k] == qv[k + 1]);
        }
        if i < qv.len() {
            assert(qv.drop_first()[i - 1] == qv[i]);
        }
        lemma_qpos_from(qv.drop_first(), id, i - 1);
    }
}

/// The first client holding `id`, or -1.
pub open spec fn cpos(cv: Seq<(u64, Seq<JobView>)>, id: u64) -> int
    decreases cv.len(),
{
    if cv.len() == 0 {
        -1
    } else if jpos(cv[0].1, id) >= 0 {
        0
    } else {
        let r = cpos(cv.drop_first(), id);
        if r < 0 {
            -1
        } else {
            r + 1
        }
    }
}

pub proof fn lemma_cpos_from(cv: Seq<(u64, Seq<JobView>)>, id: u64, i: int)
    requires
        0 <= i <= cv.len(),
        forall|k: int| 0 <= k < i ==> jpos((#[trigger] cv[k]).1, id) < 0,
        i == cv.len() || jpos(cv[i].1, id) >= 0,
    ensures
        cpos(cv, id) == if i == cv.len() {
            -1int
        } else {
            i
        },
    decreases cv.len(),
{
    if cv.len() > 0 && i > 0 {
        assert(jpos(cv[0].1, id) < 0);
        assert forall|k: int| 0 <= k < i - 1 implies jpos((#[trigger] cv.drop_first()[k]).1, id)
            < 0 by {
            assert(cv.drop_first()[k] == cv[k + 1]);
        }
        if i < cv.len() {
            assert(cv.drop_first()[i - 1] == cv[i]);
        }
        lemma_cpos_from(cv.drop_first(), id, i - 1);
    }
}

/// Dropping one job from a queue keeps the broker well formed.
proof fn lemma_drop_queued_preserves_wf(st: BrokerView, qi: int, j: int)
    requires
        broker_wf(st),
        0 <= qi < st.queues.len(),
        0 <= j < st.queues[qi].1.len(),
    ensures
        broker_wf(
            BrokerView {
                next_id: st.next_id,
                queues: st.queues.update(qi, (st.queues[qi].0, st.queues[qi].1.remove(j))),
                clients: st.clients,
                waiting: st.waiting,
            },
        ),
{
    let q2 = st.queues.update(qi, (st.queues[qi].0, st.queues[qi].1.remove(j)));
    assert forall|q: int, k: int|
        0 <= q < q2.len() && 0 <= k < (#[trigger] q2[q]).1.len() implies (#[trigger] q2[q].1[k])
        == st.queues[q].1[if q == qi && k >= j {
        k + 1
    } else {
        k
    }] && 0 <= (if q == qi && k >= j {
        k + 1
    } else {
        k
    }) < st.queues[q].1.len() by {
        if q == qi {
            assert(q2[qi].1 == st.queues[qi].1.remove(j));
        } else {
            assert(q2[q] == st.queues[q]);
        }
    }
    assert forall|a: int, b: int| 0 <= a < b < q2.len() implies (#[trigger] q2[a]).0 != (
    #[trigger] q2[b]).0 by {
        assert(q2[a].0 == st.queues[a].0 && q2[b].0 == st.queues[b].0);
    }
    assert forall|id: u64| !(#[trigger] id_in_queues(q2, id) && id_in_clients(
        st.clients,
        id,
    )) by {
        if id_in_queues(q2, id) && id_in_clients(st.clients, id) {
            let (q, k) = choose|q: int, k: int|
                0 <= q < q2.len() && 0 <= k < (#[trigger] q2[q]).1.len() && (
                #[trigger] q2[q].1[k]).id == id;
            assert(id_in_queues(st.queues, id));
        }
    }
}

/// Dropping one job from a client's list keeps the broker well
/// formed, and that job's id then stands nowhere.
proof fn lemma_drop_assigned_preserves_wf(st: BrokerView, ci: int, j: int)
    requires
        broker_wf(st),
        0 <= ci < st.clients.len(),
        0 <= j < st.clients[ci].1.len(),
    ensures
        ({
            let c2 = st.clients.update(ci, (st.clients[ci].0, st.clients[ci].1.remove(j)));
            let st2 = BrokerView {
                next_id: st.next_id,
                queues: st.queues,
                clients: c2,
                waiting: st.waiting,
            };
            &&& broker_wf(st2)
            &&& !id_in_clients(c2, st.clients[ci].1[j].id)
            &&& !id_in_queues(st.queues, st.clients[ci].1[j].id)
        }),
{
    let id0 = st.clients[ci].1[j].id;
    let c2 = st.clients.update(ci, (st.clients[ci].0, st.clients[ci].1.remove(j)));
    assert(id_in_clients(st.clients, id0));
    assert forall|c: int, k: int|
        0 <= c < c2.len() && 0 <= k < (#[trigger] c2[c]).1.len() implies (#[trigger] c2[c].1[k])
        == st.clients[c].1[if c == ci && k >= j {
        k + 1
    } else {
        k
    }] && 0 <= (if c == ci && k >= j {
        k + 1
    } else {
        k
    }) < st.clients[c].1.len() && !(c == ci && (if c == ci && k >= j {
        k + 1
    } else {
        k
    }) == j) by {
        if c == ci {
            assert(c2[ci].1 == st.clients[ci].1.remove(j));
        } else {
            assert(c2[c] == st.clients[c]);
        }
    }
    assert forall|a: int, b: int| 0 <= a < b < c2.len() implies (#[trigger] c2[a]).0 != (
    #[trigger] c2[b]).0 by {
        assert(c2[a].0 == st.clients[a].0 && c2[b].0 == st.clients[b].0);
    }
    assert(!id_in_clients(c2, id0)) by {
        if id_in_clients(c2, id0) {
            let (c, k) = choose|c: int, k: int|
                0 <= c < c2.len() && 0 <= k < (#[trigger] c2[c]).1.len() && (
                #[trigger] c2[c].1[k]).id == id0;
            let m = if c == ci && k >= j {
                k + 1
            } else {
                k
            };
            assert(st.clients[c].1[m].id == id0);
            assert(st.clients[ci].1[j].id == id0);
            assert(!(c == ci && m == j));
            assert(false);
        }
    }
    assert forall|id: u64| !(#[trigger] id_in_queues(st.queues, id) && id_in_clients(
        c2,
        id,
    )) by {
        if id_in_queues(st.queues, id) && id_in_clients(c2, id) {
            let (c, k) = choose|c: int, k: int|
                0 <= c < c2.len() && 0 <= k < (#[trigger] c2[c]).1.len() && (
                #[trigger] c2[c].1[k]).id == id;
            assert(id_in_clients(st.clients, id));
        }
    }
}

/// Enqueueing reaches exactly the old ids plus the new job's.
pub proof fn lemma_enqueue_ids(qv: Seq<(Seq<u8>, Seq<JobView>)>, job: JobView, id: u64)
    ensures
        id_in_queues(enqueue(qv, job), id) <==> (id_in_queues(qv, id) || id == job.id),
{
    let qi = qidx(qv, job.queue);
    lemma_qidx_is_match(qv, job.queue);
    let q2 = enqueue(qv, job);
    if id_in_queues(q2, id) {
        let (q, k) = choose|q: int, k: int|
            0 <= q < q2.len() && 0 <= k < (#[trigger] q2[q]).1.len() && (#[trigger] q2[q].1[k]).id
                == id;
        if qi >= 0 && q == qi && k == qv[qi].1.len() {
        } else if qi < 0 && q == qv.len() {
            assert(q2[q].1 =~= seq![job]);
        } else {
            if qi >= 0 && q == qi {
                assert(qv[q].1[k].id == id);
            } else {
                assert(q2[q] == qv[q]);
            }
            assert(id_in_queues(qv, id));
        }
    }
    if id_in_queues(qv, id) {
        let (q, k) = choose|q: int, k: int|
            0 <= q < qv.len() && 0 <= k < (#[trigger] qv[q]).1.len() && (#[trigger] qv[q].1[k]).id
                == id;
        if qi >= 0 && q == qi {
            assert(q2[qi].1[k].id == id);
        } else {
            assert(q2[q] == qv[q]);
            assert(q2[q].1[k].id == id);
        }
        assert(id_in_queues(q2, id));
    }
    if id == job.id {
        if qi >= 0 {
            assert(q2[qi].1[qv[qi].1.len() as int].id == id);
        } else {
            assert(q2[qv.len() as int].1 =~= seq![job]);
            assert(q2[qv.len() as int].1[0].id == id);
        }
        assert(id_in_queues(q2, id));
    }
}

/// The queues after every job of `js` is put back, in order.
pub open spec fn requeue_all(qv: Seq<(Seq<u8>, Seq<JobView>)>, js: Seq<JobView>) -> Seq<
    (Seq<u8>, Seq<JobView>),
>
    decreases js.len(),
{
    if js.len() == 0 {
        qv
    } else {
        requeue_all(enqueue(qv, js[0]), js.drop_first())
    }
}

/// The wake-ups owed when the jobs of `js` come back, in order: for
/// each, the first waiter of its queue, if one stands.
pub open spec fn notifies(wv: Seq<(u64, Seq<Seq<u8>>)>, js: Seq<JobView>) -> Seq<BrokerMsgView>
    decreases js.len(),
{
    if js.len() == 0 {
        Seq::empty()
    } else {
        (if first_waiter(wv, js[0].queue) >= 0 {
            seq![BrokerMsgView::Notify { client: wv[first_waiter(wv, js[0].queue)].0 }]
        } else {
            Seq::<BrokerMsgView>::empty()
        }) + notifies(wv, js.drop_first())
    }
}

/// Requeueing restores every restored id into the queues, and loses
/// none that already stood there.
pub proof fn lemma_requeue_restores(qv: Seq<(Seq<u8>, Seq<JobView>)>, js: Seq<JobView>)
    ensures
        forall|k: int|
            0 <= k < js.len() ==> id_in_queues(requeue_all(qv, js), (#[trigger] js[k]).id),
        forall|id: u64|
            #[trigger] id_in_queues(qv, id) ==> id_in_queues(requeue_all(qv, js), id),
    decreases js.len(),
{
    if js.len() > 0 {
        let q1 = enqueue(qv, js[0]);
        lemma_requeue_restores(q1, js.drop_first());
        assert forall|k: int| 0 <= k < js.len() implies id_in_queues(
            requeue_all(qv, js),
            (#[trigger] js[k]).id,
        ) by {
            if k == 0 {
                lemma_enqueue_ids(qv, js[0], js[0].id);
                assert(id_in_queues(q1, js[0].id));
            } else {
                assert(js.drop_first()[k - 1] == js[k]);
            }
        }
        assert forall|id: u64| #[trigger] id_in_queues(qv, id) implies id_in_queues(
            requeue_all(qv, js),
            id,
        ) by {
            lemma_enqueue_ids(qv, js[0], id);
            assert(id_in_queues(q1, id));
        }
    }
}

/// An assigned job never also stands in a queue.
pub proof fn lemma_assigned_never_queued(st: BrokerView, id: u64)
    requires
        broker_wf(st),
        id_in_clients(st.clients, id),
    ensures
        !id_in_queues(st.queues, id),
{
}


impl BrokerState {
    /// Where `id` stands among the queues, if anywhere.
    fn find_queued(&self, id: u64) -> (r: Option<(usize, usize)>)
        ensures
            match r {
                Some((q, j)) => q < self.queues@.len() && qpos(self@.queues, id) == q as int && jpos(
                    self@.queues[q as int].1,
                    id,
                ) == j as int && j < self@.queues[q as int].1.len() && self@.queues[q as int].1[
                    j as int
                ].id == id,
                None => qpos(self@.queues, id) == -1,
            },
    {
        let ghost qv = self@.queues;
        let mut q: usize = 0;
        while q < self.queues.len()
            invariant
                0 <= q <= self.queues@.len(),
                qv == self@.queues,
                qv.len() == self.queues@.len(),
                forall|k: int| 0 <= k < q ==> jpos((#[trigger] qv[k]).1, id) < 0,
            decreases self.queues@.len() - q,
        {
            let ghost jobs = qv[q as int].1;
            let mut j: usize = 0;
            while j < self.queues[q].1.len()
                invariant
                    q < self.queues@.len(),
                    0 <= j <= self.queues@[q as int].1@.len(),
                    qv == self@.queues,
                    qv.len() == self.queues@.len(),
                    jobs == qv[q as int].1,
                    jobs.len() == self.queues@[q as int].1@.len(),
                    forall|k: int| 0 <= k < q ==> jpos((#[trigger] qv[k]).1, id) < 0,
                    forall|k: int| 0 <= k < j ==> (#[trigger] jobs[k]).id != id,
                decreases self.queues@[q as int].1@.len() - j,
            {
                proof {
                    assert(jobs[j as int] == self.queues@[q as int].1@[j as int]@);
                }
                if self.queues[q].1[j].id == id {
                    proof {
                        lemma_jpos_from(jobs, id, j as int);
                        lemma_qpos_from(qv, id, q as int);
                    }
                    return Some((q, j));
                }
                j = j + 1;
            }
            proof {
                lemma_jpos_from(jobs, id, jobs.len() as int);
            }
            q = q + 1;
        }
        proof {
            lemma_qpos_from(qv, id, qv.len() as int);
        }
        None
    }

    /// Where `id` stands among the assignments, if anywhere.
    fn find_assigned(&self, id: u64) -> (r: Option<(usize, usize)>)
        ensures
            match r {
                Some((c, j)) => c < self.client_jobs@.len() && j < self@.clients[c as int].1.len()
                    && self@.clients[c as int].1[j as int].id == id && jpos(
                    self@.clients[c as int].1,
                    id,
                ) == j as int && forall|k: int|
                    0 <= k < c ==> jpos((#[trigger] self@.clients[k]).1, id) < 0,
                None => forall|k: int|
                    0 <= k < self@.clients.len() ==> jpos((#[trigger] self@.clients[k]).1, id) < 0,
            },
    {
        let ghost cv = self@.clients;
        let mut c: usize = 0;
        while c < self.client_jobs.len()
            invariant
                0 <= c <= self.client_jobs@.len(),
                cv == self@.clients,
                cv.len() == self.client_jobs@.len(),
                forall|k: int| 0 <= k < c ==> jpos((#[trigger] cv[k]).1, id) < 0,
            decreases self.client_jobs@.len() - c,
        {
            let ghost jobs = cv[c as int].1;
            let mut j: usize = 0;
            while j < self.client_jobs[c].1.len()
                invariant
                    c < self.client_jobs@.len(),
                    0 <= j <= self.client_jobs@[c as int].1@.len(),
                    cv == self@.clients,
                    cv.len() == self.client_jobs@.len(),
                    jobs == cv[c as int].1,
                    jobs.len() == self.client_jobs@[c as int].1@.len(),
                    forall|k: int| 0 <= k < c ==> jpos((#[trigger] cv[k]).1, id) < 0,
                    forall|k: int| 0 <= k < j ==> (#[trigger] jobs[k]).id != id,
                decreases self.client_jobs@[c as int].1@.len() - j,
            {
                proof {
                    assert(jobs[j as int] == self.client_jobs@[c as int].1@[j as int]@);
                }
                if self.client_jobs[c].1[j].id == id {
                    proof {
                        lemma_jpos_from(jobs, id, j as int);
                    }
                    return Some((c, j));
                }
                j = j + 1;
            }
            proof {
                lemma_jpos_from(jobs, id, jobs.len() as int);
            }
            c = c + 1;
        }
        None
    }

    /// Remove a job wherever it stands: the first queue holding it,
    /// else the client working on it.  `Done` when something was
    /// removed, else `NoJob`.
    pub fn delete(&mut self, id: u64) -> (r: Vec<BrokerMsg>)
        requires
            broker_wf(old(self)@),
        ensures
            broker_wf(final (self)@),
            final (self)@.next_id == old(self)@.next_id,
            final (self)@.waiting == old(self)@.waiting,
            ({
                let st = old(self)@;
                let q = qpos(st.queues, id);
                if q >= 0 {
                    let j = jpos(st.queues[q].1, id);
                    &&& final (self)@.queues =~~= st.queues.update(
                        q,
                        (st.queues[q].0, st.queues[q].1.remove(j)),
                    )
                    &&& final (self)@.clients == st.clients
                    &&& bviews(r@) =~~= seq![BrokerMsgView::Done]
                } else if id_in_clients(st.clients, id) {
                    let c = cpos(st.clients, id);
                    let j = jpos(st.clients[c].1, id);
                    &&& final (self)@.queues == st.queues
                    &&& final (self)@.clients =~~= st.clients.update(
                        c,
                        (st.clients[c].0, st.clients[c].1.remove(j)),
                    )
                    &&& bviews(r@) =~~= seq![BrokerMsgView::Done]
                } else {
                    &&& *final (self) == *old(self)
                    &&& bviews(r@) =~~= seq![BrokerMsgView::NoJob]
                }
            }),
    {
        let ghost st = old(self)@;
        let mut r: Vec<BrokerMsg> = Vec::new();
        match self.find_queued(id) {
            Some((q, j)) => {
                proof {
                    assert(st.queues[q as int].1 == jviews(self.queues@[q as int].1@));
                }
                self.queues[q].1.remove(j);
                proof {
                    assert(jviews(self.queues@[q as int].1@) =~~= st.queues[q as int].1.remove(
                        j as int,
                    ));
                    assert(self@.queues =~~= st.queues.update(
                        q as int,
                        (st.queues[q as int].0, st.queues[q as int].1.remove(j as int)),
                    ));
                    lemma_drop_queued_preserves_wf(st, q as int, j as int);
                }
                r.push(BrokerMsg::Done);
                proof {
                    assert(bviews(r@) =~~= seq![BrokerMsgView::Done]);
                }
                return r;
            },
            None => {},
        }
        match self.find_assigned(id) {
            Some((c, j)) => {
                proof {
                    assert(st.clients[c as int].1 == jviews(self.client_jobs@[c as int].1@));
                    assert(id_in_clients(st.clients, id));
                    lemma_cpos_from(st.clients, id, c as int);
                }
                self.client_jobs[c].1.remove(j);
                proof {
                    assert(jviews(self.client_jobs@[c as int].1@) =~~= st.clients[
                        c as int
                    ].1.remove(j as int));
                    assert(self@.clients =~~= st.clients.update(
                        c as int,
                        (st.clients[c as int].0, st.clients[c as int].1.remove(j as int)),
                    ));
                    lemma_drop_assigned_preserves_wf(st, c as int, j as int);
                }
                r.push(BrokerMsg::Done);
                proof {
                    assert(bviews(r@) =~~= seq![BrokerMsgView::Done]);
                }
            },
            None => {
                proof {
                    if id_in_clients(st.clients, id) {
                        let (c, k) = choose|c: int, k: int|
                            0 <= c < st.clients.len() && 0 <= k < (#[trigger] st.clients[c]).1.len()
                                && (#[trigger] st.clients[c].1[k]).id == id;
                        assert(jpos(st.clients[c].1, id) >= 0) by {
                            if jpos(st.clients[c].1, id) < 0 {
                                lemma_jpos_none(st.clients[c].1, id);
                            }
                        }
                        assert(false);
                    }
                }
                r.push(BrokerMsg::NoJob);
                proof {
                    assert(bviews(r@) =~~= seq![BrokerMsgView::NoJob]);
                }
            },
        }
        r
    }

    /// Give a job back: only its holder may abort it; the job returns
    /// to its queue and one waiter of that queue is woken.
    pub fn abort(&mut self, client: u64, id: u64) -> (r: Vec<BrokerMsg>)
        requires
            broker_wf(old(self)@),
        ensures
            broker_wf(final (self)@),
            final (self)@.next_id == old(self)@.next_id,
            final (self)@.waiting == old(self)@.waiting,
            ({
                let st = old(self)@;
                let ci = cidx(st.clients, client);
                if ci < 0 {
                    &&& *final (self) == *old(self)
                    &&& bviews(r@) =~~= seq![BrokerMsgView::NoJob]
                } else {
                    let j = jpos(st.clients[ci].1, id);
                    if j < 0 {
                        &&& *final (self) == *old(self)
                        &&& bviews(r@) =~~= seq![BrokerMsgView::Rejected]
                    } else {
                        let job = st.clients[ci].1[j];
                        &&& final (self)@.clients =~~= st.clients.update(
                            ci,
                            (client, st.clients[ci].1.remove(j)),
                        )
                        &&& final (self)@.queues =~~= enqueue(st.queues, job)
                        &&& ({
                            let w = first_waiter(st.waiting, job.queue);
                            if w >= 0 {
                                bviews(r@) =~~= seq![
                                    BrokerMsgView::Done,
                                    BrokerMsgView::Notify { client: st.waiting[w].0 },
                                ]
                            } else {
                                bviews(r@) =~~= seq![BrokerMsgView::Done]
                            }
                        })
                    }
                }
            }),
    {
        let ghost st = old(self)@;
        let ci = match self.find_client(client) {
            Some(ci) => ci,
            None => {
                let mut r: Vec<BrokerMsg> = Vec::new();
                r.push(BrokerMsg::NoJob);
                proof {
                    assert(bviews(r@) =~~= seq![BrokerMsgView::NoJob]);
                }
                return r;
            },
        };
        let ghost jobs = st.clients[ci as int].1;
        let mut j: usize = 0;
        let mut found = false;
        while !found && j < self.client_jobs[ci].1.len()
            invariant
                ci < self.client_jobs@.len(),
                0 <= j <= self.client_jobs@[ci as int].1@.len(),
                st == self@,
                *self == *old(self),
                jobs == st.clients[ci as int].1,
                jobs.len() == self.client_jobs@[ci as int].1@.len(),
                found ==> j < jobs.len() && jobs[j as int].id == id,
                forall|k: int| 0 <= k < j ==> (#[trigger] jobs[k]).id != id,
            decreases self.client_jobs@[ci as int].1@.len() - j, (if found {
                0int
            } else {
                1int
            }),
        {
            proof {
                assert(jobs[j as int] == self.client_jobs@[ci as int].1@[j as int]@);
            }
            if self.client_jobs[ci].1[j].id == id {
                found = true;
            } else {
                j = j + 1;
            }
        }
        proof {
            if found {
                lemma_jpos_from(jobs, id, j as int);
            } else {
                lemma_jpos_from(jobs, id, jobs.len() as int);
            }
        }
        if !found {
            let mut r: Vec<BrokerMsg> = Vec::new();
            r.push(BrokerMsg::Rejected);
            proof {
                assert(bviews(r@) =~~= seq![BrokerMsgView::Rejected]);
            }
            return r;
        }
        let job = self.client_jobs[ci].1.remove(j);
        proof {
            assert(job@ == jobs[j as int]);
            assert(jviews(self.client_jobs@[ci as int].1@) =~~= jobs.remove(j as int));
            lemma_cidx_is_match(st.clients, client);
            assert(self@.clients =~~= st.clients.update(
                ci as int,
                (client, jobs.remove(j as int)),
            ));
            lemma_drop_assigned_preserves_wf(st, ci as int, j as int);
        }
        let ghost st1 = self@;
        let mut r: Vec<BrokerMsg> = Vec::new();
        r.push(BrokerMsg::Done);
        match self.find_waiter_for(job.queue.as_slice()) {
            Some(w) => {
                let c = self.waiting_clients[w].0;
                r.push(BrokerMsg::Notify { client: c });
            },
            None => {},
        }
        let ghost jv = job@;
        match self.find_queue(job.queue.as_slice()) {
            Some(qi) => {
                proof {
                    lemma_qidx_is_match(st1.queues, jv.queue);
                    assert(st1.queues[qi as int] == (
                        self.queues@[qi as int].0@,
                        jviews(self.queues@[qi as int].1@),
                    ));
                }
                self.queues[qi].1.push(job);
                proof {
                    assert(jviews(self.queues@[qi as int].1@) =~~= st1.queues[qi as int].1.push(
                        jv,
                    ));
                    assert(self@.queues =~~= enqueue(st1.queues, jv));
                }
            },
            None => {
                let mut js: Vec<Job> = Vec::new();
                let ghost jq = jv.queue;
                let mut qname2: Vec<u8> = Vec::new();
                qname2.extend_from_slice(job.queue.as_slice());
                proof {
                    assert(qname2@ =~= jq);
                }
                js.push(job);
                self.queues.push((qname2, js));
                proof {
                    assert(self@.queues =~~= st1.queues.push((jq, seq![jv])));
                    assert(self@.queues =~~= enqueue(st1.queues, jv));
                }
            },
        }
        proof {
            lemma_enqueue_preserves_wf(st1, jv);
            assert(enqueue(st1.queues, jv) == enqueue(st.queues, jv));
            assert(bviews(r@) =~~= (if first_waiter(st.waiting, jv.queue) >= 0 {
                seq![
                    BrokerMsgView::Done,
                    BrokerMsgView::Notify {
                        client: st.waiting[first_waiter(st.waiting, jv.queue)].0,
                    },
                ]
            } else {
                seq![BrokerMsgView::Done]
            }));
        }
        r
    }
}

/// `jpos` finds nothing only when nothing is there.
pub proof fn lemma_jpos_none(jobs: Seq<JobView>, id: u64)
    ensures
        jpos(jobs, id) < 0 ==> forall|k: int| 0 <= k < jobs.len() ==> (#[trigger] jobs[k]).id
            != id,
    decreases jobs.len(),
{
    if jobs.len() > 0 && jobs[0].id != id {
        lemma_jpos_none(jobs.drop_first(), id);
        if jpos(jobs, id) < 0 {
            assert forall|k: int| 0 <= k < jobs.len() implies (#[trigger] jobs[k]).id != id by {
                if k > 0 {
                    assert(jobs.drop_first()[k - 1] == jobs[k]);
                }
            }
        }
    }
}


impl BrokerState {
    /// A client went away: every job it held returns to its queue,
    /// in order, and for each returned job one waiter of that queue
    /// is woken.  Exactly the held jobs are restored; nothing else
    /// moves.
    pub fn disconnect(&mut self, client: u64) -> (r: Vec<BrokerMsg>)
        requires
            broker_wf(old(self)@),
        ensures
            broker_wf(final (self)@),
            final (self)@.next_id == old(self)@.next_id,
            final (self)@.waiting == old(self)@.waiting,
            ({
                let st = old(self)@;
                let ci = cidx(st.clients, client);
                if ci < 0 {
                    *final (self) == *old(self) && r@.len() == 0
                } else {
                    &&& final (self)@.clients =~~= st.clients.remove(ci)
                    &&& final (self)@.queues =~~= requeue_all(st.queues, st.clients[ci].1)
                    &&& bviews(r@) =~~= notifies(st.waiting, st.clients[ci].1)
                }
            }),
    {
        let ghost st = old(self)@;
        let ci = match self.find_client(client) {
            Some(ci) => ci,
            None => {
                return Vec::new();
            },
        };
        proof {
            lemma_cidx_is_match(st.clients, client);
        }
        let entry = self.client_jobs.remove(ci);
        let mut jobs = entry.1;
        let ghost all = st.clients[ci as int].1;
        proof {
            assert(jviews(jobs@) == all);
            assert(self@.clients =~~= st.clients.remove(ci as int));
            lemma_remove_client_entry_wf(st, ci as int);
        }
        let mut r: Vec<BrokerMsg> = Vec::new();
        let ghost base_clients = self@.clients;
        while jobs.len() > 0
            invariant
                broker_wf(self@),
                self@.next_id == st.next_id,
                self@.waiting == st.waiting,
                self@.clients == base_clients,
                base_clients =~~= st.clients.remove(cidx(st.clients, client)),
                cidx(st.clients, client) == ci as int,
                0 <= ci < st.clients.len(),
                requeue_all(st.queues, all) == requeue_all(self@.queues, jviews(jobs@)),
                notifies(st.waiting, all) =~~= bviews(r@) + notifies(st.waiting, jviews(jobs@)),
                forall|k: int|
                    0 <= k < jobs@.len() ==> !id_in_queues(
                        self@.queues,
                        (#[trigger] jviews(jobs@)[k]).id,
                    ) && !id_in_clients(self@.clients, jviews(jobs@)[k].id) && jviews(
                        jobs@,
                    )[k].id < st.next_id,
                forall|a: int, b: int|
                    0 <= a < b < jobs@.len() ==> (#[trigger] jviews(jobs@)[a]).id != (
                    #[trigger] jviews(jobs@)[b]).id,
            decreases jobs@.len(),
        {
            let ghost jvs = jviews(jobs@);
            let job = jobs.remove(0);
            let ghost jv = job@;
            proof {
                assert(jv == jvs[0]);
                assert(jviews(jobs@) =~~= jvs.drop_first());
            }
            match self.find_waiter_for(job.queue.as_slice()) {
                Some(w) => {
                    let c = self.waiting_clients[w].0;
                    let ghost prev = r@;
                    r.push(BrokerMsg::Notify { client: c });
                    proof {
                        assert(bviews(r@) =~~= bviews(prev).push(
                            BrokerMsgView::Notify { client: st.waiting[w as int].0 },
                        ));
                        assert(bviews(prev).push(
                            BrokerMsgView::Notify { client: st.waiting[w as int].0 },
                        ) =~~= bviews(prev) + seq![
                            BrokerMsgView::Notify { client: st.waiting[w as int].0 },
                        ]);
                    }
                },
                None => {
                    proof {
                        assert(bviews(r@) + Seq::<BrokerMsgView>::empty() =~~= bviews(r@));
                    }
                },
            }
            let ghost st1 = self@;
            match self.find_queue(job.queue.as_slice()) {
                Some(qi) => {
                    proof {
                        lemma_qidx_is_match(st1.queues, jv.queue);
                        assert(st1.queues[qi as int] == (
                            self.queues@[qi as int].0@,
                            jviews(self.queues@[qi as int].1@),
                        ));
                    }
                    self.queues[qi].1.push(job);
                    proof {
                        assert(jviews(self.queues@[qi as int].1@) =~~= st1.queues[
                            qi as int
                        ].1.push(jv));
                        assert(self@.queues =~~= enqueue(st1.queues, jv));
                    }
                },
                None => {
                    let mut js: Vec<Job> = Vec::new();
                    let mut qname2: Vec<u8> = Vec::new();
                    qname2.extend_from_slice(job.queue.as_slice());
                    proof {
                        assert(qname2@ =~= jv.queue);
                    }
                    js.push(job);
                    self.queues.push((qname2, js));
                    proof {
                        assert(self@.queues =~~= st1.queues.push((jv.queue, seq![jv])));
                        assert(self@.queues =~~= enqueue(st1.queues, jv));
                    }
                },
            }
            proof {
                lemma_enqueue_preserves_wf(st1, jv);
                assert forall|k: int|
                    0 <= k < jobs@.len() implies !id_in_queues(
                    self@.queues,
                    (#[trigger] jviews(jobs@)[k]).id,
                ) && !id_in_clients(self@.clients, jviews(jobs@)[k].id) && jviews(jobs@)[k].id
                    < st.next_id by {
                    assert(jviews(jobs@)[k] == jvs[k + 1]);
                    lemma_enqueue_ids(st1.queues, jv, jvs[k + 1].id);
                }
                assert forall|a: int, b: int|
                    0 <= a < b < jobs@.len() implies (#[trigger] jviews(jobs@)[a]).id != (
                #[trigger] jviews(jobs@)[b]).id by {
                    assert(jviews(jobs@)[a] == jvs[a + 1] && jviews(jobs@)[b] == jvs[b + 1]);
                }
            }
        }
        proof {
            assert(jviews(jobs@) =~~= Seq::<JobView>::empty());
            assert(requeue_all(self@.queues, Seq::<JobView>::empty()) == self@.queues);
            assert(notifies(st.waiting, Seq::<JobView>::empty()) =~~= Seq::<BrokerMsgView>::empty());
            assert(bviews(r@) + Seq::<BrokerMsgView>::empty() =~~= bviews(r@));
        }
        r
    }
}

/// Dropping a whole client entry keeps the broker well formed, and
/// the jobs of that entry then stand nowhere.
proof fn lemma_remove_client_entry_wf(st: BrokerView, ci: int)
    requires
        broker_wf(st),
        0 <= ci < st.clients.len(),
    ensures
        ({
            let c2 = st.clients.remove(ci);
            let st2 = BrokerView {
                next_id: st.next_id,
                queues: st.queues,
                clients: c2,
                waiting: st.waiting,
            };
            &&& broker_wf(st2)
            &&& forall|k: int|
                0 <= k < st.clients[ci].1.len() ==> !id_in_queues(
                    st.queues,
                    (#[trigger] st.clients[ci].1[k]).id,
                ) && !id_in_clients(c2, st.clients[ci].1[k].id)
            &&& forall|a: int, b: int|
                0 <= a < b < st.clients[ci].1.len() ==> (#[trigger] st.clients[ci].1[a]).id != (
                #[trigger] st.clients[ci].1[b]).id
        }),
{
    let c2 = st.clients.remove(ci);
    assert forall|c: int, k: int|
        0 <= c < c2.len() && 0 <= k < (#[trigger] c2[c]).1.len() implies (#[trigger] c2[c].1[k])
        == st.clients[if c < ci {
        c
    } else {
        c + 1
    }].1[k] && 0 <= (if c < ci {
        c
    } else {
        c + 1
    }) < st.clients.len() && (if c < ci {
        c
    } else {
        c + 1
    }) != ci by {
        if c < ci {
            assert(c2[c] == st.clients[c]);
        } else {
            assert(c2[c] == st.clients[c + 1]);
        }
    }
    assert forall|a: int, b: int| 0 <= a < b < c2.len() implies (#[trigger] c2[a]).0 != (
    #[trigger] c2[b]).0 by {
        let a2 = if a < ci {
            a
        } else {
            a + 1
        };
        let b2 = if b < ci {
            b
        } else {
            b + 1
        };
        assert(c2[a].0 == st.clients[a2].0 && c2[b].0 == st.clients[b2].0);
    }
    assert forall|id: u64| !(#[trigger] id_in_queues(st.queues, id) && id_in_clients(c2, id)) by {
        if id_in_queues(st.queues, id) && id_in_clients(c2, id) {
            let (c, k) = choose|c: int, k: int|
                0 <= c < c2.len() && 0 <= k < (#[trigger] c2[c]).1.len() && (
                #[trigger] c2[c].1[k]).id == id;
            assert(id_in_clients(st.clients, id));
        }
    }
    assert forall|k: int| 0 <= k < st.clients[ci].1.len() implies !id_in_queues(
        st.queues,
        (#[trigger] st.clients[ci].1[k]).id,
    ) && !id_in_clients(c2, st.clients[ci].1[k].id) by {
        let id = st.clients[ci].1[k].id;
        assert(id_in_clients(st.clients, id));
        if id_in_clients(c2, id) {
            let (c, m) = choose|c: int, m: int|
                0 <= c < c2.len() && 0 <= m < (#[trigger] c2[c]).1.len() && (
                #[trigger] c2[c].1[m]).id == id;
            let c3 = if c < ci {
                c
            } else {
                c + 1
            };
            assert(st.clients[c3].1[m].id == id);
            assert(st.clients[ci].1[k].id == id);
            assert(false);
        }
    }
}

} // verus!
