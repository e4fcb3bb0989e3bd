use vstd::prelude::*;

verus! {

/// Why a pool could not be made.
#[derive(Debug, PartialEq, Eq, Structural, Clone, Copy)]
pub enum PoolCreationError {
    NonPositiveSize,
}

/// What a worker that has no job should do next.
#[derive(Debug, PartialEq, Eq, Structural, Clone, Copy)]
pub enum WorkerStep {
    /// Run the job with this id, then report it finished.
    Run(u64),
    /// Block until a job is submitted or the pool shuts down.
    Wait,
    /// Stop: the pool is shut down and no job is left.
    Exit,
}

/// What the owner of a pool should do on a call to shut it down.
#[derive(Debug, PartialEq, Eq, Structural, Clone, Copy)]
pub enum ShutdownStep {
    /// Wake every waiting worker, then wait for each worker thread to end.
    JoinWorkers,
    /// Nothing: the pool was already shut down and its workers joined.
    AlreadyShutDown,
}

/// The state of a worker pool, as the rules of the pool see it.
pub struct PoolView {
    pub size: nat,
    /// Whether jobs are still accepted.
    pub open: bool,
    /// Ids of the jobs submitted and not yet taken, oldest first.
    pub queue: Seq<u64>,
    /// For each worker, the job it is running, if any.
    pub running: Seq<Option<u64>>,
    /// For each worker, whether it has stopped.
    pub exited: Seq<bool>,
    /// The id the next accepted job gets; also the number of jobs accepted so far.
    pub next_id: nat,
    /// How many jobs have finished.
    pub finished: nat,
}

/// How many workers are running a job.
pub open spec fn busy(running: Seq<Option<u64>>) -> nat
    decreases running.len(),
{
    if running.len() == 0 {
        0
    } else {
        busy(running.drop_last()) + if running.last() is Some {
            1nat
        } else {
            0nat
        }
    }
}

impl PoolView {
    /// The pool's invariant.
    pub open spec fn wf(self) -> bool {
        &&& self.size >= 1
        &&& self.running.len() == self.size
        &&& self.exited.len() == self.size
        &&& forall|w: int| 0 <= w < self.size && #[trigger] self.exited[w] ==> self.running[w] is None
            && !self.open && self.queue.len() == 0
        &&& forall|i: int, j: int|
            0 <= i < j < self.queue.len() ==> #[trigger] self.queue[i] < #[trigger] self.queue[j]
        &&& forall|i: int| 0 <= i < self.queue.len() ==> #[trigger] self.queue[i] < self.next_id
        &&& self.next_id == self.queue.len() + busy(self.running) + self.finished
    }

    /// Whether worker `w` is alive and has no job.
    pub open spec fn idle(self, w: int) -> bool {
        0 <= w < self.size && self.running[w] is None && !self.exited[w]
    }
}

/// A new pool of `size` workers, open and with nothing to do.
pub open spec fn new_pool(size: nat) -> PoolView {
    PoolView {
        size,
        open: true,
        queue: seq![],
        running: Seq::new(size, |w: int| None),
        exited: Seq::new(size, |w: int| false),
        next_id: 0,
        finished: 0,
    }
}

/// A submission: while the pool is open (and ids are left) the job gets the
/// next id and joins the end of the queue; otherwise it is refused and nothing changes.
pub open spec fn submit_step(p: PoolView) -> (PoolView, Option<u64>) {
    if p.open && p.next_id < u64::MAX {
        (PoolView { queue: p.queue.push(p.next_id as u64), next_id: p.next_id + 1, ..p }, Some(p.next_id as u64))
    } else {
        (p, None)
    }
}

/// An idle worker asks for work: it takes the oldest queued job; with none
/// queued it waits while the pool is open and stops once it is shut down.
pub open spec fn next_job_step(p: PoolView, w: int) -> (PoolView, WorkerStep) {
    if p.queue.len() > 0 {
        (
            PoolView {
                queue: p.queue.drop_first(),
                running: p.running.update(w, Some(p.queue[0])),
                ..p
            },
            WorkerStep::Run(p.queue[0]),
        )
    } else if !p.open {
        (PoolView { exited: p.exited.update(w, true), ..p }, WorkerStep::Exit)
    } else {
        (p, WorkerStep::Wait)
    }
}

/// Worker `w` has finished its job.
pub open spec fn finish_step(p: PoolView, w: int) -> PoolView {
    PoolView { running: p.running.update(w, None), finished: p.finished + 1, ..p }
}

/// A call to shut down: the first closes the pool to new jobs and asks for the
/// workers to be joined; any later one does nothing.
pub open spec fn shutdown_step(p: PoolView) -> (PoolView, ShutdownStep) {
    if p.open {
        (PoolView { open: false, ..p }, ShutdownStep::JoinWorkers)
    } else {
        (p, ShutdownStep::AlreadyShutDown)
    }
}

/// Replacing one slot changes the count of busy workers by what the slot held.
proof fn lemma_busy_update(running: Seq<Option<u64>>, w: int, v: Option<u64>)
    requires
        0 <= w < running.len(),
    ensures
        busy(running.update(w, v)) + (if running[w] is Some { 1int } else { 0int })
            == busy(running) + (if v is Some { 1int } else { 0int }),
    decreases running.len(),
{
    let u = running.update(w, v);
    if w == running.len() - 1 {
        assert(u.drop_last() =~= running.drop_last());
    } else {
        lemma_busy_update(running.drop_last(), w, v);
        assert(u.drop_last() =~= running.drop_last().update(w, v));
    }
}

/// No slot is busy in a sequence of empty slots.
proof fn lemma_busy_none(running: Seq<Option<u64>>)
    requires
        forall|w: int| 0 <= w < running.len() ==> #[trigger] running[w] is None,
    ensures
        busy(running) == 0,
    decreases running.len(),
{
    if running.len() > 0 {
        lemma_busy_none(running.drop_last());
    }
}

/// At most one job per worker.
proof fn lemma_busy_bounded(running: Seq<Option<u64>>)
    ensures
        busy(running) <= running.len(),
    decreases running.len(),
{
    if running.len() > 0 {
        lemma_busy_bounded(running.drop_last());
    }
}

/// Shutting down twice is safe: the first call asks for the workers to be
/// joined, a second asks for nothing (so no worker is joined twice) and changes
/// nothing.
pub proof fn lemma_shutdown_idempotent(p: PoolView)
    requires
        p.wf(),
    ensures
        shutdown_step(p).0.wf(),
        p.open ==> shutdown_step(p).1 == ShutdownStep::JoinWorkers,
        shutdown_step(shutdown_step(p).0).1 == ShutdownStep::AlreadyShutDown,
        shutdown_step(shutdown_step(p).0).0 == shutdown_step(p).0,
{
}

/// Once the pool is shut down no worker is told to wait: each takes a job that
/// is still queued or stops, so joining the workers does not hang on an idle one.
pub proof fn lemma_no_wait_after_shutdown(p: PoolView, w: int)
    requires
        p.wf(),
        !p.open,
        p.idle(w),
    ensures
        next_job_step(p, w).1 != WorkerStep::Wait,
        p.queue.len() == 0 ==> next_job_step(p, w).1 == WorkerStep::Exit,
{
}

/// However many jobs are submitted, no more of them run at once than the pool
/// has workers.
pub proof fn lemma_running_bounded(p: PoolView)
    requires
        p.wf(),
    ensures
        busy(p.running) <= p.size,
{
    lemma_busy_bounded(p.running);
}

/// No accepted job is lost: each is queued, running or finished. And no
/// worker that asks for work waits while a job is queued: it gets the oldest.
pub proof fn lemma_jobs_kept(p: PoolView, w: int)
    requires
        p.wf(),
        p.idle(w),
    ensures
        p.next_id == p.queue.len() + busy(p.running) + p.finished,
        p.queue.len() > 0 ==> next_job_step(p, w).1 == WorkerStep::Run(p.queue[0]),
        p.queue.len() > 0 ==> next_job_step(p, w).0.queue.len() == p.queue.len() - 1,
{
}

/// Each worker from `w` on that is idle asks once for work, in order.
pub open spec fn assign_from(p: PoolView, w: int) -> PoolView
    decreases p.size - w,
{
    if w < 0 || w >= p.size {
        p
    } else if p.idle(w) {
        assign_from(next_job_step(p, w).0, w + 1)
    } else {
        assign_from(p, w + 1)
    }
}

/// Each worker from `w` on that runs a job finishes it.
pub open spec fn finish_from(p: PoolView, w: int) -> PoolView
    decreases p.size - w,
{
    if w < 0 || w >= p.size {
        p
    } else if p.running[w] is Some {
        finish_from(finish_step(p, w), w + 1)
    } else {
        finish_from(p, w + 1)
    }
}

/// One round: every idle worker asks for work, then every job that runs is released.
pub open spec fn round(p: PoolView) -> PoolView {
    finish_from(assign_from(p, 0), 0)
}

/// `n` rounds in a row.
pub open spec fn rounds(p: PoolView, n: nat) -> PoolView
    decreases n,
{
    if n == 0 {
        p
    } else {
        rounds(round(p), (n - 1) as nat)
    }
}

/// An open pool with no job running and no worker stopped.
pub open spec fn at_rest(p: PoolView) -> bool {
    &&& p.wf()
    &&& p.open
    &&& forall|w: int| 0 <= w < p.size ==> #[trigger] p.running[w] is None && !p.exited[w]
}

proof fn lemma_assign_from(p: PoolView, w: int)
    requires
        p.wf(),
        p.open,
        0 <= w <= p.size,
        forall|v: int| w <= v < p.size ==> #[trigger] p.running[v] is None && !p.exited[v],
    ensures
        ({
            let q = assign_from(p, w);
            let m = if p.queue.len() < p.size - w { p.queue.len() as int } else { p.size - w };
            &&& q.wf()
            &&& q.open
            &&& q.size == p.size
            &&& q.exited == p.exited
            &&& q.finished == p.finished
            &&& q.next_id == p.next_id
            &&& q.queue == p.queue.subrange(m, p.queue.len() as int)
            &&& busy(q.running) == busy(p.running) + m
        }),
    decreases p.size - w,
{
    if w < p.size {
        if p.queue.len() > 0 {
            let p2 = next_job_step(p, w).0;
            lemma_busy_update(p.running, w, Some(p.queue[0]));
            assert forall|i: int, j: int| 0 <= i < j < p2.queue.len() implies #[trigger] p2.queue[i]
                < #[trigger] p2.queue[j] by {
                assert(p2.queue[i] == p.queue[i + 1]);
                assert(p2.queue[j] == p.queue[j + 1]);
            }
            assert forall|i: int| 0 <= i < p2.queue.len() implies #[trigger] p2.queue[i]
                < p2.next_id by {
                assert(p2.queue[i] == p.queue[i + 1]);
            }
            assert forall|v: int| w + 1 <= v < p2.size implies #[trigger] p2.running[v] is None
                && !p2.exited[v] by {
                assert(p2.running[v] == p.running[v]);
            }
            lemma_assign_from(p2, w + 1);
            let m2 = if p2.queue.len() < p.size - w - 1 { p2.queue.len() as int } else { p.size - w - 1 };
            assert(p2.queue.subrange(m2, p2.queue.len() as int) =~= p.queue.subrange(
                m2 + 1,
                p.queue.len() as int,
            ));
        } else {
            lemma_assign_from(p, w + 1);
            assert(p.queue.subrange(0, 0) =~= p.queue);
        }
    } else {
        assert(p.queue.subrange(0, p.queue.len() as int) =~= p.queue);
    }
}

proof fn lemma_finish_from(p: PoolView, w: int)
    requires
        p.wf(),
        0 <= w <= p.size,
        forall|v: int| 0 <= v < w ==> #[trigger] p.running[v] is None,
    ensures
        ({
            let q = finish_from(p, w);
            &&& q.wf()
            &&& q.open == p.open
            &&& q.size == p.size
            &&& q.exited == p.exited
            &&& q.queue == p.queue
            &&& q.next_id == p.next_id
            &&& q.finished == p.finished + busy(p.running)
            &&& forall|v: int| 0 <= v < q.size ==> #[trigger] q.running[v] is None
        }),
    decreases p.size - w,
{
    if w < p.size {
        if p.running[w] is Some {
            let p2 = finish_step(p, w);
            lemma_busy_update(p.running, w, None);
            assert forall|v: int| 0 <= v < w + 1 implies #[trigger] p2.running[v] is None by {
                if v < w {
                    assert(p2.running[v] == p.running[v]);
                }
            }
            lemma_finish_from(p2, w + 1);
        } else {
            lemma_finish_from(p, w + 1);
        }
    } else {
        lemma_busy_none(p.running);
    }
}

/// One round of a pool at rest runs as many queued jobs as there are workers
/// (or all of them, where fewer are queued) and leaves it at rest.
proof fn lemma_round(p: PoolView)
    requires
        at_rest(p),
    ensures
        ({
            let q = round(p);
            let m = if p.queue.len() < p.size { p.queue.len() as int } else { p.size as int };
            &&& at_rest(q)
            &&& q.size == p.size
            &&& q.next_id == p.next_id
            &&& q.queue.len() == p.queue.len() - m
            &&& q.finished == p.finished + m
        }),
{
    lemma_busy_none(p.running);
    lemma_assign_from(p, 0);
    let a = assign_from(p, 0);
    lemma_finish_from(a, 0);
}

/// Jobs submitted to an open pool with nothing running all finish, at most as
/// many at a time as there are workers, once each job that runs is released:
/// after `n` rounds, where `n` rounds give each queued job a worker, none is
/// left queued and every job accepted has finished.
pub proof fn lemma_all_jobs_complete(p: PoolView, n: nat)
    requires
        at_rest(p),
        p.queue.len() <= n * p.size,
    ensures
        at_rest(rounds(p, n)),
        rounds(p, n).queue.len() == 0,
        rounds(p, n).finished == p.next_id,
    decreases n,
{
    lemma_busy_none(p.running);
    if n == 0 {
        assert(p.queue.len() == 0);
    } else {
        lemma_round(p);
        let q = round(p);
        assert(q.queue.len() <= (n - 1) as nat * q.size) by (nonlinear_arith)
            requires
                q.queue.len() == p.queue.len() - (if p.queue.len() < p.size { p.queue.len() as int } else { p.size as int }),
                p.queue.len() <= n * p.size,
                q.size == p.size,
                n >= 1,
        ;
        lemma_all_jobs_complete(q, (n - 1) as nat);
        lemma_busy_none(q.running);
    }
}

/// The rules of a worker pool: which job each worker runs and when workers stop.
pub struct PoolState {
    size: usize,
    open: bool,
    queue: Vec<u64>,
    running: Vec<Option<u64>>,
    exited: Vec<bool>,
    next_id: u64,
    finished: Ghost<nat>,
}

impl View for PoolState {
    type V = PoolView;

    closed spec fn view(&self) -> PoolView {
        PoolView {
            size: self.size as nat,
            open: self.open,
            queue: self.queue@,
            running: self.running@,
            exited: self.exited@,
            next_id: self.next_id as nat,
            finished: self.finished@,
        }
    }
}

impl PoolState {
    /// A pool of `size` workers; a size of zero is refused.
    pub fn new(size: usize) -> (r: Result<PoolState, PoolCreationError>)
        ensures
            size == 0 ==> r == Err::<PoolState, PoolCreationError>(
                PoolCreationError::NonPositiveSize,
            ),
            size > 0 ==> r is Ok && r->Ok_0@ == new_pool(size as nat) && r->Ok_0@.wf(),
    {
        if size == 0 {
            return Err(PoolCreationError::NonPositiveSize);
        }
        let mut running: Vec<Option<u64>> = Vec::new();
        let mut exited: Vec<bool> = Vec::new();
        let mut i: usize = 0;
        while i < size
            invariant
                i <= size,
                running@ == Seq::new(i as nat, |w: int| None::<u64>),
                exited@ == Seq::new(i as nat, |w: int| false),
            decreases size - i,
        {
            running.push(None);
            exited.push(false);
            i = i + 1;
            assert(running@ =~= Seq::new(i as nat, |w: int| None::<u64>));
            assert(exited@ =~= Seq::new(i as nat, |w: int| false));
        }
        let pool = PoolState {
            size,
            open: true,
            queue: Vec::new(),
            running,
            exited,
            next_id: 0,
            finished: Ghost(0),
        };
        assert(pool@ =~= new_pool(size as nat));
        proof {
            lemma_busy_none(pool@.running);
        }
        Ok(pool)
    }

    /// The number of workers.
    pub fn size(&self) -> (r: usize)
        ensures
            r == self@.size,
    {
        self.size
    }

    /// Whether jobs are still accepted.
    pub fn is_open(&self) -> (r: bool)
        ensures
            r == self@.open,
    {
        self.open
    }

    /// Whether worker `w` is alive and has no job.
    pub fn is_idle(&self, w: usize) -> (r: bool)
        requires
            self@.wf(),
        ensures
            r == self@.idle(w as int),
    {
        w < self.size && self.running[w].is_none() && !self.exited[w]
    }

    /// Whether worker `w` is running a job.
    pub fn is_busy(&self, w: usize) -> (r: bool)
        requires
            self@.wf(),
        ensures
            r == (w < self@.size && self@.running[w as int] is Some),
    {
        w < self.size && self.running[w].is_some()
    }

    /// Submits a job; gives its id, or nothing where the pool no longer accepts jobs.
    pub fn submit(&mut self) -> (r: Option<u64>)
        requires
            old(self)@.wf(),
        ensures
            (final(self)@, r) == submit_step(old(self)@),
            final(self)@.wf(),
    {
        if self.open && self.next_id < u64::MAX {
            let id = self.next_id;
            self.queue.push(id);
            self.next_id = id + 1;
            assert(self@ =~= submit_step(old(self)@).0);
            Some(id)
        } else {
            None
        }
    }

    /// Worker `w`, alive and without a job, asks what to do.
    pub fn next_job(&mut self, w: usize) -> (r: WorkerStep)
        requires
            old(self)@.wf(),
            old(self)@.idle(w as int),
        ensures
            (final(self)@, r) == next_job_step(old(self)@, w as int),
            final(self)@.wf(),
    {
        if self.queue.len() > 0 {
            let id = self.queue.remove(0);
            self.running.set(w, Some(id));
            proof {
                lemma_busy_update(old(self)@.running, w as int, Some(id));
                assert forall|i: int, j: int| 0 <= i < j < self@.queue.len() implies #[trigger] self@.queue[i]
                    < #[trigger] self@.queue[j] by {
                    assert(self@.queue[i] == old(self)@.queue[i + 1]);
                    assert(self@.queue[j] == old(self)@.queue[j + 1]);
                }
                assert forall|i: int| 0 <= i < self@.queue.len() implies #[trigger] self@.queue[i]
                    < self@.next_id by {
                    assert(self@.queue[i] == old(self)@.queue[i + 1]);
                }
            }
            assert(self@ =~= next_job_step(old(self)@, w as int).0);
            WorkerStep::Run(id)
        } else if !self.open {
            self.exited.set(w, true);
            assert(self@ =~= next_job_step(old(self)@, w as int).0);
            WorkerStep::Exit
        } else {
            WorkerStep::Wait
        }
    }

    /// Worker `w` reports that its job has finished.
    pub fn finish_job(&mut self, w: usize)
        requires
            old(self)@.wf(),
            w < old(self)@.size,
            old(self)@.running[w as int] is Some,
        ensures
            final(self)@ == finish_step(old(self)@, w as int),
            final(self)@.wf(),
    {
        self.running.set(w, None);
        self.finished = Ghost(self.finished@ + 1);
        proof {
            lemma_busy_update(old(self)@.running, w as int, None);
        }
        assert(self@ =~= finish_step(old(self)@, w as int));
    }

    /// Shuts the pool down: see `shutdown_step`.
    pub fn shutdown(&mut self) -> (r: ShutdownStep)
        requires
            old(self)@.wf(),
        ensures
            (final(self)@, r) == shutdown_step(old(self)@),
            final(self)@.wf(),
    {
        if self.open {
            self.open = false;
            assert(self@ =~= shutdown_step(old(self)@).0);
            ShutdownStep::JoinWorkers
        } else {
            ShutdownStep::AlreadyShutDown
        }
    }
}

} // verus!
