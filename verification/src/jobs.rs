use vstd::prelude::*;

use crate::frontier::{
    lemma_frontier_dedup_and_bounds, spec_admit, Frontier, FrontierEntry, FrontierModel,
};
use crate::parser::{normal_or_self, normalize_url, seq_views};
use crate::status::JobStatus;

verus! {

/// What a caller asks a job to do: the seeds to start from, the hard page
/// and depth caps, and the request rate the job's fetches must respect.
pub struct CrawlConfig {
    pub seed_urls: Vec<String>,
    pub max_pages: usize,
    pub max_depth: u32,
    pub rate_per_second: u32,
}

impl CrawlConfig {
    /// A config is accepted when it has at least one seed, a positive page
    /// cap, and a positive rate.
    pub open spec fn spec_valid(self) -> bool {
        self.max_pages > 0 && self.seed_urls@.len() > 0 && self.rate_per_second > 0
    }

    pub fn valid(&self) -> (r: bool)
        ensures
            r == self.spec_valid(),
    {
        self.max_pages > 0 && self.seed_urls.len() > 0 && self.rate_per_second > 0
    }
}

/// Counters and timestamps a job accumulates while it runs.  `finished_at`
/// is present exactly when the job is terminal.
#[derive(Clone, Copy, Debug)]
pub struct JobStats {
    pub pages_fetched: u64,
    pub links_discovered: u64,
    pub errors: u64,
    pub started_at: Option<u64>,
    pub finished_at: Option<u64>,
}

/// The job-level failures the orchestrator reports to its caller.
#[derive(Clone, Copy, Debug, PartialEq, Eq, Structural)]
pub enum JobError {
    DuplicateJobId,
    InvalidConfig,
    JobNotFound,
}

/// One registered crawl job: its identity, configuration, lifecycle state,
/// statistics, frontier, cancellation flag, and the number of fetches
/// currently handed out but not yet recorded back.
pub struct CrawlJob {
    pub id: String,
    pub config: CrawlConfig,
    pub status: JobStatus,
    pub stats: JobStats,
    pub frontier: Frontier,
    pub cancel_requested: bool,
    pub in_flight: usize,
}

/// Iterated admission: each URL in `links` is normalized where it parses
/// as an absolute URL and offered to the frontier at depth `depth`, in
/// order, under the frontier's usual admission rules.
pub open spec fn admit_links(m: FrontierModel, links: Seq<Seq<char>>, depth: u32) -> FrontierModel
    decreases links.len(),
{
    if links.len() == 0 {
        m
    } else {
        admit_links(spec_admit(m, normal_or_self(links.first()), depth), links.drop_first(), depth)
    }
}

/// Remaining-work measure of a frontier state: admissions still possible
/// weigh most, queued entries next.  Admissions never increase it; handing
/// out a queued entry strictly decreases it.
pub open spec fn fmodel_measure(m: FrontierModel) -> int {
    3 * (m.max_pages as int - m.admitted.len() as int) + 2 * m.queued.len() as int
}

proof fn lemma_admit_measure(m: FrontierModel, url: Seq<char>, depth: u32)
    ensures
        fmodel_measure(spec_admit(m, url, depth)) <= fmodel_measure(m),
        spec_admit(m, url, depth).max_pages == m.max_pages,
        spec_admit(m, url, depth).max_depth == m.max_depth,
        spec_admit(m, url, depth).drained == m.drained,
{
}

proof fn lemma_admit_links_measure(m: FrontierModel, links: Seq<Seq<char>>, depth: u32)
    ensures
        fmodel_measure(admit_links(m, links, depth)) <= fmodel_measure(m),
        admit_links(m, links, depth).max_pages == m.max_pages,
        admit_links(m, links, depth).max_depth == m.max_depth,
        admit_links(m, links, depth).drained == m.drained,
    decreases links.len(),
{
    if links.len() > 0 {
        let m1 = spec_admit(m, normal_or_self(links.first()), depth);
        lemma_admit_measure(m, normal_or_self(links.first()), depth);
        lemma_admit_links_measure(m1, links.drop_first(), depth);
    }
}

impl CrawlJob {
    /// Spec-level state of this job's frontier.
    pub open spec fn fmodel(self) -> FrontierModel {
        self.frontier.model()
    }

    /// Entries waiting to be fetched, front first.
    pub open spec fn queued(self) -> Seq<(Seq<char>, u32)> {
        self.fmodel().queued
    }

    /// Entries ever handed out to fetch, in hand-out order.
    pub open spec fn fetched_log(self) -> Seq<(Seq<char>, u32)> {
        self.fmodel().drained
    }

    /// Whether a cancellation request is pending on this job.
    pub open spec fn cancel_pending(self) -> bool {
        self.cancel_requested
    }

    /// Fetches handed out but not yet recorded back.
    pub open spec fn in_flight_count(self) -> nat {
        self.in_flight as nat
    }

    /// Remaining work: possible admissions, queued entries, and in-flight
    /// fetches.  Handing out a fetch or recording its outcome strictly
    /// shrinks it, so a job whose frontier stays finite cannot run forever.
    pub open spec fn work_measure(self) -> int {
        fmodel_measure(self.fmodel()) + self.in_flight_count() as int
    }

    /// Internal consistency of one job: the frontier is well formed and
    /// bound by this job's own config, every handed-out fetch is accounted
    /// for by exactly one of the three counters, and the timestamps agree
    /// with the lifecycle state.
    pub closed spec fn wf(self) -> bool {
        &&& self.frontier.wf()
        &&& self.config.spec_valid()
        &&& self.frontier.max_pages() == self.config.max_pages as nat
        &&& self.frontier.max_depth() == self.config.max_depth
        &&& self.stats.pages_fetched as int + self.stats.errors as int + self.in_flight as int
            == self.frontier.drained().len() as int
        &&& (self.status == JobStatus::Running ==> self.stats.started_at is Some)
        &&& (self.stats.finished_at is Some <==> self.status.is_terminal())
        &&& (self.status == JobStatus::Pending ==> self.frontier.model().admitted.len() == 0
            && self.frontier.model().queued.len() == 0 && self.frontier.model().drained.len() == 0
            && self.in_flight == 0)
    }
}

/// The job registry and the operations the control surface drives.  All
/// state of the orchestrator lives here; the surrounding application only
/// performs fetches that `begin_fetch` hands out and reports them back.
pub struct JobManager {
    jobs: Vec<CrawlJob>,
}

impl JobManager {
    /// The registered jobs, in registration order.
    pub closed spec fn jobs(self) -> Seq<CrawlJob> {
        self.jobs@
    }

    pub open spec fn has_job(self, id: Seq<char>) -> bool {
        exists|i: int| 0 <= i < self.jobs().len() && (#[trigger] self.jobs()[i]).id@ == id
    }

    /// Index of the job with the given id (meaningful when `has_job`).
    pub open spec fn idx_of(self, id: Seq<char>) -> int {
        choose|i: int| 0 <= i < self.jobs().len() && (#[trigger] self.jobs()[i]).id@ == id
    }

    /// The job with the given id (meaningful when `has_job`).
    pub open spec fn job_of(self, id: Seq<char>) -> CrawlJob {
        self.jobs()[self.idx_of(id)]
    }

    /// Registry consistency: ids are unique and every job is well formed.
    pub closed spec fn wf(self) -> bool {
        &&& forall|i: int, j: int|
            0 <= i < j < self.jobs().len() ==> (#[trigger] self.jobs()[i]).id@ != (
            #[trigger] self.jobs()[j]).id@
        &&& forall|i: int| 0 <= i < self.jobs().len() ==> (#[trigger] self.jobs()[i]).wf()
    }

    /// An empty registry.
    pub fn new() -> (r: JobManager)
        ensures
            r.wf(),
            r.jobs().len() == 0,
    {
        JobManager { jobs: Vec::new() }
    }

    proof fn lemma_idx_of(self, id: Seq<char>, i: int)
        requires
            self.wf(),
            0 <= i < self.jobs().len(),
            self.jobs()[i].id@ == id,
        ensures
            self.has_job(id),
            self.idx_of(id) == i,
            self.job_of(id) == self.jobs()[i],
    {
        assert(self.has_job(id));
        let k = self.idx_of(id);
        assert(0 <= k < self.jobs().len() && self.jobs()[k].id@ == id);
        if k < i {
            assert(self.jobs()[k].id@ != self.jobs()[i].id@);
        } else if i < k {
            assert(self.jobs()[i].id@ != self.jobs()[k].id@);
        }
    }

    proof fn lemma_update_wf(pre: JobManager, post: JobManager, i: int, j: CrawlJob)
        requires
            pre.wf(),
            0 <= i < pre.jobs().len(),
            post.jobs() == pre.jobs().update(i, j),
            j.id@ == pre.jobs()[i].id@,
            j.wf(),
        ensures
            post.wf(),
            post.has_job(j.id@),
            post.idx_of(j.id@) == i,
            post.job_of(j.id@) == j,
    {
        assert forall|a: int, b: int|
            0 <= a < b < post.jobs().len() implies (#[trigger] post.jobs()[a]).id@ != (
        #[trigger] post.jobs()[b]).id@ by {
            assert(pre.jobs()[a].id@ != pre.jobs()[b].id@);
        }
        assert forall|a: int| 0 <= a < post.jobs().len() implies (
        #[trigger] post.jobs()[a]).wf() by {
            assert(pre.jobs()[a].wf());
        }
        post.lemma_idx_of(j.id@, i);
    }

    /// Look a job up by id.
    fn find(&self, id: &String) -> (r: Option<usize>)
        requires
            self.wf(),
        ensures
            r is Some <==> self.has_job(id@),
            r matches Some(i) ==> 0 <= i < self.jobs().len() && self.idx_of(id@) == i as int
                && self.job_of(id@) == self.jobs()[i as int],
    {
        let mut i: usize = 0;
        while i < self.jobs.len()
            invariant
                self.wf(),
                i <= self.jobs@.len(),
                forall|k: int| 0 <= k < i ==> (#[trigger] self.jobs@[k]).id@ != id@,
            decreases self.jobs@.len() - i,
        {
            if self.jobs[i].id == *id {
                proof {
                    self.lemma_idx_of(id@, i as int);
                }
                return Some(i);
            }
            i += 1;
        }
        None
    }

    /// Register a new job.  Fails with `DuplicateJobId` when the id is
    /// taken, else with `InvalidConfig` when the config is not acceptable;
    /// otherwise the job is added in `Pending` with zeroed statistics and
    /// an empty frontier.
    pub fn create_job(&mut self, id: String, config: CrawlConfig) -> (r: Result<(), JobError>)
        requires
            old(self).wf(),
        ensures
            final(self).wf(),
            old(self).has_job(id@) ==> r == Err::<(), JobError>(JobError::DuplicateJobId)
                && *final(self) == *old(self),
            !old(self).has_job(id@) && !config.spec_valid() ==> r == Err::<(), JobError>(
                JobError::InvalidConfig,
            ) && *final(self) == *old(self),
            !old(self).has_job(id@) && config.spec_valid() ==> r == Ok::<(), JobError>(()) && ({
                let n = final(self).jobs().last();
                &&& final(self).jobs() == old(self).jobs().push(n)
                &&& final(self).has_job(id@)
                &&& final(self).job_of(id@) == n
                &&& n.id@ == id@
                &&& n.config == config
                &&& n.status == JobStatus::Pending
                &&& n.stats == (JobStats {
                    pages_fetched: 0,
                    links_discovered: 0,
                    errors: 0,
                    started_at: None,
                    finished_at: None,
                })
                &&& !n.cancel_pending()
                &&& n.in_flight_count() == 0
                &&& n.fmodel().admitted.len() == 0
                &&& n.fmodel().queued.len() == 0
                &&& n.fmodel().drained.len() == 0
                &&& n.fmodel().max_pages == config.max_pages as nat
                &&& n.fmodel().max_depth == config.max_depth
            }),
    {
        if self.find(&id).is_some() {
            return Err(JobError::DuplicateJobId);
        }
        if !config.valid() {
            return Err(JobError::InvalidConfig);
        }
        let ghost pre = *self;
        let frontier = Frontier::new(config.max_pages, config.max_depth);
        let job = CrawlJob {
            id,
            config,
            status: JobStatus::Pending,
            stats: JobStats {
                pages_fetched: 0,
                links_discovered: 0,
                errors: 0,
                started_at: None,
                finished_at: None,
            },
            frontier,
            cancel_requested: false,
            in_flight: 0,
        };
        let ghost jj = job;
        self.jobs.push(job);
        proof {
            assert forall|a: int, b: int|
                0 <= a < b < self.jobs().len() implies (#[trigger] self.jobs()[a]).id@ != (
            #[trigger] self.jobs()[b]).id@ by {
                if b < pre.jobs().len() as int {
                    assert(pre.jobs()[a].id@ != pre.jobs()[b].id@);
                } else {
                    assert(self.jobs()[b] == jj);
                    assert(pre.jobs()[a].id@ != jj.id@);
                }
            }
            assert forall|a: int| 0 <= a < self.jobs().len() implies (
            #[trigger] self.jobs()[a]).wf() by {
                if a < pre.jobs().len() as int {
                    assert(pre.jobs()[a].wf());
                }
            }
            self.lemma_idx_of(jj.id@, pre.jobs().len() as int);
        }
        Ok(())
    }

    /// Move a `Pending` job to `Running`: stamp its start time and admit
    /// its seeds (normalized where they parse) at depth 0.  On a job in
    /// any other state this is a no-op.  Fails only with `JobNotFound`.
    pub fn start_job(&mut self, id: &String, now_ms: u64) -> (r: Result<(), JobError>)
        requires
            old(self).wf(),
        ensures
            final(self).wf(),
            r is Err <==> !old(self).has_job(id@),
            r matches Err(e) ==> e == JobError::JobNotFound && *final(self) == *old(self),
            r is Ok ==> ({
                let o = old(self).job_of(id@);
                let n = final(self).job_of(id@);
                &&& final(self).jobs() == old(self).jobs().update(old(self).idx_of(id@), n)
                &&& o.status.can_step_to(n.status)
                &&& n.id@ == o.id@
                &&& (o.status != JobStatus::Pending ==> n == o)
                &&& (o.status == JobStatus::Pending ==> {
                    &&& n.status == JobStatus::Running
                    &&& n.config == o.config
                    &&& n.stats == (JobStats { started_at: Some(now_ms), ..o.stats })
                    &&& n.cancel_pending() == o.cancel_pending()
                    &&& n.in_flight_count() == o.in_flight_count()
                    &&& n.fmodel() == admit_links(o.fmodel(), seq_views(o.config.seed_urls@), 0)
                })
            }),
    {
        let idx = match self.find(id) {
            None => { return Err(JobError::JobNotFound) },
            Some(i) => i,
        };
        let ghost pre = *self;
        let mut j = self.jobs.remove(idx);
        let ghost o = j;
        proof {
            assert(pre.jobs()[idx as int].wf());
        }
        if matches!(j.status, JobStatus::Pending) {
            j.status = JobStatus::Running;
            j.stats.started_at = Some(now_ms);
            let ghost seeds = seq_views(o.config.seed_urls@);
            let mut i: usize = 0;
            proof {
                assert(seeds.skip(0) =~= seeds);
            }
            while i < j.config.seed_urls.len()
                invariant
                    i <= j.config.seed_urls@.len(),
                    j.config == o.config,
                    j.id == o.id,
                    j.status == JobStatus::Running,
                    j.stats == (JobStats { started_at: Some(now_ms), ..o.stats }),
                    j.cancel_requested == o.cancel_requested,
                    j.in_flight == o.in_flight,
                    j.frontier.wf(),
                    seeds == seq_views(o.config.seed_urls@),
                    admit_links(j.frontier.model(), seeds.skip(i as int), 0) == admit_links(
                        o.fmodel(),
                        seeds,
                        0,
                    ),
                decreases j.config.seed_urls@.len() - i,
            {
                let ghost rest = seeds.skip(i as int);
                proof {
                    assert(rest.first() == seeds[i as int]);
                    assert(rest.drop_first() =~= seeds.skip(i as int + 1));
                }
                let seed = j.config.seed_urls[i].clone();
                match normalize_url(seed.as_str()) {
                    Some(t) => {
                        j.frontier.enqueue(t, 0);
                    },
                    None => {
                        j.frontier.enqueue(seed, 0);
                    },
                }
                i += 1;
            }
            proof {
                assert(seeds.skip(seeds.len() as int) =~= Seq::<Seq<char>>::empty());
                lemma_admit_links_measure(o.fmodel(), seeds, 0);
                assert(j.fmodel() == admit_links(o.fmodel(), seeds, 0));
            }
        }
        let ghost jj = j;
        self.jobs.insert(idx, j);
        proof {
            assert(self.jobs@ =~= pre.jobs@.update(idx as int, jj));
            Self::lemma_update_wf(pre, *self, idx as int, jj);
        }
        Ok(())
    }

    /// Hand the oldest queued entry of a job out to a worker, or report why
    /// there is none.  The cancellation flag is observed here, before any
    /// fetch is handed out: a cancelled job becomes `Cancelled` and no new
    /// fetch ever starts for it.  A running job with nothing queued and
    /// nothing in flight completes.  Fails only with `JobNotFound`.
    pub fn begin_fetch(&mut self, id: &String, now_ms: u64) -> (r: Result<
        Option<FrontierEntry>,
        JobError,
    >)
        requires
            old(self).wf(),
        ensures
            final(self).wf(),
            r is Err <==> !old(self).has_job(id@),
            r matches Err(e) ==> e == JobError::JobNotFound && *final(self) == *old(self),
            r is Ok ==> ({
                let o = old(self).job_of(id@);
                let n = final(self).job_of(id@);
                &&& final(self).jobs() == old(self).jobs().update(old(self).idx_of(id@), n)
                &&& o.status.can_step_to(n.status)
                &&& n.id@ == o.id@
                &&& n.config == o.config
                &&& n.cancel_pending() == o.cancel_pending()
                &&& (o.status.is_terminal() ==> n == o && (r matches Ok(w) && w is None))
                &&& (!o.status.is_terminal() && o.cancel_pending() ==> {
                    &&& n.status == JobStatus::Cancelled
                    &&& n.stats == (JobStats { finished_at: Some(now_ms), ..o.stats })
                    &&& n.fmodel() == o.fmodel()
                    &&& n.in_flight_count() == o.in_flight_count()
                    &&& (r matches Ok(w) && w is None)
                })
                &&& (o.status == JobStatus::Pending && !o.cancel_pending() ==> n == o && (
                r matches Ok(w) && w is None))
                &&& (o.status == JobStatus::Running && !o.cancel_pending() && o.queued().len() == 0
                    && o.in_flight_count() == 0 ==> {
                    &&& n.status == JobStatus::Completed
                    &&& n.stats == (JobStats { finished_at: Some(now_ms), ..o.stats })
                    &&& n.fmodel() == o.fmodel()
                    &&& n.in_flight_count() == 0
                    &&& (r matches Ok(w) && w is None)
                })
                &&& (o.status == JobStatus::Running && !o.cancel_pending() && o.queued().len() == 0
                    && o.in_flight_count() > 0 ==> n == o && (r matches Ok(w) && w is None))
                &&& (o.status == JobStatus::Running && !o.cancel_pending() && o.queued().len() > 0
                    ==> {
                    &&& (r matches Ok(w) && w matches Some(e) && (e.url@, e.depth) == o.queued()[0]
                        && e.depth <= o.config.max_depth)
                    &&& n.status == JobStatus::Running
                    &&& n.stats == o.stats
                    &&& n.in_flight_count() == o.in_flight_count() + 1
                    &&& n.fmodel() == (FrontierModel {
                        queued: o.fmodel().queued.drop_first(),
                        drained: o.fmodel().drained.push(o.queued()[0]),
                        ..o.fmodel()
                    })
                    &&& n.work_measure() < o.work_measure()
                })
            }),
    {
        let idx = match self.find(id) {
            None => { return Err(JobError::JobNotFound) },
            Some(i) => i,
        };
        let ghost pre = *self;
        let mut j = self.jobs.remove(idx);
        let ghost o = j;
        proof {
            assert(pre.jobs()[idx as int].wf());
        }
        let mut out: Option<FrontierEntry> = None;
        if j.status.terminal() {
            // absorbing: nothing changes
        } else if j.cancel_requested {
            j.status = JobStatus::Cancelled;
            j.stats.finished_at = Some(now_ms);
        } else if matches!(j.status, JobStatus::Running) {
            if j.frontier.queue_len() > 0 {
                proof {
                    lemma_frontier_dedup_and_bounds(&j.frontier);
                }
                match j.frontier.dequeue() {
                    Some(entry) => {
                        j.in_flight = j.in_flight + 1;
                        out = Some(entry);
                    },
                    None => {},
                }
                proof {
                    assert(j.fmodel() =~= (FrontierModel {
                        queued: o.fmodel().queued.drop_first(),
                        drained: o.fmodel().drained.push(o.queued()[0]),
                        ..o.fmodel()
                    }));
                }
            } else if j.in_flight == 0 {
                j.status = JobStatus::Completed;
                j.stats.finished_at = Some(now_ms);
            }
        }
        let ghost jj = j;
        self.jobs.insert(idx, j);
        proof {
            assert(self.jobs@ =~= pre.jobs@.update(idx as int, jj));
            Self::lemma_update_wf(pre, *self, idx as int, jj);
        }
        Ok(out)
    }

    /// Record a successful fetch of a page at `depth`: one in-flight fetch
    /// comes back, the page counter moves, the discovered links are counted
    /// (saturating) and offered to the frontier at `depth + 1`.  On a
    /// terminal job, or when nothing is in flight, this is a no-op: a
    /// terminal job accumulates no further statistics.  Fails only with
    /// `JobNotFound`.
    pub fn record_success(&mut self, id: &String, depth: u32, links: &Vec<String>) -> (r: Result<
        (),
        JobError,
    >)
        requires
            old(self).wf(),
        ensures
            final(self).wf(),
            r is Err <==> !old(self).has_job(id@),
            r matches Err(e) ==> e == JobError::JobNotFound && *final(self) == *old(self),
            r is Ok ==> ({
                let o = old(self).job_of(id@);
                let n = final(self).job_of(id@);
                &&& final(self).jobs() == old(self).jobs().update(old(self).idx_of(id@), n)
                &&& o.status.can_step_to(n.status)
                &&& n.status == o.status
                &&& n.id@ == o.id@
                &&& n.config == o.config
                &&& n.cancel_pending() == o.cancel_pending()
                &&& (o.status.is_terminal() || o.in_flight_count() == 0 ==> n == o)
                &&& (!o.status.is_terminal() && o.in_flight_count() > 0 ==> {
                    &&& n.in_flight_count() == o.in_flight_count() - 1
                    &&& n.stats.pages_fetched as int == o.stats.pages_fetched as int + 1
                    &&& n.stats.errors == o.stats.errors
                    &&& n.stats.links_discovered as int == (if o.stats.links_discovered as int
                        + links@.len() <= u64::MAX as int {
                        o.stats.links_discovered as int + links@.len()
                    } else {
                        u64::MAX as int
                    })
                    &&& n.stats.started_at == o.stats.started_at
                    &&& n.stats.finished_at == o.stats.finished_at
                    &&& (depth < o.config.max_depth ==> n.fmodel() == admit_links(
                        o.fmodel(),
                        seq_views(links@),
                        (depth + 1) as u32,
                    ))
                    &&& (depth >= o.config.max_depth ==> n.fmodel() == o.fmodel())
                    &&& n.work_measure() < o.work_measure()
                })
            }),
    {
        let idx = match self.find(id) {
            None => { return Err(JobError::JobNotFound) },
            Some(i) => i,
        };
        let ghost pre = *self;
        let mut j = self.jobs.remove(idx);
        let ghost o = j;
        proof {
            assert(pre.jobs()[idx as int].wf());
        }
        if !j.status.terminal() && j.in_flight > 0 {
            j.in_flight = j.in_flight - 1;
            proof {
                lemma_frontier_dedup_and_bounds(&j.frontier);
            }
            j.stats.pages_fetched = j.stats.pages_fetched + 1;
            let add: u64 = links.len() as u64;
            j.stats.links_discovered = if u64::MAX - j.stats.links_discovered < add {
                u64::MAX
            } else {
                j.stats.links_discovered + add
            };
            if depth < j.config.max_depth {
                let d: u32 = depth + 1;
                let ghost targets = seq_views(links@);
                let ghost mid = j;
                let mut i: usize = 0;
                proof {
                    assert(targets.skip(0) =~= targets);
                }
                while i < links.len()
                    invariant
                        i <= links@.len(),
                        d == depth + 1,
                        j.config == mid.config,
                        j.id == mid.id,
                        j.status == mid.status,
                        j.stats == mid.stats,
                        j.cancel_requested == mid.cancel_requested,
                        j.in_flight == mid.in_flight,
                        j.frontier.wf(),
                        targets == seq_views(links@),
                        admit_links(j.frontier.model(), targets.skip(i as int), d) == admit_links(
                            mid.fmodel(),
                            targets,
                            d,
                        ),
                    decreases links@.len() - i,
                {
                    let ghost rest = targets.skip(i as int);
                    proof {
                        assert(rest.first() == targets[i as int]);
                        assert(rest.drop_first() =~= targets.skip(i as int + 1));
                    }
                    let link = links[i].clone();
                    match normalize_url(link.as_str()) {
                        Some(t) => {
                            j.frontier.enqueue(t, d);
                        },
                        None => {
                            j.frontier.enqueue(link, d);
                        },
                    }
                    i += 1;
                }
                proof {
                    assert(targets.skip(targets.len() as int) =~= Seq::<Seq<char>>::empty());
                    lemma_admit_links_measure(mid.fmodel(), targets, d);
                }
            }
        }
        let ghost jj = j;
        self.jobs.insert(idx, j);
        proof {
            assert(self.jobs@ =~= pre.jobs@.update(idx as int, jj));
            Self::lemma_update_wf(pre, *self, idx as int, jj);
        }
        Ok(())
    }

    /// Record a failed fetch (transport failure or a non-success HTTP
    /// status): one in-flight fetch comes back and the error counter moves.
    /// The job keeps running — one bad page never fails a job.  On a
    /// terminal job, or when nothing is in flight, this is a no-op.  Fails
    /// only with `JobNotFound`.
    pub fn record_error(&mut self, id: &String) -> (r: Result<(), JobError>)
        requires
            old(self).wf(),
        ensures
            final(self).wf(),
            r is Err <==> !old(self).has_job(id@),
            r matches Err(e) ==> e == JobError::JobNotFound && *final(self) == *old(self),
            r is Ok ==> ({
                let o = old(self).job_of(id@);
                let n = final(self).job_of(id@);
                &&& final(self).jobs() == old(self).jobs().update(old(self).idx_of(id@), n)
                &&& n.status == o.status
                &&& n.id@ == o.id@
                &&& n.config == o.config
                &&& n.cancel_pending() == o.cancel_pending()
                &&& (o.status.is_terminal() || o.in_flight_count() == 0 ==> n == o)
                &&& (!o.status.is_terminal() && o.in_flight_count() > 0 ==> {
                    &&& n.in_flight_count() == o.in_flight_count() - 1
                    &&& n.stats.errors as int == o.stats.errors as int + 1
                    &&& n.stats.pages_fetched == o.stats.pages_fetched
                    &&& n.stats.links_discovered == o.stats.links_discovered
                    &&& n.stats.started_at == o.stats.started_at
                    &&& n.stats.finished_at == o.stats.finished_at
                    &&& n.fmodel() == o.fmodel()
                    &&& n.work_measure() < o.work_measure()
                })
            }),
    {
        let idx = match self.find(id) {
            None => { return Err(JobError::JobNotFound) },
            Some(i) => i,
        };
        let ghost pre = *self;
        let mut j = self.jobs.remove(idx);
        let ghost o = j;
        proof {
            assert(pre.jobs()[idx as int].wf());
        }
        if !j.status.terminal() && j.in_flight > 0 {
            j.in_flight = j.in_flight - 1;
            proof {
                lemma_frontier_dedup_and_bounds(&j.frontier);
            }
            j.stats.errors = j.stats.errors + 1;
        }
        let ghost jj = j;
        self.jobs.insert(idx, j);
        proof {
            assert(self.jobs@ =~= pre.jobs@.update(idx as int, jj));
            Self::lemma_update_wf(pre, *self, idx as int, jj);
        }
        Ok(())
    }

    /// Request cancellation.  On a live job the flag is set and the job
    /// becomes `Cancelled` as soon as a worker next observes it; on a
    /// terminal job this is a successful no-op.  Fails only with
    /// `JobNotFound`.
    pub fn cancel(&mut self, id: &String) -> (r: Result<(), JobError>)
        requires
            old(self).wf(),
        ensures
            final(self).wf(),
            r is Err <==> !old(self).has_job(id@),
            r matches Err(e) ==> e == JobError::JobNotFound && *final(self) == *old(self),
            r is Ok ==> ({
                let o = old(self).job_of(id@);
                let n = final(self).job_of(id@);
                &&& final(self).jobs() == old(self).jobs().update(old(self).idx_of(id@), n)
                &&& n.status == o.status
                &&& n.id@ == o.id@
                &&& n.config == o.config
                &&& n.stats == o.stats
                &&& n.fmodel() == o.fmodel()
                &&& n.in_flight_count() == o.in_flight_count()
                &&& (o.status.is_terminal() ==> n == o)
                &&& (!o.status.is_terminal() ==> n.cancel_pending())
            }),
    {
        let idx = match self.find(id) {
            None => { return Err(JobError::JobNotFound) },
            Some(i) => i,
        };
        let ghost pre = *self;
        let mut j = self.jobs.remove(idx);
        proof {
            assert(pre.jobs()[idx as int].wf());
        }
        if !j.status.terminal() {
            j.cancel_requested = true;
        }
        let ghost jj = j;
        self.jobs.insert(idx, j);
        proof {
            assert(self.jobs@ =~= pre.jobs@.update(idx as int, jj));
            Self::lemma_update_wf(pre, *self, idx as int, jj);
        }
        Ok(())
    }

    /// Mark a live job `Failed`, for orchestrator-level faults (such as no
    /// worker could be started).  A terminal job stays as it is.  Fails
    /// only with `JobNotFound`.
    pub fn fail_job(&mut self, id: &String, now_ms: u64) -> (r: Result<(), JobError>)
        requires
            old(self).wf(),
        ensures
            final(self).wf(),
            r is Err <==> !old(self).has_job(id@),
            r matches Err(e) ==> e == JobError::JobNotFound && *final(self) == *old(self),
            r is Ok ==> ({
                let o = old(self).job_of(id@);
                let n = final(self).job_of(id@);
                &&& final(self).jobs() == old(self).jobs().update(old(self).idx_of(id@), n)
                &&& o.status.can_step_to(n.status)
                &&& n.id@ == o.id@
                &&& n.config == o.config
                &&& n.fmodel() == o.fmodel()
                &&& (o.status.is_terminal() ==> n == o)
                &&& (!o.status.is_terminal() ==> n.status == JobStatus::Failed && n.stats == (
                JobStats { finished_at: Some(now_ms), ..o.stats }))
            }),
    {
        let idx = match self.find(id) {
            None => { return Err(JobError::JobNotFound) },
            Some(i) => i,
        };
        let ghost pre = *self;
        let mut j = self.jobs.remove(idx);
        proof {
            assert(pre.jobs()[idx as int].wf());
        }
        if !j.status.terminal() {
            j.status = JobStatus::Failed;
            j.stats.finished_at = Some(now_ms);
        }
        let ghost jj = j;
        self.jobs.insert(idx, j);
        proof {
            assert(self.jobs@ =~= pre.jobs@.update(idx as int, jj));
            Self::lemma_update_wf(pre, *self, idx as int, jj);
        }
        Ok(())
    }

    /// A consistent point-in-time snapshot of one job's status and
    /// statistics.  Fails only with `JobNotFound`.
    pub fn get_status(&self, id: &String) -> (r: Result<(JobStatus, JobStats), JobError>)
        requires
            self.wf(),
        ensures
            r is Err <==> !self.has_job(id@),
            r matches Err(e) ==> e == JobError::JobNotFound,
            r matches Ok(p) ==> p.0 == self.job_of(id@).status && p.1 == self.job_of(id@).stats,
    {
        let idx = match self.find(id) {
            None => { return Err(JobError::JobNotFound) },
            Some(i) => i,
        };
        let j = &self.jobs[idx];
        Ok((j.status, j.stats))
    }
}

/// Deduplication and bounds over a whole job: a well-formed job has fetched
/// at most `max_pages` pages, no URL was ever handed out to fetch twice,
/// and nothing deeper than `max_depth` was ever handed out.
pub proof fn lemma_job_dedup_and_bounds(j: &CrawlJob)
    requires
        j.wf(),
    ensures
        j.stats.pages_fetched as int <= j.config.max_pages as int,
        j.fetched_log().len() <= j.config.max_pages as int,
        forall|a: int, b: int|
            0 <= a < b < j.fetched_log().len() ==> (#[trigger] j.fetched_log()[a]).0 != (
            #[trigger] j.fetched_log()[b]).0,
        forall|a: int|
            0 <= a < j.fetched_log().len() ==> (#[trigger] j.fetched_log()[a]).1
                <= j.config.max_depth,
{
    lemma_frontier_dedup_and_bounds(&j.frontier);
}

/// The remaining-work measure of a well-formed job is never negative.
/// Handing out a fetch (`begin_fetch`) and recording an outcome
/// (`record_success`, `record_error`) each strictly shrink it, so a job
/// whose link graph keeps the frontier finite performs finitely many fetch
/// rounds and then settles in exactly one terminal state.
pub proof fn lemma_work_measure_nonneg(j: &CrawlJob)
    requires
        j.wf(),
    ensures
        j.work_measure() >= 0,
{
    lemma_frontier_dedup_and_bounds(&j.frontier);
}

/// Registry-level consistency: job ids are unique and every registered job
/// satisfies the per-job invariants.
pub proof fn lemma_registry_invariants(m: &JobManager)
    requires
        m.wf(),
    ensures
        forall|i: int, j: int|
            0 <= i < j < m.jobs().len() ==> (#[trigger] m.jobs()[i]).id@ != (
            #[trigger] m.jobs()[j]).id@,
        forall|i: int| 0 <= i < m.jobs().len() ==> (#[trigger] m.jobs()[i]).wf(),
{
}

} // verus!
