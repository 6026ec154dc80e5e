use vstd::prelude::*;

verus! {

/// One unit of pending work: a normalized URL and the depth at which it was
/// discovered (seeds sit at depth 0, a link found on a page at depth `d`
/// sits at depth `d + 1`).
#[derive(Debug)]
pub struct FrontierEntry {
    pub url: String,
    pub depth: u32,
}

/// Spec-level image of a frontier state: the same data the spec accessors
/// expose, gathered into one value so that iterated admissions can be
/// written as a fold.
#[verifier::ext_equal]
pub struct FrontierModel {
    pub admitted: Seq<Seq<char>>,
    pub queued: Seq<(Seq<char>, u32)>,
    pub drained: Seq<(Seq<char>, u32)>,
    pub max_pages: nat,
    pub max_depth: u32,
}

/// One admission step on the model: exactly the decision `enqueue` takes.
pub open spec fn spec_admit(m: FrontierModel, url: Seq<char>, depth: u32) -> FrontierModel {
    if depth <= m.max_depth && !m.admitted.contains(url) && m.admitted.len() < m.max_pages {
        FrontierModel { admitted: m.admitted.push(url), queued: m.queued.push((url, depth)), ..m }
    } else {
        m
    }
}

/// Per-job work queue and deduplication set.
///
/// URLs are admitted at most once for the whole life of the frontier: an
/// admission inserts into the visited list and appends to the FIFO queue in
/// one step, and is refused when the URL was already admitted, when its
/// depth exceeds `max_depth`, or when `max_pages` URLs were already
/// admitted.  The ghost drain log records every entry ever handed out, so
/// the no-refetch and bounds guarantees can be stated over the whole
/// history, not only the current queue.
pub struct Frontier {
    queue: Vec<FrontierEntry>,
    visited: Vec<String>,
    max_pages: usize,
    max_depth: u32,
    gh_drained: Ghost<Seq<(Seq<char>, u32)>>,
}

impl Frontier {
    /// URLs ever admitted, in admission order.
    pub closed spec fn admitted(self) -> Seq<Seq<char>> {
        self.visited@.map_values(|s: String| s@)
    }

    /// Entries still waiting in the queue, front first.
    pub closed spec fn queued(self) -> Seq<(Seq<char>, u32)> {
        self.queue@.map_values(|e: FrontierEntry| (e.url@, e.depth))
    }

    /// Entries already handed out by `dequeue`, in hand-out order.
    pub closed spec fn drained(self) -> Seq<(Seq<char>, u32)> {
        self.gh_drained@
    }

    pub closed spec fn max_pages(self) -> nat {
        self.max_pages as nat
    }

    pub closed spec fn max_depth(self) -> u32 {
        self.max_depth
    }

    /// The whole spec-level state in one value.
    pub open spec fn model(self) -> FrontierModel {
        FrontierModel {
            admitted: self.admitted(),
            queued: self.queued(),
            drained: self.drained(),
            max_pages: self.max_pages(),
            max_depth: self.max_depth(),
        }
    }

    pub open spec fn is_admitted(self, url: Seq<char>) -> bool {
        self.admitted().contains(url)
    }

    /// URL components of the queued entries, front first.
    pub open spec fn queued_urls(self) -> Seq<Seq<char>> {
        self.queued().map_values(|p: (Seq<char>, u32)| p.0)
    }

    /// URL components of the drained entries, in hand-out order.
    pub open spec fn drained_urls(self) -> Seq<Seq<char>> {
        self.drained().map_values(|p: (Seq<char>, u32)| p.0)
    }

    /// Internal consistency: the admitted URLs are exactly the drained ones
    /// followed by the queued ones, pairwise distinct, at most `max_pages`
    /// of them, and nothing deeper than `max_depth` is ever queued.
    pub closed spec fn wf(self) -> bool {
        &&& self.admitted().len() <= self.max_pages()
        &&& forall|i: int, j: int|
            0 <= i < j < self.admitted().len() ==> self.admitted()[i] != self.admitted()[j]
        &&& self.admitted() == self.drained_urls() + self.queued_urls()
        &&& forall|i: int|
            0 <= i < self.queued().len() ==> (#[trigger] self.queued()[i]).1 <= self.max_depth()
        &&& forall|i: int|
            0 <= i < self.drained().len() ==> (#[trigger] self.drained()[i]).1 <= self.max_depth()
    }

    /// A fresh frontier that will admit at most `max_pages` URLs, none
    /// deeper than `max_depth`.
    pub fn new(max_pages: usize, max_depth: u32) -> (r: Frontier)
        ensures
            r.wf(),
            r.admitted() =~= Seq::<Seq<char>>::empty(),
            r.queued() =~= Seq::<(Seq<char>, u32)>::empty(),
            r.drained() =~= Seq::<(Seq<char>, u32)>::empty(),
            r.max_pages() == max_pages,
            r.max_depth() == max_depth,
    {
        let r = Frontier {
            queue: Vec::new(),
            visited: Vec::new(),
            max_pages,
            max_depth,
            gh_drained: Ghost(Seq::empty()),
        };
        proof {
            assert(r.admitted() =~= Seq::<Seq<char>>::empty());
            assert(r.queued() =~= Seq::<(Seq<char>, u32)>::empty());
            assert(r.admitted() =~= r.drained_urls() + r.queued_urls());
        }
        r
    }

    /// Whether `url` was already admitted (queued or fetched) for this job.
    pub fn contains_url(&self, url: &String) -> (r: bool)
        ensures
            r == self.is_admitted(url@),
    {
        let mut i: usize = 0;
        while i < self.visited.len()
            invariant
                i <= self.visited@.len(),
                forall|k: int| 0 <= k < i ==> self.admitted()[k] != url@,
            decreases self.visited@.len() - i,
        {
            if self.visited[i] == *url {
                assert(self.admitted()[i as int] == url@);
                return true;
            }
            i += 1;
        }
        false
    }

    /// Number of entries waiting in the queue.
    pub fn queue_len(&self) -> (r: usize)
        ensures
            r == self.queued().len(),
    {
        self.queue.len()
    }

    /// Try to admit a URL at the given depth.  The admission decision and
    /// the insertion are one step, so no two producers can both admit the
    /// same URL.  Returns whether the URL was admitted.
    pub fn enqueue(&mut self, url: String, depth: u32) -> (admitted: bool)
        requires
            old(self).wf(),
        ensures
            final(self).wf(),
            final(self).max_pages() == old(self).max_pages(),
            final(self).max_depth() == old(self).max_depth(),
            final(self).drained() == old(self).drained(),
            admitted == (depth <= old(self).max_depth() && !old(self).is_admitted(url@)
                && old(self).admitted().len() < old(self).max_pages()),
            admitted ==> final(self).queued() == old(self).queued().push((url@, depth)),
            admitted ==> final(self).admitted() == old(self).admitted().push(url@),
            final(self).is_admitted(url@) == (old(self).is_admitted(url@) || admitted),
            !admitted ==> *final(self) == *old(self),
            final(self).model() == spec_admit(old(self).model(), url@, depth),
    {
        if depth > self.max_depth {
            return false;
        }
        if self.visited.len() >= self.max_pages {
            return false;
        }
        if self.contains_url(&url) {
            return false;
        }
        let ghost pre = *self;
        self.visited.push(url.clone());
        self.queue.push(FrontierEntry { url, depth });
        proof {
            assert(self.admitted() =~= pre.admitted().push(url@));
            assert(self.queued() =~= pre.queued().push((url@, depth)));
            assert(self.queued_urls() =~= pre.queued_urls().push(url@));
            assert(self.admitted() =~= self.drained_urls() + self.queued_urls());
            assert(self.model() =~= spec_admit(pre.model(), url@, depth));
            assert(self.admitted()[self.admitted().len() - 1] == url@);
            assert(self.is_admitted(url@));
        }
        true
    }

    /// Hand out the oldest queued entry, if any.  Every entry handed out is
    /// recorded in the drain log.
    pub fn dequeue(&mut self) -> (r: Option<FrontierEntry>)
        requires
            old(self).wf(),
        ensures
            final(self).wf(),
            final(self).max_pages() == old(self).max_pages(),
            final(self).max_depth() == old(self).max_depth(),
            final(self).admitted() == old(self).admitted(),
            old(self).queued().len() == 0 ==> r is None && *final(self) == *old(self),
            old(self).queued().len() > 0 ==> (r matches Some(e)
                && (e.url@, e.depth) == old(self).queued()[0]
                && e.depth <= old(self).max_depth()
                && final(self).queued() == old(self).queued().drop_first()
                && final(self).drained() == old(self).drained().push((e.url@, e.depth))),
    {
        if self.queue.len() == 0 {
            return None;
        }
        let ghost pre = *self;
        let e = self.queue.remove(0);
        proof {
            self.gh_drained@ = pre.gh_drained@.push((e.url@, e.depth));
            assert(self.queued() =~= pre.queued().drop_first());
            assert(self.queued_urls() =~= pre.queued_urls().drop_first());
            assert(self.drained_urls() =~= pre.drained_urls().push(e.url@));
            assert(self.admitted() =~= self.drained_urls() + self.queued_urls());
            assert forall|i: int|
                0 <= i < self.drained().len() implies (#[trigger] self.drained()[i]).1
                <= self.max_depth() by {
                if i < pre.drained().len() {
                    assert(self.drained()[i] == pre.drained()[i]);
                } else {
                    assert(self.drained()[i] == (e.url@, e.depth));
                    assert(pre.queued()[0].1 <= pre.max_depth());
                }
            }
        }
        Some(e)
    }
}

/// Deduplication and bounds over the whole drain history: no URL is ever
/// handed out twice, the total work (done plus pending) never exceeds
/// `max_pages`, and nothing deeper than `max_depth` is ever handed out.
pub proof fn lemma_frontier_dedup_and_bounds(f: &Frontier)
    requires
        f.wf(),
    ensures
        forall|i: int, j: int|
            0 <= i < j < f.drained().len()
                ==> (#[trigger] f.drained()[i]).0 != (#[trigger] f.drained()[j]).0,
        f.drained().len() + f.queued().len() <= f.max_pages(),
        f.admitted().len() == f.drained().len() + f.queued().len(),
        forall|i: int|
            0 <= i < f.drained().len() ==> (#[trigger] f.drained()[i]).1 <= f.max_depth(),
{
    assert forall|i: int, j: int|
        0 <= i < j < f.drained().len() implies (#[trigger] f.drained()[i]).0
        != (#[trigger] f.drained()[j]).0 by {
        assert(f.admitted()[i] == f.drained_urls()[i]);
        assert(f.admitted()[j] == f.drained_urls()[j]);
    }
}

} // verus!
