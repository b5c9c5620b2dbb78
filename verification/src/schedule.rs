//! Many lookups side by side.
//!
//! A [`Run`] looks up a list of pairs. It says which request to make next, and is
//! told how each request ended. At no time are more lookups under way than the
//! configuration allows, nor more than [`DEFAULT_PER_HOST_LIMIT`] requests at one
//! host. The results stand in the order of the pairs, whatever the order in which the
//! lookups ended.

use vstd::prelude::*;

use crate::engine::{
    acquired, all_results, count, first_stage, in_bd_zone, released, Attempt, AttemptView,
    EngineConfig, HostLimiter, Lookup, LookupView, Progress, ProgressView, Protocol, ResultSlots,
    Stage, DEFAULT_PER_HOST_LIMIT,
};
use crate::models::{full_name, views, LookupResult, ResultView};

verus! {

/// A lookup that is under way.
struct Task {
    /// The number of the pair.
    index: usize,
    lookup: Lookup,
    /// Whether the request of the lookup's stage is under way, or still has to be
    /// made.
    asking: bool,
}

/// The view of a lookup that is under way.
#[verifier::ext_equal]
pub struct TaskView {
    pub index: int,
    pub lookup: LookupView,
    pub asking: bool,
}

impl View for Task {
    type V = TaskView;

    closed spec fn view(&self) -> TaskView {
        TaskView { index: self.index as int, lookup: self.lookup@, asking: self.asking }
    }
}

/// The lookups of a list of pairs.
pub struct Run {
    pairs: Vec<(String, String)>,
    force_whois: bool,
    concurrent: usize,
    limit: usize,
    started: usize,
    active: Vec<Task>,
    hosts: HostLimiter,
    slots: ResultSlots,
}

/// The view of [`Run`].
#[verifier::ext_equal]
pub struct RunView {
    pub pairs: Seq<(Seq<char>, Seq<char>)>,
    pub force_whois: bool,
    /// How many lookups may be under way.
    pub concurrent: int,
    /// How many requests may be under way at one host.
    pub limit: int,
    /// How many pairs have had their lookup begun.
    pub started: int,
    pub active: Seq<TaskView>,
    pub hosts: Map<Seq<char>, usize>,
    pub slots: Seq<Option<ResultView>>,
}

impl View for Run {
    type V = RunView;

    closed spec fn view(&self) -> RunView {
        RunView {
            pairs: self.pairs.deep_view(),
            force_whois: self.force_whois,
            concurrent: self.concurrent as int,
            limit: self.limit as int,
            started: self.started as int,
            active: task_views(self.active@),
            hosts: self.hosts@,
            slots: self.slots@,
        }
    }
}

/// The views of some tasks.
spec fn task_views(tasks: Seq<Task>) -> Seq<TaskView> {
    tasks.map_values(|t: Task| t@)
}

/// A request to make.
pub struct Request {
    /// The number of the pair.
    pub index: usize,
    /// The lookup whose stage says what to ask.
    pub lookup: Lookup,
}

/// The number of requests that are under way at a host.
pub open spec fn asking(active: Seq<TaskView>, host: Seq<char>) -> nat
    decreases active.len(),
{
    if active.len() == 0 {
        0
    } else {
        asking(active.drop_last(), host) + asks(active.last(), host)
    }
}

/// One where a task has a request under way at a host, else zero.
pub open spec fn asks(task: TaskView, host: Seq<char>) -> nat {
    if task.asking && task.lookup.host() == Some(host) {
        1
    } else {
        0
    }
}

/// The first place from `i` on at which a task for the pair `index` stands.
pub open spec fn place_of(active: Seq<TaskView>, index: int, i: int) -> Option<int>
    decreases active.len() - i,
{
    if i >= active.len() {
        None
    } else if active[i].index == index {
        Some(i)
    } else {
        place_of(active, index, i + 1)
    }
}

/// Whether a lookup is that of a pair, at a stage to which it can come.
pub open spec fn is_lookup_of(
    lookup: LookupView,
    pair: (Seq<char>, Seq<char>),
    force_whois: bool,
) -> bool {
    let first = first_stage(pair.1, force_whois);
    &&& lookup.name == pair.0
    &&& lookup.tld == pair.1
    &&& lookup.stage == first || first == Stage::Rdap && lookup.stage == Stage::WhoisFallback
}

impl RunView {
    /// The run of a list of pairs in which no lookup has begun.
    pub open spec fn fresh(
        pairs: Seq<(Seq<char>, Seq<char>)>,
        force_whois: bool,
        concurrent: usize,
    ) -> RunView {
        RunView {
            pairs,
            force_whois,
            concurrent: concurrent as int,
            limit: DEFAULT_PER_HOST_LIMIT as int,
            started: 0,
            active: Seq::empty(),
            hosts: Map::empty(),
            slots: Seq::new(pairs.len(), |i: int| None::<ResultView>),
        }
    }

    /// What holds of a run at all times:
    ///
    /// * no more lookups are under way than may be;
    /// * the requests at each host are counted, and there are no more of them than
    ///   may be;
    /// * each lookup is that of another pair, whose lookup has begun and whose result
    ///   is not there yet;
    /// * a pair whose lookup has not begun has no result.
    pub open spec fn wf(self) -> bool {
        &&& 0 <= self.started <= self.pairs.len()
        &&& self.slots.len() == self.pairs.len()
        &&& self.active.len() <= self.concurrent
        &&& 0 <= self.limit <= usize::MAX
        &&& forall|host: Seq<char>| #[trigger]
            count(self.hosts, host) == asking(self.active, host)
        &&& forall|host: Seq<char>| #[trigger] asking(self.active, host) <= self.limit
        &&& forall|i: int|
            0 <= i < self.active.len() ==> {
                &&& 0 <= (#[trigger] self.active[i]).index < self.started
                &&& self.slots[self.active[i].index] is None
                &&& is_lookup_of(
                    self.active[i].lookup,
                    self.pairs[self.active[i].index],
                    self.force_whois,
                )
            }
        &&& forall|i: int, j: int|
            0 <= i < j < self.active.len() ==> (#[trigger] self.active[i]).index != (
            #[trigger] self.active[j]).index
        &&& forall|k: int| self.started <= k < self.slots.len() ==> #[trigger] self.slots[k] is None
    }

    /// Whether the request of a task may be made now.
    pub open spec fn may_ask(self, task: TaskView) -> bool {
        &&& !task.asking
        &&& task.lookup.host() matches Some(host) ==> count(self.hosts, host)
            < self.limit
    }

    /// The first place from `i` on with a task whose request may be made.
    pub open spec fn first_ready(self, i: int) -> Option<int>
        decreases self.active.len() - i,
    {
        if i >= self.active.len() {
            None
        } else if self.may_ask(self.active[i]) {
            Some(i)
        } else {
            self.first_ready(i + 1)
        }
    }

    /// The run when the task at a place has made its request.
    pub open spec fn asked(self, i: int) -> RunView {
        RunView {
            active: self.active.update(i, TaskView { asking: true, ..self.active[i] }),
            hosts: match self.active[i].lookup.host() {
                Some(host) => acquired(self.hosts, host),
                None => self.hosts,
            },
            ..self
        }
    }

    /// The run when the lookup of one more pair has begun.
    pub open spec fn begun(self) -> RunView {
        let pair = self.pairs[self.started];
        RunView {
            active: self.active.push(
                TaskView {
                    index: self.started,
                    lookup: LookupView {
                        name: pair.0,
                        tld: pair.1,
                        stage: first_stage(pair.1, self.force_whois),
                    },
                    asking: false,
                },
            ),
            started: self.started + 1,
            ..self
        }
    }

    /// The run when it has been asked for a request, and the place of the task whose
    /// request it is: the first one that may be made. While none may be made,
    /// lookups are begun.
    pub open spec fn polled(self) -> (RunView, Option<int>)
        decreases self.pairs.len() - self.started,
    {
        match self.first_ready(0) {
            Some(i) => (self.asked(i), Some(i)),
            None => if self.active.len() < self.concurrent && self.started < self.pairs.len() {
                self.begun().polled()
            } else {
                (self, None)
            },
        }
    }

    /// The place of the task of a pair whose request is under way.
    pub open spec fn awaited(self, index: int) -> Option<int> {
        match place_of(self.active, index, 0) {
            Some(i) => if self.active[i].asking {
                Some(i)
            } else {
                None
            },
            None => None,
        }
    }

    /// The counts when the request of a task has ended.
    pub open spec fn hosts_without(self, i: int) -> Map<Seq<char>, usize> {
        match self.active[i].lookup.host() {
            Some(host) => released(self.hosts, host),
            None => self.hosts,
        }
    }

    /// The run when the request of a pair has ended. An end that is not awaited
    /// changes nothing.
    pub open spec fn ended(self, index: int, attempt: AttemptView, latency: u64) -> RunView {
        match self.awaited(index) {
            None => self,
            Some(i) => match self.active[i].lookup.after(attempt, latency) {
                ProgressView::Ask(next) => RunView {
                    active: self.active.update(
                        i,
                        TaskView { index, lookup: next, asking: false },
                    ),
                    hosts: self.hosts_without(i),
                    ..self
                },
                ProgressView::Done(result) => RunView {
                    active: self.active.remove(i),
                    hosts: self.hosts_without(i),
                    slots: self.slots.update(index, Some(result)),
                    ..self
                },
            },
        }
    }

    /// The run when the request of a pair was lost: the pair stays without a result.
    pub open spec fn lost(self, index: int) -> RunView {
        match self.awaited(index) {
            None => self,
            Some(i) => RunView {
                active: self.active.remove(i),
                hosts: self.hosts_without(i),
                ..self
            },
        }
    }

    /// Whether all lookups have ended.
    pub open spec fn is_over(self) -> bool {
        self.started == self.pairs.len() && self.active.len() == 0
    }
}

// ---------- what the steps keep ----------

/// One more task counts for its host.
proof fn lemma_asking_push(active: Seq<TaskView>, task: TaskView, host: Seq<char>)
    ensures
        asking(active.push(task), host) == asking(active, host) + asks(task, host),
{
    assert(active.push(task).drop_last() =~= active);
}

/// A changed task counts as it is now.
proof fn lemma_asking_update(active: Seq<TaskView>, i: int, task: TaskView, host: Seq<char>)
    requires
        0 <= i < active.len(),
    ensures
        asking(active.update(i, task), host) + asks(active[i], host) == asking(active, host) + asks(
            task,
            host,
        ),
    decreases active.len(),
{
    let after = active.update(i, task);
    if i == active.len() - 1 {
        assert(after.drop_last() =~= active.drop_last());
    } else {
        lemma_asking_update(active.drop_last(), i, task, host);
        assert(after.drop_last() =~= active.drop_last().update(i, task));
        assert(after.last() == active.last());
    }
}

/// A task that is gone does not count.
proof fn lemma_asking_remove(active: Seq<TaskView>, i: int, host: Seq<char>)
    requires
        0 <= i < active.len(),
    ensures
        asking(active.remove(i), host) + asks(active[i], host) == asking(active, host),
    decreases active.len(),
{
    let after = active.remove(i);
    if i == active.len() - 1 {
        assert(after =~= active.drop_last());
    } else {
        lemma_asking_remove(active.drop_last(), i, host);
        assert(after.drop_last() =~= active.drop_last().remove(i));
        assert(after.last() == active.last());
    }
}

/// The first place of a pair's task is one.
proof fn lemma_place_of(active: Seq<TaskView>, index: int, i: int)
    requires
        0 <= i,
    ensures
        match place_of(active, index, i) {
            Some(k) => i <= k < active.len() && active[k].index == index,
            None => forall|k: int| i <= k < active.len() ==> (#[trigger] active[k]).index != index,
        },
    decreases active.len() - i,
{
    if i < active.len() && active[i].index != index {
        lemma_place_of(active, index, i + 1);
    }
}

/// A request that may be made keeps the run in order.
proof fn lemma_asked(s: RunView, i: int)
    requires
        s.wf(),
        0 <= i < s.active.len(),
        s.may_ask(s.active[i]),
    ensures
        s.asked(i).wf(),
{
    let t = s.asked(i);
    let task = TaskView { asking: true, ..s.active[i] };
    assert forall|host: Seq<char>|
        #![trigger asking(t.active, host)]
        #![trigger count(t.hosts, host)]
        count(t.hosts, host) == asking(t.active, host) && asking(t.active, host)
            <= s.limit by {
        lemma_asking_update(s.active, i, task, host);
        assert(count(s.hosts, host) == asking(s.active, host));
        assert(asking(s.active, host) <= s.limit);
    }
    assert forall|k: int| 0 <= k < t.active.len() implies {
        &&& 0 <= (#[trigger] t.active[k]).index < t.started
        &&& t.slots[t.active[k].index] is None
        &&& is_lookup_of(t.active[k].lookup, t.pairs[t.active[k].index], t.force_whois)
    } by {
        assert(t.active[k].index == s.active[k].index);
    }
    assert forall|a: int, b: int| 0 <= a < b < t.active.len() implies (
    #[trigger] t.active[a]).index != (#[trigger] t.active[b]).index by {
        assert(t.active[a].index == s.active[a].index);
        assert(t.active[b].index == s.active[b].index);
    }
}

/// A lookup that may begin keeps the run in order.
proof fn lemma_begun(s: RunView)
    requires
        s.wf(),
        s.active.len() < s.concurrent,
        s.started < s.pairs.len(),
    ensures
        s.begun().wf(),
{
    let t = s.begun();
    let task = t.active.last();
    assert forall|host: Seq<char>|
        #![trigger asking(t.active, host)]
        #![trigger count(t.hosts, host)]
        count(t.hosts, host) == asking(t.active, host) && asking(t.active, host)
            <= s.limit by {
        lemma_asking_push(s.active, task, host);
        assert(count(s.hosts, host) == asking(s.active, host));
        assert(asking(s.active, host) <= s.limit);
    }
    assert(s.slots[s.started] is None);
    assert forall|k: int| 0 <= k < t.active.len() implies {
        &&& 0 <= (#[trigger] t.active[k]).index < t.started
        &&& t.slots[t.active[k].index] is None
        &&& is_lookup_of(t.active[k].lookup, t.pairs[t.active[k].index], t.force_whois)
    } by {
        if k < s.active.len() {
            assert(t.active[k] == s.active[k]);
        }
    }
    assert forall|a: int, b: int| 0 <= a < b < t.active.len() implies (
    #[trigger] t.active[a]).index != (#[trigger] t.active[b]).index by {
        assert(t.active[a] == s.active[a]);
        if b < s.active.len() {
            assert(t.active[b] == s.active[b]);
        }
    }
}

/// The counts of a run without the request of a task.
proof fn lemma_hosts_without(s: RunView, i: int, host: Seq<char>)
    requires
        s.wf(),
        0 <= i < s.active.len(),
        s.active[i].asking,
    ensures
        count(s.hosts_without(i), host) + asks(s.active[i], host) == asking(
            s.active,
            host,
        ),
        asking(s.active, host) <= s.limit,
{
    lemma_asking_remove(s.active, i, host);
    assert(count(s.hosts, host) == asking(s.active, host));
}

/// The end of a request keeps the run in order.
proof fn lemma_ended(s: RunView, index: int, attempt: AttemptView, latency: u64)
    requires
        s.wf(),
    ensures
        s.ended(index, attempt, latency).wf(),
{
    lemma_place_of(s.active, index, 0);
    if let Some(i) = s.awaited(index) {
        let t = s.ended(index, attempt, latency);
        match s.active[i].lookup.after(attempt, latency) {
            ProgressView::Ask(next) => {
                let task = TaskView { index, lookup: next, asking: false };
                assert forall|host: Seq<char>|
                    #![trigger asking(t.active, host)]
                    #![trigger count(t.hosts, host)]
                    count(t.hosts, host) == asking(t.active, host) && asking(
                        t.active,
                        host,
                    ) <= s.limit by {
                    lemma_hosts_without(s, i, host);
                    lemma_asking_update(s.active, i, task, host);
                }
                assert forall|k: int| 0 <= k < t.active.len() implies {
                    &&& 0 <= (#[trigger] t.active[k]).index < t.started
                    &&& t.slots[t.active[k].index] is None
                    &&& is_lookup_of(t.active[k].lookup, t.pairs[t.active[k].index], t.force_whois)
                } by {
                    assert(t.active[k].index == s.active[k].index);
                }
                assert forall|a: int, b: int| 0 <= a < b < t.active.len() implies (
                #[trigger] t.active[a]).index != (#[trigger] t.active[b]).index by {
                    assert(t.active[a].index == s.active[a].index);
                    assert(t.active[b].index == s.active[b].index);
                }
            },
            ProgressView::Done(result) => {
                lemma_lost(s, index);
                let without = s.lost(index);
                assert(t.active == without.active);
                assert(t.hosts == without.hosts);
                assert(t.slots.len() == t.pairs.len());
                assert forall|k: int| 0 <= k < t.active.len() implies {
                    &&& 0 <= (#[trigger] t.active[k]).index < t.started
                    &&& t.slots[t.active[k].index] is None
                    &&& is_lookup_of(t.active[k].lookup, t.pairs[t.active[k].index], t.force_whois)
                } by {
                    assert(without.active[k].index < s.started);
                    let m = if k < i { k } else { k + 1 };
                    assert(s.active[m] == t.active[k]);
                    assert(s.active[i].index == index);
                    if m < i {
                        assert(s.active[m].index != s.active[i].index);
                    } else {
                        assert(s.active[i].index != s.active[m].index);
                    }
                }
                assert forall|k: int| t.started <= k < t.slots.len() implies #[trigger] t.slots[k] is None by {
                    assert(s.active[i].index < s.started);
                    assert(s.slots[k] is None);
                }
            },
        }
    }
}

/// The loss of a request keeps the run in order.
proof fn lemma_lost(s: RunView, index: int)
    requires
        s.wf(),
    ensures
        s.lost(index).wf(),
{
    lemma_place_of(s.active, index, 0);
    if let Some(i) = s.awaited(index) {
        let t = s.lost(index);
        assert forall|host: Seq<char>|
            #![trigger asking(t.active, host)]
            #![trigger count(t.hosts, host)]
            count(t.hosts, host) == asking(t.active, host) && asking(t.active, host)
                <= s.limit by {
            lemma_hosts_without(s, i, host);
            lemma_asking_remove(s.active, i, host);
        }
        assert forall|k: int| 0 <= k < t.active.len() implies {
            &&& 0 <= (#[trigger] t.active[k]).index < t.started
            &&& t.slots[t.active[k].index] is None
            &&& is_lookup_of(t.active[k].lookup, t.pairs[t.active[k].index], t.force_whois)
        } by {
            let m = if k < i { k } else { k + 1 };
            assert(s.active[m] == t.active[k]);
        }
        assert forall|a: int, b: int| 0 <= a < b < t.active.len() implies (
        #[trigger] t.active[a]).index != (#[trigger] t.active[b]).index by {
            let m = if a < i { a } else { a + 1 };
            let n = if b < i { b } else { b + 1 };
            assert(s.active[m] == t.active[a]);
            assert(s.active[n] == t.active[b]);
            assert(s.active[m].index != s.active[n].index);
        }
    }
}

// ---------- steps ----------

impl Task {
    /// Whether the request of the task may be made now.
    fn may_ask(&self, hosts: &HostLimiter, limit: usize) -> (r: bool)
        ensures
            r == (!self@.asking && (self@.lookup.host() matches Some(host) ==> count(
                hosts@,
                host,
            ) < limit)),
    {
        if self.asking {
            return false;
        }
        match self.lookup.host() {
            Some(host) => hosts.has_room(host.as_str(), limit),
            None => true,
        }
    }
}

impl Run {
    /// Whether the run is in order.
    pub open spec fn wf(&self) -> bool {
        self@.wf()
    }

    /// A run in which no lookup has begun. At each host [`DEFAULT_PER_HOST_LIMIT`]
    /// requests may be under way.
    pub fn new(pairs: Vec<(String, String)>, config: &EngineConfig) -> (r: Self)
        ensures
            r.wf(),
            r@ == RunView::fresh(pairs.deep_view(), config.force_whois, config.concurrent),
    {
        let slots = ResultSlots::new(pairs.len());
        let active: Vec<Task> = Vec::new();
        let r = Run {
            pairs,
            force_whois: config.force_whois,
            concurrent: config.concurrent,
            limit: DEFAULT_PER_HOST_LIMIT,
            started: 0,
            active,
            hosts: HostLimiter::new(),
            slots,
        };
        proof {
            assert(r@.active =~= Seq::empty());
        }
        r
    }

    /// The first place with a task whose request may be made.
    fn ready(&self) -> (r: Option<usize>)
        ensures
            match self@.first_ready(0) {
                Some(i) => r matches Some(k) && k == i && i < self@.active.len(),
                None => r is None,
            },
    {
        let mut i: usize = 0;
        while i < self.active.len()
            invariant
                i <= self.active@.len(),
                self@.first_ready(0) == self@.first_ready(i as int),
            decreases self.active@.len() - i,
        {
            proof {
                assert(self@.active[i as int] == self.active@[i as int]@);
            }
            if self.active[i].may_ask(&self.hosts, self.limit) {
                return Some(i);
            }
            i += 1;
        }
        None
    }

    /// The place of the task of a pair whose request is under way.
    fn awaited(&self, index: usize) -> (r: Option<usize>)
        ensures
            match self@.awaited(index as int) {
                Some(i) => r matches Some(k) && k == i && i < self@.active.len(),
                None => r is None,
            },
    {
        let mut i: usize = 0;
        while i < self.active.len()
            invariant
                i <= self.active@.len(),
                place_of(self@.active, index as int, 0) == place_of(
                    self@.active,
                    index as int,
                    i as int,
                ),
            decreases self.active@.len() - i,
        {
            proof {
                assert(self@.active[i as int] == self.active@[i as int]@);
            }
            if self.active[i].index == index {
                if self.active[i].asking {
                    return Some(i);
                }
                return None;
            }
            i += 1;
        }
        None
    }

    /// The next request to make, if one may be made now. While none may be made,
    /// lookups are begun as far as they may be.
    pub fn poll(&mut self) -> (r: Option<Request>)
        requires
            old(self).wf(),
        ensures
            final(self).wf(),
            final(self)@ == old(self)@.polled().0,
            match old(self)@.polled().1 {
                Some(i) => {
                    &&& r matches Some(request)
                    &&& request.index == final(self)@.active[i].index
                    &&& request.lookup@ == final(self)@.active[i].lookup
                },
                None => r is None,
            },
    {
        loop
            invariant
                self.wf(),
                self@.polled() == old(self)@.polled(),
            decreases self@.pairs.len() - self@.started,
        {
            let ghost s = self@;
            if let Some(i) = self.ready() {
                proof {
                    lemma_ready(s, 0);
                    lemma_asked(s, i as int);
                    assert(s.active[i as int] == self.active@[i as int]@);
                }
                let task = self.active.remove(i);
                if let Some(host) = task.lookup.host() {
                    let _ = self.hosts.try_acquire(host.as_str(), self.limit);
                }
                let request = Request { index: task.index, lookup: task.lookup.copy() };
                self.active.insert(
                    i,
                    Task { index: task.index, lookup: task.lookup, asking: true },
                );
                proof {
                    assert(self@.active =~= s.asked(i as int).active);
                    assert(self@ =~= s.asked(i as int));
                }
                return Some(request);
            }
            if self.active.len() < self.concurrent && self.started < self.pairs.len() {
                let pair = &self.pairs[self.started];
                let lookup = Lookup::begin(pair.0.as_str(), pair.1.as_str(), self.force_whois);
                self.active.push(Task { index: self.started, lookup, asking: false });
                self.started = self.started + 1;
                proof {
                    lemma_begun(s);
                    assert(self@.active =~= s.begun().active);
                    assert(self@ =~= s.begun());
                }
            } else {
                return None;
            }
        }
    }

    /// Takes note of the end of the request of pair number `index`. The latency is
    /// that of the pair's lookup so far.
    pub fn ended(&mut self, index: usize, attempt: Attempt, latency_ms: u64)
        requires
            old(self).wf(),
        ensures
            final(self).wf(),
            final(self)@ == old(self)@.ended(index as int, attempt@, latency_ms),
    {
        let ghost s = self@;
        proof {
            lemma_ended(s, index as int, attempt@, latency_ms);
            lemma_place_of(s.active, index as int, 0);
        }
        if let Some(i) = self.awaited(index) {
            proof {
                assert(s.active[i as int] == self.active@[i as int]@);
            }
            let task = self.active.remove(i);
            if let Some(host) = task.lookup.host() {
                self.hosts.release(host.as_str());
            }
            match task.lookup.advance(attempt, latency_ms) {
                Progress::Ask(next) => {
                    self.active.insert(i, Task { index, lookup: next, asking: false });
                    proof {
                        assert(self@.active =~= s.ended(
                            index as int,
                            attempt@,
                            latency_ms,
                        ).active);
                    }
                },
                Progress::Done(result) => {
                    self.slots.put(index, result);
                    proof {
                        assert(self@.active =~= s.active.remove(i as int));
                    }
                },
            }
            proof {
                assert(self@ =~= s.ended(index as int, attempt@, latency_ms));
            }
        }
    }

    /// Takes note that the request of pair number `index` was lost.
    pub fn lost(&mut self, index: usize)
        requires
            old(self).wf(),
        ensures
            final(self).wf(),
            final(self)@ == old(self)@.lost(index as int),
    {
        let ghost s = self@;
        proof {
            lemma_lost(s, index as int);
            lemma_place_of(s.active, index as int, 0);
        }
        if let Some(i) = self.awaited(index) {
            proof {
                assert(s.active[i as int] == self.active@[i as int]@);
            }
            let task = self.active.remove(i);
            if let Some(host) = task.lookup.host() {
                self.hosts.release(host.as_str());
            }
            proof {
                assert(self@.active =~= s.active.remove(i as int));
                assert(self@ =~= s.lost(index as int));
            }
        }
    }

    /// The number of pairs whose lookup has begun. Lookups begin in the order of the
    /// pairs.
    pub fn started(&self) -> (r: usize)
        ensures
            r == self@.started,
    {
        self.started
    }

    /// Whether all lookups have ended.
    pub fn is_over(&self) -> (r: bool)
        requires
            self.wf(),
        ensures
            r == self@.is_over(),
    {
        self.started >= self.pairs.len() && self.active.len() == 0
    }

    /// One result for each pair, in the order of the pairs. A pair without a result
    /// has one that says so.
    pub fn into_results(self) -> (r: Vec<LookupResult>)
        requires
            self.wf(),
        ensures
            views(r@) == all_results(self@.slots, self@.pairs),
    {
        self.slots.into_results(&self.pairs)
    }
}

/// What [`RunView::first_ready`] finds may be asked.
proof fn lemma_ready(s: RunView, i: int)
    requires
        0 <= i,
    ensures
        s.first_ready(i) matches Some(k) ==> i <= k < s.active.len() && s.may_ask(s.active[k]),
        s.first_ready(i) is None ==> forall|k: int|
            i <= k < s.active.len() ==> !s.may_ask(#[trigger] s.active[k]),
    decreases s.active.len() - i,
{
    if i < s.active.len() && !s.may_ask(s.active[i]) {
        lemma_ready(s, i + 1);
    }
}

// ---------- laws ----------

/// At no time are more lookups under way than may be, nor more requests at one host.
pub proof fn law_lookups_are_bounded(s: RunView, host: Seq<char>)
    requires
        s.wf(),
    ensures
        s.active.len() <= s.concurrent,
        asking(s.active, host) <= s.limit,
{
}

/// Every step keeps a run in order.
pub proof fn law_steps_keep_order(s: RunView, index: int, attempt: AttemptView, latency: u64)
    requires
        s.wf(),
    ensures
        s.polled().0.wf(),
        s.ended(index, attempt, latency).wf(),
        s.lost(index).wf(),
    decreases s.pairs.len() - s.started,
{
    lemma_ended(s, index, attempt, latency);
    lemma_lost(s, index);
    lemma_ready(s, 0);
    match s.first_ready(0) {
        Some(i) => {
            lemma_asked(s, i);
        },
        None => {
            if s.active.len() < s.concurrent && s.started < s.pairs.len() {
                lemma_begun(s);
                law_steps_keep_order(s.begun(), index, attempt, latency);
            }
        },
    }
}

/// Where no task has a request under way, no host has one.
proof fn lemma_nobody_asks(active: Seq<TaskView>, host: Seq<char>)
    requires
        forall|i: int| 0 <= i < active.len() ==> !(#[trigger] active[i]).asking,
    ensures
        asking(active, host) == 0,
    decreases active.len(),
{
    if active.len() > 0 {
        assert(!active[active.len() - 1].asking);
        assert forall|i: int| 0 <= i < active.drop_last().len() implies !(
        #[trigger] active.drop_last()[i]).asking by {
            assert(!active[i].asking);
        }
        lemma_nobody_asks(active.drop_last(), host);
    }
}

/// A run never comes to a standstill: until it is over, a request is under way or
/// can be made.
pub proof fn law_a_run_goes_on(s: RunView)
    requires
        s.wf(),
        s.concurrent > 0,
        s.limit > 0,
        !s.is_over(),
        forall|i: int| 0 <= i < s.active.len() ==> !(#[trigger] s.active[i]).asking,
    ensures
        s.polled().1 is Some,
{
    lemma_ready(s, 0);
    if s.active.len() > 0 {
        let task = s.active[0];
        assert(!task.asking);
        if let Some(host) = task.lookup.host() {
            lemma_nobody_asks(s.active, host);
            assert(count(s.hosts, host) == asking(s.active, host));
        }
        assert(s.may_ask(s.active[0]));
    } else {
        let t = s.begun();
        lemma_begun(s);
        lemma_ready(t, 0);
        let task = t.active[0];
        if let Some(host) = task.lookup.host() {
            assert(asking(t.active, host) == 0) by {
                lemma_nobody_asks(t.active, host);
            }
            assert(count(t.hosts, host) == asking(t.active, host));
        }
        assert(t.may_ask(t.active[0]));
        assert(t.polled().1 is Some);
    }
}

/// A result that is there stays what it is, whatever happens to other lookups.
pub proof fn law_results_stay(
    s: RunView,
    index: int,
    attempt: AttemptView,
    latency: u64,
    k: int,
)
    requires
        s.wf(),
        0 <= k < s.slots.len(),
        s.slots[k] is Some,
    ensures
        s.ended(index, attempt, latency).slots[k] == s.slots[k],
        s.lost(index).slots[k] == s.slots[k],
{
    lemma_place_of(s.active, index, 0);
    if let Some(i) = s.awaited(index) {
        assert(s.slots[s.active[i].index] is None);
    }
}

/// Whether every pair whose lookup has begun has its result, or a lookup that is
/// under way.
pub open spec fn complete(s: RunView) -> bool {
    forall|k: int|
        0 <= k < s.started ==> #[trigger] s.slots[k] is Some || exists|i: int|
            0 <= i < s.active.len() && (#[trigger] s.active[i]).index == k
}

/// Where no request was lost, no pair is left out: when the run is over, every pair
/// has a result.
pub proof fn law_no_pair_is_left_out(
    s: RunView,
    index: int,
    attempt: AttemptView,
    latency: u64,
)
    requires
        s.wf(),
        complete(s),
    ensures
        complete(s.polled().0),
        complete(s.ended(index, attempt, latency)),
        s.is_over() ==> forall|k: int| 0 <= k < s.pairs.len() ==> #[trigger] s.slots[k] is Some,
{
    lemma_polled_complete(s);
    lemma_place_of(s.active, index, 0);
    let t = s.ended(index, attempt, latency);
    if let Some(i) = s.awaited(index) {
        assert forall|k: int| 0 <= k < t.started implies #[trigger] t.slots[k] is Some || exists|
            m: int,
        | 0 <= m < t.active.len() && (#[trigger] t.active[m]).index == k by {
            assert(s.slots[k] is Some || exists|m: int|
                0 <= m < s.active.len() && (#[trigger] s.active[m]).index == k);
            if k != index && s.slots[k] is None {
                let m = choose|m: int| 0 <= m < s.active.len() && (#[trigger] s.active[m]).index == k;
                if t.active.len() == s.active.len() {
                    assert(t.active[m].index == k);
                } else {
                    let n = if m < i { m } else { m - 1 };
                    assert(t.active[n] == s.active[m]);
                }
            } else if k == index && t.active.len() == s.active.len() {
                assert(t.active[i].index == k);
            }
        }
    }
    if s.is_over() {
        assert forall|k: int| 0 <= k < s.pairs.len() implies #[trigger] s.slots[k] is Some by {
            assert(s.slots[k] is Some || exists|m: int|
                0 <= m < s.active.len() && (#[trigger] s.active[m]).index == k);
        }
    }
}

/// A poll leaves no pair out.
proof fn lemma_polled_complete(s: RunView)
    requires
        s.wf(),
        complete(s),
    ensures
        complete(s.polled().0),
    decreases s.pairs.len() - s.started,
{
    lemma_ready(s, 0);
    match s.first_ready(0) {
        Some(i) => {
            let t = s.asked(i);
            assert forall|k: int| 0 <= k < t.started implies #[trigger] t.slots[k] is Some
                || exists|m: int| 0 <= m < t.active.len() && (#[trigger] t.active[m]).index == k by {
                assert(s.slots[k] is Some || exists|m: int|
                    0 <= m < s.active.len() && (#[trigger] s.active[m]).index == k);
                if s.slots[k] is None {
                    let m = choose|m: int|
                        0 <= m < s.active.len() && (#[trigger] s.active[m]).index == k;
                    assert(t.active[m].index == k);
                }
            }
        },
        None => {
            if s.active.len() < s.concurrent && s.started < s.pairs.len() {
                let t = s.begun();
                assert forall|k: int| 0 <= k < t.started implies #[trigger] t.slots[k] is Some
                    || exists|m: int|
                    0 <= m < t.active.len() && (#[trigger] t.active[m]).index == k by {
                    if k == s.started {
                        assert(t.active[s.active.len() as int].index == k);
                    } else {
                        assert(s.slots[k] is Some || exists|m: int|
                            0 <= m < s.active.len() && (#[trigger] s.active[m]).index == k);
                        if s.slots[k] is None {
                            let m = choose|m: int|
                                0 <= m < s.active.len() && (#[trigger] s.active[m]).index == k;
                            assert(t.active[m].index == k);
                        }
                    }
                }
                lemma_begun(s);
                lemma_polled_complete(t);
            }
        },
    }
}

/// Whether every result that is there names the domain of its pair.
pub open spec fn named(s: RunView) -> bool {
    forall|k: int|
        0 <= k < s.slots.len() ==> (#[trigger] s.slots[k] matches Some(result) ==> result.domain
            == full_name(s.pairs[k].0, s.pairs[k].1))
}

/// The result with which a lookup ends becomes that of its pair, and no other pair's
/// result changes.
pub proof fn law_an_end_gives_its_pair_the_result(
    s: RunView,
    index: int,
    attempt: AttemptView,
    latency: u64,
)
    requires
        s.wf(),
        s.awaited(index) is Some,
    ensures
        ({
            let lookup = s.active[s.awaited(index)->0].lookup;
            &&& 0 <= index < s.pairs.len()
            &&& is_lookup_of(lookup, s.pairs[index], s.force_whois)
            &&& s.ended(index, attempt, latency).slots == match lookup.after(attempt, latency) {
                ProgressView::Done(result) => s.slots.update(index, Some(result)),
                ProgressView::Ask(_) => s.slots,
            }
        }),
{
    lemma_place_of(s.active, index, 0);
    let i = s.awaited(index)->0;
    assert(s.active[i].index < s.started);
}

/// Every pair's result names its domain, as long as every result that is found does.
pub proof fn law_results_name_their_pairs(
    s: RunView,
    index: int,
    attempt: AttemptView,
    latency: u64,
)
    requires
        s.wf(),
        named(s),
        s.awaited(index) is Some ==> (attempt matches AttemptView::Found(result)
            ==> result.domain == full_name(s.pairs[index].0, s.pairs[index].1)),
    ensures
        named(s.polled().0),
        named(s.ended(index, attempt, latency)),
        named(s.lost(index)),
        forall|k: int|
            0 <= k < s.pairs.len() ==> (#[trigger] all_results(s.slots, s.pairs)[k]).domain
                == full_name(s.pairs[k].0, s.pairs[k].1),
{
    lemma_polled_keeps(s);
    if s.awaited(index) is Some {
        law_an_end_gives_its_pair_the_result(s, index, attempt, latency);
    }
    let t = s.ended(index, attempt, latency);
    assert forall|k: int| 0 <= k < t.slots.len() implies (#[trigger] t.slots[k] matches Some(result)
        ==> result.domain == full_name(t.pairs[k].0, t.pairs[k].1)) by {
        assert(s.slots[k] matches Some(result) ==> result.domain == full_name(
            s.pairs[k].0,
            s.pairs[k].1,
        ));
    }
    assert forall|k: int| 0 <= k < s.pairs.len() implies (#[trigger] all_results(
        s.slots,
        s.pairs,
    )[k]).domain == full_name(s.pairs[k].0, s.pairs[k].1) by {
        assert(s.slots[k] matches Some(result) ==> result.domain == full_name(
            s.pairs[k].0,
            s.pairs[k].1,
        ));
    }
}

/// A poll changes neither the pairs and the settings nor the results.
proof fn lemma_polled_keeps(s: RunView)
    ensures
        s.polled().0.pairs == s.pairs,
        s.polled().0.force_whois == s.force_whois,
        s.polled().0.concurrent == s.concurrent,
        s.polled().0.limit == s.limit,
        s.polled().0.slots == s.slots,
    decreases s.pairs.len() - s.started,
{
    if s.first_ready(0) is None && s.active.len() < s.concurrent && s.started < s.pairs.len() {
        lemma_polled_keeps(s.begun());
    }
}

/// A step of a run.
pub enum Step {
    /// It is asked for a request.
    Poll,
    /// The request of pair number `index` ends.
    Ended { index: int, attempt: AttemptView, latency: u64 },
    /// The request of pair number `index` is lost.
    Lost { index: int },
}

impl RunView {
    /// The run after a step.
    pub open spec fn stepped(self, step: Step) -> RunView {
        match step {
            Step::Poll => self.polled().0,
            Step::Ended { index, attempt, latency } => self.ended(index, attempt, latency),
            Step::Lost { index } => self.lost(index),
        }
    }

    /// The run after some steps.
    pub open spec fn run(self, steps: Seq<Step>) -> RunView
        decreases steps.len(),
    {
        if steps.len() == 0 {
            self
        } else {
            self.run(steps.drop_last()).stepped(steps.last())
        }
    }
}

/// Steps keep a run in order, and change neither its pairs nor its settings.
proof fn lemma_run(s: RunView, steps: Seq<Step>)
    requires
        s.wf(),
    ensures
        s.run(steps).wf(),
        s.run(steps).pairs == s.pairs,
        s.run(steps).force_whois == s.force_whois,
        s.run(steps).concurrent == s.concurrent,
        s.run(steps).limit == s.limit,
    decreases steps.len(),
{
    if steps.len() > 0 {
        lemma_run(s, steps.drop_last());
        let before = s.run(steps.drop_last());
        match steps.last() {
            Step::Poll => {
                law_steps_keep_order(before, 0, AttemptView::TimedOut, 0);
                lemma_polled_keeps(before);
            },
            Step::Ended { index, attempt, latency } => {
                law_steps_keep_order(before, index, attempt, latency);
            },
            Step::Lost { index } => {
                law_steps_keep_order(before, index, AttemptView::TimedOut, 0);
            },
        }
    }
}

/// Whatever the steps of a run, at no time are more lookups under way than the
/// configuration allows, nor more than [`DEFAULT_PER_HOST_LIMIT`] requests at one host.
pub proof fn law_every_run_is_bounded(
    pairs: Seq<(Seq<char>, Seq<char>)>,
    force_whois: bool,
    concurrent: usize,
    steps: Seq<Step>,
    host: Seq<char>,
)
    ensures
        ({
            let s = RunView::fresh(pairs, force_whois, concurrent).run(steps);
            &&& s.active.len() <= concurrent
            &&& asking(s.active, host) <= DEFAULT_PER_HOST_LIMIT
        }),
{
    lemma_run(RunView::fresh(pairs, force_whois, concurrent), steps);
}

/// Whatever the steps of a run, where none is a loss every pair has a result when the run
/// is over.
pub proof fn law_every_pair_is_answered(
    pairs: Seq<(Seq<char>, Seq<char>)>,
    force_whois: bool,
    concurrent: usize,
    steps: Seq<Step>,
)
    requires
        forall|j: int| 0 <= j < steps.len() ==> !(#[trigger] steps[j] is Lost),
    ensures
        ({
            let s = RunView::fresh(pairs, force_whois, concurrent).run(steps);
            &&& complete(s)
            &&& s.is_over() ==> forall|k: int|
                0 <= k < pairs.len() ==> #[trigger] s.slots[k] is Some
        }),
    decreases steps.len(),
{
    let first = RunView::fresh(pairs, force_whois, concurrent);
    if steps.len() > 0 {
        let before = first.run(steps.drop_last());
        lemma_run(first, steps.drop_last());
        assert forall|j: int| 0 <= j < steps.drop_last().len() implies !(
        #[trigger] steps.drop_last()[j] is Lost) by {
            assert(!(steps[j] is Lost));
        }
        law_every_pair_is_answered(pairs, force_whois, concurrent, steps.drop_last());
        assert(!(steps[steps.len() - 1] is Lost));
        match steps.last() {
            Step::Ended { index, attempt, latency } => {
                law_no_pair_is_left_out(before, index, attempt, latency);
            },
            _ => {
                law_no_pair_is_left_out(before, 0, AttemptView::TimedOut, 0);
            },
        }
    }
    lemma_run(first, steps);
    law_no_pair_is_left_out(first.run(steps), 0, AttemptView::TimedOut, 0);
}

/// Whether a step that finds a result for a pair finds one that names its domain.
pub open spec fn finds_its_domain(step: Step, pairs: Seq<(Seq<char>, Seq<char>)>) -> bool {
    step matches Step::Ended { index, attempt: AttemptView::Found(result), .. } ==> 0 <= index
        < pairs.len() ==> result.domain == full_name(pairs[index].0, pairs[index].1)
}

/// Whatever the order in which requests are made and end, and whichever are lost, a run
/// gives one result for each pair, in the order of the pairs: each names the domain of
/// its pair, as long as every result that is found does.
pub proof fn law_results_stand_in_the_order_of_the_pairs(
    pairs: Seq<(Seq<char>, Seq<char>)>,
    force_whois: bool,
    concurrent: usize,
    steps: Seq<Step>,
)
    requires
        forall|j: int| 0 <= j < steps.len() ==> finds_its_domain(#[trigger] steps[j], pairs),
    ensures
        ({
            let s = RunView::fresh(pairs, force_whois, concurrent).run(steps);
            &&& named(s)
            &&& s.pairs == pairs
            &&& all_results(s.slots, s.pairs).len() == pairs.len()
            &&& forall|k: int|
                0 <= k < pairs.len() ==> (#[trigger] all_results(s.slots, s.pairs)[k]).domain
                    == full_name(pairs[k].0, pairs[k].1)
        }),
    decreases steps.len(),
{
    let first = RunView::fresh(pairs, force_whois, concurrent);
    if steps.len() > 0 {
        let before = first.run(steps.drop_last());
        lemma_run(first, steps.drop_last());
        assert forall|j: int| 0 <= j < steps.drop_last().len() implies finds_its_domain(
            #[trigger] steps.drop_last()[j],
            pairs,
        ) by {
            assert(finds_its_domain(steps[j], pairs));
        }
        law_results_stand_in_the_order_of_the_pairs(
            pairs,
            force_whois,
            concurrent,
            steps.drop_last(),
        );
        let (index, attempt, latency) = match steps.last() {
            Step::Poll => (0int, AttemptView::TimedOut, 0u64),
            Step::Ended { index, attempt, latency } => (index, attempt, latency),
            Step::Lost { index } => (index, AttemptView::TimedOut, 0u64),
        };
        assert(finds_its_domain(steps[steps.len() - 1], pairs));
        if before.awaited(index) is Some {
            law_an_end_gives_its_pair_the_result(before, index, attempt, latency);
        }
        law_results_name_their_pairs(before, index, attempt, latency);
    }
    lemma_run(first, steps);
    law_results_name_their_pairs(first.run(steps), 0, AttemptView::TimedOut, 0);
}

/// A run asks the provider, and nobody else, for a domain of the `.bd` zone, and with
/// `force_whois` nothing but WHOIS for any other.
pub proof fn law_a_run_keeps_to_the_protocols(s: RunView, i: int)
    requires
        s.wf(),
        0 <= i < s.active.len(),
    ensures
        ({
            let asked = s.active[i].lookup.stage.spoken();
            let tld = s.pairs[s.active[i].index].1;
            &&& asked == Protocol::Bd <==> in_bd_zone(tld)
            &&& s.force_whois && !in_bd_zone(tld) ==> asked == Protocol::Whois
        }),
{
    assert(0 <= s.active[i].index);
}

/// Nothing waits without need: where a run has no request to make, each request that is
/// not under way waits for its host, and no lookup can begin.
pub proof fn law_nothing_waits_without_need(s: RunView)
    requires
        s.wf(),
        s.polled().1 is None,
    ensures
        ({
            let t = s.polled().0;
            &&& t.active.len() >= t.concurrent || t.started == t.pairs.len()
            &&& forall|i: int|
                0 <= i < t.active.len() ==> (#[trigger] t.active[i]).asking || (
                t.active[i].lookup.host() matches Some(host) && asking(t.active, host) >= t.limit)
        }),
    decreases s.pairs.len() - s.started,
{
    lemma_ready(s, 0);
    if s.active.len() < s.concurrent && s.started < s.pairs.len() {
        lemma_begun(s);
        law_nothing_waits_without_need(s.begun());
    } else {
        assert forall|i: int| 0 <= i < s.active.len() implies (#[trigger] s.active[i]).asking || (
        s.active[i].lookup.host() matches Some(host) && asking(s.active, host) >= s.limit) by {
            assert(!s.may_ask(s.active[i]));
            if let Some(host) = s.active[i].lookup.host() {
                assert(count(s.hosts, host) == asking(s.active, host));
            }
        }
    }
}

/// A request that a run makes is under way from then on, and it is that of a pair's lookup.
pub proof fn law_requests_are_under_way(s: RunView)
    requires
        s.wf(),
    ensures
        s.polled().1 matches Some(i) ==> {
            let t = s.polled().0;
            &&& 0 <= i < t.active.len()
            &&& t.active[i].asking
            &&& is_lookup_of(t.active[i].lookup, t.pairs[t.active[i].index], t.force_whois)
            &&& t.awaited(t.active[i].index) == Some(i)
        },
    decreases s.pairs.len() - s.started,
{
    lemma_ready(s, 0);
    match s.first_ready(0) {
        Some(i) => {
            lemma_asked(s, i);
            let t = s.asked(i);
            lemma_place_of(t.active, t.active[i].index, 0);
            let k = place_of(t.active, t.active[i].index, 0)->0;
            if k < i {
                assert(t.active[k].index != t.active[i].index);
            } else if i < k {
                assert(t.active[i].index != t.active[k].index);
            }
        },
        None => {
            if s.active.len() < s.concurrent && s.started < s.pairs.len() {
                lemma_begun(s);
                law_requests_are_under_way(s.begun());
            }
        },
    }
}

/// A loss gives no pair a result, and an end or a loss of a request that is not under way
/// changes nothing.
pub proof fn law_what_changes_nothing(
    s: RunView,
    index: int,
    attempt: AttemptView,
    latency: u64,
)
    ensures
        s.lost(index).slots == s.slots,
        s.lost(index).started == s.started,
        (forall|i: int|
            0 <= i < s.active.len() && (#[trigger] s.active[i]).index == index
                ==> !s.active[i].asking) ==> s.ended(index, attempt, latency) == s && s.lost(index)
            == s,
{
    lemma_place_of(s.active, index, 0);
}

} // verus!
