//! Lifecycle events and the abstract model of the scheduler's work queues.
use vstd::prelude::*;

verus! {

/// Where a component instance stands in its life.
#[derive(PartialEq, Eq, Structural, Clone, Copy, Debug)]
pub enum Phase {
    Unmounted,
    Mounted,
    Destroyed,
}

/// Input handed to a mounted component's update hook.
#[derive(Clone, Debug)]
pub enum UpdateEvent {
    /// Forces the first render of a freshly mounted component.
    First,
    /// A single message.
    Message(u64),
    /// An ordered batch of messages, applied by one update-and-render cycle.
    MessageBatch(Vec<u64>),
    /// New properties from a re-rendering parent, with the component's new
    /// mount anchors: its output node and the sibling it is placed before.
    Properties(u64, u64, Option<u64>),
}

/// One requested transition for one component instance.
#[derive(Clone, Debug)]
pub enum LifecycleEvent {
    /// Construct the component from its properties; the second value is the
    /// placeholder output that stands at the mount point until the first
    /// render, the third the sibling that the output is placed before.
    Create(u64, u64, Option<u64>),
    Update(UpdateEvent),
    Render,
    Rendered,
    Destroy,
}

/// The kind of a lifecycle event, in the order of scheduling priority.
#[derive(PartialEq, Eq, Structural, Clone, Copy, Debug)]
pub enum EventKind {
    Destroy,
    Create,
    Update,
    Render,
    Rendered,
}

/// A queued piece of work: an event addressed to the component at `target`.
#[derive(Clone, Debug)]
pub struct Runnable {
    pub target: usize,
    pub event: LifecycleEvent,
}

/// A record of one event that was executed (skipped events leave none).
pub struct Executed {
    pub target: usize,
    pub kind: EventKind,
    /// The messages that the update delivered, in order.
    pub messages: Seq<u64>,
}

/// The abstract state of the scheduler: one FIFO queue per event kind, the
/// phase of every component, and the history of executed events.
pub struct SchedModel {
    pub destroy: Seq<Runnable>,
    pub create: Seq<Runnable>,
    pub update: Seq<Runnable>,
    pub render: Seq<Runnable>,
    pub rendered: Seq<Runnable>,
    pub phases: Seq<Phase>,
    pub log: Seq<Executed>,
}

pub open spec fn kind_of(e: LifecycleEvent) -> EventKind {
    match e {
        LifecycleEvent::Create(_, _, _) => EventKind::Create,
        LifecycleEvent::Update(_) => EventKind::Update,
        LifecycleEvent::Render => EventKind::Render,
        LifecycleEvent::Rendered => EventKind::Rendered,
        LifecycleEvent::Destroy => EventKind::Destroy,
    }
}

/// The messages that an update event delivers, in order.
pub open spec fn update_messages(u: UpdateEvent) -> Seq<u64> {
    match u {
        UpdateEvent::Message(m) => seq![m],
        UpdateEvent::MessageBatch(ms) => ms@,
        _ => Seq::empty(),
    }
}

pub open spec fn event_messages(e: LifecycleEvent) -> Seq<u64> {
    match e {
        LifecycleEvent::Update(u) => update_messages(u),
        _ => Seq::empty(),
    }
}

impl SchedModel {
    pub open spec fn idle(self) -> bool {
        self.destroy.len() == 0 && self.create.len() == 0 && self.update.len() == 0
            && self.render.len() == 0 && self.rendered.len() == 0
    }

    /// The queue that the next step takes from: the non-empty one of highest
    /// priority.
    pub open spec fn next_kind(self) -> EventKind
        recommends !self.idle(),
    {
        if self.destroy.len() > 0 {
            EventKind::Destroy
        } else if self.create.len() > 0 {
            EventKind::Create
        } else if self.update.len() > 0 {
            EventKind::Update
        } else if self.render.len() > 0 {
            EventKind::Render
        } else {
            EventKind::Rendered
        }
    }

    pub open spec fn queue(self, k: EventKind) -> Seq<Runnable> {
        match k {
            EventKind::Destroy => self.destroy,
            EventKind::Create => self.create,
            EventKind::Update => self.update,
            EventKind::Render => self.render,
            EventKind::Rendered => self.rendered,
        }
    }

    /// The same state with the queue of kind `k` replaced by `q`.
    pub open spec fn with_queue(self, k: EventKind, q: Seq<Runnable>) -> SchedModel {
        match k {
            EventKind::Destroy => SchedModel { destroy: q, ..self },
            EventKind::Create => SchedModel { create: q, ..self },
            EventKind::Update => SchedModel { update: q, ..self },
            EventKind::Render => SchedModel { render: q, ..self },
            EventKind::Rendered => SchedModel { rendered: q, ..self },
        }
    }

    /// The state after `r` has been appended to the queue of its kind.
    pub open spec fn push(self, r: Runnable) -> SchedModel {
        self.with_queue(kind_of(r.event), self.queue(kind_of(r.event)).push(r))
    }

    pub open spec fn phase(self, t: usize) -> Phase {
        if t < self.phases.len() {
            self.phases[t as int]
        } else {
            Phase::Unmounted
        }
    }

    /// Whether `r` takes effect when executed: a destroy on any target not yet
    /// destroyed (so destroying again is a no-op), the other events only on a
    /// target in the right phase.
    pub open spec fn applies(self, r: Runnable) -> bool {
        r.target < self.phases.len() && match r.event {
            LifecycleEvent::Destroy => self.phases[r.target as int] != Phase::Destroyed,
            LifecycleEvent::Create(_, _, _) => self.phases[r.target as int] == Phase::Unmounted,
            _ => self.phases[r.target as int] == Phase::Mounted,
        }
    }

    /// Every queue holds events of its own kind only.
    pub open spec fn sorted(self) -> bool {
        forall|k: EventKind, i: int|
            0 <= i < self.queue(k).len() ==> kind_of(#[trigger] self.queue(k)[i].event) == k
    }

    /// Every pending `Create` is for a cell that is not mounted, and no cell
    /// has two.
    pub open spec fn creates_fresh(self) -> bool {
        &&& forall|i: int|
            0 <= i < self.create.len() ==> self.phase(#[trigger] self.create[i].target)
                != Phase::Mounted
        &&& forall|i: int, j: int|
            0 <= i < j < self.create.len() ==> #[trigger] self.create[i].target
                != #[trigger] self.create[j].target
    }

    /// No `Create` for cell `t` is pending.
    pub open spec fn no_create_for(self, t: usize) -> bool {
        forall|i: int| 0 <= i < self.create.len() ==> (#[trigger] self.create[i]).target != t
    }

    /// Weight of the pending work: executing one runnable lowers it by at
    /// least one, which bounds every drain.
    pub open spec fn potential(self) -> nat {
        self.destroy.len() + self.create.len() + 3 * self.update.len() + 2 * self.render.len()
            + self.rendered.len()
    }
}

/// The effect of executing `r` on a state from whose queues it was already
/// taken. `report` is the update hook's answer to whether a re-render is
/// needed; it matters only for updates other than the first.
pub open spec fn execute(m: SchedModel, r: Runnable, report: bool) -> SchedModel {
    if !m.applies(r) {
        m
    } else {
        let logged = SchedModel {
            log: m.log.push(
                Executed { target: r.target, kind: kind_of(r.event), messages: event_messages(r.event) },
            ),
            ..m
        };
        match r.event {
            LifecycleEvent::Destroy => SchedModel {
                phases: m.phases.update(r.target as int, Phase::Destroyed),
                ..logged
            },
            LifecycleEvent::Create(_, _, _) => SchedModel {
                phases: m.phases.update(r.target as int, Phase::Mounted),
                ..logged
            },
            LifecycleEvent::Update(u) => {
                if report || u is First {
                    logged.push(Runnable { target: r.target, event: LifecycleEvent::Render })
                } else {
                    logged
                }
            },
            LifecycleEvent::Render => logged.push(
                Runnable { target: r.target, event: LifecycleEvent::Rendered },
            ),
            LifecycleEvent::Rendered => logged,
        }
    }
}

/// One step of a drain: take the head of the highest-priority non-empty
/// queue and execute it.
pub open spec fn step(m: SchedModel, report: bool) -> SchedModel {
    if m.idle() {
        m
    } else {
        let k = m.next_kind();
        let q = m.queue(k);
        execute(m.with_queue(k, q.drop_first()), q[0], report)
    }
}


/// Appending a runnable to the queue of its kind keeps the queues sorted.
pub proof fn lemma_push_sorted(m: SchedModel, r: Runnable)
    requires
        m.sorted(),
    ensures
        m.push(r).sorted(),
        m.push(r).phases == m.phases,
        m.push(r).log == m.log,
{
    let p = m.push(r);
    assert forall|k: EventKind, i: int| 0 <= i < p.queue(k).len() implies kind_of(
        #[trigger] p.queue(k)[i].event,
    ) == k by {
        if k != kind_of(r.event) {
            assert(p.queue(k) == m.queue(k));
        } else if i < m.queue(k).len() {
            assert(p.queue(k)[i] == m.queue(k)[i]);
        }
    }
}

/// Taking the head of a queue keeps the queues sorted.
pub proof fn lemma_pop_sorted(m: SchedModel, k: EventKind)
    requires
        m.sorted(),
        m.queue(k).len() > 0,
    ensures
        m.with_queue(k, m.queue(k).drop_first()).sorted(),
        kind_of(m.queue(k)[0].event) == k,
{
    let m1 = m.with_queue(k, m.queue(k).drop_first());
    assert(kind_of(m.queue(k)[0].event) == k);
    assert forall|j: EventKind, i: int| 0 <= i < m1.queue(j).len() implies kind_of(
        #[trigger] m1.queue(j)[i].event,
    ) == j by {
        if j == k {
            assert(m1.queue(j)[i] == m.queue(j)[i + 1]);
        } else {
            assert(m1.queue(j) == m.queue(j));
        }
    }
}

/// Sortedness depends on the queues alone.
pub proof fn lemma_same_queues_sorted(a: SchedModel, b: SchedModel)
    requires
        a.sorted(),
        a.destroy == b.destroy,
        a.create == b.create,
        a.update == b.update,
        a.render == b.render,
        a.rendered == b.rendered,
    ensures
        b.sorted(),
{
    assert forall|j: EventKind, i: int| 0 <= i < b.queue(j).len() implies kind_of(
        #[trigger] b.queue(j)[i].event,
    ) == j by {
        assert(b.queue(j) == a.queue(j));
    }
}

/// Executing a runnable keeps the queues sorted.
pub proof fn lemma_execute_sorted(m: SchedModel, r: Runnable, report: bool)
    requires
        m.sorted(),
    ensures
        execute(m, r, report).sorted(),
        execute(m, r, report).phases.len() == m.phases.len(),
{
    if m.applies(r) {
        let logged = SchedModel {
            log: m.log.push(
                Executed { target: r.target, kind: kind_of(r.event), messages: event_messages(r.event) },
            ),
            ..m
        };
        lemma_same_queues_sorted(m, logged);
        match r.event {
            LifecycleEvent::Destroy => lemma_same_queues_sorted(m, execute(m, r, report)),
            LifecycleEvent::Create(_, _, _) => lemma_same_queues_sorted(m, execute(m, r, report)),
            _ => {},
        }
        lemma_push_sorted(logged, Runnable { target: r.target, event: LifecycleEvent::Render });
        lemma_push_sorted(logged, Runnable { target: r.target, event: LifecycleEvent::Rendered });
    }
}

/// A step of a drain lowers the weight of the pending work, keeps the
/// number of cells, and keeps the queues sorted.
pub proof fn lemma_step_decreases(m: SchedModel, report: bool)
    requires
        !m.idle(),
        m.sorted(),
    ensures
        step(m, report).potential() < m.potential(),
        step(m, report).phases.len() == m.phases.len(),
        step(m, report).sorted(),
{
    let k = m.next_kind();
    let q = m.queue(k);
    let m1 = m.with_queue(k, q.drop_first());
    lemma_pop_sorted(m, k);
    lemma_execute_sorted(m1, q[0], report);
}

/// The destroy queue is served first, from its front, and nothing but
/// scheduling adds to it; a destroyed cell never comes back.
pub proof fn lemma_step_destroy(m: SchedModel, report: bool)
    requires
        m.sorted(),
    ensures
        m.destroy.len() > 0 ==> step(m, report).destroy == m.destroy.drop_first(),
        m.destroy.len() > 0 && m.destroy[0].target < m.phases.len() ==> step(
            m,
            report,
        ).phases[m.destroy[0].target as int] == Phase::Destroyed,
        m.destroy.len() == 0 ==> step(m, report).destroy == m.destroy,
        forall|t: usize|
            m.phase(t) == Phase::Destroyed ==> #[trigger] step(m, report).phase(t)
                == Phase::Destroyed,
        step(m, report).log.len() >= m.log.len(),
        step(m, report).log.subrange(0, m.log.len() as int) == m.log,
{
    let s = step(m, report);
    if m.destroy.len() > 0 {
        assert(kind_of(m.queue(EventKind::Destroy)[0].event) == EventKind::Destroy);
    }
    assert(s.log.subrange(0, m.log.len() as int) =~= m.log);
}

/// `b` is where steps from `a` lead when the update hook answers `reports`,
/// one answer per step.
pub open spec fn reaches(a: SchedModel, b: SchedModel, reports: Seq<bool>) -> bool
    decreases reports.len(),
{
    if reports.len() == 0 {
        a == b
    } else {
        reaches(step(a, reports[0]), b, reports.drop_first())
    }
}

/// `b` is the outcome of draining `a` to completion.
pub open spec fn drains_to(a: SchedModel, b: SchedModel) -> bool {
    b.idle() && exists|reports: Seq<bool>| #[trigger] reaches(a, b, reports)
}

/// One more step extends a run of steps.
pub proof fn lemma_reaches_step(a: SchedModel, b: SchedModel, reports: Seq<bool>, report: bool)
    requires
        reaches(a, b, reports),
    ensures
        reaches(a, step(b, report), reports.push(report)),
    decreases reports.len(),
{
    reveal_with_fuel(reaches, 2);
    if reports.len() == 0 {
        assert(reports.push(report).drop_first() =~= Seq::<bool>::empty());
    } else {
        lemma_reaches_step(step(a, reports[0]), b, reports.drop_first(), report);
        assert(reports.push(report).drop_first() =~= reports.drop_first().push(report));
        assert(reports.push(report)[0] == reports[0]);
    }
}

/// Queuing keeps pending creations fresh, where a `Create` is queued only
/// for an unmounted cell with none pending.
pub proof fn lemma_push_fresh(m: SchedModel, r: Runnable)
    requires
        m.creates_fresh(),
        r.event is Create ==> m.phase(r.target) == Phase::Unmounted && m.no_create_for(r.target),
    ensures
        m.push(r).creates_fresh(),
{
    let p = m.push(r);
    if r.event is Create {
        assert(p.create == m.create.push(r));
        assert forall|i: int, j: int| 0 <= i < j < p.create.len() implies #[trigger] p.create[i].target
            != #[trigger] p.create[j].target by {
            if j == m.create.len() {
                assert(m.create[i] == p.create[i]);
            } else {
                assert(m.create[i] == p.create[i] && m.create[j] == p.create[j]);
            }
        }
        assert forall|i: int| 0 <= i < p.create.len() implies p.phase(#[trigger] p.create[i].target)
            != Phase::Mounted by {
            if i < m.create.len() {
                assert(m.create[i] == p.create[i]);
            }
        }
    } else {
        assert(p.create == m.create);
    }
}

/// Taking the head of a queue keeps pending creations fresh, and the head
/// of the create queue is then pending no more.
pub proof fn lemma_pop_fresh(m: SchedModel, k: EventKind)
    requires
        m.creates_fresh(),
        m.queue(k).len() > 0,
    ensures
        m.with_queue(k, m.queue(k).drop_first()).creates_fresh(),
        k == EventKind::Create ==> m.with_queue(k, m.queue(k).drop_first()).no_create_for(
            m.create[0].target,
        ),
{
    let m1 = m.with_queue(k, m.queue(k).drop_first());
    if k == EventKind::Create {
        assert forall|i: int| 0 <= i < m1.create.len() implies m1.create[i] == m.create[i + 1] by {}
        assert forall|i: int, j: int| 0 <= i < j < m1.create.len() implies #[trigger] m1.create[i].target
            != #[trigger] m1.create[j].target by {
            assert(m1.create[i] == m.create[i + 1] && m1.create[j] == m.create[j + 1]);
        }
        assert forall|i: int| 0 <= i < m1.create.len() implies (#[trigger] m1.create[i]).target
            != m.create[0].target by {
            assert(m1.create[i] == m.create[i + 1]);
        }
        assert forall|i: int| 0 <= i < m1.create.len() implies m1.phase(#[trigger] m1.create[i].target)
            != Phase::Mounted by {
            assert(m1.create[i] == m.create[i + 1]);
        }
    } else {
        assert(m1.create == m.create);
    }
}

/// Executing a runnable keeps pending creations fresh, where a `Create` runs
/// only with none other pending for its cell.
pub proof fn lemma_execute_fresh(m: SchedModel, r: Runnable, report: bool)
    requires
        m.creates_fresh(),
        r.event is Create ==> m.no_create_for(r.target),
    ensures
        execute(m, r, report).creates_fresh(),
{
    let e = execute(m, r, report);
    if m.applies(r) {
        assert(e.create == m.create);
        assert forall|i: int| 0 <= i < e.create.len() implies e.phase(#[trigger] e.create[i].target)
            != Phase::Mounted by {
            let c = m.create[i].target;
            if c == r.target {
                assert(!(r.event is Create));
            }
        }
    }
}

/// A step keeps pending creations fresh.
pub proof fn lemma_step_fresh(m: SchedModel, report: bool)
    requires
        m.sorted(),
        m.creates_fresh(),
    ensures
        step(m, report).creates_fresh(),
{
    if !m.idle() {
        let k = m.next_kind();
        lemma_pop_fresh(m, k);
        assert(kind_of(m.queue(k)[0].event) == k);
        lemma_execute_fresh(m.with_queue(k, m.queue(k).drop_first()), m.queue(k)[0], report);
    }
}

} // verus!
