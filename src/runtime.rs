//! The arena of component cells and the cooperative scheduler that drains
//! their lifecycle events.
use std::collections::VecDeque;
use vstd::prelude::*;

use crate::lifecycle::{
    drains_to, event_messages, execute, kind_of, lemma_execute_sorted, lemma_pop_sorted,
    lemma_push_sorted, lemma_push_fresh, lemma_pop_fresh, lemma_execute_fresh, lemma_reaches_step, lemma_step_decreases, lemma_step_destroy, reaches,
    step, EventKind, Executed, LifecycleEvent, Phase, Runnable, SchedModel, UpdateEvent,
};

verus! {

/// The hooks of a component. The scheduler calls them; what they do is the
/// component's own business.
pub trait Component: Sized {
    /// The component built from `props`.
    spec fn created(props: u64) -> Self;

    /// The component after handling `msg`.
    spec fn after_update(self, msg: u64) -> Self;

    /// Whether handling `msg` asks for a re-render.
    spec fn update_wants_render(self, msg: u64) -> bool;

    /// The component after taking new properties.
    spec fn after_change(self, props: u64) -> Self;

    /// Whether new properties ask for a re-render.
    spec fn change_wants_render(self, props: u64) -> bool;

    /// The output the component renders.
    spec fn output(self) -> u64;

    /// The component after its post-render hook.
    spec fn after_rendered(self, first_render: bool) -> Self;

    /// Builds the component from its properties.
    fn create(props: u64) -> (r: Self)
        ensures
            r == Self::created(props),
    ;

    /// Handles one message; returns whether a re-render is needed.
    fn update(&mut self, msg: u64) -> (r: bool)
        ensures
            *final(self) == old(self).after_update(msg),
            r == old(self).update_wants_render(msg),
    ;

    /// Takes new properties; returns whether a re-render is needed.
    fn changed(&mut self, props: u64) -> (r: bool)
        ensures
            *final(self) == old(self).after_change(props),
            r == old(self).change_wants_render(props),
    ;

    /// Produces the component's output.
    fn view(&self) -> (r: u64)
        ensures
            r == self.output(),
    ;

    /// Runs after the output has been committed.
    fn rendered(&mut self, first_render: bool)
        ensures
            *final(self) == old(self).after_rendered(first_render),
    ;

    /// Runs before the component is torn down.
    fn destroy(&mut self);

    /// The value that the component provides to descendants that ask for
    /// context of its type.
    fn provided(&self) -> u64;
}

/// The live data of a mounted component.
#[verifier::reject_recursive_types(C)]
pub struct ComponentState<C> {
    pub component: C,
    /// The last output, or the placeholder before the first render.
    pub root_output: u64,
    pub first_render: bool,
    /// Mount anchor: the node that refers to the component's output.
    pub node_ref: u64,
    /// Mount anchor: the sibling that the output is placed before.
    pub next_sibling: Option<u64>,
}

/// The cell that every scope handle of one component instance refers to.
#[verifier::reject_recursive_types(C)]
pub struct Slot<C> {
    pub type_tag: u64,
    pub parent: Option<usize>,
    pub state: Option<ComponentState<C>>,
    pub destroyed: bool,
    /// The cells subscribed to the context that this component provides.
    pub subscribers: Vec<usize>,
}

impl<C> Slot<C> {
    pub open spec fn phase(self) -> Phase {
        if self.destroyed {
            Phase::Destroyed
        } else if self.state is Some {
            Phase::Mounted
        } else {
            Phase::Unmounted
        }
    }
}

/// The component after handling `ms` in order, and whether any of them
/// asked for a re-render.
pub open spec fn fold_updates<C: Component>(c: C, ms: Seq<u64>) -> (C, bool)
    decreases ms.len(),
{
    if ms.len() == 0 {
        (c, false)
    } else {
        let (c1, b1) = fold_updates(c, ms.drop_last());
        (c1.after_update(ms.last()), b1 || c1.update_wants_render(ms.last()))
    }
}

/// What an update does to a component, and whether it asks for a render.
/// The first update always does.
pub open spec fn update_effect<C: Component>(c: C, u: UpdateEvent) -> (C, bool) {
    match u {
        UpdateEvent::First => (c, true),
        UpdateEvent::Message(m) => (c.after_update(m), c.update_wants_render(m)),
        UpdateEvent::MessageBatch(ms) => fold_updates(c, ms@),
        UpdateEvent::Properties(p, _, _) => (c.after_change(p), c.change_wants_render(p)),
    }
}

/// The state with the mount anchors that `u` carries, if any.
pub open spec fn reanchored<C>(st: ComponentState<C>, u: UpdateEvent) -> ComponentState<C> {
    match u {
        UpdateEvent::Properties(_, node_ref, next_sibling) => ComponentState { node_ref, next_sibling, ..st },
        _ => st,
    }
}

/// What executing `r` does to the component states, and the update hook's
/// answer where `r` is an update (false otherwise).
pub open spec fn effect<C: Component>(
    m: SchedModel,
    s: Seq<Option<ComponentState<C>>>,
    r: Runnable,
) -> (Seq<Option<ComponentState<C>>>, bool) {
    if !m.applies(r) {
        (s, false)
    } else {
        let t = r.target as int;
        let st = s[t].unwrap();
        match r.event {
            LifecycleEvent::Destroy => (s.update(t, None), false),
            LifecycleEvent::Create(p, ph, ns) => (
                s.update(
                    t,
                    Some(
                        ComponentState {
                            component: C::created(p),
                            root_output: ph,
                            first_render: true,
                            node_ref: ph,
                            next_sibling: ns,
                        },
                    ),
                ),
                false,
            ),
            LifecycleEvent::Update(u) => (
                s.update(
                    t,
                    Some(ComponentState { component: update_effect(st.component, u).0, ..reanchored(st, u) }),
                ),
                update_effect(st.component, u).1,
            ),
            LifecycleEvent::Render => (
                s.update(t, Some(ComponentState { root_output: st.component.output(), ..st })),
                false,
            ),
            LifecycleEvent::Rendered => (
                s.update(
                    t,
                    Some(
                        ComponentState {
                            component: st.component.after_rendered(st.first_render),
                            first_render: false,
                            ..st
                        },
                    ),
                ),
                false,
            ),
        }
    }
}

/// The same for the step that a drain takes next.
pub open spec fn step_effect<C: Component>(m: SchedModel, s: Seq<Option<ComponentState<C>>>) -> (
    Seq<Option<ComponentState<C>>>,
    bool,
) {
    if m.idle() {
        (s, false)
    } else {
        let k = m.next_kind();
        effect(m.with_queue(k, m.queue(k).drop_first()), s, m.queue(k)[0])
    }
}

/// `(b, sb)` is where `n` steps from `(a, sa)` lead, each taking the update
/// hook's own answer.
pub open spec fn runs<C: Component>(
    a: SchedModel,
    sa: Seq<Option<ComponentState<C>>>,
    b: SchedModel,
    sb: Seq<Option<ComponentState<C>>>,
    n: nat,
) -> bool
    decreases n,
{
    if n == 0 {
        a == b && sa == sb
    } else {
        runs(step(a, step_effect(a, sa).1), step_effect(a, sa).0, b, sb, (n - 1) as nat)
    }
}

/// `(b, sb)` is the outcome of draining `(a, sa)` to completion.
pub open spec fn settles<C: Component>(
    a: SchedModel,
    sa: Seq<Option<ComponentState<C>>>,
    b: SchedModel,
    sb: Seq<Option<ComponentState<C>>>,
) -> bool {
    b.idle() && exists|n: nat| #[trigger] runs(a, sa, b, sb, n)
}

/// One more step extends a run.
pub proof fn lemma_runs_step<C: Component>(
    a: SchedModel,
    sa: Seq<Option<ComponentState<C>>>,
    b: SchedModel,
    sb: Seq<Option<ComponentState<C>>>,
    n: nat,
)
    requires
        runs(a, sa, b, sb, n),
    ensures
        runs(a, sa, step(b, step_effect(b, sb).1), step_effect(b, sb).0, n + 1),
    decreases n,
{
    reveal_with_fuel(runs, 2);
    if n > 0 {
        lemma_runs_step(step(a, step_effect(a, sa).1), step_effect(a, sa).0, b, sb, (n - 1) as nat);
        assert((n + 1 - 1) as nat == (n - 1) as nat + 1);
    }
}

/// All component cells, addressed by index, and the work queues of the
/// scheduler, one per event kind.
#[verifier::reject_recursive_types(C)]
pub struct Runtime<C> {
    slots: Vec<Slot<C>>,
    destroy: VecDeque<Runnable>,
    create: VecDeque<Runnable>,
    update: VecDeque<Runnable>,
    render: VecDeque<Runnable>,
    rendered: VecDeque<Runnable>,
    log: Ghost<Seq<Executed>>,
}

impl<C: Component> Runtime<C> {
    pub closed spec fn model(&self) -> SchedModel {
        SchedModel {
            destroy: self.destroy@,
            create: self.create@,
            update: self.update@,
            render: self.render@,
            rendered: self.rendered@,
            phases: self.slots@.map_values(|s: Slot<C>| s.phase()),
            log: self.log@,
        }
    }

    /// The component state of every cell: present exactly while it is mounted.
    pub closed spec fn states(&self) -> Seq<Option<ComponentState<C>>> {
        self.slots@.map_values(|s: Slot<C>| s.state)
    }

    /// The type tag of every cell.
    pub closed spec fn tags(&self) -> Seq<u64> {
        self.slots@.map_values(|s: Slot<C>| s.type_tag)
    }

    /// The parent of every cell.
    pub closed spec fn parents(&self) -> Seq<Option<usize>> {
        self.slots@.map_values(|s: Slot<C>| s.parent)
    }

    /// The component held by cell `t`, if it is mounted.
    pub closed spec fn component(&self, t: usize) -> Option<C> {
        match self.slots@[t as int].state {
            Some(s) => Some(s.component),
            None => None,
        }
    }

    pub closed spec fn wf(&self) -> bool {
        &&& self.model().sorted()
        &&& self.model().creates_fresh()
        &&& forall|i: int|
            0 <= i < self.slots@.len() ==> #[trigger] self.slots@[i].destroyed
                ==> self.slots@[i].state is None
    }

    /// A well-formed runtime keeps each queue to its own kind of event, and
    /// its pending creations fresh.
    pub proof fn lemma_wf_sorted(&self)
        requires
            self.wf(),
        ensures
            self.model().sorted(),
            self.model().creates_fresh(),
    {
    }

    /// A cell holds a component state exactly while it is mounted.
    pub proof fn lemma_wf_states(&self)
        requires
            self.wf(),
        ensures
            self.states().len() == self.len(),
            self.tags().len() == self.len(),
            forall|t: usize|
                t < self.len() ==> (#[trigger] self.states()[t as int] is Some <==> self.model().phase(t)
                    == Phase::Mounted),
    {
        assert forall|t: usize| t < self.len() implies (#[trigger] self.states()[t as int] is Some
            <==> self.model().phase(t) == Phase::Mounted) by {
            assert(self.slots@[t as int].destroyed ==> self.slots@[t as int].state is None);
        }
    }

    pub open spec fn len(&self) -> nat {
        self.model().phases.len()
    }

    /// An empty runtime: no cells, no pending work.
    pub fn new() -> (r: Self)
        ensures
            r.wf(),
            r.model().idle(),
            r.len() == 0,
            r.model().log.len() == 0,
    {
        let r = Runtime {
            slots: Vec::new(),
            destroy: VecDeque::new(),
            create: VecDeque::new(),
            update: VecDeque::new(),
            render: VecDeque::new(),
            rendered: VecDeque::new(),
            log: Ghost(Seq::empty()),
        };
        assert(r.model().phases =~= Seq::empty());
        r
    }

    /// Adds an unmounted cell of the given type under `parent` and returns
    /// its index.
    pub fn add_cell(&mut self, type_tag: u64, parent: Option<usize>) -> (t: usize)
        requires
            old(self).wf(),
            old(self).len() < usize::MAX,
        ensures
            final(self).wf(),
            t == old(self).len(),
            final(self).model() == (SchedModel {
                phases: old(self).model().phases.push(Phase::Unmounted),
                ..old(self).model()
            }),
            final(self).tags() == old(self).tags().push(type_tag),
            final(self).parents() == old(self).parents().push(parent),
            final(self).states() == old(self).states().push(None),
            final(self).subscribers(t) == Seq::<usize>::empty(),
            forall|c: usize| c < t ==> #[trigger] final(self).subscribers(c) == old(self).subscribers(c),
    {
        let t = self.slots.len();
        let slot = Slot { type_tag, parent, state: None, destroyed: false, subscribers: Vec::new() };
        self.slots.push(slot);
        assert(self.slots@[t as int] == slot);
        assert(self.model().sorted()) by {
            assert forall|k: EventKind, i: int| 0 <= i < self.model().queue(k).len() implies kind_of(
                #[trigger] self.model().queue(k)[i].event,
            ) == k by {
                assert(self.model().queue(k) == old(self).model().queue(k));
            }
        }
        assert(self.model().phases =~= old(self).model().phases.push(Phase::Unmounted));
        assert forall|i: int| 0 <= i < self.model().create.len() implies self.model().phase(
            #[trigger] self.model().create[i].target,
        ) != Phase::Mounted by {
            assert(self.model().create[i] == old(self).model().create[i]);
        }
        assert(self.tags() =~= old(self).tags().push(type_tag));
        assert(self.parents() =~= old(self).parents().push(parent));
        assert(self.states() =~= old(self).states().push(None));
        assert(self.subscribers(t) == Seq::<usize>::empty());
        assert forall|c: usize| c < t implies #[trigger] self.subscribers(c) == old(self).subscribers(c) by {
            assert(self.slots@[c as int] == old(self).slots@[c as int]);
        }
        t
    }

    /// A `Create` for cell `t` may be queued: the cell exists, is unmounted,
    /// and no `Create` for it is pending.
    pub open spec fn create_allowed(&self, t: usize) -> bool {
        &&& t < self.len()
        &&& self.model().phase(t) == Phase::Unmounted
        &&& forall|i: int|
            0 <= i < self.model().create.len() ==> (#[trigger] self.model().create[i]).target != t
    }

    /// The mount anchors of cell `t` (its output node and the sibling the
    /// output is placed before), absent unless it is mounted.
    pub fn anchors(&self, t: usize) -> (r: Option<(u64, Option<u64>)>)
        requires
            t < self.len(),
        ensures
            match self.states()[t as int] {
                Some(st) => r == Some((st.node_ref, st.next_sibling)),
                None => r is None,
            },
    {
        match &self.slots[t].state {
            Some(st) => Some((st.node_ref, st.next_sibling)),
            None => None,
        }
    }

    /// Where cell `t` stands in its life.
    pub fn phase(&self, t: usize) -> (r: Phase)
        requires
            self.wf(),
        ensures
            r == self.model().phase(t),
    {
        if t >= self.slots.len() {
            Phase::Unmounted
        } else if self.slots[t].destroyed {
            Phase::Destroyed
        } else if self.slots[t].state.is_some() {
            Phase::Mounted
        } else {
            Phase::Unmounted
        }
    }

    /// Whether a `Create` for cell `t` is pending.
    pub fn create_pending(&self, t: usize) -> (r: bool)
        ensures
            r == exists|i: int|
                0 <= i < self.model().create.len() && (#[trigger] self.model().create[i]).target == t,
    {
        let n = self.create.len();
        let mut i: usize = 0;
        while i < n
            invariant
                n == self.create@.len(),
                forall|j: int| 0 <= j < i ==> (#[trigger] self.create@[j]).target != t,
            decreases n - i,
        {
            if self.create[i].target == t {
                return true;
            }
            i = i + 1;
        }
        false
    }

    /// Appends `r` to the queue of its kind.
    pub fn schedule(&mut self, r: Runnable)
        requires
            old(self).wf(),
            r.event is Create ==> old(self).create_allowed(r.target),
        ensures
            final(self).wf(),
            final(self).model() == old(self).model().push(r),
            final(self).states() == old(self).states(),
            final(self).tags() == old(self).tags(),
            final(self).parents() == old(self).parents(),
    {
        proof {
            lemma_push_sorted(self.model(), r);
            lemma_push_fresh(self.model(), r);
        }
        assert(self.slots == old(self).slots);
        match r.event {
            LifecycleEvent::Destroy => self.destroy.push_back(r),
            LifecycleEvent::Create(_, _, _) => self.create.push_back(r),
            LifecycleEvent::Update(_) => self.update.push_back(r),
            LifecycleEvent::Render => self.render.push_back(r),
            LifecycleEvent::Rendered => self.rendered.push_back(r),
        }
    }

    /// The type tag of cell `t`.
    pub fn type_tag(&self, t: usize) -> (r: u64)
        requires
            t < self.len(),
        ensures
            r == self.tags()[t as int],
    {
        self.slots[t].type_tag
    }

    /// The parent of cell `t`.
    pub fn parent(&self, t: usize) -> (r: Option<usize>)
        requires
            t < self.len(),
        ensures
            r == self.parents()[t as int],
    {
        self.slots[t].parent
    }

    /// The cells subscribed to the context that cell `t` provides.
    pub closed spec fn subscribers(&self, t: usize) -> Seq<usize> {
        self.slots@[t as int].subscribers@
    }

    /// How many subscriptions the context of cell `t` has.
    pub fn subscriber_count(&self, t: usize) -> (r: usize)
        requires
            t < self.len(),
        ensures
            r == self.subscribers(t).len(),
    {
        self.slots[t].subscribers.len()
    }

    /// Subscribes cell `consumer` to the context that cell `provider` provides.
    pub fn subscribe(&mut self, provider: usize, consumer: usize)
        requires
            old(self).wf(),
            provider < old(self).len(),
        ensures
            final(self).wf(),
            final(self).model() == old(self).model(),
            final(self).tags() == old(self).tags(),
            final(self).parents() == old(self).parents(),
            final(self).subscribers(provider) == old(self).subscribers(provider).push(consumer),
            forall|c: usize|
                c < old(self).len() && c != provider ==> #[trigger] final(self).subscribers(c)
                    == old(self).subscribers(c),
            forall|c: usize|
                c < old(self).len() ==> #[trigger] final(self).component(c) == old(self).component(c),
    {
        self.slots[provider].subscribers.push(consumer);
        assert forall|c: usize| c < old(self).len() && c != provider implies self.slots@[c as int]
            == old(self).slots@[c as int] by {}
        assert(self.model().phases =~= old(self).model().phases);
        assert(self.tags() =~= old(self).tags());
        assert(self.parents() =~= old(self).parents());
    }

    /// Ends the first subscription of `consumer` to the context of
    /// `provider`; does nothing where there is none.
    pub fn unsubscribe(&mut self, provider: usize, consumer: usize)
        requires
            old(self).wf(),
            provider < old(self).len(),
        ensures
            final(self).wf(),
            final(self).model() == old(self).model(),
            final(self).states() == old(self).states(),
            final(self).tags() == old(self).tags(),
            final(self).parents() == old(self).parents(),
            !old(self).subscribers(provider).contains(consumer) ==> final(self).subscribers(provider)
                == old(self).subscribers(provider),
            old(self).subscribers(provider).contains(consumer) ==> exists|i: int|
                0 <= i < old(self).subscribers(provider).len() && old(self).subscribers(provider)[i]
                    == consumer && (forall|j: int|
                    0 <= j < i ==> #[trigger] old(self).subscribers(provider)[j] != consumer)
                    && final(self).subscribers(provider) == old(self).subscribers(provider).remove(i),
            forall|c: usize|
                c < old(self).len() && c != provider ==> #[trigger] final(self).subscribers(c)
                    == old(self).subscribers(c),
            forall|c: usize|
                c < old(self).len() ==> #[trigger] final(self).component(c) == old(self).component(c),
    {
        let n = self.slots[provider].subscribers.len();
        let mut i: usize = 0;
        while i < n
            invariant
                provider < self.slots@.len(),
                n == self.slots@[provider as int].subscribers@.len(),
                *self == *old(self),
                old(self).wf(),
                forall|j: int| 0 <= j < i ==> #[trigger] self.subscribers(provider)[j] != consumer,
            decreases n - i,
        {
            if self.slots[provider].subscribers[i] == consumer {
                self.slots[provider].subscribers.remove(i);
                assert(self.states() =~= old(self).states());
                assert(self.slots@[provider as int].destroyed == old(self).slots@[provider as int].destroyed);
                assert(self.slots@[provider as int].state == old(self).slots@[provider as int].state);
                assert forall|c: usize| c < old(self).len() && c != provider implies self.slots@[c as int]
                    == old(self).slots@[c as int] by {}
                assert(self.model().phases =~= old(self).model().phases);
                assert(self.tags() =~= old(self).tags());
                assert(self.parents() =~= old(self).parents());
                return;
            }
            i = i + 1;
        }
        assert(!old(self).subscribers(provider).contains(consumer));
    }

    /// The last output of cell `t`, if it is mounted.
    pub closed spec fn root_output(&self, t: usize) -> Option<u64> {
        match self.slots@[t as int].state {
            Some(s) => Some(s.root_output),
            None => None,
        }
    }

    /// The last output of cell `t` (its placeholder before the first
    /// render); absent unless it is mounted.
    pub fn root_vnode(&self, t: usize) -> (r: Option<u64>)
        requires
            self.wf(),
        ensures
            r is Some <==> self.model().phase(t) == Phase::Mounted,
            r is Some ==> t < self.len() && r == self.root_output(t),
    {
        if t >= self.slots.len() || self.slots[t].destroyed {
            return None;
        }
        match &self.slots[t].state {
            Some(s) => Some(s.root_output),
            None => None,
        }
    }

    /// The component of cell `t`; absent unless it is mounted.
    pub fn get_component(&self, t: usize) -> (r: Option<&C>)
        requires
            self.wf(),
        ensures
            r is Some <==> self.model().phase(t) == Phase::Mounted,
            r is Some ==> t < self.len() && self.component(t) == Some(*r.unwrap()),
    {
        if t >= self.slots.len() || self.slots[t].destroyed {
            return None;
        }
        match &self.slots[t].state {
            Some(s) => Some(&s.component),
            None => None,
        }
    }

    /// Appends the record of an executed event to the history.
    fn record(&mut self, r: &Runnable)
        ensures
            final(self).slots == old(self).slots,
            final(self).destroy == old(self).destroy,
            final(self).create == old(self).create,
            final(self).update == old(self).update,
            final(self).render == old(self).render,
            final(self).rendered == old(self).rendered,
            final(self).log@ == old(self).log@.push(
                Executed { target: r.target, kind: kind_of(r.event), messages: event_messages(r.event) },
            ),
    {
        self.log = Ghost(
            self.log@.push(
                Executed { target: r.target, kind: kind_of(r.event), messages: event_messages(r.event) },
            ),
        );
    }

    /// Delivers an update to a mounted component; returns the update hook's
    /// report on whether a re-render is needed.
    fn deliver(component: &mut C, u: &UpdateEvent) -> (r: bool)
        ensures
            (*final(component), r) == update_effect(*old(component), *u),
    {
        match u {
            UpdateEvent::First => true,
            UpdateEvent::Message(m) => component.update(*m),
            UpdateEvent::MessageBatch(ms) => {
                let ghost c0 = *component;
                let mut should: bool = false;
                let mut i: usize = 0;
                assert(ms@.subrange(0, 0) =~= Seq::<u64>::empty());
                while i < ms.len()
                    invariant
                        i <= ms@.len(),
                        (*component, should) == fold_updates(c0, ms@.subrange(0, i as int)),
                    decreases ms.len() - i,
                {
                    let ghost before = *component;
                    let wants = component.update(ms[i]);
                    should = should || wants;
                    assert(ms@.subrange(0, i + 1).drop_last() =~= ms@.subrange(0, i as int));
                    assert(ms@.subrange(0, i + 1).last() == ms@[i as int]);
                    i = i + 1;
                }
                assert(ms@.subrange(0, ms@.len() as int) =~= ms@);
                should
            },
            UpdateEvent::Properties(p, _, _) => component.changed(*p),
        }
    }

    /// Executes `r`, which was already taken from its queue; returns the
    /// update hook's report where `r` is an update.
    fn execute(&mut self, r: Runnable) -> (report: bool)
        requires
            old(self).wf(),
            r.event is Create ==> old(self).model().no_create_for(r.target),
        ensures
            final(self).wf(),
            final(self).model() == execute(old(self).model(), r, report),
            (final(self).states(), report) == effect(old(self).model(), old(self).states(), r),
            final(self).tags() == old(self).tags(),
            final(self).parents() == old(self).parents(),
    {
        let t = r.target;
        if t >= self.slots.len() {
            return false;
        }
        let ghost m = self.model();
        let ghost old_slots = self.slots@;
        let mut state = self.slots[t].state.take();
        let destroyed = self.slots[t].destroyed;
        let mut report: bool = false;
        match &r.event {
            LifecycleEvent::Destroy => {
                if !destroyed {
                    if let Some(s) = &mut state {
                        s.component.destroy();
                    }
                    self.slots[t].destroyed = true;
                    self.record(&r);
                }
            },
            LifecycleEvent::Create(props, placeholder, next_sibling) => {
                if !destroyed && state.is_none() {
                    let component = C::create(*props);
                    state = Some(
                        ComponentState {
                            component,
                            root_output: *placeholder,
                            first_render: true,
                            node_ref: *placeholder,
                            next_sibling: *next_sibling,
                        },
                    );
                    self.record(&r);
                }
                self.slots[t].state = state;
            },
            LifecycleEvent::Update(u) => {
                if let Some(s) = &mut state {
                    report = Self::deliver(&mut s.component, u);
                    if let UpdateEvent::Properties(_, node_ref, next_sibling) = u {
                        s.node_ref = *node_ref;
                        s.next_sibling = *next_sibling;
                    }
                }
                let mounted = state.is_some();
                let first = match u {
                    UpdateEvent::First => true,
                    _ => false,
                };
                self.slots[t].state = state;
                if mounted {
                    self.record(&r);
                    if report || first {
                        self.render.push_back(Runnable { target: t, event: LifecycleEvent::Render });
                    }
                }
            },
            LifecycleEvent::Render => {
                if let Some(s) = &mut state {
                    s.root_output = s.component.view();
                }
                let mounted = state.is_some();
                self.slots[t].state = state;
                if mounted {
                    self.record(&r);
                    self.rendered.push_back(Runnable { target: t, event: LifecycleEvent::Rendered });
                }
            },
            LifecycleEvent::Rendered => {
                if let Some(s) = &mut state {
                    s.component.rendered(s.first_render);
                    s.first_render = false;
                }
                let mounted = state.is_some();
                self.slots[t].state = state;
                if mounted {
                    self.record(&r);
                }
            },
        }
        assert(self.model().phases =~= execute(m, r, report).phases);
        assert(self.states() =~= effect(m, old(self).states(), r).0);
        proof {
            lemma_execute_fresh(m, r, report);
            lemma_execute_sorted(m, r, report);
        }
        report
    }

    pub fn is_idle(&self) -> (r: bool)
        ensures
            r == self.model().idle(),
    {
        self.destroy.len() == 0 && self.create.len() == 0 && self.update.len() == 0
            && self.render.len() == 0 && self.rendered.len() == 0
    }

    /// Executes the head of the highest-priority non-empty queue; returns the
    /// update hook's report where that was an update.
    pub fn run_next(&mut self) -> (report: bool)
        requires
            old(self).wf(),
        ensures
            final(self).wf(),
            final(self).model() == step(old(self).model(), report),
            (final(self).states(), report) == step_effect(old(self).model(), old(self).states()),
            final(self).tags() == old(self).tags(),
            final(self).parents() == old(self).parents(),
    {
        proof {
            if !self.model().idle() {
                lemma_pop_sorted(self.model(), self.model().next_kind());
                lemma_pop_fresh(self.model(), self.model().next_kind());
            }
        }
        let r = if let Some(r) = self.destroy.pop_front() {
            r
        } else if let Some(r) = self.create.pop_front() {
            r
        } else if let Some(r) = self.update.pop_front() {
            r
        } else if let Some(r) = self.render.pop_front() {
            r
        } else if let Some(r) = self.rendered.pop_front() {
            r
        } else {
            return false;
        };
        self.execute(r)
    }

    /// Drains every queue to completion, in priority order.
    pub fn start(&mut self)
        requires
            old(self).wf(),
        ensures
            final(self).wf(),
            final(self).model().idle(),
            drains_to(old(self).model(), final(self).model()),
            settles(old(self).model(), old(self).states(), final(self).model(), final(self).states()),
            final(self).tags() == old(self).tags(),
            final(self).parents() == old(self).parents(),
            final(self).len() == old(self).len(),
            forall|t: usize|
                old(self).model().phase(t) == Phase::Destroyed
                    ==> #[trigger] final(self).model().phase(t) == Phase::Destroyed,
            forall|i: int|
                0 <= i < old(self).model().destroy.len() && old(self).model().destroy[i].target
                    < old(self).len() ==> final(self).model().phase(
                    #[trigger] old(self).model().destroy[i].target,
                ) == Phase::Destroyed,
            final(self).model().log.len() >= old(self).model().log.len(),
            final(self).model().log.subrange(0, old(self).model().log.len() as int)
                == old(self).model().log,
    {
        let ghost m0 = self.model();
        let ghost d0 = m0.destroy;
        let ghost s0 = self.states();
        let ghost mut n: Seq<bool> = Seq::empty();
        let ghost mut steps: nat = 0;
        assert(reaches(m0, self.model(), n));
        assert(runs(m0, s0, self.model(), self.states(), 0));
        while !self.is_idle()
            invariant
                reaches(m0, self.model(), n),
                runs(m0, s0, self.model(), self.states(), steps),
                self.wf(),
                self.tags() == old(self).tags(),
                self.parents() == old(self).parents(),
                self.len() == m0.phases.len(),
                self.model().destroy.len() <= d0.len(),
                self.model().destroy == d0.subrange(
                    d0.len() - self.model().destroy.len(),
                    d0.len() as int,
                ),
                forall|t: usize|
                    m0.phase(t) == Phase::Destroyed ==> #[trigger] self.model().phase(t)
                        == Phase::Destroyed,
                forall|i: int|
                    0 <= i < d0.len() - self.model().destroy.len() && d0[i].target
                        < m0.phases.len() ==> self.model().phase(#[trigger] d0[i].target)
                        == Phase::Destroyed,
                self.model().log.len() >= m0.log.len(),
                self.model().log.subrange(0, m0.log.len() as int) == m0.log,
            decreases self.model().potential(),
        {
            let ghost before = self.model();
            let ghost before_states = self.states();
            let report = self.run_next();
            proof {
                lemma_runs_step(m0, s0, before, before_states, steps);
                steps = steps + 1;
                lemma_reaches_step(m0, before, n, report);
                n = n.push(report);
                lemma_step_decreases(before, report);
                lemma_step_destroy(before, report);
                let after = self.model();
                assert forall|i: int| 0 <= i < m0.log.len() implies after.log[i] == m0.log[i] by {
                    assert(after.log.subrange(0, before.log.len() as int)[i] == before.log[i]);
                    assert(before.log.subrange(0, m0.log.len() as int)[i] == m0.log[i]);
                }
                assert(after.log.subrange(0, m0.log.len() as int) =~= m0.log);
                if before.destroy.len() > 0 {
                    assert(after.destroy =~= d0.subrange(
                        d0.len() - after.destroy.len(),
                        d0.len() as int,
                    ));
                    assert(before.destroy[0] == d0[d0.len() - before.destroy.len()]);
                }
            }
        }
        assert(reaches(m0, self.model(), n));
        assert(runs(m0, s0, self.model(), self.states(), steps));
    }
}

} // verus!
