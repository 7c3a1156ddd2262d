//! Scopes: the handles through which components are mounted, updated,
//! messaged and torn down, and their untyped view for ancestor lookups.
use vstd::prelude::*;

use crate::laws::{
    created_between, is_hook_of, lemma_pending_create_first,
    lemma_destroy_settles, lemma_mount_settles, lemma_update_settles, mount_outcome, update_outcome, lemma_destroyed_inert, lemma_mount_renders, no_destroy_for, untouched, rendered_since,
};
use crate::lifecycle::{
    EventKind, Executed, drains_to, lemma_push_fresh, lemma_push_sorted, reaches, LifecycleEvent, Phase, Runnable, SchedModel, UpdateEvent,
};
use crate::runtime::{settles, Component, Runtime};

verus! {

/// Untyped view of a scope, used to walk up the tree of components.
#[derive(Debug)]
pub struct AnyScope {
    /// Identifies the type of the linked component.
    pub type_tag: u64,
    /// The cell of the linked component in the runtime.
    pub cell: usize,
    pub parent: Option<Box<AnyScope>>,
}

impl Clone for AnyScope {
    fn clone(&self) -> (r: Self)
        ensures
            r == *self,
        decreases self,
    {
        let parent = match &self.parent {
            Some(p) => Some(Box::new((**p).clone())),
            None => None,
        };
        AnyScope { type_tag: self.type_tag, cell: self.cell, parent }
    }
}

impl AnyScope {
    pub open spec fn parent_scope(self) -> Option<AnyScope> {
        match self.parent {
            Some(p) => Some(*p),
            None => None,
        }
    }

    /// This scope and its ancestors name cells of `tags`, each of the type
    /// its cell was created with.
    pub open spec fn valid_in(self, tags: Seq<u64>) -> bool
        decreases self,
    {
        &&& self.cell < tags.len()
        &&& tags[self.cell as int] == self.type_tag
        &&& match self.parent {
            Some(p) => (*p).valid_in(tags),
            None => true,
        }
    }

    /// This scope followed by its ancestors, nearest first.
    pub open spec fn ancestors(self) -> Seq<AnyScope>
        decreases self,
    {
        match self.parent {
            Some(p) => seq![self] + (*p).ancestors(),
            None => seq![self],
        }
    }

    /// The nearest scope, this one first, whose component type is `type_tag`.
    pub open spec fn nearest(self, type_tag: u64) -> Option<AnyScope>
        decreases self,
    {
        if self.type_tag == type_tag {
            Some(self)
        } else {
            match self.parent {
                Some(p) => (*p).nearest(type_tag),
                None => None,
            }
        }
    }

    /// Returns the parent scope.
    pub fn get_parent(&self) -> (r: Option<&AnyScope>)
        ensures
            match r {
                Some(p) => self.parent_scope() == Some(*p),
                None => self.parent_scope() is None,
            },
    {
        match &self.parent {
            Some(p) => Some(&**p),
            None => None,
        }
    }

    /// Returns the type of the linked component.
    pub fn get_type_id(&self) -> (r: &u64)
        ensures
            *r == self.type_tag,
    {
        &self.type_tag
    }

    /// Narrows into a typed scope; the tag must name the linked component's
    /// type.
    pub fn downcast(self, type_tag: u64) -> (r: Scope)
        requires
            self.type_tag == type_tag,
        ensures
            r.type_tag == type_tag,
            r.cell == self.cell,
            r.parent == self.parent,
    {
        Scope { type_tag: self.type_tag, cell: self.cell, parent: self.parent }
    }

    /// Narrows into a typed scope, or gives nothing where `type_tag` does not
    /// name the linked component's type.
    pub fn try_downcast(self, type_tag: u64) -> (r: Option<Scope>)
        ensures
            r is Some <==> self.type_tag == type_tag,
            r is Some ==> r.unwrap().type_tag == type_tag && r.unwrap().cell == self.cell
                && r.unwrap().parent == self.parent,
    {
        if self.type_tag == type_tag {
            Some(self.downcast(type_tag))
        } else {
            None
        }
    }

    /// The nearest scope, this one first, of the given component type.
    pub fn find_parent_scope(&self, type_tag: u64) -> (r: Option<Scope>)
        ensures
            match self.nearest(type_tag) {
                Some(a) => r is Some && r.unwrap().type_tag == type_tag && r.unwrap().cell
                    == a.cell && r.unwrap().parent == a.parent,
                None => r is None,
            },
        decreases self,
    {
        if self.type_tag == type_tag {
            Some(self.clone().downcast(type_tag))
        } else {
            match &self.parent {
                Some(p) => (**p).find_parent_scope(type_tag),
                None => None,
            }
        }
    }

    /// Looks up the value provided by the nearest context provider of type
    /// `provider_tag`, this scope first, and subscribes this scope to it.
    /// Absent where there is no such provider or it is not mounted.
    pub fn context<C: Component>(&self, rt: &mut Runtime<C>, provider_tag: u64) -> (r: Option<
        (u64, ContextHandle),
    >)
        requires
            old(rt).wf(),
            self.valid_in(old(rt).tags()),
        ensures
            final(rt).wf(),
            final(rt).model() == old(rt).model(),
            match self.nearest(provider_tag) {
                Some(a) => if old(rt).model().phase(a.cell) == Phase::Mounted {
                    &&& r is Some
                    &&& r.unwrap().1 == (ContextHandle { provider: a.cell, consumer: self.cell })
                    &&& call_ensures(C::provided, (&old(rt).component(a.cell).unwrap(),), r.unwrap().0)
                    &&& final(rt).subscribers(a.cell) == old(rt).subscribers(a.cell).push(self.cell)
                } else {
                    r is None && final(rt).subscribers(a.cell) == old(rt).subscribers(a.cell)
                },
                None => r is None,
            },
            forall|c: usize|
                c < old(rt).len() && (self.nearest(provider_tag) is None || c != self.nearest(provider_tag).unwrap().cell)
                    ==> #[trigger] final(rt).subscribers(c) == old(rt).subscribers(c),
    {
        let scope = match self.find_parent_scope(provider_tag) {
            Some(s) => s,
            None => return None,
        };
        let value = match rt.get_component(scope.cell) {
            Some(component) => component.provided(),
            None => return None,
        };
        rt.subscribe(scope.cell, self.cell);
        Some((value, ContextHandle { provider: scope.cell, consumer: self.cell }))
    }
}

/// Validity survives the addition of cells.
pub proof fn lemma_valid_grows(a: AnyScope, tags: Seq<u64>, more: Seq<u64>)
    requires
        a.valid_in(tags),
        more.len() >= tags.len(),
        more.subrange(0, tags.len() as int) == tags,
    ensures
        a.valid_in(more),
    decreases a,
{
    assert(more[a.cell as int] == more.subrange(0, tags.len() as int)[a.cell as int]);
    match a.parent {
        Some(p) => lemma_valid_grows(*p, tags, more),
        None => {},
    }
}

/// Narrowing is type safe: for a scope valid in a runtime's tags, the tag
/// that `downcast` demands and `try_downcast` accepts is exactly the type its
/// cell was created with, so no scope of another component's cell comes out.
pub proof fn lemma_downcast_sound(a: AnyScope, tags: Seq<u64>, type_tag: u64)
    requires
        a.valid_in(tags),
    ensures
        a.type_tag == type_tag <==> tags[a.cell as int] == type_tag,
{
}

impl From<Scope> for AnyScope {
    fn from(scope: Scope) -> Self {
        AnyScope { type_tag: scope.type_tag, cell: scope.cell, parent: scope.parent }
    }
}

impl vstd::std_specs::convert::FromSpecImpl<Scope> for AnyScope {
    open spec fn obeys_from_spec() -> bool {
        true
    }

    open spec fn from_spec(v: Scope) -> Self {
        v.to_any_spec()
    }
}

/// What a consumer keeps to stay subscribed to a context provider;
/// releasing it ends the subscription.
#[derive(PartialEq, Eq, Structural, Clone, Copy, Debug)]
pub struct ContextHandle {
    pub provider: usize,
    pub consumer: usize,
}

impl ContextHandle {
    /// Ends the subscription.
    pub fn release<C: Component>(self, rt: &mut Runtime<C>)
        requires
            old(rt).wf(),
            self.provider < old(rt).len(),
        ensures
            final(rt).wf(),
            final(rt).model() == old(rt).model(),
            final(rt).states() == old(rt).states(),
            final(rt).tags() == old(rt).tags(),
            !old(rt).subscribers(self.provider).contains(self.consumer) ==> final(rt).subscribers(
                self.provider,
            ) == old(rt).subscribers(self.provider),
            old(rt).subscribers(self.provider).contains(self.consumer) ==> exists|i: int|
                0 <= i < old(rt).subscribers(self.provider).len() && old(rt).subscribers(
                    self.provider,
                )[i] == self.consumer && (forall|j: int|
                    0 <= j < i ==> #[trigger] old(rt).subscribers(self.provider)[j] != self.consumer)
                    && final(rt).subscribers(self.provider) == old(rt).subscribers(
                    self.provider,
                ).remove(i),
            forall|c: usize|
                c < old(rt).len() && c != self.provider ==> #[trigger] final(rt).subscribers(c)
                    == old(rt).subscribers(c),
    {
        rt.unsubscribe(self.provider, self.consumer);
    }
}

/// A handle on one component instance: every callback and pending future
/// derived from it holds a copy.
#[derive(Debug)]
pub struct Scope {
    pub type_tag: u64,
    pub cell: usize,
    pub parent: Option<Box<AnyScope>>,
}

impl Clone for Scope {
    fn clone(&self) -> (r: Self)
        ensures
            r == *self,
    {
        let parent = match &self.parent {
            Some(p) => Some(Box::new((**p).clone())),
            None => None,
        };
        Scope { type_tag: self.type_tag, cell: self.cell, parent }
    }
}

impl Scope {
    pub open spec fn parent_scope(self) -> Option<AnyScope> {
        match self.parent {
            Some(p) => Some(*p),
            None => None,
        }
    }

    /// The scope names a cell of `rt` of its own type, and so do its ancestors.
    pub open spec fn valid<C: Component>(self, rt: &Runtime<C>) -> bool {
        self.to_any_spec().valid_in(rt.tags())
    }

    pub open spec fn runnable(self, event: LifecycleEvent) -> Runnable {
        Runnable { target: self.cell, event }
    }

    /// A scope for a new, unmounted component of type `type_tag` under
    /// `parent`.
    pub fn new<C: Component>(rt: &mut Runtime<C>, type_tag: u64, parent: Option<AnyScope>) -> (r:
        Scope)
        requires
            old(rt).wf(),
            old(rt).len() < usize::MAX,
            match parent {
                Some(p) => p.valid_in(old(rt).tags()),
                None => true,
            },
        ensures
            final(rt).wf(),
            r.valid(&*final(rt)),
            final(rt).states() == old(rt).states().push(None),
            r.cell == old(rt).len(),
            r.type_tag == type_tag,
            r.parent_scope() == parent,
            final(rt).model() == (SchedModel {
                phases: old(rt).model().phases.push(Phase::Unmounted),
                ..old(rt).model()
            }),
    {
        let parent_cell = match &parent {
            Some(p) => Some(p.cell),
            None => None,
        };
        let ghost tags0 = rt.tags();
        proof {
            rt.lemma_wf_states();
        }
        let cell = rt.add_cell(type_tag, parent_cell);
        proof {
            assert(rt.tags().subrange(0, tags0.len() as int) =~= tags0);
            if parent is Some {
                lemma_valid_grows(parent.unwrap(), tags0, rt.tags());
            }
        }
        let parent = match parent {
            Some(p) => Some(Box::new(p)),
            None => None,
        };
        let r = Scope { type_tag, cell, parent };
        assert(rt.tags()[cell as int] == type_tag);
        assert(r.to_any_spec().valid_in(rt.tags()));
        r
    }

    /// The untyped view of this scope.
    pub fn to_any(&self) -> (r: AnyScope)
        ensures
            r == self.to_any_spec(),
    {
        let s = self.clone();
        AnyScope { type_tag: s.type_tag, cell: s.cell, parent: s.parent }
    }

    /// Returns the parent scope.
    pub fn get_parent(&self) -> (r: Option<&AnyScope>)
        ensures
            match r {
                Some(p) => self.parent_scope() == Some(*p),
                None => self.parent_scope() is None,
            },
    {
        match &self.parent {
            Some(p) => Some(&**p),
            None => None,
        }
    }

    /// Returns the last output of the linked component, absent unless it is
    /// mounted.
    pub fn root_vnode<C: Component>(&self, rt: &Runtime<C>) -> (r: Option<u64>)
        requires
            rt.wf(),
            self.valid(rt),
        ensures
            r is Some <==> rt.model().phase(self.cell) == Phase::Mounted,
            r is Some ==> r == rt.root_output(self.cell),
    {
        rt.root_vnode(self.cell)
    }

    /// Returns the linked component, absent unless it is mounted. The
    /// component is lent out read-only: its own hooks get it mutably only
    /// while the scheduler holds the runtime, so no borrow can overlap one.
    pub fn get_component<'a, C: Component>(&self, rt: &'a Runtime<C>) -> (r: Option<&'a C>)
        requires
            rt.wf(),
            self.valid(rt),
        ensures
            r is Some <==> rt.model().phase(self.cell) == Phase::Mounted,
            r is Some ==> rt.component(self.cell) == Some(*r.unwrap()),
    {
        rt.get_component(self.cell)
    }

    /// Schedules `event` for the linked component and drains the scheduler.
    pub fn process<C: Component>(&self, rt: &mut Runtime<C>, event: LifecycleEvent)
        requires
            old(rt).wf(),
            event is Create ==> old(rt).create_allowed(self.cell),
        ensures
            final(rt).wf(),
            final(rt).len() == old(rt).len(),
            final(rt).tags() == old(rt).tags(),
            drains_to(old(rt).model().push(self.runnable(event)), final(rt).model()),
            ({
                let a = old(rt).model().push(self.runnable(event));
                self.cell < a.phases.len() && (exists|i: int|
                    0 <= i < a.create.len() && (#[trigger] a.create[i]).target == self.cell) ==> forall|j: int|
                    a.log.len() <= j < final(rt).model().log.len() && is_hook_of(
                        #[trigger] final(rt).model().log[j],
                        self.cell,
                    ) ==> created_between(final(rt).model().log, a.log.len() as int, j, self.cell)
            }),
            settles(
                old(rt).model().push(self.runnable(event)),
                old(rt).states(),
                final(rt).model(),
                final(rt).states(),
            ),
    {
        let ghost a = old(rt).model().push(self.runnable(event));
        proof {
            old(rt).lemma_wf_sorted();
            lemma_push_sorted(old(rt).model(), self.runnable(event));
            lemma_push_fresh(old(rt).model(), self.runnable(event));
        }
        rt.schedule(Runnable { target: self.cell, event });
        rt.start();
        proof {
            if self.cell < a.phases.len() && exists|i: int|
                0 <= i < a.create.len() && (#[trigger] a.create[i]).target == self.cell {
                let reports = choose|reports: Seq<bool>| #[trigger] reaches(a, rt.model(), reports);
                lemma_pending_create_first(a, rt.model(), reports, self.cell);
            }
        }
    }

    /// Mounts the component with `props`; `placeholder` is the output node
    /// that holds its place until the first render, placed before
    /// `next_sibling`. The first update is
    /// queued before the creation and still runs after it.
    pub fn mount_in_place<C: Component>(
        &self,
        rt: &mut Runtime<C>,
        props: u64,
        placeholder: u64,
        next_sibling: Option<u64>,
    )
        requires
            old(rt).wf(),
            self.valid(&*old(rt)),
            old(rt).model().phase(self.cell) == Phase::Unmounted,
            forall|i: int|
                0 <= i < old(rt).model().create.len() ==> (#[trigger] old(rt).model().create[i]).target
                    != self.cell,
        ensures
            final(rt).wf(),
            final(rt).len() == old(rt).len(),
            final(rt).tags() == old(rt).tags(),
            settles(
                old(rt).model().push(self.runnable(LifecycleEvent::Update(UpdateEvent::First))).push(
                    self.runnable(LifecycleEvent::Create(props, placeholder, next_sibling)),
                ),
                old(rt).states(),
                final(rt).model(),
                final(rt).states(),
            ),
            drains_to(
                old(rt).model().push(self.runnable(LifecycleEvent::Update(UpdateEvent::First))).push(
                    self.runnable(LifecycleEvent::Create(props, placeholder, next_sibling)),
                ),
                final(rt).model(),
            ),
            old(rt).model().idle() ==> mount_outcome(
                old(rt).model(),
                old(rt).states(),
                final(rt).model(),
                final(rt).states(),
                self.cell,
                props,
                placeholder,
                next_sibling,
            ),
            no_destroy_for(old(rt).model(), self.cell) ==> rendered_since(
                final(rt).model().log,
                old(rt).model().log.len() as int,
                self.cell,
            ),
    {
        proof {
            old(rt).lemma_wf_sorted();
            old(rt).lemma_wf_states();
        }
        let ghost a = rt.model();
        let ghost sa = rt.states();
        rt.schedule(Runnable { target: self.cell, event: LifecycleEvent::Update(UpdateEvent::First) });
        self.process(rt, LifecycleEvent::Create(props, placeholder, next_sibling));
        proof {
            if a.idle() {
                lemma_mount_settles(a, sa, rt.model(), rt.states(), self.cell, props, placeholder, next_sibling);
            }
            if self.cell < a.phases.len() && a.phase(self.cell) == Phase::Unmounted && no_destroy_for(
                a,
                self.cell,
            ) {
                let start = a.push(self.runnable(LifecycleEvent::Update(UpdateEvent::First))).push(
                    self.runnable(LifecycleEvent::Create(props, placeholder, next_sibling)),
                );
                let reports = choose|reports: Seq<bool>| #[trigger] reaches(start, rt.model(), reports);
                lemma_mount_renders(a, rt.model(), reports, self.cell, props, placeholder, next_sibling);
            }
        }
    }

    /// Hands new properties and mount anchors to the component, which
    /// persists across its parent's re-render.
    pub fn reuse<C: Component>(
        &self,
        rt: &mut Runtime<C>,
        props: u64,
        node_ref: u64,
        next_sibling: Option<u64>,
    )
        requires
            old(rt).wf(),
            self.valid(&*old(rt)),
        ensures
            final(rt).wf(),
            final(rt).len() == old(rt).len(),
            final(rt).tags() == old(rt).tags(),
            old(rt).model().idle() && self.cell < old(rt).len() && old(rt).model().phase(self.cell)
                == Phase::Mounted ==> update_outcome(
                old(rt).model(),
                old(rt).states(),
                final(rt).model(),
                final(rt).states(),
                self.cell,
                UpdateEvent::Properties(props, node_ref, next_sibling),
            ),
            settles(
                old(rt).model().push(self.runnable(LifecycleEvent::Update(UpdateEvent::Properties(props, node_ref, next_sibling)))),
                old(rt).states(),
                final(rt).model(),
                final(rt).states(),
            ),
            drains_to(
                old(rt).model().push(self.runnable(LifecycleEvent::Update(UpdateEvent::Properties(props, node_ref, next_sibling)))),
                final(rt).model(),
            ),
    {
        let ghost a = rt.model();
        let ghost sa = rt.states();
        proof {
            old(rt).lemma_wf_states();
        }
        self.process(rt, LifecycleEvent::Update(UpdateEvent::Properties(props, node_ref, next_sibling)));
        proof {
            if a.idle() && self.cell < a.phases.len() && a.phase(self.cell) == Phase::Mounted {
                lemma_update_settles(a, sa, rt.model(), rt.states(), self.cell, UpdateEvent::Properties(props, node_ref, next_sibling));
            }
        }
    }

    /// Tears the component down. Doing it again is a no-op.
    pub fn destroy<C: Component>(&self, rt: &mut Runtime<C>)
        requires
            old(rt).wf(),
            self.valid(&*old(rt)),
        ensures
            final(rt).wf(),
            final(rt).len() == old(rt).len(),
            final(rt).tags() == old(rt).tags(),
            final(rt).model().phase(self.cell) == Phase::Destroyed,
            final(rt).states()[self.cell as int] is None,
            old(rt).model().phase(self.cell) == Phase::Destroyed ==> untouched(
                final(rt).model().log,
                old(rt).model().log.len() as int,
                self.cell,
            ),
            old(rt).model().idle() && old(rt).model().phase(self.cell) != Phase::Destroyed
                ==> final(rt).model().log == old(rt).model().log.push(
                Executed { target: self.cell, kind: EventKind::Destroy, messages: Seq::empty() },
            ) && final(rt).states() == old(rt).states().update(self.cell as int, None),
            settles(
                old(rt).model().push(self.runnable(LifecycleEvent::Destroy)),
                old(rt).states(),
                final(rt).model(),
                final(rt).states(),
            ),
            drains_to(old(rt).model().push(self.runnable(LifecycleEvent::Destroy)), final(rt).model()),
    {
        let ghost a = rt.model();
        proof {
            old(rt).lemma_wf_sorted();
            old(rt).lemma_wf_states();
        }
        let r = Runnable { target: self.cell, event: LifecycleEvent::Destroy };
        rt.schedule(Runnable { target: self.cell, event: LifecycleEvent::Destroy });
        let ghost m = rt.model();
        assert(m.destroy[m.destroy.len() - 1].target == self.cell);
        let ghost sa = old(rt).states();
        rt.start();
        proof {
            rt.lemma_wf_states();
            if a.idle() && a.phase(self.cell) != Phase::Destroyed {
                lemma_destroy_settles(a, sa, rt.model(), rt.states(), self.cell);
            }
            if a.phase(self.cell) == Phase::Destroyed {
                lemma_push_sorted(a, r);
                let reports = choose|reports: Seq<bool>| #[trigger] reaches(a.push(r), rt.model(), reports);
                lemma_destroyed_inert(a.push(r), rt.model(), reports, self.cell);
            }
        }
    }

    /// Sends one message to the component.
    pub fn send_message<C: Component>(&self, rt: &mut Runtime<C>, msg: u64)
        requires
            old(rt).wf(),
        ensures
            final(rt).wf(),
            final(rt).len() == old(rt).len(),
            drains_to(
                old(rt).model().push(self.runnable(LifecycleEvent::Update(UpdateEvent::Message(msg)))),
                final(rt).model(),
            ),
            final(rt).tags() == old(rt).tags(),
            old(rt).model().idle() && self.cell < old(rt).len() && old(rt).model().phase(self.cell)
                == Phase::Mounted ==> update_outcome(
                old(rt).model(),
                old(rt).states(),
                final(rt).model(),
                final(rt).states(),
                self.cell,
                UpdateEvent::Message(msg),
            ),
            settles(
                old(rt).model().push(self.runnable(LifecycleEvent::Update(UpdateEvent::Message(msg)))),
                old(rt).states(),
                final(rt).model(),
                final(rt).states(),
            ),
            old(rt).model().phase(self.cell) == Phase::Destroyed ==> final(rt).model().phase(
                self.cell,
            ) == Phase::Destroyed && untouched(
                final(rt).model().log,
                old(rt).model().log.len() as int,
                self.cell,
            ),
    {
        let ghost a = rt.model();
        let ghost sa = rt.states();
        proof {
            old(rt).lemma_wf_sorted();
            old(rt).lemma_wf_states();
        }
        let r = Runnable { target: self.cell, event: LifecycleEvent::Update(UpdateEvent::Message(msg)) };
        self.process(rt, LifecycleEvent::Update(UpdateEvent::Message(msg)));
        proof {
            if a.idle() && self.cell < a.phases.len() && a.phase(self.cell) == Phase::Mounted {
                lemma_update_settles(a, sa, rt.model(), rt.states(), self.cell, UpdateEvent::Message(msg));
            }
            if a.phase(self.cell) == Phase::Destroyed {
                lemma_push_sorted(a, r);
                let reports = choose|reports: Seq<bool>| #[trigger] reaches(a.push(r), rt.model(), reports);
                lemma_destroyed_inert(a.push(r), rt.model(), reports, self.cell);
            }
        }
    }

    /// Sends a batch of messages, handled together by one update-and-render
    /// cycle. An empty batch schedules nothing.
    pub fn send_message_batch<C: Component>(&self, rt: &mut Runtime<C>, messages: Vec<u64>)
        requires
            old(rt).wf(),
        ensures
            final(rt).wf(),
            final(rt).len() == old(rt).len(),
            final(rt).tags() == old(rt).tags(),
            messages@.len() == 0 ==> *final(rt) == *old(rt),
            messages@.len() > 0 && old(rt).model().idle() && self.cell < old(rt).len() && old(
                rt,
            ).model().phase(self.cell) == Phase::Mounted ==> update_outcome(
                old(rt).model(),
                old(rt).states(),
                final(rt).model(),
                final(rt).states(),
                self.cell,
                UpdateEvent::MessageBatch(messages),
            ),
            messages@.len() > 0 ==> settles(
                old(rt).model().push(
                    self.runnable(LifecycleEvent::Update(UpdateEvent::MessageBatch(messages))),
                ),
                old(rt).states(),
                final(rt).model(),
                final(rt).states(),
            ),
            messages@.len() > 0 ==> drains_to(
                old(rt).model().push(
                    self.runnable(LifecycleEvent::Update(UpdateEvent::MessageBatch(messages))),
                ),
                final(rt).model(),
            ),
    {
        if messages.len() == 0 {
            return;
        }
        let ghost a = rt.model();
        let ghost sa = rt.states();
        let ghost u = UpdateEvent::MessageBatch(messages);
        proof {
            old(rt).lemma_wf_states();
        }
        self.process(rt, LifecycleEvent::Update(UpdateEvent::MessageBatch(messages)));
        proof {
            if a.idle() && self.cell < a.phases.len() && a.phase(self.cell) == Phase::Mounted {
                lemma_update_settles(a, sa, rt.model(), rt.states(), self.cell, u);
            }
        }
    }
}

/// The effect of delivering `d` (nothing, or one update) to `scope`: `b` is
/// what follows from `a`.
pub open spec fn delivered<C: Component>(
    scope: Scope,
    d: Option<UpdateEvent>,
    a: Runtime<C>,
    b: Runtime<C>,
) -> bool {
    &&& b.tags() == a.tags()
    &&& match d {
        None => b.model() == a.model() && b.states() == a.states(),
        Some(u) => {
            &&& drains_to(a.model().push(scope.runnable(LifecycleEvent::Update(u))), b.model())
            &&& settles(
                a.model().push(scope.runnable(LifecycleEvent::Update(u))),
                a.states(),
                b.model(),
                b.states(),
            )
            &&& a.model().idle() && scope.cell < a.len() && a.model().phase(scope.cell)
                == Phase::Mounted ==> update_outcome(
                a.model(),
                a.states(),
                b.model(),
                b.states(),
                scope.cell,
                u,
            )
        },
    }
}

/// A value that can be sent to a component as zero, one or a batch of
/// messages.
pub trait SendAsMessage: Sized {
    /// The update that sending this value schedules, if any.
    spec fn delivery(&self) -> Option<UpdateEvent>;

    /// Sends the value to the component of `scope`.
    fn send<C: Component>(self, scope: &Scope, rt: &mut Runtime<C>)
        requires
            old(rt).wf(),
        ensures
            final(rt).wf(),
            final(rt).len() == old(rt).len(),
            delivered(*scope, self.delivery(), *old(rt), *final(rt)),
    ;
}

impl SendAsMessage for u64 {
    open spec fn delivery(&self) -> Option<UpdateEvent> {
        Some(UpdateEvent::Message(*self))
    }

    fn send<C: Component>(self, scope: &Scope, rt: &mut Runtime<C>) {
        scope.send_message(rt, self);
    }
}

impl SendAsMessage for Option<u64> {
    open spec fn delivery(&self) -> Option<UpdateEvent> {
        match *self {
            Some(m) => Some(UpdateEvent::Message(m)),
            None => None,
        }
    }

    fn send<C: Component>(self, scope: &Scope, rt: &mut Runtime<C>) {
        if let Some(msg) = self {
            scope.send_message(rt, msg);
        }
    }
}

impl SendAsMessage for Vec<u64> {
    open spec fn delivery(&self) -> Option<UpdateEvent> {
        if self@.len() == 0 {
            None
        } else {
            Some(UpdateEvent::MessageBatch(*self))
        }
    }

    fn send<C: Component>(self, scope: &Scope, rt: &mut Runtime<C>) {
        scope.send_message_batch(rt, self);
    }
}

/// A function bound to a scope: each call of it sends its result to the
/// scope's component.
pub struct Callback<F> {
    pub scope: Scope,
    pub function: F,
}

impl<F> Callback<F> {
    /// Calls the function on `input` and sends its result.
    pub fn emit<IN, M: SendAsMessage, C: Component>(&self, rt: &mut Runtime<C>, input: IN)
        where
            F: Fn(IN) -> M,
        requires
            old(rt).wf(),
            self.function.requires((input,)),
        ensures
            final(rt).wf(),
            final(rt).len() == old(rt).len(),
            exists|m: M|
                self.function.ensures((input,), m) && delivered(
                    self.scope,
                    #[trigger] m.delivery(),
                    *old(rt),
                    *final(rt),
                ),
    {
        let m = (self.function)(input);
        m.send(&self.scope, rt);
    }

    /// Calls the function on `input` and hands back the future it returns,
    /// bound to the scope: the host runs it and completes the delivery.
    pub fn emit_future<IN, FU>(&self, input: IN) -> (r: PendingFuture<FU>)
        where
            F: Fn(IN) -> FU,
        requires
            self.function.requires((input,)),
        ensures
            r.scope == self.scope,
            self.function.ensures((input,), r.future),
    {
        let future = (self.function)(input);
        self.scope.send_future(future)
    }
}

/// A function bound to a scope that may be called once.
pub struct CallbackOnce<F> {
    pub scope: Scope,
    /// The function, until it has been called.
    pub function: Option<F>,
}

impl<F> CallbackOnce<F> {
    /// Calls the function on `input` and sends its result. A second call is
    /// a caller error.
    pub fn emit<IN, M: SendAsMessage, C: Component>(&mut self, rt: &mut Runtime<C>, input: IN)
        where
            F: FnOnce(IN) -> M,
        requires
            old(rt).wf(),
            old(self).function is Some,
            old(self).function.unwrap().requires((input,)),
        ensures
            final(rt).wf(),
            final(rt).len() == old(rt).len(),
            final(self).function is None,
            final(self).scope == old(self).scope,
            exists|m: M|
                old(self).function.unwrap().ensures((input,), m) && delivered(
                    old(self).scope,
                    #[trigger] m.delivery(),
                    *old(rt),
                    *final(rt),
                ),
    {
        let f = self.function.take().unwrap();
        let m = f(input);
        m.send(&self.scope, rt);
    }

    /// Calls the function on `input` and hands back the future it returns,
    /// bound to the scope. A second call is a caller error.
    pub fn emit_future<IN, FU>(&mut self, input: IN) -> (r: PendingFuture<FU>)
        where
            F: FnOnce(IN) -> FU,
        requires
            old(self).function is Some,
            old(self).function.unwrap().requires((input,)),
        ensures
            final(self).function is None,
            final(self).scope == old(self).scope,
            r.scope == old(self).scope,
            old(self).function.unwrap().ensures((input,), r.future),
    {
        let f = self.function.take().unwrap();
        let future = f(input);
        self.scope.send_future(future)
    }
}

/// An asynchronous computation bound to a scope. The host runs `future`;
/// when it resolves, `complete` delivers its output to the scope's component.
/// A computation that fails is simply dropped: nothing is delivered.
pub struct PendingFuture<FU> {
    pub future: FU,
    pub scope: Scope,
}

impl<FU> PendingFuture<FU> {
    /// Delivers the resolved output. On a destroyed component this schedules
    /// an update that is skipped.
    pub fn complete<M: SendAsMessage, C: Component>(self, rt: &mut Runtime<C>, output: M)
        requires
            old(rt).wf(),
        ensures
            final(rt).wf(),
            final(rt).len() == old(rt).len(),
            delivered(self.scope, output.delivery(), *old(rt), *final(rt)),
    {
        output.send(&self.scope, rt);
    }
}

impl Scope {
    /// A callback that sends the function's result as one message.
    pub fn callback<F>(&self, function: F) -> (r: Callback<F>)
        ensures
            r.scope == *self,
            r.function == function,
    {
        Callback { scope: self.clone(), function }
    }

    /// A callback, callable once, that sends the function's result as one
    /// message.
    pub fn callback_once<F>(&self, function: F) -> (r: CallbackOnce<F>)
        ensures
            r.scope == *self,
            r.function == Some(function),
    {
        CallbackOnce { scope: self.clone(), function: Some(function) }
    }

    /// A callback whose function returns zero or one message (`Option`) or a
    /// batch (`Vec`); nothing and an empty batch schedule no work.
    pub fn batch_callback<F>(&self, function: F) -> (r: Callback<F>)
        ensures
            r.scope == *self,
            r.function == function,
    {
        Callback { scope: self.clone(), function }
    }

    /// The callable-once form of `batch_callback`.
    pub fn batch_callback_once<F>(&self, function: F) -> (r: CallbackOnce<F>)
        ensures
            r.scope == *self,
            r.function == Some(function),
    {
        CallbackOnce { scope: self.clone(), function: Some(function) }
    }

    /// A callback whose function returns a future of a message; each call
    /// hands the future on through `send_future`.
    pub fn callback_future<F>(&self, function: F) -> (r: Callback<F>)
        ensures
            r.scope == *self,
            r.function == function,
    {
        Callback { scope: self.clone(), function }
    }

    /// The callable-once form of `callback_future`.
    pub fn callback_future_once<F>(&self, function: F) -> (r: CallbackOnce<F>)
        ensures
            r.scope == *self,
            r.function == Some(function),
    {
        CallbackOnce { scope: self.clone(), function: Some(function) }
    }

    /// Binds a future of one message to this scope, so that its output is
    /// delivered here, whoever started it.
    pub fn send_future<FU>(&self, future: FU) -> (r: PendingFuture<FU>)
        ensures
            r.scope == *self,
            r.future == future,
    {
        PendingFuture { future, scope: self.clone() }
    }

    /// Binds a future of a batch of messages to this scope.
    pub fn send_future_batch<FU>(&self, future: FU) -> (r: PendingFuture<FU>)
        ensures
            r.scope == *self,
            r.future == future,
    {
        PendingFuture { future, scope: self.clone() }
    }

    /// Looks up the value provided by the nearest context provider of type
    /// `provider_tag`, this scope first.
    pub fn context<C: Component>(&self, rt: &mut Runtime<C>, provider_tag: u64) -> (r: Option<
        (u64, ContextHandle),
    >)
        requires
            old(rt).wf(),
            self.valid(&*old(rt)),
        ensures
            final(rt).wf(),
            final(rt).model() == old(rt).model(),
            match self.to_any_spec().nearest(provider_tag) {
                Some(a) => if old(rt).model().phase(a.cell) == Phase::Mounted {
                    &&& r is Some
                    &&& r.unwrap().1 == (ContextHandle { provider: a.cell, consumer: self.cell })
                    &&& call_ensures(C::provided, (&old(rt).component(a.cell).unwrap(),), r.unwrap().0)
                    &&& final(rt).subscribers(a.cell) == old(rt).subscribers(a.cell).push(self.cell)
                } else {
                    r is None && final(rt).subscribers(a.cell) == old(rt).subscribers(a.cell)
                },
                None => r is None,
            },
            forall|c: usize|
                c < old(rt).len() && (self.to_any_spec().nearest(provider_tag) is None || c != self.to_any_spec().nearest(
                    provider_tag,
                ).unwrap().cell) ==> #[trigger] final(rt).subscribers(c) == old(rt).subscribers(c),
    {
        self.to_any().context(rt, provider_tag)
    }

    pub open spec fn to_any_spec(self) -> AnyScope {
        AnyScope { type_tag: self.type_tag, cell: self.cell, parent: self.parent }
    }
}

/// Context lookup is lexically scoped: the scope found for `type_tag` is
/// the first of this scope's ancestors (itself first) with that type, so a
/// nearer provider shadows an outer one; none is found only where no
/// ancestor has the type.
pub proof fn lemma_nearest_shadows(s: AnyScope, type_tag: u64)
    ensures
        match s.nearest(type_tag) {
            Some(a) => exists|i: int|
                0 <= i < s.ancestors().len() && #[trigger] s.ancestors()[i] == a && a.type_tag
                    == type_tag && forall|j: int|
                    0 <= j < i ==> (#[trigger] s.ancestors()[j]).type_tag != type_tag,
            None => forall|i: int|
                0 <= i < s.ancestors().len() ==> (#[trigger] s.ancestors()[i]).type_tag != type_tag,
        },
    decreases s,
{
    match s.parent {
        Some(p) => {
            lemma_nearest_shadows(*p, type_tag);
            let rest = (*p).ancestors();
            assert(s.ancestors() == seq![s] + rest);
            assert forall|i: int| 0 < i < s.ancestors().len() implies s.ancestors()[i] == rest[i - 1] by {}
            if s.type_tag == type_tag {
                assert(s.ancestors()[0] == s);
            } else {
                match (*p).nearest(type_tag) {
                    Some(a) => {
                        let i = choose|i: int|
                            0 <= i < rest.len() && #[trigger] rest[i] == a && a.type_tag == type_tag
                                && forall|j: int| 0 <= j < i ==> (#[trigger] rest[j]).type_tag != type_tag;
                        assert(s.ancestors()[i + 1] == a);
                        assert forall|j: int| 0 <= j < i + 1 implies (#[trigger] s.ancestors()[j]).type_tag
                            != type_tag by {
                            if j > 0 {
                                assert(s.ancestors()[j] == rest[j - 1]);
                            }
                        }
                    },
                    None => {
                        assert forall|i: int| 0 <= i < s.ancestors().len() implies (
                        #[trigger] s.ancestors()[i]).type_tag != type_tag by {
                            if i > 0 {
                                assert(s.ancestors()[i] == rest[i - 1]);
                            }
                        }
                    },
                }
            }
        },
        None => {
            assert(s.ancestors() == seq![s]);
        },
    }
}

} // verus!
