//! Laws of the scheduler: some hold of every drain whatever the update hooks
//! answer, others fix the outcome of a drain from the hooks' own effects.
use vstd::prelude::*;

use crate::runtime::{reanchored, runs, settles, step_effect, update_effect, Component, ComponentState};
use crate::lifecycle::{
    kind_of, update_messages, Executed, lemma_step_decreases, lemma_step_destroy, reaches, step, EventKind, LifecycleEvent,
    Phase, Runnable, SchedModel, UpdateEvent,
};

verus! {

/// Where `n` steps from `(a, sa)` lead, each taking the update hook's own
/// answer.
pub open spec fn advance<C: Component>(a: SchedModel, sa: Seq<Option<ComponentState<C>>>, n: nat) -> (
    SchedModel,
    Seq<Option<ComponentState<C>>>,
)
    decreases n,
{
    if n == 0 {
        (a, sa)
    } else {
        advance(step(a, step_effect(a, sa).1), step_effect(a, sa).0, (n - 1) as nat)
    }
}

proof fn lemma_runs_advance<C: Component>(
    a: SchedModel,
    sa: Seq<Option<ComponentState<C>>>,
    b: SchedModel,
    sb: Seq<Option<ComponentState<C>>>,
    n: nat,
)
    requires
        runs(a, sa, b, sb, n),
    ensures
        advance(a, sa, n) == (b, sb),
    decreases n,
{
    if n > 0 {
        lemma_runs_advance(step(a, step_effect(a, sa).1), step_effect(a, sa).0, b, sb, (n - 1) as nat);
    }
}

proof fn lemma_advance_idle<C: Component>(a: SchedModel, sa: Seq<Option<ComponentState<C>>>, n: nat)
    requires
        a.idle(),
    ensures
        advance(a, sa, n) == (a, sa),
    decreases n,
{
    if n > 0 {
        assert(step(a, false) == a);
        lemma_advance_idle(a, sa, (n - 1) as nat);
    }
}

proof fn lemma_advance_split<C: Component>(
    a: SchedModel,
    sa: Seq<Option<ComponentState<C>>>,
    i: nat,
    j: nat,
)
    ensures
        advance(a, sa, i + j) == advance(advance(a, sa, i).0, advance(a, sa, i).1, j),
    decreases i,
{
    if i > 0 {
        lemma_advance_split(step(a, step_effect(a, sa).1), step_effect(a, sa).0, (i - 1) as nat, j);
        assert((i + j - 1) as nat == (i - 1) as nat + j);
    }
}

/// A drain has one outcome: where `k` steps reach an idle scheduler, every
/// drain ends there.
pub proof fn lemma_settles_unique<C: Component>(
    a: SchedModel,
    sa: Seq<Option<ComponentState<C>>>,
    b: SchedModel,
    sb: Seq<Option<ComponentState<C>>>,
    k: nat,
)
    requires
        settles(a, sa, b, sb),
        advance(a, sa, k).0.idle(),
    ensures
        (b, sb) == advance(a, sa, k),
{
    let n = choose|n: nat| #[trigger] runs(a, sa, b, sb, n);
    lemma_runs_advance(a, sa, b, sb, n);
    if n <= k {
        lemma_advance_split(a, sa, n, (k - n) as nat);
        lemma_advance_idle(b, sb, (k - n) as nat);
        assert(n + (k - n) as nat == k);
    } else {
        let e = advance(a, sa, k);
        lemma_advance_split(a, sa, k, (n - k) as nat);
        lemma_advance_idle(e.0, e.1, (n - k) as nat);
        assert(k + (n - k) as nat == n);
    }
}

/// From an idle scheduler, mounting an unmounted component runs its
/// creation from `props`, the forced first update, one render and one
/// post-render hook, and nothing else.
pub proof fn lemma_mount_result<C: Component>(
    a: SchedModel,
    sa: Seq<Option<ComponentState<C>>>,
    t: usize,
    props: u64,
    placeholder: u64,
    next_sibling: Option<u64>,
)
    requires
        a.idle(),
        t < a.phases.len(),
        sa.len() == a.phases.len(),
        a.phase(t) == Phase::Unmounted,
    ensures
        ({
            let m0 = a.push(Runnable { target: t, event: LifecycleEvent::Update(UpdateEvent::First) }).push(
                Runnable { target: t, event: LifecycleEvent::Create(props, placeholder, next_sibling) },
            );
            let c = C::created(props);
            &&& advance(m0, sa, 4).0.idle()
            &&& advance(m0, sa, 4).0.phases == a.phases.update(t as int, Phase::Mounted)
            &&& advance(m0, sa, 4).1 == sa.update(
                t as int,
                Some(
                    ComponentState {
                        component: c.after_rendered(true),
                        root_output: c.output(),
                        first_render: false,
                        node_ref: placeholder,
                        next_sibling,
                    },
                ),
            )
        }),
{
    let m0 = a.push(Runnable { target: t, event: LifecycleEvent::Update(UpdateEvent::First) }).push(
        Runnable { target: t, event: LifecycleEvent::Create(props, placeholder, next_sibling) },
    );
    let c = C::created(props);
    assert(m0.next_kind() == EventKind::Create);
    let e1 = step_effect(m0, sa);
    let m1 = step(m0, e1.1);
    assert(m1.phases == a.phases.update(t as int, Phase::Mounted));
    assert(m1.next_kind() == EventKind::Update);
    assert(e1.0 == sa.update(
        t as int,
        Some(
            ComponentState {
                component: c,
                root_output: placeholder,
                first_render: true,
                node_ref: placeholder,
                next_sibling,
            },
        ),
    ));
    let e2 = step_effect(m1, e1.0);
    assert(e2.0 == e1.0);
    let m2 = step(m1, e2.1);
    assert(m2.next_kind() == EventKind::Render);
    let e3 = step_effect(m2, e2.0);
    assert(e3.0 == sa.update(
        t as int,
        Some(
            ComponentState {
                component: c,
                root_output: c.output(),
                first_render: true,
                node_ref: placeholder,
                next_sibling,
            },
        ),
    ));
    let m3 = step(m2, e3.1);
    assert(m3.next_kind() == EventKind::Rendered);
    let e4 = step_effect(m3, e3.0);
    let m4 = step(m3, e4.1);
    assert(m4.idle());
    assert(e4.0 =~= sa.update(
        t as int,
        Some(
            ComponentState {
                component: c.after_rendered(true),
                root_output: c.output(),
                first_render: false,
                node_ref: placeholder,
                next_sibling,
            },
        ),
    ));
    reveal_with_fuel(advance, 5);
}

/// Basic facts of one step: the queues stay sorted, the cells stay, and
/// the history only grows.
pub proof fn lemma_step_basics(m: SchedModel, report: bool)
    requires
        m.sorted(),
    ensures
        step(m, report).sorted(),
        step(m, report).phases.len() == m.phases.len(),
        step(m, report).log.len() <= m.log.len() + 1,
        step(m, report).log.len() >= m.log.len(),
        step(m, report).log.subrange(0, m.log.len() as int) == m.log,
{
    lemma_step_destroy(m, report);
    if !m.idle() {
        lemma_step_decreases(m, report);
    }
}

/// The same over a run of steps.
pub proof fn lemma_reaches_basics(a: SchedModel, b: SchedModel, reports: Seq<bool>)
    requires
        a.sorted(),
        reaches(a, b, reports),
    ensures
        b.sorted(),
        b.phases.len() == a.phases.len(),
        b.log.len() >= a.log.len(),
        b.log.subrange(0, a.log.len() as int) == a.log,
    decreases reports.len(),
{
    if reports.len() > 0 {
        let s = step(a, reports[0]);
        lemma_step_basics(a, reports[0]);
        lemma_reaches_basics(s, b, reports.drop_first());
        assert forall|i: int| 0 <= i < a.log.len() implies b.log[i] == a.log[i] by {
            assert(b.log.subrange(0, s.log.len() as int)[i] == s.log[i]);
            assert(s.log.subrange(0, a.log.len() as int)[i] == a.log[i]);
        }
        assert(b.log.subrange(0, a.log.len() as int) =~= a.log);
    }
}

/// While a `Create` is pending, a step runs nothing but a `Destroy` or a
/// `Create`: creation outranks every update and render, whatever the order
/// in which they were queued. As the create queue is served from its front,
/// a pending `Create` runs before any update or render.
pub proof fn lemma_create_outranks(m: SchedModel, report: bool)
    requires
        m.sorted(),
        m.create.len() > 0,
    ensures
        forall|j: int|
            m.log.len() <= j < step(m, report).log.len() ==> (#[trigger] step(m, report).log[j]).kind
                == EventKind::Destroy || step(m, report).log[j].kind == EventKind::Create,
        m.destroy.len() == 0 ==> step(m, report).create == m.create.drop_first(),
{
    lemma_step_basics(m, report);
    let k = m.next_kind();
    assert(kind_of(m.queue(k)[0].event) == k);
}

/// Updates, renders and post-render hooks run only on mounted components:
/// one that is not mounted must be created first.
pub proof fn lemma_update_needs_mount(m: SchedModel, report: bool)
    requires
        m.sorted(),
    ensures
        forall|j: int|
            m.log.len() <= j < step(m, report).log.len() && ((#[trigger] step(m, report).log[j]).kind
                == EventKind::Update || step(m, report).log[j].kind == EventKind::Render
                || step(m, report).log[j].kind == EventKind::Rendered) ==> m.phase(
                step(m, report).log[j].target,
            ) == Phase::Mounted,
{
    lemma_step_basics(m, report);
    if !m.idle() {
        let k = m.next_kind();
        assert(kind_of(m.queue(k)[0].event) == k);
    }
}

/// Nothing is recorded for cell `t` in `log` from `from` on.
pub open spec fn untouched(log: Seq<crate::lifecycle::Executed>, from: int, t: usize) -> bool {
    forall|j: int| from <= j < log.len() ==> (#[trigger] log[j]).target != t
}

/// A destroyed component stays destroyed, and in any drain nothing runs for
/// it: a repeated `Destroy` is a no-op, and a message that reaches it late
/// is dropped, with no update and no render.
pub proof fn lemma_destroyed_inert(a: SchedModel, b: SchedModel, reports: Seq<bool>, t: usize)
    requires
        a.sorted(),
        a.phase(t) == Phase::Destroyed,
        reaches(a, b, reports),
    ensures
        b.phase(t) == Phase::Destroyed,
        untouched(b.log, a.log.len() as int, t),
    decreases reports.len(),
{
    if reports.len() > 0 {
        let s = step(a, reports[0]);
        lemma_step_basics(a, reports[0]);
        lemma_step_destroy(a, reports[0]);
        lemma_update_needs_mount(a, reports[0]);
        if !a.idle() {
            let k = a.next_kind();
            assert(kind_of(a.queue(k)[0].event) == k);
        }
        assert(untouched(s.log, a.log.len() as int, t));
        lemma_destroyed_inert(s, b, reports.drop_first(), t);
        lemma_reaches_basics(s, b, reports.drop_first());
        assert forall|j: int| a.log.len() <= j < b.log.len() implies (#[trigger] b.log[j]).target
            != t by {
            if j < s.log.len() {
                assert(b.log.subrange(0, s.log.len() as int)[j] == s.log[j]);
            }
        }
    }
}

/// No `Destroy` for cell `t` is pending.
pub open spec fn no_destroy_for(m: SchedModel, t: usize) -> bool {
    forall|i: int| 0 <= i < m.destroy.len() ==> (#[trigger] m.destroy[i]).target != t
}

/// A `Render` of cell `t` is recorded in `log` from `from` on.
pub open spec fn rendered_since(log: Seq<crate::lifecycle::Executed>, from: int, t: usize) -> bool {
    exists|j: int|
        from <= j < log.len() && (#[trigger] log[j]).target == t && log[j].kind == EventKind::Render
}

/// A render of `t` is queued on a mounted `t`.
pub open spec fn render_queued(m: SchedModel, t: usize) -> bool {
    m.phase(t) == Phase::Mounted && exists|i: int|
        0 <= i < m.render.len() && (#[trigger] m.render[i]).target == t
}

/// The first update of `t` is queued, and `t` is mounted or about to be.
pub open spec fn first_update_queued(m: SchedModel, t: usize) -> bool {
    &&& exists|i: int|
        0 <= i < m.update.len() && #[trigger] m.update[i] == (Runnable {
            target: t,
            event: LifecycleEvent::Update(UpdateEvent::First),
        })
    &&& (m.phase(t) == Phase::Mounted || exists|k: int|
        0 <= k < m.create.len() && (#[trigger] m.create[k]).target == t)
}

/// A render of `t` is owed by what is queued, or has happened since `from`.
pub open spec fn render_owed(m: SchedModel, t: usize, from: int) -> bool {
    &&& t < m.phases.len()
    &&& m.phase(t) != Phase::Destroyed
    &&& no_destroy_for(m, t)
    &&& (rendered_since(m.log, from, t) || render_queued(m, t) || first_update_queued(m, t))
}

proof fn lemma_owed_step(m: SchedModel, report: bool, t: usize, from: int)
    requires
        m.sorted(),
        0 <= from <= m.log.len(),
        render_owed(m, t, from),
    ensures
        render_owed(step(m, report), t, from),
{
    let s = step(m, report);
    lemma_step_basics(m, report);
    lemma_step_destroy(m, report);
    if m.idle() {
        return;
    }
    let k = m.next_kind();
    let q = m.queue(k);
    let r = q[0];
    assert(kind_of(r.event) == k);
    let m1 = m.with_queue(k, q.drop_first());
    if rendered_since(m.log, from, t) {
        let j = choose|j: int|
            from <= j < m.log.len() && (#[trigger] m.log[j]).target == t && m.log[j].kind
                == EventKind::Render;
        assert(s.log.subrange(0, m.log.len() as int)[j] == m.log[j]);
        assert(rendered_since(s.log, from, t));
    }
    // The destroy queue only loses its head, which is not `t`.
    if k == EventKind::Destroy {
        assert(r == m.destroy[0]);
        assert forall|i: int| 0 <= i < s.destroy.len() implies (#[trigger] s.destroy[i]).target
            != t by {
            assert(s.destroy[i] == m.destroy[i + 1]);
        }
    }
    assert(no_destroy_for(s, t));
    // Phase of `t` after the step.
    assert(s.phase(t) == Phase::Mounted || (s.phase(t) == m.phase(t) && r.target != t) || (
    s.phase(t) == m.phase(t) && k != EventKind::Create && k != EventKind::Destroy));
    assert(m.phase(t) == Phase::Mounted ==> s.phase(t) == Phase::Mounted);
    assert(s.phase(t) != Phase::Destroyed);
    if !rendered_since(m.log, from, t) {
        if render_queued(m, t) {
            let i = choose|i: int| 0 <= i < m.render.len() && (#[trigger] m.render[i]).target == t;
            if k == EventKind::Render {
                if i == 0 {
                    assert(s.log[m.log.len() as int].target == t);
                    assert(rendered_since(s.log, from, t));
                } else {
                    assert(s.render[i - 1] == m.render[i]);
                }
            } else if k == EventKind::Update {
                assert(s.render.len() >= m.render.len());
                assert(s.render[i] == m.render[i]);
            } else {
                assert(s.render[i] == m.render[i]);
            }
            assert(render_queued(s, t) || rendered_since(s.log, from, t));
        } else {
            let i = choose|i: int|
                0 <= i < m.update.len() && #[trigger] m.update[i] == (Runnable {
                    target: t,
                    event: LifecycleEvent::Update(UpdateEvent::First),
                });
            if k == EventKind::Update {
                if i == 0 {
                    assert(m.phase(t) == Phase::Mounted);
                    assert(s.render[s.render.len() - 1].target == t);
                    assert(render_queued(s, t));
                } else {
                    assert(s.update[i - 1] == m.update[i]);
                    assert(first_update_queued(s, t));
                }
            } else if k == EventKind::Create {
                assert(s.update[i] == m.update[i]);
                if m.phase(t) != Phase::Mounted {
                    let c = choose|c: int| 0 <= c < m.create.len() && (#[trigger] m.create[c]).target == t;
                    if c == 0 {
                        assert(s.phase(t) == Phase::Mounted);
                    } else {
                        assert(s.create[c - 1] == m.create[c]);
                    }
                }
                assert(first_update_queued(s, t));
            } else {
                assert(k == EventKind::Destroy);
                assert(s.update == m.update);
                if m.phase(t) != Phase::Mounted {
                    let c = choose|c: int| 0 <= c < m.create.len() && (#[trigger] m.create[c]).target == t;
                    assert(s.create[c] == m.create[c]);
                }
                assert(first_update_queued(s, t));
            }
        }
    }
}

/// Every drain pays a render that is owed.
pub proof fn lemma_owed_renders(a: SchedModel, b: SchedModel, reports: Seq<bool>, t: usize, from: int)
    requires
        a.sorted(),
        0 <= from <= a.log.len(),
        render_owed(a, t, from),
        reaches(a, b, reports),
        b.idle(),
    ensures
        rendered_since(b.log, from, t),
    decreases reports.len(),
{
    if reports.len() == 0 {
        assert(b == a);
    } else {
        let s = step(a, reports[0]);
        lemma_owed_step(a, reports[0], t, from);
        lemma_step_basics(a, reports[0]);
        lemma_owed_renders(s, b, reports.drop_first(), t, from);
    }
}

/// Mounting renders at least once, even if no message is ever sent: the
/// first update, queued before the creation, runs after it and forces a
/// render, whatever the update hook answers. `a` is the state before the
/// mount, `b` the outcome of the drain that the mount starts.
pub proof fn lemma_mount_renders(
    a: SchedModel,
    b: SchedModel,
    reports: Seq<bool>,
    t: usize,
    props: u64,
    placeholder: u64,
    next_sibling: Option<u64>,
)
    requires
        a.sorted(),
        t < a.phases.len(),
        a.phase(t) == Phase::Unmounted,
        no_destroy_for(a, t),
        reaches(
            a.push(Runnable { target: t, event: LifecycleEvent::Update(UpdateEvent::First) }).push(
                Runnable { target: t, event: LifecycleEvent::Create(props, placeholder, next_sibling) },
            ),
            b,
            reports,
        ),
        b.idle(),
    ensures
        rendered_since(b.log, a.log.len() as int, t),
{
    let first = Runnable { target: t, event: LifecycleEvent::Update(UpdateEvent::First) };
    let create = Runnable { target: t, event: LifecycleEvent::Create(props, placeholder, next_sibling) };
    let a1 = a.push(first);
    let a2 = a1.push(create);
    crate::lifecycle::lemma_push_sorted(a, first);
    crate::lifecycle::lemma_push_sorted(a1, create);
    assert(a2.update[a.update.len() as int] == first);
    assert(a2.create[a.create.len() as int] == create);
    assert(a2.destroy == a.destroy);
    assert(render_owed(a2, t, a.log.len() as int));
    lemma_owed_renders(a2, b, reports, t, a.log.len() as int);
}

/// A batch of messages is one update: its step hands every message of the
/// batch to the update hook, in order, and queues at most one render.
pub proof fn lemma_batch_single_render(m: SchedModel, report: bool, messages: Vec<u64>)
    requires
        m.sorted(),
        m.destroy.len() == 0,
        m.create.len() == 0,
        m.update.len() > 0,
        m.update[0].event == LifecycleEvent::Update(UpdateEvent::MessageBatch(messages)),
        m.phase(m.update[0].target) == Phase::Mounted,
    ensures
        step(m, report).log == m.log.push(
            crate::lifecycle::Executed {
                target: m.update[0].target,
                kind: EventKind::Update,
                messages: messages@,
            },
        ),
        step(m, report).render == m.render || step(m, report).render == m.render.push(
            Runnable { target: m.update[0].target, event: LifecycleEvent::Render },
        ),
{
}

/// Destroying is idempotent: destroying a destroyed component again keeps
/// it destroyed and runs nothing for it.
pub proof fn lemma_destroy_idempotent(a: SchedModel, b: SchedModel, reports: Seq<bool>, t: usize)
    requires
        a.sorted(),
        a.phase(t) == Phase::Destroyed,
        reaches(a.push(Runnable { target: t, event: LifecycleEvent::Destroy }), b, reports),
    ensures
        b.phase(t) == Phase::Destroyed,
        untouched(b.log, a.log.len() as int, t),
{
    let d = Runnable { target: t, event: LifecycleEvent::Destroy };
    crate::lifecycle::lemma_push_sorted(a, d);
    lemma_destroyed_inert(a.push(d), b, reports, t);
}

/// Update, render or post-render hook of cell `t`.
pub open spec fn is_hook_of(e: crate::lifecycle::Executed, t: usize) -> bool {
    e.target == t && (e.kind == EventKind::Update || e.kind == EventKind::Render || e.kind
        == EventKind::Rendered)
}

/// A `Create` of cell `t` is recorded in `log` in `[from, to)`.
pub open spec fn created_between(log: Seq<crate::lifecycle::Executed>, from: int, to: int, t: usize) -> bool {
    exists|i: int| from <= i < to && (#[trigger] log[i]).target == t && log[i].kind == EventKind::Create
}

proof fn lemma_step_unmounted(m: SchedModel, report: bool, t: usize)
    requires
        m.sorted(),
        t < m.phases.len(),
        m.phase(t) == Phase::Unmounted,
    ensures
        ({
            let s = step(m, report);
            ||| s.phase(t) == Phase::Unmounted && forall|j: int|
                m.log.len() <= j < s.log.len() ==> (#[trigger] s.log[j]).target != t
            ||| s.phase(t) == Phase::Mounted && s.log.len() == m.log.len() + 1 && s.log[m.log.len() as int].target
                == t && s.log[m.log.len() as int].kind == EventKind::Create
            ||| s.phase(t) == Phase::Destroyed && s.log.len() == m.log.len() + 1 && s.log[m.log.len() as int].target
                == t && s.log[m.log.len() as int].kind == EventKind::Destroy
        }),
{
    lemma_step_basics(m, report);
    if !m.idle() {
        let k = m.next_kind();
        assert(kind_of(m.queue(k)[0].event) == k);
    }
}

/// In every drain from a state where cell `t` is not mounted, each update,
/// render or post-render hook of `t` is preceded by the `Create` of `t`:
/// creation comes first, whatever the order in which the events were
/// queued.
pub proof fn lemma_create_precedes(a: SchedModel, b: SchedModel, reports: Seq<bool>, t: usize)
    requires
        a.sorted(),
        t < a.phases.len(),
        a.phase(t) == Phase::Unmounted,
        reaches(a, b, reports),
    ensures
        forall|j: int|
            a.log.len() <= j < b.log.len() && is_hook_of(#[trigger] b.log[j], t) ==> created_between(
                b.log,
                a.log.len() as int,
                j,
                t,
            ),
    decreases reports.len(),
{
    if reports.len() > 0 {
        let s = step(a, reports[0]);
        let rest = reports.drop_first();
        lemma_step_unmounted(a, reports[0], t);
        lemma_step_basics(a, reports[0]);
        lemma_reaches_basics(s, b, rest);
        assert forall|i: int| 0 <= i < s.log.len() implies b.log[i] == s.log[i] by {
            assert(b.log.subrange(0, s.log.len() as int)[i] == s.log[i]);
        }
        if s.phase(t) == Phase::Unmounted {
            lemma_create_precedes(s, b, rest, t);
            assert forall|j: int|
                a.log.len() <= j < b.log.len() && is_hook_of(#[trigger] b.log[j], t) implies created_between(
                b.log,
                a.log.len() as int,
                j,
                t,
            ) by {
                if j >= s.log.len() {
                    let i = choose|i: int|
                        s.log.len() <= i < j && (#[trigger] b.log[i]).target == t && b.log[i].kind
                            == EventKind::Create;
                } else {
                    assert(b.log[j] == s.log[j]);
                }
            }
        } else if s.phase(t) == Phase::Mounted {
            let c = a.log.len() as int;
            assert(b.log[c] == s.log[c]);
            assert forall|j: int|
                a.log.len() <= j < b.log.len() && is_hook_of(#[trigger] b.log[j], t) implies created_between(
                b.log,
                a.log.len() as int,
                j,
                t,
            ) by {
                assert(j != c);
                assert(b.log[c].target == t && b.log[c].kind == EventKind::Create);
            }
        } else {
            lemma_destroyed_inert(s, b, rest, t);
            let c = a.log.len() as int;
            assert(b.log[c] == s.log[c]);
            assert forall|j: int|
                a.log.len() <= j < b.log.len() && is_hook_of(#[trigger] b.log[j], t) implies created_between(
                b.log,
                a.log.len() as int,
                j,
                t,
            ) by {
                if j > c {
                    assert(b.log[j].target != t);
                }
            }
        }
    }
}


/// The component state after an update `u` and, where the hook asks for one,
/// a render and a post-render hook.
pub open spec fn after_update_cycle<C: Component>(st: ComponentState<C>, u: UpdateEvent) -> ComponentState<C> {
    let (c1, wants) = update_effect(st.component, u);
    if wants {
        ComponentState {
            component: c1.after_rendered(st.first_render),
            root_output: c1.output(),
            first_render: false,
            ..reanchored(st, u)
        }
    } else {
        ComponentState { component: c1, ..reanchored(st, u) }
    }
}

/// From an idle scheduler, an update of a mounted component hands it to the
/// update hook (a batch message by message, in order) and renders exactly
/// once where the hook asks for it, and not at all otherwise.
pub proof fn lemma_update_result<C: Component>(
    a: SchedModel,
    sa: Seq<Option<ComponentState<C>>>,
    t: usize,
    u: UpdateEvent,
)
    requires
        a.idle(),
        t < a.phases.len(),
        sa.len() == a.phases.len(),
        a.phase(t) == Phase::Mounted,
        sa[t as int] is Some,
    ensures
        ({
            let m0 = a.push(Runnable { target: t, event: LifecycleEvent::Update(u) });
            let wants = update_effect(sa[t as int].unwrap().component, u).1;
            let k: nat = if wants { 3 } else { 1 };
            let up = Executed { target: t, kind: EventKind::Update, messages: update_messages(u) };
            &&& advance(m0, sa, k).0.idle()
            &&& advance(m0, sa, k).0.phases == a.phases
            &&& advance(m0, sa, k).1 == sa.update(t as int, Some(after_update_cycle(sa[t as int].unwrap(), u)))
            &&& wants ==> advance(m0, sa, k).0.log == a.log.push(up).push(
                Executed { target: t, kind: EventKind::Render, messages: Seq::empty() },
            ).push(Executed { target: t, kind: EventKind::Rendered, messages: Seq::empty() })
            &&& !wants ==> advance(m0, sa, k).0.log == a.log.push(up)
        }),
{
    let m0 = a.push(Runnable { target: t, event: LifecycleEvent::Update(u) });
    let st = sa[t as int].unwrap();
    let (c1, wants) = update_effect(st.component, u);
    assert(m0.next_kind() == EventKind::Update);
    let e1 = step_effect(m0, sa);
    let m1 = step(m0, e1.1);
    assert(e1.1 == wants);
    assert(e1.0 == sa.update(t as int, Some(ComponentState { component: c1, ..reanchored(st, u) })));
    if wants {
        assert(m1.next_kind() == EventKind::Render);
        let e2 = step_effect(m1, e1.0);
        let m2 = step(m1, e2.1);
        assert(e2.0 == sa.update(
            t as int,
            Some(ComponentState { component: c1, root_output: c1.output(), ..reanchored(st, u) }),
        ));
        assert(m2.next_kind() == EventKind::Rendered);
        let e3 = step_effect(m2, e2.0);
        let m3 = step(m2, e3.1);
        assert(m3.idle());
        assert(e3.0 =~= sa.update(t as int, Some(after_update_cycle(st, u))));
        reveal_with_fuel(advance, 4);
    } else {
        assert(m1.idle());
        reveal_with_fuel(advance, 2);
    }
}


/// `(b, sb)` is what an update `u` of mounted cell `t` leaves from `(a, sa)`
/// when nothing else is pending: the hook's effect, one render and one
/// post-render hook where it asks for a render, none otherwise.
pub open spec fn update_outcome<C: Component>(
    a: SchedModel,
    sa: Seq<Option<ComponentState<C>>>,
    b: SchedModel,
    sb: Seq<Option<ComponentState<C>>>,
    t: usize,
    u: UpdateEvent,
) -> bool {
    let wants = update_effect(sa[t as int].unwrap().component, u).1;
    let up = Executed { target: t, kind: EventKind::Update, messages: update_messages(u) };
    &&& b.phases == a.phases
    &&& sb == sa.update(t as int, Some(after_update_cycle(sa[t as int].unwrap(), u)))
    &&& wants ==> b.log == a.log.push(up).push(
        Executed { target: t, kind: EventKind::Render, messages: Seq::empty() },
    ).push(Executed { target: t, kind: EventKind::Rendered, messages: Seq::empty() })
    &&& !wants ==> b.log == a.log.push(up)
}

/// `sb` holds cell `t` mounted from `props` at the given anchors: created,
/// rendered once, and past its first post-render hook.
pub open spec fn mount_outcome<C: Component>(
    a: SchedModel,
    sa: Seq<Option<ComponentState<C>>>,
    b: SchedModel,
    sb: Seq<Option<ComponentState<C>>>,
    t: usize,
    props: u64,
    placeholder: u64,
    next_sibling: Option<u64>,
) -> bool {
    let c = C::created(props);
    &&& b.phases == a.phases.update(t as int, Phase::Mounted)
    &&& sb == sa.update(
        t as int,
        Some(
            ComponentState {
                component: c.after_rendered(true),
                root_output: c.output(),
                first_render: false,
                node_ref: placeholder,
                next_sibling,
            },
        ),
    )
}

/// Every drain of an update from an idle scheduler has the outcome above.
pub proof fn lemma_update_settles<C: Component>(
    a: SchedModel,
    sa: Seq<Option<ComponentState<C>>>,
    b: SchedModel,
    sb: Seq<Option<ComponentState<C>>>,
    t: usize,
    u: UpdateEvent,
)
    requires
        a.idle(),
        t < a.phases.len(),
        sa.len() == a.phases.len(),
        a.phase(t) == Phase::Mounted,
        sa[t as int] is Some,
        settles(a.push(Runnable { target: t, event: LifecycleEvent::Update(u) }), sa, b, sb),
    ensures
        update_outcome(a, sa, b, sb, t, u),
{
    lemma_update_result(a, sa, t, u);
    let wants = update_effect(sa[t as int].unwrap().component, u).1;
    let k: nat = if wants { 3 } else { 1 };
    lemma_settles_unique(a.push(Runnable { target: t, event: LifecycleEvent::Update(u) }), sa, b, sb, k);
}

/// Every drain of a mount from an idle scheduler has the outcome above.
pub proof fn lemma_mount_settles<C: Component>(
    a: SchedModel,
    sa: Seq<Option<ComponentState<C>>>,
    b: SchedModel,
    sb: Seq<Option<ComponentState<C>>>,
    t: usize,
    props: u64,
    placeholder: u64,
    next_sibling: Option<u64>,
)
    requires
        a.idle(),
        t < a.phases.len(),
        sa.len() == a.phases.len(),
        a.phase(t) == Phase::Unmounted,
        settles(
            a.push(Runnable { target: t, event: LifecycleEvent::Update(UpdateEvent::First) }).push(
                Runnable { target: t, event: LifecycleEvent::Create(props, placeholder, next_sibling) },
            ),
            sa,
            b,
            sb,
        ),
    ensures
        mount_outcome(a, sa, b, sb, t, props, placeholder, next_sibling),
{
    lemma_mount_result(a, sa, t, props, placeholder, next_sibling);
    lemma_settles_unique(
        a.push(Runnable { target: t, event: LifecycleEvent::Update(UpdateEvent::First) }).push(
            Runnable { target: t, event: LifecycleEvent::Create(props, placeholder, next_sibling) },
        ),
        sa,
        b,
        sb,
        4,
    );
}


/// From an idle scheduler, destroying a component that is not yet destroyed
/// runs its teardown exactly once and clears its state; nothing else runs.
pub proof fn lemma_destroy_settles<C: Component>(
    a: SchedModel,
    sa: Seq<Option<ComponentState<C>>>,
    b: SchedModel,
    sb: Seq<Option<ComponentState<C>>>,
    t: usize,
)
    requires
        a.idle(),
        t < a.phases.len(),
        sa.len() == a.phases.len(),
        a.phase(t) != Phase::Destroyed,
        settles(a.push(Runnable { target: t, event: LifecycleEvent::Destroy }), sa, b, sb),
    ensures
        b.log == a.log.push(Executed { target: t, kind: EventKind::Destroy, messages: Seq::empty() }),
        b.phases == a.phases.update(t as int, Phase::Destroyed),
        sb == sa.update(t as int, None),
{
    let m0 = a.push(Runnable { target: t, event: LifecycleEvent::Destroy });
    assert(m0.next_kind() == EventKind::Destroy);
    let e1 = step_effect(m0, sa);
    let m1 = step(m0, e1.1);
    assert(m1.idle());
    reveal_with_fuel(advance, 2);
    lemma_settles_unique(m0, sa, b, sb, 1);
}

/// Creation comes first from any state the runtime can be in: where a
/// `Create` of cell `t` is pending, every drain runs each update, render or
/// post-render hook of `t` only after that `Create`, whatever the order in
/// which they were queued (and runs nothing for `t` if it was destroyed
/// first).
pub proof fn lemma_pending_create_first(a: SchedModel, b: SchedModel, reports: Seq<bool>, t: usize)
    requires
        a.sorted(),
        a.creates_fresh(),
        t < a.phases.len(),
        exists|i: int| 0 <= i < a.create.len() && (#[trigger] a.create[i]).target == t,
        reaches(a, b, reports),
    ensures
        forall|j: int|
            a.log.len() <= j < b.log.len() && is_hook_of(#[trigger] b.log[j], t) ==> created_between(
                b.log,
                a.log.len() as int,
                j,
                t,
            ),
{
    let i = choose|i: int| 0 <= i < a.create.len() && (#[trigger] a.create[i]).target == t;
    assert(a.phase(a.create[i].target) != Phase::Mounted);
    if a.phase(t) == Phase::Unmounted {
        lemma_create_precedes(a, b, reports, t);
    } else {
        lemma_destroyed_inert(a, b, reports, t);
    }
}

} // verus!
