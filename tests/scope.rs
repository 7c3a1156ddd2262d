use std::cell::Cell;

use yew_scope::lifecycle::{LifecycleEvent, Phase, Runnable, UpdateEvent};
use yew_scope::runtime::{Component, Runtime};
use yew_scope::scope::{AnyScope, ContextHandle, Scope};

/// A component that records what its hooks were given.
struct Probe {
    props: u64,
    messages: Vec<u64>,
    prop_changes: Vec<u64>,
    views: Cell<u32>,
    rendered: Vec<bool>,
}

impl Component for Probe {
    fn created(props: u64) -> Self {
        Probe::create(props)
    }

    fn after_update(self, msg: u64) -> Self {
        let mut c = self;
        c.update(msg);
        c
    }

    fn update_wants_render(self, msg: u64) -> bool {
        msg != 0
    }

    fn after_change(self, props: u64) -> Self {
        let mut c = self;
        c.changed(props);
        c
    }

    fn change_wants_render(self, props: u64) -> bool {
        props != self.props
    }

    fn output(self) -> u64 {
        self.props
    }

    fn after_rendered(self, first_render: bool) -> Self {
        let mut c = self;
        c.rendered(first_render);
        c
    }

    fn create(props: u64) -> Self {
        Probe {
            props,
            messages: Vec::new(),
            prop_changes: Vec::new(),
            views: Cell::new(0),
            rendered: Vec::new(),
        }
    }

    /// A zero message asks for no re-render.
    fn update(&mut self, msg: u64) -> bool {
        self.messages.push(msg);
        msg != 0
    }

    fn changed(&mut self, props: u64) -> bool {
        self.prop_changes.push(props);
        let differs = props != self.props;
        self.props = props;
        differs
    }

    fn view(&self) -> u64 {
        self.views.set(self.views.get() + 1);
        self.props
    }

    fn rendered(&mut self, first_render: bool) {
        self.rendered.push(first_render);
    }

    fn destroy(&mut self) {}

    fn provided(&self) -> u64 {
        self.props
    }
}

const PROBE: u64 = 1;
const PROVIDER: u64 = 2;

fn mounted(rt: &mut Runtime<Probe>, props: u64) -> Scope {
    let scope = Scope::new(rt, PROBE, None);
    scope.mount_in_place(rt, props, 99, None);
    scope
}

#[test]
fn mount_creates_then_renders_once() {
    let mut rt: Runtime<Probe> = Runtime::new();
    let scope = mounted(&mut rt, 5);
    let c = scope.get_component(&rt).unwrap();
    assert_eq!(c.props, 5);
    assert!(c.messages.is_empty());
    assert_eq!(c.views.get(), 1);
    assert_eq!(c.rendered, vec![true]);
    assert!(rt.is_idle());
}

#[test]
fn unmounted_scope_has_no_component() {
    let mut rt: Runtime<Probe> = Runtime::new();
    let scope = Scope::new(&mut rt, PROBE, None);
    assert!(scope.get_component(&rt).is_none());
    assert!(scope.get_parent().is_none());
}

#[test]
fn mount_renders_even_when_updates_decline() {
    let mut rt: Runtime<Probe> = Runtime::new();
    let scope = mounted(&mut rt, 0);
    scope.send_message(&mut rt, 0);
    let c = scope.get_component(&rt).unwrap();
    assert_eq!(c.messages, vec![0]);
    assert_eq!(c.views.get(), 1);
}

#[test]
fn empty_batch_schedules_nothing() {
    let mut rt: Runtime<Probe> = Runtime::new();
    let scope = mounted(&mut rt, 1);
    scope.send_message_batch(&mut rt, vec![]);
    let c = scope.get_component(&rt).unwrap();
    assert!(c.messages.is_empty());
    assert_eq!(c.views.get(), 1);
}

#[test]
fn batch_is_one_render() {
    let mut rt: Runtime<Probe> = Runtime::new();
    let scope = mounted(&mut rt, 1);
    scope.send_message_batch(&mut rt, vec![4, 5, 6]);
    let c = scope.get_component(&rt).unwrap();
    assert_eq!(c.messages, vec![4, 5, 6]);
    assert_eq!(c.views.get(), 2);
    assert_eq!(c.rendered, vec![true, false]);
}

#[test]
fn each_message_renders() {
    let mut rt: Runtime<Probe> = Runtime::new();
    let scope = mounted(&mut rt, 1);
    scope.send_message(&mut rt, 4);
    scope.send_message(&mut rt, 5);
    scope.send_message(&mut rt, 6);
    let c = scope.get_component(&rt).unwrap();
    assert_eq!(c.messages, vec![4, 5, 6]);
    assert_eq!(c.views.get(), 4);
}

#[test]
fn destroy_clears_and_late_messages_are_dropped() {
    let mut rt: Runtime<Probe> = Runtime::new();
    let scope = mounted(&mut rt, 1);
    let cb = scope.callback(|x: u64| x + 1);
    let pending = scope.send_future(async { 3u64 });
    scope.destroy(&mut rt);
    assert!(scope.get_component(&rt).is_none());
    cb.emit(&mut rt, 7u64);
    pending.complete(&mut rt, 3u64);
    scope.send_message(&mut rt, 8);
    assert!(scope.get_component(&rt).is_none());
    assert!(rt.is_idle());
}

#[test]
fn round_trip_leaves_nothing_and_destroy_twice_is_fine() {
    let mut rt: Runtime<Probe> = Runtime::new();
    let scope = mounted(&mut rt, 1);
    scope.reuse(&mut rt, 2, 99, None);
    {
        let c = scope.get_component(&rt).unwrap();
        assert_eq!(c.prop_changes, vec![2]);
        assert_eq!(c.views.get(), 2);
    }
    scope.reuse(&mut rt, 1, 99, None);
    scope.destroy(&mut rt);
    assert!(scope.get_component(&rt).is_none());
    scope.destroy(&mut rt);
    assert!(scope.get_component(&rt).is_none());
}

#[test]
fn reuse_with_same_props_does_not_render() {
    let mut rt: Runtime<Probe> = Runtime::new();
    let scope = mounted(&mut rt, 3);
    scope.reuse(&mut rt, 3, 99, None);
    let c = scope.get_component(&rt).unwrap();
    assert_eq!(c.prop_changes, vec![3]);
    assert_eq!(c.views.get(), 1);
}

#[test]
fn callback_sends_mapped_message() {
    let mut rt: Runtime<Probe> = Runtime::new();
    let scope = mounted(&mut rt, 1);
    let cb = scope.callback(|x: u64| x * 10);
    cb.emit(&mut rt, 2u64);
    cb.emit(&mut rt, 3u64);
    let c = scope.get_component(&rt).unwrap();
    assert_eq!(c.messages, vec![20, 30]);
    assert_eq!(c.views.get(), 3);
}

#[test]
fn callback_once_sends_once() {
    let mut rt: Runtime<Probe> = Runtime::new();
    let scope = mounted(&mut rt, 1);
    let mut cb = scope.callback_once(|x: u64| x + 1);
    cb.emit(&mut rt, 41u64);
    assert!(cb.function.is_none());
    let c = scope.get_component(&rt).unwrap();
    assert_eq!(c.messages, vec![42]);
}

#[test]
fn batch_callback_with_option() {
    let mut rt: Runtime<Probe> = Runtime::new();
    let scope = mounted(&mut rt, 1);
    let cb = scope.batch_callback(|x: u64| if x > 0 { Some(x) } else { None });
    cb.emit(&mut rt, 0u64);
    {
        let c = scope.get_component(&rt).unwrap();
        assert!(c.messages.is_empty());
        assert_eq!(c.views.get(), 1);
    }
    cb.emit(&mut rt, 9u64);
    let c = scope.get_component(&rt).unwrap();
    assert_eq!(c.messages, vec![9]);
    assert_eq!(c.views.get(), 2);
}

#[test]
fn batch_callback_once_with_vec() {
    let mut rt: Runtime<Probe> = Runtime::new();
    let scope = mounted(&mut rt, 1);
    let mut cb = scope.batch_callback_once(|x: u64| vec![x, x + 1, x + 2]);
    cb.emit(&mut rt, 1u64);
    let c = scope.get_component(&rt).unwrap();
    assert_eq!(c.messages, vec![1, 2, 3]);
    assert_eq!(c.views.get(), 2);
}

#[test]
fn future_callbacks_deliver_on_completion() {
    let mut rt: Runtime<Probe> = Runtime::new();
    let scope = mounted(&mut rt, 1);
    let cb = scope.callback_future(|x: u64| async move { x + 100 });
    let pending = cb.emit_future(5u64);
    assert_eq!(pending.scope.cell, scope.cell);
    assert!(scope.get_component(&rt).unwrap().messages.is_empty());
    pending.complete(&mut rt, 105u64);
    let mut once = scope.callback_future_once(|x: u64| async move { vec![x] });
    let pending = once.emit_future(6u64);
    assert!(once.function.is_none());
    pending.complete(&mut rt, vec![6u64, 7u64]);
    let batch = scope.send_future_batch(async { vec![8u64] });
    batch.complete(&mut rt, vec![8u64]);
    let c = scope.get_component(&rt).unwrap();
    assert_eq!(c.messages, vec![105, 6, 7, 8]);
    assert_eq!(c.views.get(), 4);
}

#[test]
fn context_finds_nearest_provider() {
    let mut rt: Runtime<Probe> = Runtime::new();
    let outer = Scope::new(&mut rt, PROVIDER, None);
    outer.mount_in_place(&mut rt, 1, 0, None);
    let inner = Scope::new(&mut rt, PROVIDER, Some(outer.to_any()));
    inner.mount_in_place(&mut rt, 2, 0, None);
    let leaf = Scope::new(&mut rt, PROBE, Some(inner.to_any()));
    leaf.mount_in_place(&mut rt, 3, 0, None);
    let found = leaf.context(&mut rt, PROVIDER).unwrap();
    assert_eq!(found.0, 2);
    assert_eq!(found.1, ContextHandle { provider: inner.cell, consumer: leaf.cell });
    let from_inner = inner.to_any().get_parent().unwrap().context(&mut rt, PROVIDER).unwrap();
    assert_eq!(from_inner.0, 1);
    assert!(leaf.context(&mut rt, 77).is_none());
}

#[test]
fn context_of_destroyed_provider_is_absent() {
    let mut rt: Runtime<Probe> = Runtime::new();
    let outer = Scope::new(&mut rt, PROVIDER, None);
    outer.mount_in_place(&mut rt, 1, 0, None);
    let leaf = Scope::new(&mut rt, PROBE, Some(outer.to_any()));
    assert_eq!(leaf.context(&mut rt, PROVIDER).unwrap().0, 1);
    outer.destroy(&mut rt);
    assert!(leaf.context(&mut rt, PROVIDER).is_none());
}

#[test]
fn parent_and_type_tag() {
    let mut rt: Runtime<Probe> = Runtime::new();
    let root = Scope::new(&mut rt, PROVIDER, None);
    let child = Scope::new(&mut rt, PROBE, Some(root.to_any()));
    let any: AnyScope = child.to_any();
    assert_eq!(*any.get_type_id(), PROBE);
    let parent = any.get_parent().unwrap();
    assert_eq!(*parent.get_type_id(), PROVIDER);
    assert_eq!(parent.cell, root.cell);
    assert!(parent.get_parent().is_none());
    assert_eq!(rt.type_tag(child.cell), PROBE);
    assert_eq!(rt.parent(child.cell), Some(root.cell));
}

#[test]
fn downcast_checks_the_type_tag() {
    let mut rt: Runtime<Probe> = Runtime::new();
    let root = Scope::new(&mut rt, PROVIDER, None);
    let child = Scope::new(&mut rt, PROBE, Some(root.to_any()));
    assert!(child.to_any().try_downcast(PROVIDER).is_none());
    let typed = child.to_any().try_downcast(PROBE).unwrap();
    assert_eq!(typed.cell, child.cell);
    assert_eq!(typed.type_tag, PROBE);
    let found = child.to_any().find_parent_scope(PROVIDER).unwrap();
    assert_eq!(found.cell, root.cell);
    assert!(child.to_any().find_parent_scope(55).is_none());
    let same = child.to_any().downcast(PROBE);
    assert_eq!(same.cell, child.cell);
}

#[test]
fn priority_runs_create_before_queued_update() {
    let mut rt: Runtime<Probe> = Runtime::new();
    let scope = Scope::new(&mut rt, PROBE, None);
    rt.schedule(Runnable { target: scope.cell, event: LifecycleEvent::Update(UpdateEvent::Message(7)) });
    rt.schedule(Runnable { target: scope.cell, event: LifecycleEvent::Create(4, 0, None) });
    rt.start();
    let c = scope.get_component(&rt).unwrap();
    assert_eq!(c.props, 4);
    assert_eq!(c.messages, vec![7]);
    assert_eq!(c.views.get(), 1);
}

#[test]
fn root_output_follows_renders() {
    let mut rt: Runtime<Probe> = Runtime::new();
    let scope = Scope::new(&mut rt, PROBE, None);
    assert!(scope.root_vnode(&rt).is_none());
    scope.mount_in_place(&mut rt, 5, 99, None);
    assert_eq!(scope.root_vnode(&rt), Some(5));
    scope.reuse(&mut rt, 6, 99, None);
    assert_eq!(scope.root_vnode(&rt), Some(6));
    let any: AnyScope = AnyScope::from(scope.clone());
    assert_eq!(any.cell, scope.cell);
    scope.destroy(&mut rt);
    assert!(scope.root_vnode(&rt).is_none());
}

#[test]
fn context_handle_release_ends_subscription() {
    let mut rt: Runtime<Probe> = Runtime::new();
    let provider = Scope::new(&mut rt, PROVIDER, None);
    provider.mount_in_place(&mut rt, 4, 0, None);
    let leaf = Scope::new(&mut rt, PROBE, Some(provider.to_any()));
    let (value, handle) = leaf.context(&mut rt, PROVIDER).unwrap();
    assert_eq!(value, 4);
    assert_eq!(rt.subscriber_count(provider.cell), 1);
    handle.release(&mut rt);
    assert_eq!(rt.subscriber_count(provider.cell), 0);
    handle.release(&mut rt);
    assert_eq!(rt.subscriber_count(provider.cell), 0);
}

#[test]
fn reuse_replaces_mount_anchors() {
    let mut rt: Runtime<Probe> = Runtime::new();
    let scope = Scope::new(&mut rt, PROBE, None);
    assert_eq!(rt.anchors(scope.cell), None);
    scope.mount_in_place(&mut rt, 1, 10, Some(11));
    assert_eq!(rt.anchors(scope.cell), Some((10, Some(11))));
    scope.reuse(&mut rt, 1, 20, None);
    assert_eq!(rt.anchors(scope.cell), Some((20, None)));
    assert_eq!(scope.get_component(&rt).unwrap().views.get(), 1);
}

#[test]
fn phase_and_pending_create_are_visible() {
    let mut rt: Runtime<Probe> = Runtime::new();
    let scope = Scope::new(&mut rt, PROBE, None);
    assert_eq!(rt.phase(scope.cell), Phase::Unmounted);
    assert!(!rt.create_pending(scope.cell));
    rt.schedule(Runnable { target: scope.cell, event: LifecycleEvent::Create(2, 0, None) });
    assert!(rt.create_pending(scope.cell));
    rt.start();
    assert_eq!(rt.phase(scope.cell), Phase::Mounted);
    scope.destroy(&mut rt);
    assert_eq!(rt.phase(scope.cell), Phase::Destroyed);
}
