//! The panel's clock: a label at the top centre and a timer that keeps it up
//! to date. The label and the timer belong to the toolkit; the clock is told
//! how to arm and how to disarm the timer, and keeps track of the one that
//! runs.

use crate::metadata::{AppendMethod, MetadataView, PanelPosition, PluginMetadata};
use crate::plugin::Plugin;
use vstd::prelude::*;

verus! {

/// The descriptor of the clock.
pub open spec fn clock_descriptor() -> MetadataView {
    MetadataView {
        name: "clock"@,
        position: PanelPosition::TopCenter,
        order: 10,
        priority: 5,
        deps: Seq::empty(),
    }
}

/// A clock. `W` is the label that shows the time and `T` the handle of a
/// running timer. `arm` makes a timer that writes the time into the label
/// once a second, and `disarm` removes a timer.
#[verifier::reject_recursive_types(W)]
#[verifier::reject_recursive_types(T)]
pub struct ClockPlugin<W, T, A: Fn(&W) -> T, D: Fn(T)> {
    label: W,
    timer_id: Option<T>,
    arm: A,
    disarm: D,
}

impl<W, T, A: Fn(&W) -> T, D: Fn(T)> ClockPlugin<W, T, A, D> {
    /// A timer can be armed for the label, and every timer that was armed
    /// for it can be disarmed: the one that runs, too.
    #[verifier::type_invariant]
    spec fn serviceable(self) -> bool {
        &&& call_requires(self.arm, (&self.label,))
        &&& forall|timer: T|
            call_ensures(self.arm, (&self.label,), timer) ==> call_requires(self.disarm, (timer,))
        &&& self.timer_id matches Some(timer) ==> call_requires(self.disarm, (timer,))
    }

    /// The label.
    pub closed spec fn element(&self) -> &W {
        &self.label
    }

    /// The timer that the clock holds, if it holds one.
    pub closed spec fn timer(&self) -> Option<T> {
        self.timer_id
    }

    /// The function that arms a timer.
    pub closed spec fn arming(&self) -> A {
        self.arm
    }

    /// The function that disarms a timer.
    pub closed spec fn disarming(&self) -> D {
        self.disarm
    }

    /// Whether arming a timer for the label may give `timer`.
    pub open spec fn arms(&self, timer: T) -> bool {
        call_ensures(self.arming(), (self.element(),), timer)
    }

    /// Whether `timer` was handed to the disarming function, in a call that
    /// returned.
    pub open spec fn disarms(&self, timer: T) -> bool {
        call_ensures(self.disarming(), (timer,), ())
    }

    /// Whether `next` is this clock but for the timer it holds.
    pub open spec fn same_clock(&self, next: &Self) -> bool {
        &&& next.element() == self.element()
        &&& next.arming() == self.arming()
        &&& next.disarming() == self.disarming()
    }

    /// Whether `next` is this clock after a start: it holds a timer that was
    /// armed for the label. A timer that was held before is let go of, not
    /// disarmed.
    pub open spec fn started_as(&self, next: &Self) -> bool {
        &&& self.same_clock(next)
        &&& next.timer() matches Some(timer) && self.arms(timer)
    }

    /// Whether `next` is this clock after a stop: it holds no timer, and the
    /// timer that was held is disarmed.
    pub open spec fn stopped_as(&self, next: &Self) -> bool {
        &&& self.same_clock(next)
        &&& next.timer() is None
        &&& self.timer() matches Some(timer) ==> self.disarms(timer)
    }

    /// The clock's model as a plugin, spelled out.
    pub proof fn law_clock_model(&self, next: &Self)
        ensures
            self.descriptor() == clock_descriptor(),
            self.widget() == Some((self.element(), AppendMethod::Append)),
            self.starts_to(next) == self.started_as(next),
            self.stops_to(next) == self.stopped_as(next),
    {
    }

    /// A clock that holds no timer.
    pub fn new(label: W, arm: A, disarm: D) -> (clock: Self)
        requires
            call_requires(arm, (&label,)),
            forall|timer: T| call_ensures(arm, (&label,), timer) ==> call_requires(disarm, (timer,)),
        ensures
            *clock.element() == label,
            clock.timer() is None,
            clock.arming() == arm,
            clock.disarming() == disarm,
    {
        ClockPlugin { label, timer_id: None, arm, disarm }
    }
}

impl<W, T, A: Fn(&W) -> T, D: Fn(T)> Plugin for ClockPlugin<W, T, A, D> {
    type Widget = W;

    open spec fn descriptor(&self) -> MetadataView {
        clock_descriptor()
    }

    open spec fn widget(&self) -> Option<(&W, AppendMethod)> {
        Some((self.element(), AppendMethod::Append))
    }

    open spec fn starts_to(&self, next: &Self) -> bool {
        self.started_as(next)
    }

    open spec fn stops_to(&self, next: &Self) -> bool {
        self.stopped_as(next)
    }

    fn metadata(&self) -> (m: PluginMetadata)
        ensures
            m@ == clock_descriptor(),
    {
        let m = PluginMetadata {
            name: String::from_str("clock"),
            position: PanelPosition::TopCenter,
            order: 10,
            priority: 5,
            deps: Vec::new(),
        };
        assert(m@.deps =~= Seq::empty());
        m
    }

    fn on_start(&mut self)
        ensures
            old(self).started_as(final(self)),
    {
        proof {
            use_type_invariant(&*self);
        }
        let timer = (self.arm)(&self.label);
        self.timer_id = Some(timer);
    }

    fn on_stop(&mut self)
        ensures
            old(self).stopped_as(final(self)),
    {
        proof {
            use_type_invariant(&*self);
        }
        // The timer leaves the clock by a swap: nothing can go wrong between
        // taking it out and putting `None` in.
        let mut held: Option<T> = None;
        core::mem::swap(&mut self.timer_id, &mut held);
        if let Some(timer) = held {
            (self.disarm)(timer);
        }
    }

    fn on_reload(&mut self)
        ensures
            old(self).started_as(final(self)),
            old(self).timer() matches Some(timer) ==> old(self).disarms(timer),
    {
        let ghost before = *self;
        self.on_stop();
        let ghost mid = *self;
        self.on_start();
        assert(before.stops_to(&mid) && mid.starts_to(self));
    }

    fn on_cleanup(&mut self)
        ensures
            old(self).stopped_as(final(self)),
    {
        self.on_stop();
    }

    fn get_widget(&self) -> (w: Option<(&W, AppendMethod)>)
        ensures
            w == Some((self.element(), AppendMethod::Append)),
    {
        Some((&self.label, AppendMethod::Append))
    }
}

} // verus!
