//! The trigger registry: named triggers with their bindings, in order of priority.

use crate::event::{EventEnvelope, EventView};
use crate::model::lemma_filter_take;
use crate::trigger::{Binding, Trigger, WorklaneJob};
use std::sync::Arc;
use vstd::prelude::*;

verus! {

/// A trigger under a name, with the binding for the events it matches.
pub struct RegisteredTrigger {
    name: String,
    priority: i32,
    enabled: bool,
    trigger: Arc<Box<dyn Trigger>>,
    binding: Arc<Box<dyn Binding<WorklaneJob>>>,
}

impl RegisteredTrigger {
    pub closed spec fn name_text(&self) -> Seq<char> {
        self.name@
    }

    pub closed spec fn priority(&self) -> i32 {
        self.priority
    }

    pub closed spec fn enabled(&self) -> bool {
        self.enabled
    }

    pub closed spec fn trigger(&self) -> Arc<Box<dyn Trigger>> {
        self.trigger
    }

    pub closed spec fn binding(&self) -> Arc<Box<dyn Binding<WorklaneJob>>> {
        self.binding
    }

    /// Whether this registration applies to an event: it is enabled, and its trigger
    /// matches.
    pub open spec fn selects(&self, event: EventView) -> bool {
        self.enabled() && self.trigger().accepts(event)
    }

    /// An enabled registration.
    pub fn new(
        name: &str,
        priority: i32,
        trigger: Box<dyn Trigger>,
        binding: Box<dyn Binding<WorklaneJob>>,
    ) -> (r: RegisteredTrigger)
        ensures
            r.name_text() == name@,
            r.priority() == priority,
            r.enabled(),
            *r.trigger() == trigger,
            *r.binding() == binding,
    {
        let trigger = Arc::new(trigger);
        let binding = Arc::new(binding);
        RegisteredTrigger::shared(name, priority, trigger, binding)
    }

    /// An enabled registration of a trigger and a binding that may be shared.
    pub fn shared(
        name: &str,
        priority: i32,
        trigger: Arc<Box<dyn Trigger>>,
        binding: Arc<Box<dyn Binding<WorklaneJob>>>,
    ) -> (r: RegisteredTrigger)
        ensures
            r.name_text() == name@,
            r.priority() == priority,
            r.enabled(),
            r.trigger() == trigger,
            r.binding() == binding,
    {
        RegisteredTrigger { name: name.to_owned(), priority, enabled: true, trigger, binding }
    }

    /// The same registration, switched off.
    pub fn disabled(self) -> (r: RegisteredTrigger)
        ensures
            r.name_text() == self.name_text(),
            r.priority() == self.priority(),
            !r.enabled(),
            r.trigger() == self.trigger(),
            r.binding() == self.binding(),
    {
        RegisteredTrigger {
            name: self.name,
            priority: self.priority,
            enabled: false,
            trigger: self.trigger,
            binding: self.binding,
        }
    }

    pub fn name(&self) -> (r: &str)
        ensures
            r@ == self.name_text(),
    {
        self.name.as_str()
    }

    /// Whether this registration applies to `event`.
    pub fn matches(&self, event: &EventEnvelope) -> (r: bool)
        ensures
            r == self.selects(event@),
    {
        self.enabled && self.trigger.matches(event)
    }

    /// Turn a matched event into a job.
    pub fn bind(&self, event: &EventEnvelope) -> (r: Result<
        WorklaneJob,
        crate::trigger::BindingError,
    >)
        ensures
            self.binding().may_bind(event@, crate::trigger::bound_view(r)),
    {
        self.binding.bind(event)
    }
}

impl Clone for RegisteredTrigger {
    fn clone(&self) -> (r: RegisteredTrigger)
        ensures
            r == *self,
    {
        RegisteredTrigger {
            name: self.name.clone(),
            priority: self.priority,
            enabled: self.enabled,
            trigger: Arc::clone(&self.trigger),
            binding: Arc::clone(&self.binding),
        }
    }
}

/// Whether registrations stand in order of falling priority.
pub open spec fn by_priority(registrations: Seq<RegisteredTrigger>) -> bool {
    forall|i: int, j: int|
        0 <= i < j < registrations.len() ==> (#[trigger] registrations[i]).priority() >= (
        #[trigger] registrations[j]).priority()
}

/// Where a new registration goes: behind every one whose priority is not lower.
pub open spec fn place_for(registrations: Seq<RegisteredTrigger>, priority: i32) -> int
    decreases registrations.len(),
{
    if registrations.len() == 0 || registrations[0].priority() < priority {
        0
    } else {
        1 + place_for(registrations.drop_first(), priority)
    }
}

/// The registrations after one more was added.
pub open spec fn with_registration(
    registrations: Seq<RegisteredTrigger>,
    registration: RegisteredTrigger,
) -> Seq<RegisteredTrigger> {
    registrations.insert(place_for(registrations, registration.priority()), registration)
}

/// The registrations after several were added, one after the other.
pub open spec fn with_registrations(
    registrations: Seq<RegisteredTrigger>,
    added: Seq<RegisteredTrigger>,
) -> Seq<RegisteredTrigger>
    decreases added.len(),
{
    if added.len() == 0 {
        registrations
    } else {
        with_registration(with_registrations(registrations, added.drop_last()), added.last())
    }
}

/// The registrations that apply to an event, in their order.
pub open spec fn selected(
    registrations: Seq<RegisteredTrigger>,
    event: EventView,
) -> Seq<RegisteredTrigger> {
    registrations.filter(|registration: RegisteredTrigger| registration.selects(event))
}

/// The names of registrations.
pub open spec fn names_of(registrations: Seq<RegisteredTrigger>) -> Seq<Seq<char>> {
    Seq::new(registrations.len(), |i: int| registrations[i].name_text())
}

/// Registered triggers, highest priority first. Among equals, the one registered first
/// comes first.
pub struct TriggerRegistry {
    registrations: Vec<RegisteredTrigger>,
}

impl TriggerRegistry {
    pub closed spec fn registrations(&self) -> Seq<RegisteredTrigger> {
        self.registrations@
    }

    #[verifier::type_invariant]
    spec fn ordered(self) -> bool {
        by_priority(self.registrations@)
    }

    pub fn new() -> (r: TriggerRegistry)
        ensures
            r.registrations() == Seq::<RegisteredTrigger>::empty(),
    {
        TriggerRegistry { registrations: Vec::new() }
    }

    /// Add a registration, keeping the order of priority.
    pub fn register(&mut self, registration: RegisteredTrigger)
        ensures
            final(self).registrations() == with_registration(
                old(self).registrations(),
                registration,
            ),
    {
        proof {
            use_type_invariant(&*self);
        }
        let ghost all = self.registrations@;
        let mut at: usize = 0;
        assert(all.skip(0) =~= all);
        while at < self.registrations.len() && self.registrations[at].priority
            >= registration.priority
            invariant
                self.registrations@ == all,
                at <= all.len(),
                place_for(all, registration.priority()) == at + place_for(
                    all.skip(at as int),
                    registration.priority(),
                ),
            decreases all.len() - at,
        {
            assert(all.skip(at as int).drop_first() =~= all.skip(at + 1));
            at += 1;
        }
        proof {
            law_registering_keeps_priority_order(all, registration);
        }
        let mut registrations: Vec<RegisteredTrigger> = Vec::new();
        std::mem::swap(&mut registrations, &mut self.registrations);
        registrations.insert(at, registration);
        self.registrations = registrations;
    }

    /// The enabled registrations whose trigger matches `event`, highest priority first.
    pub fn matching(&self, event: &EventEnvelope) -> (r: Vec<RegisteredTrigger>)
        ensures
            r@ == selected(self.registrations(), event@),
            by_priority(r@),
    {
        proof {
            use_type_invariant(self);
        }
        let ghost all = self.registrations@;
        let ghost chosen = |registration: RegisteredTrigger| registration.selects(event@);
        let mut out: Vec<RegisteredTrigger> = Vec::new();
        let mut i: usize = 0;
        assert(out@ =~= all.take(0).filter(chosen)) by {
            reveal(Seq::filter);
        }
        while i < self.registrations.len()
            invariant
                i <= self.registrations@.len(),
                all == self.registrations@,
                by_priority(all),
                chosen == (|registration: RegisteredTrigger| registration.selects(event@)),
                out@ == all.take(i as int).filter(chosen),
                by_priority(out@),
                i < all.len() ==> forall|k: int|
                    0 <= k < out@.len() ==> (#[trigger] out@[k]).priority()
                        >= all[i as int].priority(),
            decreases self.registrations@.len() - i,
        {
            proof {
                lemma_filter_take(all, i as int, chosen);
            }
            if self.registrations[i].matches(event) {
                out.push(self.registrations[i].clone());
            }
            i += 1;
        }
        assert(all.take(i as int) =~= all);
        out
    }
}

impl Default for TriggerRegistry {
    fn default() -> (r: TriggerRegistry)
        ensures
            r.registrations() == Seq::<RegisteredTrigger>::empty(),
    {
        TriggerRegistry::new()
    }
}

proof fn lemma_place_for(registrations: Seq<RegisteredTrigger>, priority: i32)
    ensures
        0 <= place_for(registrations, priority) <= registrations.len(),
        forall|i: int|
            0 <= i < place_for(registrations, priority) ==> (#[trigger] registrations[i]).priority()
                >= priority,
        place_for(registrations, priority) < registrations.len() ==> registrations[place_for(
            registrations,
            priority,
        )].priority() < priority,
    decreases registrations.len(),
{
    if registrations.len() > 0 && registrations[0].priority() >= priority {
        let rest = registrations.drop_first();
        lemma_place_for(rest, priority);
        assert forall|i: int| 0 <= i < place_for(registrations, priority) implies (
        #[trigger] registrations[i]).priority() >= priority by {
            if i > 0 {
                assert(registrations[i] == rest[i - 1]);
            }
        }
    }
}

/// Adding a registration keeps the order of priority and loses nothing: every earlier one
/// is still there, in the same order, with the new one behind all of its own priority.
pub proof fn law_registering_keeps_priority_order(
    registrations: Seq<RegisteredTrigger>,
    registration: RegisteredTrigger,
)
    requires
        by_priority(registrations),
    ensures
        by_priority(with_registration(registrations, registration)),
        with_registration(registrations, registration).to_multiset()
            == registrations.to_multiset().insert(registration),
        ({
            let at = place_for(registrations, registration.priority());
            let after = with_registration(registrations, registration);
            &&& 0 <= at <= registrations.len()
            &&& after[at] == registration
            &&& after.remove(at) == registrations
            &&& forall|i: int|
                0 <= i < after.len() && (#[trigger] after[i]).priority()
                    == registration.priority() ==> i <= at
        }),
{
    broadcast use vstd::seq_lib::group_to_multiset_ensures;

    let at = place_for(registrations, registration.priority());
    let after = with_registration(registrations, registration);
    lemma_place_for(registrations, registration.priority());
    assert forall|i: int, j: int| 0 <= i < j < after.len() implies (
    #[trigger] after[i]).priority() >= (#[trigger] after[j]).priority() by {
        let a = if i < at {
            i
        } else {
            i - 1
        };
        let b = if j < at {
            j
        } else {
            j - 1
        };
        if i == at {
            if at < registrations.len() {
                assert(registrations[at].priority() >= registrations[b].priority() || b == at);
            }
        } else if j == at {
        } else {
            assert(registrations[a].priority() >= registrations[b].priority() || a == b);
        }
    }
    assert(after.remove(at) =~= registrations);
    assert forall|i: int|
        0 <= i < after.len() && (#[trigger] after[i]).priority()
            == registration.priority() implies i <= at by {
        if i > at {
            assert(after[i] == registrations[i - 1]);
            if i - 1 > at {
                assert(registrations[at].priority() >= registrations[i - 1].priority());
            }
        }
    }
}

/// A registration that is switched off applies to no event, and the triggers that apply
/// stand in order of falling priority.
pub proof fn law_selection_respects_order_and_enablement(
    registrations: Seq<RegisteredTrigger>,
    event: EventView,
)
    requires
        by_priority(registrations),
    ensures
        by_priority(selected(registrations, event)),
        forall|k: int|
            0 <= k < selected(registrations, event).len() ==> (#[trigger] selected(
                registrations,
                event,
            )[k]).enabled(),
        forall|i: int|
            0 <= i < registrations.len() && !(#[trigger] registrations[i]).enabled() ==> !selected(
                registrations,
                event,
            ).contains(registrations[i]),
    decreases registrations.len(),
{
    broadcast use Seq::lemma_filter_pred;

    lemma_selected_by_priority(registrations, event);
}

proof fn lemma_selected_by_priority(registrations: Seq<RegisteredTrigger>, event: EventView)
    requires
        by_priority(registrations),
    ensures
        by_priority(selected(registrations, event)),
        registrations.len() > 0 ==> forall|k: int|
            0 <= k < selected(registrations, event).len() ==> (#[trigger] selected(
                registrations,
                event,
            )[k]).priority() >= registrations.last().priority(),
    decreases registrations.len(),
{
    reveal(Seq::filter);
    if registrations.len() > 0 {
        lemma_selected_by_priority(registrations.drop_last(), event);
    }
}

/// Registering triggers one after the other is a stable sort by falling priority: the
/// registry holds exactly what was registered, in order of priority, and those of one
/// priority stand in the order in which they were registered.
pub proof fn law_registering_is_a_stable_sort(added: Seq<RegisteredTrigger>, priority: i32)
    ensures
        ({
            let registered = with_registrations(Seq::empty(), added);
            let of_priority = |registration: RegisteredTrigger|
                registration.priority() == priority;
            &&& by_priority(registered)
            &&& registered.to_multiset() == added.to_multiset()
            &&& registered.filter(of_priority) == added.filter(of_priority)
        }),
    decreases added.len(),
{
    broadcast use vstd::seq_lib::group_to_multiset_ensures;

    let of_priority = |registration: RegisteredTrigger| registration.priority() == priority;
    if added.len() > 0 {
        let before = with_registrations(Seq::empty(), added.drop_last());
        let last = added.last();
        law_registering_is_a_stable_sort(added.drop_last(), priority);
        law_registering_keeps_priority_order(before, last);
        assert(added.drop_last().push(last) =~= added);
        let at = place_for(before, last.priority());
        let head = before.take(at);
        let tail = before.skip(at);
        lemma_place_for(before, last.priority());
        assert(with_registration(before, last) =~= head.push(last) + tail);
        assert(before =~= head + tail);
        Seq::filter_distributes_over_add(head.push(last), tail, of_priority);
        Seq::filter_distributes_over_add(head, tail, of_priority);
        crate::model::lemma_filter_push(head, last, of_priority);
        crate::model::lemma_filter_push(added.drop_last(), last, of_priority);
        if last.priority() == priority {
            assert forall|i: int| 0 <= i < tail.len() implies !of_priority(#[trigger] tail[i]) by {
                if i > 0 {
                    assert(before[at].priority() >= before[at + i].priority());
                }
            }
            tail.lemma_all_neg_filter_empty(of_priority);
            assert(tail.filter(of_priority) =~= Seq::<RegisteredTrigger>::empty());
            assert(head.filter(of_priority) + tail.filter(of_priority) =~= head.filter(
                of_priority,
            ));
        }
    } else {
        assert(with_registrations(Seq::empty(), added) =~= added);
    }
}

/// Which triggers apply to an event, judged one by one: a registration at the end applies
/// exactly when it is switched on and its trigger accepts the event, and it has no part in
/// which of the others apply or in their order.
pub proof fn law_selection_judges_each_registration(
    registrations: Seq<RegisteredTrigger>,
    registration: RegisteredTrigger,
    event: EventView,
)
    ensures
        selected(registrations.push(registration), event) == if registration.enabled()
            && registration.trigger().accepts(event) {
            selected(registrations, event).push(registration)
        } else {
            selected(registrations, event)
        },
        selected(Seq::empty(), event).len() == 0,
{
    reveal(Seq::filter);
    crate::model::lemma_filter_push(
        registrations,
        registration,
        |registration: RegisteredTrigger| registration.selects(event),
    );
}

/// A new registration goes behind those of its own and higher priorities and before the
/// first of a lower one; the others stay as they are.
pub proof fn law_registration_goes_behind_its_equals(
    registrations: Seq<RegisteredTrigger>,
    registration: RegisteredTrigger,
)
    ensures
        exists|at: int|
            {
                &&& 0 <= at <= registrations.len()
                &&& #[trigger] registrations.insert(at, registration) == with_registration(
                    registrations,
                    registration,
                )
                &&& forall|i: int|
                    0 <= i < at ==> (#[trigger] registrations[i]).priority()
                        >= registration.priority()
                &&& at < registrations.len() ==> registrations[at].priority()
                    < registration.priority()
            },
{
    lemma_place_for(registrations, registration.priority());
    let at = place_for(registrations, registration.priority());
    assert(registrations.insert(at, registration) == with_registration(
        registrations,
        registration,
    ));
}

/// Registered triggers stand by falling priority.
pub proof fn law_registrations_stand_by_falling_priority(added: Seq<RegisteredTrigger>)
    ensures
        forall|i: int, j: int|
            0 <= i < j < with_registrations(Seq::empty(), added).len() ==> (
            #[trigger] with_registrations(Seq::empty(), added)[i]).priority() >= (
            #[trigger] with_registrations(Seq::empty(), added)[j]).priority(),
{
    law_registering_is_a_stable_sort(added, 0);
}

/// The names of registrations are listed one for one and in their order.
pub proof fn law_names_are_listed_in_order(registrations: Seq<RegisteredTrigger>, i: int)
    ensures
        names_of(registrations).len() == registrations.len(),
        0 <= i < registrations.len() ==> names_of(registrations)[i]
            == registrations[i].name_text(),
{
}

/// Registering adds one registration and loses none, and what then matches an event is what
/// matched before and, where it is switched on and accepts the event, the new one.
pub proof fn law_registered_trigger_joins_the_others(
    registry: &mut TriggerRegistry,
    registration: RegisteredTrigger,
    after: &TriggerRegistry,
    event: &EventEnvelope,
    matched: Vec<RegisteredTrigger>,
    other: RegisteredTrigger,
)
    requires
        call_ensures(TriggerRegistry::register, (registry, registration), ()),
        call_ensures(TriggerRegistry::matching, (after, event), matched),
    ensures
        final(registry).registrations().len() == old(registry).registrations().len() + 1,
        final(registry).registrations().to_multiset() == old(
            registry,
        ).registrations().to_multiset().insert(registration),
        after.registrations() == final(registry).registrations() ==> (matched@.contains(other)
            <==> (old(registry).registrations().contains(other) || other == registration)
            && other.enabled() && other.trigger().accepts(event@)),
{
    broadcast use vstd::seq_lib::group_to_multiset_ensures;
    broadcast use Seq::lemma_filter_pred, Seq::lemma_filter_contains;

    let before = old(registry).registrations();
    let now = final(registry).registrations();
    law_registration_goes_behind_its_equals(before, registration);
    let at = choose|at: int|
        0 <= at <= before.len() && #[trigger] before.insert(at, registration) == now;
    before.insert_ensures(at, registration);
    assert(now.contains(other) <==> before.contains(other) || other == registration) by {
        if now.contains(other) {
            let k = choose|k: int| 0 <= k < now.len() && now[k] == other;
            if k < at {
                assert(before[k] == other);
            } else if k > at {
                assert(before[k - 1] == other);
            }
        }
        if before.contains(other) {
            let k = choose|k: int| 0 <= k < before.len() && before[k] == other;
            if k < at {
                assert(now[k] == other);
            } else {
                assert(now[k + 1] == other);
            }
        }
        assert(now[at] == registration);
    }
    let wanted = |r: RegisteredTrigger| r.selects(event@);
    if after.registrations() == now {
        if matched@.contains(other) {
            now.lemma_filter_contains_rev(wanted, other);
            let k = choose|k: int| 0 <= k < matched@.len() && matched@[k] == other;
            assert(wanted(now.filter(wanted)[k]));
        }
        if now.contains(other) && wanted(other) {
            let k = choose|k: int| 0 <= k < now.len() && now[k] == other;
            assert(now.filter(wanted).contains(now[k]));
        }
    }
}

} // verus!
