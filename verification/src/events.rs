//! DOM events: per-event flags (`preventDefault`/`stopPropagation` and the
//! passive-listener rule), the per-`(target, type)` listener list that
//! `addEventListener`/`removeEventListener` maintain, the capture / target
//! / bubble traversal plan, and the nested-dispatch depth guard.
//!
//! Listener callbacks are JavaScript values the engine owns; here each is
//! stood for by a `u64` handle that is equal exactly when the engine's
//! strict equality holds.

use vstd::prelude::*;

verus! {

/// Most listener registrations one `(target, type)` list holds, counting
/// slots freed by `removeEventListener`.
pub const MAX_LISTENERS_PER_TYPE: usize = 64;

/// Deepest nesting of `dispatchEvent` calls (a listener dispatching
/// another event, and so on).
pub const MAX_NESTED_DISPATCH: usize = 32;

/// Longest propagation path walked from a target towards the root.
pub const MAX_BUBBLE_DEPTH: usize = 128;

/// The three phases of a DOM dispatch.
#[derive(Debug, Clone, Copy, PartialEq, Eq, Structural)]
pub enum Phase {
    /// Root towards the target, ancestors only.
    Capture,
    /// At the target itself.
    Target,
    /// Target towards the root, ancestors only, when the event bubbles.
    Bubble,
}

/// Which listeners run in `phase`: every listener at the target, capture
/// listeners while capturing, the others while bubbling.
pub open spec fn phase_admits(phase: Phase, capture: bool) -> bool {
    match phase {
        Phase::Target => true,
        Phase::Capture => capture,
        Phase::Bubble => !capture,
    }
}

/// Whether a listener registered with `capture` runs during `phase`.
pub fn record_matches_phase(phase: Phase, capture: bool) -> (r: bool)
    ensures
        r == phase_admits(phase, capture),
{
    match phase {
        Phase::Target => true,
        Phase::Capture => capture,
        Phase::Bubble => !capture,
    }
}

/// The `capture`/`once`/`passive` options of one registration.
#[derive(Debug, Clone, Copy, PartialEq, Eq, Structural)]
pub struct ListenerOptions {
    pub capture: bool,
    pub once: bool,
    pub passive: bool,
}

impl ListenerOptions {
    /// The options of a registration without a third argument.
    pub fn defaults() -> (r: ListenerOptions)
        ensures
            r == (ListenerOptions { capture: false, once: false, passive: false }),
    {
        ListenerOptions { capture: false, once: false, passive: false }
    }

    /// The options of a registration whose third argument is the bare
    /// `useCapture` flag rather than an options object.
    pub fn from_use_capture(use_capture: bool) -> (r: ListenerOptions)
        ensures
            r == (ListenerOptions { capture: use_capture, once: false, passive: false }),
    {
        ListenerOptions { capture: use_capture, once: false, passive: false }
    }
}

/// One registration: the callback's handle and its options.
#[derive(Debug, Clone, Copy, PartialEq, Eq, Structural)]
pub struct ListenerRecord {
    pub callback: u64,
    pub capture: bool,
    pub once: bool,
    pub passive: bool,
}

/// The registration `addEventListener` makes for `callback` with `options`.
pub open spec fn record_of(callback: u64, options: ListenerOptions) -> ListenerRecord {
    ListenerRecord {
        callback,
        capture: options.capture,
        once: options.once,
        passive: options.passive,
    }
}

/// Why `addEventListener` threw.
#[derive(Debug, Clone, Copy, PartialEq, Eq, Structural)]
pub enum ListenerError {
    /// The list already holds 64 slots.
    LimitExceeded,
}

/// The registrations of one `(target, type)` pair, in registration order.
/// A removed registration leaves an empty slot behind, so indices that a
/// dispatch in progress took a snapshot of never shift.
pub struct ListenerList {
    slots: Vec<Option<ListenerRecord>>,
}

/// Whether slot `s` holds a registration of `callback` with `capture`.
pub open spec fn slot_matches(s: Option<ListenerRecord>, callback: u64, capture: bool) -> bool {
    match s {
        Some(r) => r.callback == callback && r.capture == capture,
        None => false,
    }
}

/// The first slot holding a registration of `callback` with `capture`.
pub open spec fn first_match(s: Seq<Option<ListenerRecord>>, callback: u64, capture: bool) -> Option<
    int,
>
    decreases s.len(),
{
    if s.len() == 0 {
        None
    } else {
        match first_match(s.drop_last(), callback, capture) {
            Some(i) => Some(i),
            None => if slot_matches(s.last(), callback, capture) {
                Some(s.len() - 1)
            } else {
                None
            },
        }
    }
}

/// The slots after removing the first registration of `callback` with
/// `capture` (unchanged when there is none).
pub open spec fn remove_first(s: Seq<Option<ListenerRecord>>, callback: u64, capture: bool) -> Seq<
    Option<ListenerRecord>,
> {
    match first_match(s, callback, capture) {
        Some(i) => s.update(i, None),
        None => s,
    }
}

/// The registrations that run in `phase`, in order.
pub open spec fn phase_snapshot(s: Seq<Option<ListenerRecord>>, phase: Phase) -> Seq<ListenerRecord>
    decreases s.len(),
{
    if s.len() == 0 {
        seq![]
    } else {
        let front = phase_snapshot(s.drop_last(), phase);
        match s.last() {
            Some(r) => if phase_admits(phase, r.capture) {
                front.push(r)
            } else {
                front
            },
            None => front,
        }
    }
}

/// How many slots hold a registration of `callback` with `capture`.
pub open spec fn live_count(s: Seq<Option<ListenerRecord>>, callback: u64, capture: bool) -> nat
    decreases s.len(),
{
    if s.len() == 0 {
        0
    } else {
        live_count(s.drop_last(), callback, capture) + if slot_matches(s.last(), callback, capture) {
            1nat
        } else {
            0nat
        }
    }
}

impl View for ListenerList {
    type V = Seq<Option<ListenerRecord>>;

    closed spec fn view(&self) -> Seq<Option<ListenerRecord>> {
        self.slots@
    }
}

impl ListenerList {
    /// An empty list.
    pub fn new() -> (r: ListenerList)
        ensures
            r@ == Seq::<Option<ListenerRecord>>::empty(),
    {
        ListenerList { slots: Vec::new() }
    }

    /// How many slots the list holds, empty ones included.
    pub fn len(&self) -> (n: usize)
        ensures
            n == self@.len(),
    {
        self.slots.len()
    }

    /// `addEventListener(type, callback, options)`: appends a registration
    /// unless the list already holds 64 slots. Registering the same
    /// callback twice registers it twice.
    pub fn add(&mut self, callback: u64, options: ListenerOptions) -> (r: Result<(), ListenerError>)
        ensures
            old(self)@.len() >= MAX_LISTENERS_PER_TYPE ==> r == Err::<(), ListenerError>(
                ListenerError::LimitExceeded,
            ) && final(self)@ == old(self)@,
            old(self)@.len() < MAX_LISTENERS_PER_TYPE ==> r == Ok::<(), ListenerError>(())
                && final(self)@ == old(self)@.push(Some(record_of(callback, options))),
    {
        if self.slots.len() >= MAX_LISTENERS_PER_TYPE {
            return Err(ListenerError::LimitExceeded);
        }
        self.slots.push(
            Some(
                ListenerRecord {
                    callback,
                    capture: options.capture,
                    once: options.once,
                    passive: options.passive,
                },
            ),
        );
        Ok(())
    }

    /// `removeEventListener(type, callback, options)`, and the removal of a
    /// `once` listener after it ran: empties the first slot registered with
    /// this callback and capture flag, if any.
    pub fn remove(&mut self, callback: u64, capture: bool)
        ensures
            final(self)@ == remove_first(old(self)@, callback, capture),
    {
        let n = self.slots.len();
        let mut i: usize = 0;
        let ghost s = self.slots@;
        while i < n
            invariant
                n == s.len(),
                self.slots@ == s,
                s == old(self)@,
                i <= n,
                first_match(s.take(i as int), callback, capture) == None::<int>,
            decreases n - i,
        {
            proof {
                assert(s.take(i + 1).drop_last() =~= s.take(i as int));
            }
            let found = match self.slots[i] {
                Some(r) => r.callback == callback && r.capture == capture,
                None => false,
            };
            if found {
                proof {
                    assert(slot_matches(s[i as int], callback, capture));
                    lemma_first_match_prefix(s, callback, capture, i as int);
                }
                self.slots.set(i, None);
                proof {
                    assert(self.slots@ == s.update(i as int, None));
                    assert(s == old(self)@);
                    assert(self@ == remove_first(s, callback, capture));
                }
                return;
            }
            i = i + 1;
        }
        proof {
            assert(s.take(n as int) =~= s);
        }
    }

    /// `removeEventListener(type)` without a callback: drops every
    /// registration of this type.
    pub fn clear(&mut self)
        ensures
            final(self)@ == Seq::<Option<ListenerRecord>>::empty(),
    {
        self.slots = Vec::new();
    }

    /// The registrations that run when dispatch reaches this list's target
    /// in `phase`, taken before any of them runs.
    pub fn snapshot(&self, phase: Phase) -> (r: Vec<ListenerRecord>)
        ensures
            r@ == phase_snapshot(self@, phase),
    {
        let n = self.slots.len();
        let mut out: Vec<ListenerRecord> = Vec::new();
        let mut i: usize = 0;
        proof {
            assert(self@.take(0) =~= Seq::<Option<ListenerRecord>>::empty());
        }
        while i < n
            invariant
                n == self@.len(),
                i <= n,
                out@ == phase_snapshot(self@.take(i as int), phase),
            decreases n - i,
        {
            proof {
                assert(self@.take(i + 1).drop_last() =~= self@.take(i as int));
                assert(self@.take(i + 1).last() == self@[i as int]);
            }
            match self.slots[i] {
                Some(r) => {
                    if record_matches_phase(phase, r.capture) {
                        out.push(r);
                    }
                },
                None => {},
            }
            i = i + 1;
        }
        proof {
            assert(self@.take(n as int) =~= self@);
        }
        out
    }
}

proof fn lemma_first_match_prefix(s: Seq<Option<ListenerRecord>>, callback: u64, capture: bool, i: int)
    requires
        0 <= i < s.len(),
        first_match(s.take(i), callback, capture) == None::<int>,
        slot_matches(s[i], callback, capture),
    ensures
        first_match(s, callback, capture) == Some(i),
    decreases s.len(),
{
    if i + 1 < s.len() {
        assert(s.drop_last().take(i) =~= s.take(i));
        lemma_first_match_prefix(s.drop_last(), callback, capture, i);
    } else {
        assert(s.drop_last() =~= s.take(i));
    }
}

proof fn lemma_first_match_bounds(s: Seq<Option<ListenerRecord>>, callback: u64, capture: bool)
    ensures
        match first_match(s, callback, capture) {
            Some(i) => 0 <= i < s.len() && slot_matches(s[i], callback, capture) && live_count(
                s.take(i),
                callback,
                capture,
            ) == 0,
            None => live_count(s, callback, capture) == 0,
        },
    decreases s.len(),
{
    if s.len() > 0 {
        let front = s.drop_last();
        lemma_first_match_bounds(front, callback, capture);
        match first_match(front, callback, capture) {
            Some(i) => {
                assert(front.take(i) =~= s.take(i));
            },
            None => {
                assert(s.take(s.len() - 1) =~= front);
            },
        }
    }
}

proof fn lemma_live_count_update(
    s: Seq<Option<ListenerRecord>>,
    callback: u64,
    capture: bool,
    i: int,
)
    requires
        0 <= i < s.len(),
        slot_matches(s[i], callback, capture),
    ensures
        live_count(s.update(i, None), callback, capture) + 1 == live_count(s, callback, capture),
    decreases s.len(),
{
    let u = s.update(i, None);
    if i + 1 < s.len() {
        assert(u.drop_last() =~= s.drop_last().update(i, None));
        lemma_live_count_update(s.drop_last(), callback, capture, i);
    } else {
        assert(u.drop_last() =~= s.drop_last());
    }
}

/// `removeEventListener` removes exactly one matching registration when
/// there is one, and none otherwise; every other slot is left as it was.
pub proof fn law_remove_drops_one(list: Seq<Option<ListenerRecord>>, callback: u64, capture: bool)
    ensures
        live_count(list, callback, capture) > 0 ==> live_count(
            remove_first(list, callback, capture),
            callback,
            capture,
        ) + 1 == live_count(list, callback, capture),
        live_count(list, callback, capture) == 0 ==> remove_first(list, callback, capture) == list,
        remove_first(list, callback, capture).len() == list.len(),
        forall|j: int|
            0 <= j < list.len() && !slot_matches(list[j], callback, capture) ==> #[trigger] remove_first(
                list,
                callback,
                capture,
            )[j] == list[j],
{
    lemma_first_match_bounds(list, callback, capture);
    match first_match(list, callback, capture) {
        Some(i) => {
            lemma_live_count_update(list, callback, capture, i);
        },
        None => {},
    }
}

/// A listener just added runs when its target is dispatched to: the
/// at-target snapshot ends with it.
pub proof fn law_added_listener_runs_at_target(
    list: Seq<Option<ListenerRecord>>,
    record: ListenerRecord,
)
    ensures
        phase_snapshot(list.push(Some(record)), Phase::Target) == phase_snapshot(
            list,
            Phase::Target,
        ).push(record),
{
    assert(list.push(Some(record)).drop_last() =~= list);
}

/// A snapshot lists the admitted registrations in registration order, in
/// every phase: the snapshot of two runs of slots one after the other is
/// the first run's snapshot followed by the second's, and one slot
/// contributes its registration exactly when the phase admits it.
pub proof fn law_snapshot_keeps_registration_order(
    a: Seq<Option<ListenerRecord>>,
    b: Seq<Option<ListenerRecord>>,
    phase: Phase,
)
    ensures
        phase_snapshot(a + b, phase) == phase_snapshot(a, phase) + phase_snapshot(b, phase),
        phase_snapshot(seq![None::<ListenerRecord>], phase) == Seq::<ListenerRecord>::empty(),
        forall|r: ListenerRecord|
            #[trigger] phase_snapshot(seq![Some(r)], phase) == if phase_admits(phase, r.capture) {
                seq![r]
            } else {
                Seq::<ListenerRecord>::empty()
            },
        forall|r: ListenerRecord|
            phase_admits(phase, r.capture) ==> #[trigger] phase_snapshot(a.push(Some(r)), phase)
                == phase_snapshot(a, phase).push(r),
    decreases b.len(),
{
    let none1 = seq![None::<ListenerRecord>];
    assert(none1.drop_last() =~= Seq::<Option<ListenerRecord>>::empty());
    assert(phase_snapshot(Seq::<Option<ListenerRecord>>::empty(), phase) =~= Seq::<ListenerRecord>::empty());
    assert(none1.last() == None::<ListenerRecord>);
    assert forall|r: ListenerRecord|
        #[trigger] phase_snapshot(seq![Some(r)], phase) == if phase_admits(phase, r.capture) {
            seq![r]
        } else {
            Seq::<ListenerRecord>::empty()
        } by {
        let one = seq![Some(r)];
        assert(one.drop_last() =~= Seq::<Option<ListenerRecord>>::empty());
        assert(phase_snapshot(Seq::<Option<ListenerRecord>>::empty(), phase) =~= Seq::<ListenerRecord>::empty());
        assert(one.last() == Some(r));
        assert(Seq::<ListenerRecord>::empty().push(r) =~= seq![r]);
    }
    assert forall|r: ListenerRecord|
        phase_admits(phase, r.capture) implies #[trigger] phase_snapshot(a.push(Some(r)), phase)
            == phase_snapshot(a, phase).push(r) by {
        assert(a.push(Some(r)).drop_last() =~= a);
    }
    if b.len() == 0 {
        assert(a + b =~= a);
        assert(phase_snapshot(a, phase) + phase_snapshot(b, phase) =~= phase_snapshot(a, phase));
    } else {
        law_snapshot_keeps_registration_order(a, b.drop_last(), phase);
        assert((a + b).drop_last() =~= a + b.drop_last());
        assert((a + b).last() == b.last());
        let fa = phase_snapshot(a, phase);
        let fb = phase_snapshot(b.drop_last(), phase);
        match b.last() {
            Some(r) => {
                if phase_admits(phase, r.capture) {
                    assert((fa + fb).push(r) =~= fa + fb.push(r));
                }
            },
            None => {},
        }
    }
}

/// The flags one dispatched event carries.
#[derive(Debug, Clone, Copy, PartialEq, Eq, Structural)]
pub struct EventFlags {
    pub bubbles: bool,
    pub cancelable: bool,
    pub default_prevented: bool,
    pub propagation_stopped: bool,
    /// Set only while a `passive` listener's callback runs.
    pub in_passive_listener: bool,
}

impl EventFlags {
    /// The flags of an event that has not been dispatched yet.
    pub fn new(bubbles: bool, cancelable: bool) -> (r: EventFlags)
        ensures
            r == (EventFlags {
                bubbles,
                cancelable,
                default_prevented: false,
                propagation_stopped: false,
                in_passive_listener: false,
            }),
    {
        EventFlags {
            bubbles,
            cancelable,
            default_prevented: false,
            propagation_stopped: false,
            in_passive_listener: false,
        }
    }

    /// `preventDefault()`: cancels a cancelable event, except from inside a
    /// passive listener, where it does nothing.
    pub fn prevent_default(&mut self)
        ensures
            *final(self) == prevented(*old(self)),
    {
        if self.cancelable && !self.in_passive_listener {
            self.default_prevented = true;
        }
    }

    /// `stopPropagation()`: no further node is visited; listeners of the
    /// current node still run.
    pub fn stop_propagation(&mut self)
        ensures
            *final(self) == (EventFlags { propagation_stopped: true, ..*old(self) }),
    {
        self.propagation_stopped = true;
    }

    /// Marks the start of one listener's callback.
    pub fn enter_listener(&mut self, passive: bool)
        ensures
            *final(self) == (EventFlags { in_passive_listener: passive, ..*old(self) }),
    {
        self.in_passive_listener = passive;
    }

    /// Marks the end of one listener's callback.
    pub fn leave_listener(&mut self)
        ensures
            *final(self) == (EventFlags { in_passive_listener: false, ..*old(self) }),
    {
        self.in_passive_listener = false;
    }

    /// What `dispatchEvent` returns: `false` exactly when the event was
    /// canceled.
    pub fn dispatch_result(&self) -> (r: bool)
        ensures
            r == !self.default_prevented,
    {
        !self.default_prevented
    }
}

/// The flags after `preventDefault()`.
pub open spec fn prevented(f: EventFlags) -> EventFlags {
    if f.cancelable && !f.in_passive_listener {
        EventFlags { default_prevented: true, ..f }
    } else {
        f
    }
}

/// Only a cancelable event is ever canceled, and a passive listener never
/// cancels one: `preventDefault` keeps "canceled implies cancelable", and
/// changes nothing from inside a passive listener or on an event that is
/// not cancelable.
pub proof fn law_only_cancelable_events_cancel(f: EventFlags)
    ensures
        (f.default_prevented ==> f.cancelable) ==> (prevented(f).default_prevented
            ==> prevented(f).cancelable),
        f.in_passive_listener ==> prevented(f) == f,
        !f.cancelable ==> prevented(f) == f,
        f.cancelable && !f.in_passive_listener ==> prevented(f).default_prevented,
{
}

/// One stop of a dispatch: an index into the propagation path (0 is the
/// target, higher indices are further ancestors) and the phase there.
#[derive(Debug, Clone, Copy, PartialEq, Eq, Structural)]
pub struct PathStep {
    pub index: usize,
    pub phase: Phase,
}

/// The capture stops: the ancestors from the root down to the target's
/// parent.
pub open spec fn capture_steps(n: nat) -> Seq<PathStep> {
    Seq::new(
        (n - 1) as nat,
        |k: int| PathStep { index: (n - 1 - k) as usize, phase: Phase::Capture },
    )
}

/// The bubble stops: the ancestors from the target's parent up to the
/// root.
pub open spec fn bubble_steps(n: nat) -> Seq<PathStep> {
    Seq::new((n - 1) as nat, |k: int| PathStep { index: (k + 1) as usize, phase: Phase::Bubble })
}

/// Every stop of a dispatch along a path of `n` nodes, in order.
pub open spec fn dispatch_plan_spec(n: nat, bubbles: bool) -> Seq<PathStep> {
    capture_steps(n) + seq![PathStep { index: 0, phase: Phase::Target }] + if bubbles {
        bubble_steps(n)
    } else {
        seq![]
    }
}

/// The stops of a dispatch along a propagation path of `path_len` nodes
/// (the target first): capture from the root down, the target, then, if
/// the event bubbles, back up to the root. `Propagation` walks it,
/// stopping once `stopPropagation()` was called.
pub fn dispatch_plan(path_len: usize, bubbles: bool) -> (r: Vec<PathStep>)
    requires
        path_len >= 1,
    ensures
        r@ == dispatch_plan_spec(path_len as nat, bubbles),
{
    let mut out: Vec<PathStep> = Vec::new();
    let mut k: usize = 0;
    while k < path_len - 1
        invariant
            path_len >= 1,
            k <= path_len - 1,
            out@ == capture_steps(path_len as nat).take(k as int),
        decreases path_len - 1 - k,
    {
        out.push(PathStep { index: path_len - 1 - k, phase: Phase::Capture });
        proof {
            assert(out@ =~= capture_steps(path_len as nat).take(k + 1));
        }
        k = k + 1;
    }
    proof {
        assert(capture_steps(path_len as nat).take(k as int) =~= capture_steps(path_len as nat));
    }
    out.push(PathStep { index: 0, phase: Phase::Target });
    let ghost head = out@;
    if bubbles {
        let mut j: usize = 0;
        while j < path_len - 1
            invariant
                path_len >= 1,
                j <= path_len - 1,
                out@ == head + bubble_steps(path_len as nat).take(j as int),
            decreases path_len - 1 - j,
        {
            out.push(PathStep { index: j + 1, phase: Phase::Bubble });
            proof {
                assert(out@ =~= head + bubble_steps(path_len as nat).take(j + 1));
            }
            j = j + 1;
        }
        proof {
            assert(bubble_steps(path_len as nat).take(j as int) =~= bubble_steps(
                path_len as nat,
            ));
        }
    } else {
        proof {
            assert(out@ =~= head + Seq::<PathStep>::empty());
        }
    }
    out
}

/// The dispatch plan visits the target exactly once, in the target phase,
/// after every capture stop and before every bubble stop; each ancestor is
/// captured once and, when the event bubbles, bubbled once.
pub proof fn law_dispatch_plan_shape(n: nat, bubbles: bool)
    requires
        n >= 1,
    ensures
        dispatch_plan_spec(n, bubbles)[n - 1] == (PathStep { index: 0, phase: Phase::Target }),
        forall|k: int|
            0 <= k < n - 1 ==> #[trigger] dispatch_plan_spec(n, bubbles)[k] == (PathStep {
                index: (n - 1 - k) as usize,
                phase: Phase::Capture,
            }),
        bubbles ==> dispatch_plan_spec(n, bubbles).len() == 2 * n - 1,
        !bubbles ==> dispatch_plan_spec(n, bubbles).len() == n,
        forall|k: int|
            n <= k < dispatch_plan_spec(n, bubbles).len() ==> #[trigger] dispatch_plan_spec(
                n,
                bubbles,
            )[k] == (PathStep { index: (k - n + 1) as usize, phase: Phase::Bubble }),
{
}

/// The nesting depth of `dispatchEvent` calls on one context.
pub struct DispatchDepth {
    depth: usize,
}

impl View for DispatchDepth {
    type V = nat;

    closed spec fn view(&self) -> nat {
        self.depth as nat
    }
}

impl DispatchDepth {
    /// No dispatch in progress.
    pub fn new() -> (r: DispatchDepth)
        ensures
            r@ == 0,
    {
        DispatchDepth { depth: 0 }
    }

    /// The current depth.
    pub fn depth(&self) -> (r: usize)
        ensures
            r == self@,
    {
        self.depth
    }

    /// Enters one more dispatch: `false` (and nothing changes) when 32 are
    /// already in progress.
    pub fn begin(&mut self) -> (r: bool)
        ensures
            r == (old(self)@ < MAX_NESTED_DISPATCH),
            r ==> final(self)@ == old(self)@ + 1,
            !r ==> final(self)@ == old(self)@,
    {
        if self.depth >= MAX_NESTED_DISPATCH {
            return false;
        }
        self.depth = self.depth + 1;
        true
    }

    /// Leaves a dispatch that `begin` entered.
    pub fn end(&mut self)
        requires
            old(self)@ > 0,
        ensures
            final(self)@ == old(self)@ - 1,
    {
        self.depth = self.depth - 1;
    }
}


/// Where a three-phase dispatch stands: its plan and the next stop.
pub struct Propagation {
    plan: Vec<PathStep>,
    next: usize,
}

/// The plan and the number of stops already handed out.
pub struct PropagationView {
    pub plan: Seq<PathStep>,
    pub next: nat,
}

impl View for Propagation {
    type V = PropagationView;

    closed spec fn view(&self) -> PropagationView {
        PropagationView { plan: self.plan@, next: self.next as nat }
    }
}

impl Propagation {
    /// A dispatch along a path of `path_len` nodes (the target first), no
    /// stop visited yet.
    pub fn new(path_len: usize, bubbles: bool) -> (r: Propagation)
        requires
            path_len >= 1,
        ensures
            r@.plan == dispatch_plan_spec(path_len as nat, bubbles),
            r@.next == 0,
    {
        Propagation { plan: dispatch_plan(path_len, bubbles), next: 0 }
    }

    /// The next stop to run listeners at, given whether
    /// `stopPropagation()` has been called (see `advance`).
    pub fn next_stop(&mut self, propagation_stopped: bool) -> (r: Option<PathStep>)
        ensures
            (final(self)@, r) == advance(old(self)@, propagation_stopped),
    {
        if propagation_stopped || self.next >= self.plan.len() {
            self.next = self.plan.len();
            None
        } else {
            let step = self.plan[self.next];
            self.next = self.next + 1;
            Some(step)
        }
    }
}

/// One step of a dispatch: nothing once propagation stopped or the plan is
/// done (the dispatch is then over); otherwise the next stop of the plan.
pub open spec fn advance(v: PropagationView, propagation_stopped: bool) -> (
    PropagationView,
    Option<PathStep>,
) {
    if propagation_stopped || v.next >= v.plan.len() {
        (PropagationView { next: v.plan.len(), ..v }, None)
    } else {
        (PropagationView { next: v.next + 1, ..v }, Some(v.plan[v.next as int]))
    }
}

/// Once a dispatch has stopped (propagation stopped, or no stop left), it
/// hands out no further stop, whatever follows; and without a stop, the
/// stops come out in the plan's order.
pub proof fn law_stopped_dispatch_stays_stopped(v: PropagationView, stopped: bool, later: bool)
    ensures
        advance(v, stopped).1 is None ==> advance(advance(v, stopped).0, later).1 is None,
        !stopped && v.next < v.plan.len() ==> advance(v, stopped).1 == Some(v.plan[v.next as int])
            && advance(v, stopped).0.next == v.next + 1,
{
}


/// Records an exception a listener threw during a dispatch: the first one
/// is kept, to be rethrown when the dispatch ends; a later one is handed
/// back, to be discarded.
pub fn keep_first_exception<T>(kept: &mut Option<T>, thrown: T) -> (discarded: Option<T>)
    ensures
        match *old(kept) {
            None => *final(kept) == Some(thrown) && discarded == None::<T>,
            Some(k) => *final(kept) == Some(k) && discarded == Some(thrown),
        },
{
    if kept.is_none() {
        *kept = Some(thrown);
        None
    } else {
        Some(thrown)
    }
}
} // verus!
