//! The reconciliation engine's state: the active set of tracked containers, the
//! debounce state, and how lifecycle events and timer ticks change them.
use vstd::prelude::*;
use crate::container_info::{descriptor_views, ContainerInfo, ContainerView};
use crate::text::{chars_of, same_chars};

verus! {

/// Whether some descriptor of `s` has the id `id`.
pub open spec fn has_id(s: Seq<ContainerView>, id: Seq<char>) -> bool {
    exists|i: int| 0 <= i < s.len() && (#[trigger] s[i]).id == id
}

/// No two descriptors of `s` share an id.
pub open spec fn ids_distinct(s: Seq<ContainerView>) -> bool {
    forall|i: int, j: int| 0 <= i < j < s.len() ==> (#[trigger] s[i]).id != (#[trigger] s[j]).id
}

/// `s` with `c` added at the end, unless its id is tracked already.
pub open spec fn with_inserted(s: Seq<ContainerView>, c: ContainerView) -> Seq<ContainerView> {
    if has_id(s, c.id) {
        s
    } else {
        s.push(c)
    }
}

/// `s` after each of `cs` is added in turn, unless its id is tracked by then.
pub open spec fn with_all_inserted(s: Seq<ContainerView>, cs: Seq<ContainerView>) -> Seq<ContainerView>
    decreases cs.len(),
{
    if cs.len() == 0 {
        s
    } else {
        with_inserted(with_all_inserted(s, cs.drop_last()), cs.last())
    }
}

/// The position of the descriptor with id `id`.
pub open spec fn index_of_id(s: Seq<ContainerView>, id: Seq<char>) -> int {
    choose|i: int| 0 <= i < s.len() && (#[trigger] s[i]).id == id
}

/// `s` without the descriptor with id `id`, if there is one.
pub open spec fn without_id(s: Seq<ContainerView>, id: Seq<char>) -> Seq<ContainerView> {
    if has_id(s, id) {
        s.remove(index_of_id(s, id))
    } else {
        s
    }
}

/// The tracked containers, keyed by id, in the order in which they were first seen.
pub struct ActiveSet {
    entries: Vec<ContainerInfo>,
}

impl View for ActiveSet {
    type V = Seq<ContainerView>;

    closed spec fn view(&self) -> Seq<ContainerView> {
        descriptor_views(self.entries@)
    }
}

impl ActiveSet {
    pub open spec fn well_formed(&self) -> bool {
        ids_distinct(self@)
    }

    /// The empty set.
    pub fn new() -> (r: Self)
        ensures
            r@ == Seq::<ContainerView>::empty(),
            r.well_formed(),
    {
        let r = ActiveSet { entries: Vec::new() };
        assert(r@ =~= Seq::<ContainerView>::empty());
        r
    }

    pub fn len(&self) -> (r: usize)
        ensures
            r == self@.len(),
    {
        self.entries.len()
    }

    /// The position of the descriptor with id `id`.
    fn position(&self, id: &str) -> (r: Option<usize>)
        ensures
            match r {
                Some(i) => i < self@.len() && self@[i as int].id == id@,
                None => !has_id(self@, id@),
            },
    {
        let k = chars_of(id);
        let mut i: usize = 0;
        while i < self.entries.len()
            invariant
                i <= self.entries.len(),
                k@ == id@,
                forall|j: int| 0 <= j < i ==> (#[trigger] self@[j]).id != id@,
            decreases self.entries.len() - i,
        {
            assert(self@[i as int] == self.entries@[i as int]@);
            if same_chars(&chars_of(self.entries[i].id.as_str()), &k) {
                return Some(i);
            }
            i = i + 1;
        }
        None
    }

    /// Whether a container with id `id` is tracked.
    pub fn contains(&self, id: &str) -> (r: bool)
        ensures
            r == has_id(self@, id@),
    {
        self.position(id).is_some()
    }

    /// Tracks `info` unless its id is tracked already; says whether the set changed.
    pub fn insert(&mut self, info: ContainerInfo) -> (changed: bool)
        requires
            old(self).well_formed(),
        ensures
            final(self).well_formed(),
            final(self)@ == with_inserted(old(self)@, info@),
            changed == !has_id(old(self)@, info@.id),
    {
        if self.position(info.id.as_str()).is_some() {
            return false;
        }
        let ghost before = self@;
        self.entries.push(info);
        assert(self@ =~= before.push(info@));
        assert(ids_distinct(self@)) by {
            assert forall|i: int, j: int| 0 <= i < j < self@.len() implies (#[trigger] self@[i]).id
                != (#[trigger] self@[j]).id by {
                if j == before.len() {
                    assert(self@[i] == before[i]);
                }
            }
        }
        true
    }

    /// Stops tracking the container with id `id`, if it is tracked; says whether the set changed.
    pub fn remove(&mut self, id: &str) -> (changed: bool)
        requires
            old(self).well_formed(),
        ensures
            final(self).well_formed(),
            final(self)@ == without_id(old(self)@, id@),
            changed == has_id(old(self)@, id@),
    {
        match self.position(id) {
            None => false,
            Some(i) => {
                let ghost before = self@;
                let ghost k = index_of_id(before, id@);
                assert(before[i as int].id == id@);
                assert(k == i) by {
                    assert(0 <= k < before.len() && before[k].id == id@);
                    if k != i {
                        if k < i {
                            assert(before[k].id != before[i as int].id);
                        } else {
                            assert(before[i as int].id != before[k].id);
                        }
                    }
                }
                self.entries.remove(i);
                assert(self@ =~= before.remove(i as int));
                true
            },
        }
    }

    /// A copy of every tracked descriptor, in order.
    pub fn snapshot(&self) -> (r: Vec<ContainerInfo>)
        ensures
            descriptor_views(r@) == self@,
    {
        let mut r: Vec<ContainerInfo> = Vec::new();
        let mut i: usize = 0;
        while i < self.entries.len()
            invariant
                i <= self.entries.len(),
                descriptor_views(r@) == self@.subrange(0, i as int),
            decreases self.entries.len() - i,
        {
            let ghost before = descriptor_views(r@);
            let c = self.entries[i].copy();
            r.push(c);
            assert(self@[i as int] == self.entries@[i as int]@);
            assert(descriptor_views(r@) =~= before.push(c@));
            i = i + 1;
            assert(descriptor_views(r@) =~= self@.subrange(0, i as int));
        }
        assert(self@.subrange(0, i as int) =~= self@);
        r
    }
}

/// When the last change was recorded, and whether a pass is still owed for it.
#[derive(Clone, Copy, Debug, PartialEq, Eq, Structural)]
pub struct DebounceState {
    pub last_request: Option<u64>,
    pub pending: bool,
}

/// Whether a pass is owed and the quiet time since the last change has reached `window`.
pub open spec fn is_due(d: DebounceState, now: u64, window: u64) -> bool {
    d.pending && match d.last_request {
        Some(t) => now >= t && now - t >= window,
        None => false,
    }
}

pub open spec fn idle() -> DebounceState {
    DebounceState { last_request: None, pending: false }
}

impl DebounceState {
    pub fn new() -> (r: Self)
        ensures
            r == idle(),
    {
        DebounceState { last_request: None, pending: false }
    }

    /// Records a change at time `now`: a pass is owed once things stay quiet.
    pub fn request(&mut self, now: u64)
        ensures
            *final(self) == (DebounceState { last_request: Some(now), pending: true }),
    {
        self.last_request = Some(now);
        self.pending = true;
    }

    /// At a tick at time `now`: whether the owed pass is due; if so it is no longer owed.
    pub fn poll(&mut self, now: u64, window: u64) -> (fire: bool)
        ensures
            fire == is_due(*old(self), now, window),
            fire ==> *final(self) == idle(),
            !fire ==> *final(self) == *old(self),
    {
        if self.pending {
            if let Some(t) = self.last_request {
                if now >= t && now - t >= window {
                    self.pending = false;
                    self.last_request = None;
                    return true;
                }
            }
        }
        false
    }
}

/// A lifecycle event of the container runtime's feed.
pub enum ContainerEvent {
    Start(String),
    Stop(String),
    Die(String),
    Destroy(String),
    Other,
}

impl ContainerEvent {
    /// The event that the feed's action name gives for the container `id`.
    pub fn from_action(action: &str, id: String) -> (r: ContainerEvent)
        ensures
            action@ == "start"@ ==> r == ContainerEvent::Start(id),
            action@ == "stop"@ ==> r == ContainerEvent::Stop(id),
            action@ == "die"@ ==> r == ContainerEvent::Die(id),
            action@ == "destroy"@ ==> r == ContainerEvent::Destroy(id),
            action@ != "start"@ && action@ != "stop"@ && action@ != "die"@ && action@
                != "destroy"@ ==> r == ContainerEvent::Other,
    {
        proof {
            reveal_strlit("start");
            reveal_strlit("stop");
            reveal_strlit("die");
            reveal_strlit("destroy");
            assert("start"@.len() == 5 && "stop"@.len() == 4);
            assert("die"@.len() == 3 && "destroy"@.len() == 7);
        }
        let a = chars_of(action);
        if same_chars(&a, &chars_of("start")) {
            ContainerEvent::Start(id)
        } else if same_chars(&a, &chars_of("stop")) {
            ContainerEvent::Stop(id)
        } else if same_chars(&a, &chars_of("die")) {
            ContainerEvent::Die(id)
        } else if same_chars(&a, &chars_of("destroy")) {
            ContainerEvent::Destroy(id)
        } else {
            ContainerEvent::Other
        }
    }
}

/// What the engine asks for after an event.
#[derive(Debug)]
pub enum EventOutcome {
    /// The container is new: inspect it and hand its descriptor to `record_started`.
    Inspect(String),
    /// The active set changed; a pass is owed.
    Changed,
    /// Nothing changed.
    Ignored,
}

/// The value of an `Engine`.
pub struct EngineView {
    pub active: Seq<ContainerView>,
    pub debounce: DebounceState,
    pub window: u64,
}

/// The engine after the descriptor `c` of a started container is recorded at time `now`.
pub open spec fn after_started(e: EngineView, c: ContainerView, now: u64) -> EngineView {
    if has_id(e.active, c.id) {
        e
    } else {
        EngineView {
            active: e.active.push(c),
            debounce: DebounceState { last_request: Some(now), pending: true },
            window: e.window,
        }
    }
}

/// The engine after a tick at time `now`, and the snapshot of the pass it fires, if any.
pub open spec fn after_tick(e: EngineView, now: u64) -> (EngineView, Option<Seq<ContainerView>>) {
    if is_due(e.debounce, now, e.window) {
        (EngineView { active: e.active, debounce: idle(), window: e.window }, Some(e.active))
    } else {
        (e, None)
    }
}

/// The active set, the debounce state and the quiet time after which a pass runs.
pub struct Engine {
    pub active: ActiveSet,
    pub debounce: DebounceState,
    pub window: u64,
}

impl View for Engine {
    type V = EngineView;

    open spec fn view(&self) -> EngineView {
        EngineView { active: self.active@, debounce: self.debounce, window: self.window }
    }
}

impl Engine {
    pub open spec fn well_formed(&self) -> bool {
        self.active.well_formed()
    }

    /// An engine that tracks nothing and owes no pass.
    pub fn new(window: u64) -> (r: Self)
        ensures
            r.well_formed(),
            r@.active == Seq::<ContainerView>::empty(),
            r@.debounce == idle(),
            r@.window == window,
    {
        Engine { active: ActiveSet::new(), debounce: DebounceState::new(), window }
    }

    /// Tracks the descriptors found by the startup scan, in order, each unless its id is
    /// tracked already; no pass is owed for them, since the caller runs one at once.
    pub fn load(&mut self, infos: &Vec<ContainerInfo>)
        requires
            old(self).well_formed(),
        ensures
            final(self).well_formed(),
            final(self)@.active == with_all_inserted(old(self)@.active, descriptor_views(infos@)),
            final(self)@.debounce == old(self)@.debounce,
            final(self)@.window == old(self)@.window,
    {
        let ghost start = self@.active;
        let ghost all = descriptor_views(infos@);
        let mut taken: usize = 0;
        assert(all.subrange(0, 0) =~= Seq::<ContainerView>::empty());
        while taken < infos.len()
            invariant
                taken <= infos.len(),
                all == descriptor_views(infos@),
                self.well_formed(),
                self@.debounce == old(self)@.debounce,
                self@.window == old(self)@.window,
                start == old(self)@.active,
                self@.active == with_all_inserted(start, all.subrange(0, taken as int)),
            decreases infos.len() - taken,
        {
            let info = infos[taken].copy();
            let ghost upto = all.subrange(0, taken + 1);
            assert(upto.drop_last() =~= all.subrange(0, taken as int));
            assert(upto.last() == info@);
            self.active.insert(info);
            taken = taken + 1;
        }
        assert(all.subrange(0, taken as int) =~= all);
    }

    /// Handles one event of the feed at time `now`. A start of an untracked container asks
    /// for its inspection; a stop, die or destroy of a tracked one removes it and owes a
    /// pass; anything else changes nothing.
    pub fn handle_event(&mut self, event: ContainerEvent, now: u64) -> (r: EventOutcome)
        requires
            old(self).well_formed(),
        ensures
            final(self).well_formed(),
            match event {
                ContainerEvent::Start(id) => {
                    &&& *final(self) == *old(self)
                    &&& has_id(old(self)@.active, id@) ==> r is Ignored
                    &&& !has_id(old(self)@.active, id@) ==> r == EventOutcome::Inspect(id)
                },
                ContainerEvent::Stop(id) | ContainerEvent::Die(id) | ContainerEvent::Destroy(id) => {
                    &&& has_id(old(self)@.active, id@) ==> r is Changed && final(self)@ == (EngineView {
                        active: without_id(old(self)@.active, id@),
                        debounce: DebounceState { last_request: Some(now), pending: true },
                        window: old(self)@.window,
                    })
                    &&& !has_id(old(self)@.active, id@) ==> r is Ignored && final(self)@ == old(self)@
                },
                ContainerEvent::Other => r is Ignored && *final(self) == *old(self),
            },
    {
        match event {
            ContainerEvent::Start(id) => {
                if self.active.contains(id.as_str()) {
                    EventOutcome::Ignored
                } else {
                    EventOutcome::Inspect(id)
                }
            },
            ContainerEvent::Stop(id) | ContainerEvent::Die(id) | ContainerEvent::Destroy(id) => {
                if self.active.remove(id.as_str()) {
                    self.debounce.request(now);
                    EventOutcome::Changed
                } else {
                    EventOutcome::Ignored
                }
            },
            ContainerEvent::Other => EventOutcome::Ignored,
        }
    }

    /// Records the descriptor of a started container at time `now`: it is tracked and a pass
    /// is owed, unless its id is tracked already. Says whether anything changed.
    pub fn record_started(&mut self, info: ContainerInfo, now: u64) -> (changed: bool)
        requires
            old(self).well_formed(),
        ensures
            final(self).well_formed(),
            final(self)@ == after_started(old(self)@, info@, now),
            changed == !has_id(old(self)@.active, info@.id),
    {
        let changed = self.active.insert(info);
        if changed {
            self.debounce.request(now);
        }
        changed
    }

    /// At a tick at time `now`: when the owed pass is due, the snapshot to run it on.
    pub fn tick(&mut self, now: u64) -> (r: Option<Vec<ContainerInfo>>)
        requires
            old(self).well_formed(),
        ensures
            final(self).well_formed(),
            final(self)@ == after_tick(old(self)@, now).0,
            match r {
                Some(v) => after_tick(old(self)@, now).1 == Some(descriptor_views(v@)),
                None => after_tick(old(self)@, now).1 is None,
            },
    {
        if self.debounce.poll(now, self.window) {
            Some(self.active.snapshot())
        } else {
            None
        }
    }
}

/// One thing that happens to the engine: a started container is recorded, or the timer ticks.
pub enum Step {
    Started(ContainerView, u64),
    Tick(u64),
}

pub open spec fn step_time(s: Step) -> u64 {
    match s {
        Step::Started(_, t) => t,
        Step::Tick(t) => t,
    }
}

/// The engine after one step, and the snapshot of the pass that it fires, if any.
pub open spec fn apply_step(e: EngineView, s: Step) -> (EngineView, Option<Seq<ContainerView>>) {
    match s {
        Step::Started(c, t) => (after_started(e, c, t), None),
        Step::Tick(t) => after_tick(e, t),
    }
}

/// The engine after `steps`, and the snapshots of the passes fired on the way, in order.
pub open spec fn run(e: EngineView, steps: Seq<Step>) -> (EngineView, Seq<Seq<ContainerView>>)
    decreases steps.len(),
{
    if steps.len() == 0 {
        (e, Seq::empty())
    } else {
        let (e1, fired) = apply_step(e, steps[0]);
        let (e2, passes) = run(e1, steps.drop_first());
        (
            e2,
            match fired {
                Some(snapshot) => seq![snapshot] + passes,
                None => passes,
            },
        )
    }
}

pub open spec fn times_ordered(steps: Seq<Step>) -> bool {
    forall|i: int, j: int| 0 <= i <= j < steps.len() ==> step_time(#[trigger] steps[i]) <= step_time(
        #[trigger] steps[j],
    )
}

proof fn lemma_ordered_tail(steps: Seq<Step>)
    requires
        steps.len() > 0,
        times_ordered(steps),
    ensures
        times_ordered(steps.drop_first()),
{
    let t = steps.drop_first();
    assert forall|i: int, j: int| 0 <= i <= j < t.len() implies step_time(#[trigger] t[i])
        <= step_time(#[trigger] t[j]) by {
        assert(t[i] == steps[i + 1] && t[j] == steps[j + 1]);
    }
}

/// With no pass owed, ticks fire nothing.
proof fn lemma_quiet_ticks(e: EngineView, steps: Seq<Step>)
    requires
        !e.debounce.pending,
        forall|i: int| 0 <= i < steps.len() ==> (#[trigger] steps[i]) is Tick,
    ensures
        run(e, steps).1.len() == 0,
    decreases steps.len(),
{
    if steps.len() > 0 {
        assert(steps[0] is Tick);
        let t = steps.drop_first();
        assert forall|i: int| 0 <= i < t.len() implies (#[trigger] t[i]) is Tick by {
            assert(t[i] == steps[i + 1]);
        }
        lemma_quiet_ticks(apply_step(e, steps[0]).0, t);
    }
}

/// With a pass owed since `l`, ticks alone ending at or after `l + window` fire it exactly once,
/// on the active set as it stands.
proof fn lemma_owed_ticks(e: EngineView, steps: Seq<Step>, l: u64)
    requires
        e.window > 0,
        e.debounce == (DebounceState { last_request: Some(l), pending: true }),
        times_ordered(steps),
        steps.len() > 0,
        forall|i: int| 0 <= i < steps.len() ==> (#[trigger] steps[i]) is Tick,
        step_time(steps.last()) >= l + e.window,
    ensures
        run(e, steps).1 == seq![e.active],
    decreases steps.len(),
{
    assert(steps[0] is Tick);
    let t = steps.drop_first();
    assert forall|i: int| 0 <= i < t.len() implies (#[trigger] t[i]) is Tick by {
        assert(t[i] == steps[i + 1]);
    }
    let (e1, fired) = apply_step(e, steps[0]);
    if fired is Some {
        lemma_quiet_ticks(e1, t);
        assert(run(e, steps).1 =~= seq![e.active]);
    } else {
        if steps.len() == 1 {
            assert(steps.last() == steps[0]);
        }
        assert(steps.len() > 1);
        lemma_ordered_tail(steps);
        assert(t.last() == steps.last());
        lemma_owed_ticks(e1, t, l);
    }
}

/// The descriptors of the started containers among `steps`, in order.
pub open spec fn started_of(steps: Seq<Step>) -> Seq<ContainerView>
    decreases steps.len(),
{
    if steps.len() == 0 {
        Seq::empty()
    } else {
        let rest = started_of(steps.drop_first());
        match steps[0] {
            Step::Started(c, _) => seq![c] + rest,
            Step::Tick(_) => rest,
        }
    }
}

/// No step before position `j` is a start.
pub open spec fn no_start_before(steps: Seq<Step>, j: int) -> bool {
    forall|k: int| 0 <= k < j ==> (#[trigger] steps[k]) is Tick
}

/// All steps strictly between positions `i` and `j` are ticks.
#[verifier::opaque]
pub open spec fn ticks_between(steps: Seq<Step>, i: int, j: int) -> bool {
    forall|k: int| i < k < j ==> (#[trigger] steps[k]) is Tick
}

/// Each step up to position `last` comes less than `window` after the last start before it.
pub open spec fn within_gaps(steps: Seq<Step>, last: int, window: u64) -> bool {
    forall|i: int, j: int|
        0 <= i < j <= last && (#[trigger] steps[i]) is Started && #[trigger] ticks_between(steps, i, j)
            ==> step_time(steps[j]) < step_time(steps[i]) + window
}

proof fn lemma_no_starts(steps: Seq<Step>)
    requires
        forall|i: int| 0 <= i < steps.len() ==> (#[trigger] steps[i]) is Tick,
    ensures
        started_of(steps) == Seq::<ContainerView>::empty(),
    decreases steps.len(),
{
    if steps.len() > 0 {
        let t = steps.drop_first();
        assert forall|i: int| 0 <= i < t.len() implies (#[trigger] t[i]) is Tick by {
            assert(t[i] == steps[i + 1]);
        }
        lemma_no_starts(t);
        assert(steps[0] is Tick);
    }
}

/// The burst law, over the steps that follow a settled engine: when the started containers
/// are new and distinct, each step up to the last start comes less than a quiet-time window
/// after the start before it, and the timer then keeps ticking until the window after the
/// last start has passed, exactly one pass runs, on the containers tracked before followed by
/// the started ones, in order.
pub proof fn lemma_burst_single_pass(e: EngineView, steps: Seq<Step>, last: int)
    requires
        e.window > 0,
        !e.debounce.pending,
        times_ordered(steps),
        0 <= last < steps.len(),
        steps[last] is Started,
        forall|i: int| 0 <= i < steps.len() && (#[trigger] steps[i]) is Started ==> i <= last
            && !has_id(e.active, steps[i]->Started_0.id),
        forall|i: int, j: int|
            0 <= i < j < steps.len() && (#[trigger] steps[i]) is Started && (#[trigger] steps[j]) is Started
                ==> steps[i]->Started_0.id != steps[j]->Started_0.id,
        within_gaps(steps, last, e.window),
        step_time(steps.last()) >= step_time(steps[last]) + e.window,
    ensures
        run(e, steps).1 == seq![e.active + started_of(steps)],
{
    lemma_burst(e, steps, last);
}

/// What the burst lemma asks of its engine: when a pass is owed, since a time no later than
/// the first step, every step up to the first start comes within the window of it.
pub open spec fn owed_within(e: EngineView, steps: Seq<Step>, last: int) -> bool {
    e.debounce.pending ==> exists|l: u64|
        e.debounce == (DebounceState { last_request: Some(l), pending: true }) && l <= step_time(steps[0])
            && forall|j: int| 0 <= j <= last && no_start_before(steps, j) ==> step_time(#[trigger] steps[j]) < l + e.window
}

/// What the burst lemma asks of its steps.
pub open spec fn burst_steps(e: EngineView, steps: Seq<Step>, last: int) -> bool {
    &&& times_ordered(steps)
    &&& 0 <= last < steps.len()
    &&& steps[last] is Started
    &&& forall|i: int| 0 <= i < steps.len() && (#[trigger] steps[i]) is Started ==> i <= last
        && !has_id(e.active, steps[i]->Started_0.id)
    &&& forall|i: int, j: int|
        0 <= i < j < steps.len() && (#[trigger] steps[i]) is Started && (#[trigger] steps[j]) is Started
            ==> steps[i]->Started_0.id != steps[j]->Started_0.id
    &&& within_gaps(steps, last, e.window)
    &&& step_time(steps.last()) >= step_time(steps[last]) + e.window
}

proof fn lemma_burst_last(e: EngineView, steps: Seq<Step>)
    requires
        e.window > 0,
        burst_steps(e, steps, 0),
    ensures
        run(e, steps).1 == seq![e.active + started_of(steps)],
{
    let t = steps.drop_first();
    let (e1, fired) = apply_step(e, steps[0]);
    lemma_ordered_tail(steps);
    let c = steps[0]->Started_0;
    let now = step_time(steps[0]);
    assert(!has_id(e.active, c.id));
    assert(e1.active == e.active.push(c));
    assert(t.len() > 0) by {
        if steps.len() == 1 {
            assert(steps.last() == steps[0]);
        }
    }
    assert forall|i: int| 0 <= i < t.len() implies (#[trigger] t[i]) is Tick by {
        assert(t[i] == steps[i + 1]);
    }
    assert(t.last() == steps.last());
    lemma_owed_ticks(e1, t, now);
    lemma_no_starts(t);
    assert(started_of(steps) =~= seq![c]);
    assert(e.active + started_of(steps) =~= e1.active);
}

/// One step before the last start keeps the burst's conditions for the rest.
proof fn lemma_burst_step(e: EngineView, steps: Seq<Step>, last: int)
    requires
        e.window > 0,
        last > 0,
        burst_steps(e, steps, last),
        owed_within(e, steps, last),
    ensures
        apply_step(e, steps[0]).1 is None,
        burst_steps(apply_step(e, steps[0]).0, steps.drop_first(), last - 1),
        owed_within(apply_step(e, steps[0]).0, steps.drop_first(), last - 1),
        apply_step(e, steps[0]).0.window == e.window,
        e.active + started_of(steps) == apply_step(e, steps[0]).0.active + started_of(steps.drop_first()),
{
    let t = steps.drop_first();
    let e1 = apply_step(e, steps[0]).0;
    lemma_ordered_tail(steps);
    assert(t.last() == steps.last());
    assert(t[last - 1] == steps[last]);
    assert(step_time(steps[0]) <= step_time(steps[1]));
    assert(t[0] == steps[1]);
    if steps[0] is Tick {
        if e.debounce.pending {
            let l = choose|l: u64|
                e.debounce == (DebounceState { last_request: Some(l), pending: true }) && l <= step_time(steps[0])
                    && forall|j: int| 0 <= j <= last && no_start_before(steps, j) ==> step_time(#[trigger] steps[j]) < l + e.window;
            assert(no_start_before(steps, 0));
            assert(!is_due(e.debounce, step_time(steps[0]), e.window));
            assert forall|j: int| 0 <= j <= last - 1 && no_start_before(t, j) implies step_time(#[trigger] t[j]) < l + e.window by {
                assert forall|k: int| 0 <= k < j + 1 implies (#[trigger] steps[k]) is Tick by {
                    if k > 0 {
                        assert(steps[k] == t[k - 1]);
                    }
                }
                assert(no_start_before(steps, j + 1));
                assert(t[j] == steps[j + 1]);
            }
        }
        assert(e1 == e);
    } else {
        let c = steps[0]->Started_0;
        let now = step_time(steps[0]);
        assert(e1.debounce == (DebounceState { last_request: Some(now), pending: true }));
        assert forall|j: int| 0 <= j <= last - 1 && no_start_before(t, j) implies step_time(#[trigger] t[j]) < now + e.window by {
            assert(ticks_between(steps, 0, j + 1)) by {
                reveal(ticks_between);
                assert forall|k: int| 0 < k < j + 1 implies (#[trigger] steps[k]) is Tick by {
                    assert(steps[k] == t[k - 1]);
                }
            }
            assert(steps[j + 1] == t[j]);
        }
        assert(e.active + started_of(steps) =~= e1.active + started_of(t));
    }
    lemma_ids_shift(e, steps, last);
    lemma_distinct_shift(steps);
    lemma_gaps_shift(steps, last, e.window);
}

proof fn lemma_ids_shift(e: EngineView, steps: Seq<Step>, last: int)
    requires
        last > 0,
        burst_steps(e, steps, last),
    ensures
        forall|i: int| 0 <= i < steps.drop_first().len() && (#[trigger] steps.drop_first()[i]) is Started ==> i
            <= last - 1 && !has_id(apply_step(e, steps[0]).0.active, steps.drop_first()[i]->Started_0.id),
{
    let t = steps.drop_first();
    let e1 = apply_step(e, steps[0]).0;
    assert forall|i: int| 0 <= i < t.len() && (#[trigger] t[i]) is Started implies i <= last - 1
        && !has_id(e1.active, t[i]->Started_0.id) by {
        assert(t[i] == steps[i + 1]);
        if steps[0] is Started {
            assert(steps[0]->Started_0.id != steps[i + 1]->Started_0.id);
            assert(!has_id(e.active, steps[0]->Started_0.id));
            assert(e1.active == e.active.push(steps[0]->Started_0));
            if has_id(e1.active, t[i]->Started_0.id) {
                let k = choose|k: int| 0 <= k < e1.active.len() && (#[trigger] e1.active[k]).id == t[i]->Started_0.id;
                if k < e.active.len() {
                    assert(e.active[k] == e1.active[k]);
                }
            }
        }
    }
}

proof fn lemma_distinct_shift(steps: Seq<Step>)
    requires
        steps.len() > 0,
        forall|i: int, j: int|
            0 <= i < j < steps.len() && (#[trigger] steps[i]) is Started && (#[trigger] steps[j]) is Started
                ==> steps[i]->Started_0.id != steps[j]->Started_0.id,
    ensures
        forall|i: int, j: int|
            0 <= i < j < steps.drop_first().len() && (#[trigger] steps.drop_first()[i]) is Started && (#[trigger] steps.drop_first()[j]) is Started
                ==> steps.drop_first()[i]->Started_0.id != steps.drop_first()[j]->Started_0.id,
{
    let t = steps.drop_first();
    assert forall|i: int, j: int|
        0 <= i < j < t.len() && (#[trigger] t[i]) is Started && (#[trigger] t[j]) is Started implies t[i]->Started_0.id
            != t[j]->Started_0.id by {
        assert(t[i] == steps[i + 1] && t[j] == steps[j + 1]);
    }
}

proof fn lemma_gaps_shift(steps: Seq<Step>, last: int, window: u64)
    requires
        0 < last < steps.len(),
        within_gaps(steps, last, window),
    ensures
        within_gaps(steps.drop_first(), last - 1, window),
{
    let t = steps.drop_first();
    assert forall|i: int, j: int|
        0 <= i < j <= last - 1 && (#[trigger] t[i]) is Started && #[trigger] ticks_between(t, i, j) implies step_time(t[j])
            < step_time(t[i]) + window by {
        assert(t[i] == steps[i + 1] && t[j] == steps[j + 1]);
        assert(ticks_between(steps, i + 1, j + 1)) by {
            reveal(ticks_between);
            assert forall|k: int| i + 1 < k < j + 1 implies (#[trigger] steps[k]) is Tick by {
                assert(steps[k] == t[k - 1]);
            }
        }
    }
}

proof fn lemma_burst(e: EngineView, steps: Seq<Step>, last: int)
    requires
        e.window > 0,
        burst_steps(e, steps, last),
        owed_within(e, steps, last),
    ensures
        run(e, steps).1 == seq![e.active + started_of(steps)],
    decreases steps.len(),
{
    if last == 0 {
        lemma_burst_last(e, steps);
    } else {
        lemma_burst_step(e, steps, last);
        let e1 = apply_step(e, steps[0]).0;
        lemma_burst(e1, steps.drop_first(), last - 1);
    }
}


/// Each start up to position `last` comes less than `window` after the start before it.
pub open spec fn start_gaps(steps: Seq<Step>, last: int, window: u64) -> bool {
    forall|i: int, j: int|
        0 <= i < j <= last && (#[trigger] steps[i]) is Started && (#[trigger] steps[j]) is Started
            && ticks_between(steps, i, j) ==> step_time(steps[j]) < step_time(steps[i]) + window
}

proof fn lemma_next_start(steps: Seq<Step>, j: int, last: int)
    requires
        0 <= j < last < steps.len(),
        steps[last] is Started,
    ensures
        exists|n: int| j < n <= last && (#[trigger] steps[n]) is Started && ticks_between(steps, j, n),
    decreases last - j,
{
    reveal(ticks_between);
    if steps[j + 1] is Started {
        assert(ticks_between(steps, j, j + 1));
    } else {
        lemma_next_start(steps, j + 1, last);
        let n = choose|n: int| j + 1 < n <= last && (#[trigger] steps[n]) is Started && ticks_between(steps, j + 1, n);
        assert(ticks_between(steps, j, n));
    }
}

/// With ordered times, gaps between consecutive starts give the gaps of every step.
proof fn lemma_start_gaps_suffice(steps: Seq<Step>, last: int, window: u64)
    requires
        times_ordered(steps),
        0 <= last < steps.len(),
        steps[last] is Started,
        start_gaps(steps, last, window),
    ensures
        within_gaps(steps, last, window),
{
    assert forall|i: int, j: int|
        0 <= i < j <= last && (#[trigger] steps[i]) is Started && #[trigger] ticks_between(steps, i, j) implies step_time(steps[j])
            < step_time(steps[i]) + window by {
        if steps[j] is Tick {
            lemma_next_start(steps, j, last);
            let n = choose|n: int| j < n <= last && (#[trigger] steps[n]) is Started && ticks_between(steps, j, n);
            assert(ticks_between(steps, i, n)) by {
                reveal(ticks_between);
            }
            assert(step_time(steps[j]) <= step_time(steps[n]));
        }
    }
}

/// The burst law in the terms of the property: started containers new and distinct, each
/// start less than a quiet-time window after the one before, then ticks until the window after
/// the last start has passed; exactly one pass runs, on the containers tracked before followed
/// by the started ones, in order.
pub proof fn lemma_burst_from_start_gaps(e: EngineView, steps: Seq<Step>, last: int)
    requires
        e.window > 0,
        !e.debounce.pending,
        times_ordered(steps),
        0 <= last < steps.len(),
        steps[last] is Started,
        forall|i: int| 0 <= i < steps.len() && (#[trigger] steps[i]) is Started ==> i <= last
            && !has_id(e.active, steps[i]->Started_0.id),
        forall|i: int, j: int|
            0 <= i < j < steps.len() && (#[trigger] steps[i]) is Started && (#[trigger] steps[j]) is Started
                ==> steps[i]->Started_0.id != steps[j]->Started_0.id,
        start_gaps(steps, last, e.window),
        step_time(steps.last()) >= step_time(steps[last]) + e.window,
    ensures
        run(e, steps).1 == seq![e.active + started_of(steps)],
{
    lemma_start_gaps_suffice(steps, last, e.window);
    lemma_burst_single_pass(e, steps, last);
}

} // verus!
