//! The engine that keeps the published areas up to date: it decides when a
//! new computation is due, which computation is the current one, and whose
//! result may be published. It computes nothing itself and never waits: the
//! caller runs each computation in the background and reports its result.

use vstd::prelude::*;
use crate::components::ConnectedComponents;
use crate::grid::Grid;
use crate::lifecycle::DirtyGridEvent;
use crate::location::GridLocation;

verus! {

/// Whether a computation is under way.
#[derive(Clone, Copy, PartialEq, Eq, Structural, Debug)]
pub enum EngineState {
    Idle,
    Computing,
}

/// What an engine knows.
pub struct EngineView {
    /// The ticket of the computation under way, if there is one.
    pub in_flight: Option<u64>,
    /// Whether a notice has arrived for which no computation was started.
    pub dirty: bool,
    /// How many computations were started so far. Tickets are numbered in
    /// the order in which they were issued, from zero.
    pub issued: nat,
    /// The published areas.
    pub published: Seq<Seq<GridLocation>>,
}

/// What may happen to an engine.
pub enum EngineEvent {
    /// A tick on which `notices` notices have arrived.
    Tick { notices: nat },
    /// The computation with the given ticket has ended with `result`.
    Done { ticket: u64, result: Seq<Seq<GridLocation>> },
}

/// The invariant of an engine: the ticket of the computation under way was
/// issued, and the number of issued tickets fits the ticket type.
pub open spec fn engine_wf(s: EngineView) -> bool {
    &&& s.issued <= u64::MAX
    &&& s.in_flight matches Some(t) ==> t < s.issued
}

/// The engine before anything has happened.
pub open spec fn initial_engine() -> EngineView {
    EngineView { in_flight: None, dirty: false, issued: 0, published: Seq::empty() }
}

/// The engine after `notices` notices have arrived. Only whether there was
/// one counts.
pub open spec fn observed(s: EngineView, notices: nat) -> EngineView {
    EngineView { dirty: s.dirty || notices > 0, ..s }
}

/// Whether the engine starts a computation now: a notice is waiting, and a
/// ticket is left.
pub open spec fn can_submit(s: EngineView) -> bool {
    s.dirty && s.issued < u64::MAX
}

/// The engine after it has started a computation, if one is due. The new
/// computation takes the place of the one under way.
pub open spec fn submitted(s: EngineView) -> EngineView {
    if can_submit(s) {
        EngineView {
            in_flight: Some(s.issued as u64),
            dirty: false,
            issued: s.issued + 1,
            published: s.published,
        }
    } else {
        s
    }
}

/// The engine after the computation `ticket` has reported `result`. The
/// result is published if `ticket` is the computation under way, and dropped
/// otherwise.
pub open spec fn resolved(
    s: EngineView,
    ticket: u64,
    result: Seq<Seq<GridLocation>>,
) -> EngineView {
    if s.in_flight == Some(ticket) {
        EngineView { in_flight: None, published: result, ..s }
    } else {
        s
    }
}

/// The engine after one event.
pub open spec fn step(s: EngineView, ev: EngineEvent) -> EngineView {
    match ev {
        EngineEvent::Tick { notices } => submitted(observed(s, notices)),
        EngineEvent::Done { ticket, result } => resolved(s, ticket, result),
    }
}

/// The engine after the events of `evs`, one after the other.
pub open spec fn run(s: EngineView, evs: Seq<EngineEvent>) -> EngineView
    decreases evs.len(),
{
    if evs.len() == 0 {
        s
    } else {
        step(run(s, evs.drop_last()), evs.last())
    }
}

/// A computation to run in the background.
pub struct Submission<T> {
    /// The ticket under which to report the result.
    pub ticket: u64,
    /// The computation that this one replaces, to be dropped.
    pub superseded: Option<u64>,
    /// The copy of the index on which to compute.
    pub snapshot: Grid<T>,
}

/// The engine of channel `T`.
pub struct ComponentsEngine<T> {
    in_flight: Option<u64>,
    dirty: bool,
    issued: u64,
    published: ConnectedComponents<T>,
}

impl<T> View for ComponentsEngine<T> {
    type V = EngineView;

    closed spec fn view(&self) -> EngineView {
        EngineView {
            in_flight: self.in_flight,
            dirty: self.dirty,
            issued: self.issued as nat,
            published: self.published@,
        }
    }
}

impl<T> ComponentsEngine<T> {
    /// The invariant of the engine.
    pub open spec fn wf(&self) -> bool {
        engine_wf(self@)
    }

    /// An idle engine that has published no areas.
    pub fn new() -> (r: Self)
        ensures
            r.wf(),
            r@ == initial_engine(),
    {
        ComponentsEngine {
            in_flight: None,
            dirty: false,
            issued: 0,
            published: ConnectedComponents::default(),
        }
    }

    /// Whether a computation is under way.
    pub fn state(&self) -> (r: EngineState)
        ensures
            r == if self@.in_flight is Some {
                EngineState::Computing
            } else {
                EngineState::Idle
            },
    {
        if self.in_flight.is_some() {
            EngineState::Computing
        } else {
            EngineState::Idle
        }
    }

    /// The areas that were published last.
    pub fn published(&self) -> (r: &ConnectedComponents<T>)
        ensures
            r@ == self@.published,
    {
        &self.published
    }

    /// To run on each tick, after the index has been brought up to date,
    /// with the notices of the tick. If a notice has arrived, now or
    /// earlier, the engine starts one computation on a copy of `grid`,
    /// whatever the number of notices, and the computation under way, if
    /// any, is superseded. Otherwise nothing changes.
    pub fn update_connected_components(
        &mut self,
        events: &Vec<DirtyGridEvent<T>>,
        grid: &Grid<T>,
    ) -> (r: Option<Submission<T>>)
        requires
            old(self).wf(),
            grid.wf(),
        ensures
            final(self).wf(),
            final(self)@ == step(old(self)@, EngineEvent::Tick { notices: events@.len() }),
            r is Some == can_submit(observed(old(self)@, events@.len())),
            r matches Some(job) ==> job.ticket == old(self)@.issued && job.superseded == old(
                self,
            )@.in_flight && job.snapshot@ == grid@ && job.snapshot.wf(),
    {
        if events.len() > 0 {
            self.dirty = true;
        }
        if self.dirty && self.issued < u64::MAX {
            let ticket: u64 = self.issued;
            let superseded = self.in_flight;
            self.in_flight = Some(ticket);
            self.dirty = false;
            self.issued = ticket + 1;
            Some(Submission { ticket, superseded, snapshot: grid.clone() })
        } else {
            None
        }
    }

    /// To run when the computation `ticket` has ended with `result`. The
    /// result is published, and the engine idle again, if `ticket` is the
    /// computation under way; the result of a superseded computation is
    /// dropped. Returns whether the result was published.
    pub fn resolve_connected_components(
        &mut self,
        ticket: u64,
        result: ConnectedComponents<T>,
    ) -> (r: bool)
        requires
            old(self).wf(),
        ensures
            final(self).wf(),
            final(self)@ == step(
                old(self)@,
                EngineEvent::Done { ticket, result: result@ },
            ),
            r == (old(self)@.in_flight == Some(ticket)),
    {
        match self.in_flight {
            Some(current) => {
                if current == ticket {
                    self.in_flight = None;
                    self.published = result;
                    true
                } else {
                    false
                }
            },
            None => false,
        }
    }
}

impl<T> Default for ComponentsEngine<T> {
    /// An idle engine that has published no areas.
    fn default() -> (r: Self)
        ensures
            r.wf(),
            r@ == initial_engine(),
    {
        ComponentsEngine::new()
    }
}

/// Every event keeps the invariant of the engine, and tickets are never
/// taken back.
pub proof fn lemma_step_wf(s: EngineView, ev: EngineEvent)
    requires
        engine_wf(s),
    ensures
        engine_wf(step(s, ev)),
        step(s, ev).issued >= s.issued,
{
}

/// However many notices arrive on one tick, at most one computation is
/// started, and exactly one if a ticket is left; the engine ends in the
/// state in which a single notice would have left it, and a tick without
/// notices that follows starts nothing.
pub proof fn lemma_notices_coalesce(s: EngineView, notices: nat)
    requires
        engine_wf(s),
        notices > 0,
    ensures
        step(s, EngineEvent::Tick { notices }) == step(s, EngineEvent::Tick { notices: 1 }),
        s.issued < u64::MAX ==> step(s, EngineEvent::Tick { notices }).issued == s.issued + 1,
        s.issued < u64::MAX ==> step(s, EngineEvent::Tick { notices }).in_flight == Some(
            s.issued as u64,
        ),
        s.issued < u64::MAX ==> step(
            step(s, EngineEvent::Tick { notices }),
            EngineEvent::Tick { notices: 0 },
        ) == step(s, EngineEvent::Tick { notices }),
{
}

/// A ticket that was issued and is not under way is never under way again,
/// whatever happens: a result reported under it changes nothing.
pub proof fn lemma_stale_stays_stale(s: EngineView, stale: u64, evs: Seq<EngineEvent>)
    requires
        engine_wf(s),
        stale < s.issued,
        s.in_flight != Some(stale),
    ensures
        engine_wf(run(s, evs)),
        stale < run(s, evs).issued,
        run(s, evs).in_flight != Some(stale),
        forall|result: Seq<Seq<GridLocation>>|
            step(run(s, evs), EngineEvent::Done { ticket: stale, result }) == run(s, evs),
    decreases evs.len(),
{
    if evs.len() > 0 {
        lemma_stale_stays_stale(s, stale, evs.drop_last());
        lemma_step_wf(run(s, evs.drop_last()), evs.last());
    }
}

/// When a notice arrives while a computation is under way, and a ticket is
/// left, a second computation takes its place. From then on the result of
/// the first is never published, whenever it is reported; the result of the
/// second is published if it is reported while the second is under way.
pub proof fn lemma_superseded_never_published(
    s: EngineView,
    first: u64,
    notices: nat,
    evs: Seq<EngineEvent>,
    result: Seq<Seq<GridLocation>>,
)
    requires
        engine_wf(s),
        s.in_flight == Some(first),
        notices > 0,
        s.issued < u64::MAX,
    ensures
        ({
            let s1 = step(s, EngineEvent::Tick { notices });
            let second = s.issued as u64;
            &&& s1.in_flight == Some(second)
            &&& second != first
            &&& step(run(s1, evs), EngineEvent::Done { ticket: first, result }) == run(s1, evs)
            &&& step(s1, EngineEvent::Done { ticket: second, result }).published == result
        }),
{
    let s1 = step(s, EngineEvent::Tick { notices });
    lemma_step_wf(s, EngineEvent::Tick { notices });
    lemma_stale_stays_stale(s1, first, evs);
}

} // verus!
