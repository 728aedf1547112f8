//! The scan as a machine that is fed what happens and answers what to do.
//!
//! A scan walks a tree, launches one unit of work for each directory that
//! the walk yields, collects the size that each unit computes, and reports
//! the largest directories once every unit has delivered. The walk, the
//! units and the channel that carries their results are the driver's; the
//! machine decides. The driver hands it each [`Event`] and carries out the
//! [`Action`] that comes back.
//!
//! A scan passes through these phases: while `Walking`, entries arrive and
//! units are launched; once the walk has ended, the scan is `Draining` the
//! results that are still under way; when the channel has been closed with
//! every result in, the scan is `Done` and the report is handed out. A
//! failure on the way is fatal: the scan is `Failed` from then on and never
//! reports.

use vstd::prelude::*;
use crate::arrange::{injects, lemma_injection_covers, lemma_rearranged};
use crate::rank::{
    lemma_ranking_of_permutation, lemma_ranking_sizes_of_permutation, ranking, sizes,
    sizes_differ, SizeResult, SizeResultView,
};
use crate::report::{report, report_lines};

verus! {

/// Why a scan was given up.
#[derive(Clone, Copy, Debug, PartialEq, Eq, Structural)]
pub enum Fatal {
    /// The size of a directory could not be computed.
    SizeComputation,
    /// A unit could not send its result.
    Channel,
    /// A unit ended without delivering a result.
    UnitJoin,
    /// An event came that the phase of the scan does not admit.
    Protocol,
}

/// How far a scan has come.
#[derive(Clone, Copy, Debug, PartialEq, Eq, Structural)]
pub enum Phase {
    /// The walk is under way: entries come in and units are launched.
    Walking,
    /// The walk has ended; results are still under way.
    Draining,
    /// Every result is in and the report has been handed out.
    Done,
    /// The scan was given up.
    Failed(Fatal),
}

/// The number of results that the channel from the units to the scan holds
/// before a unit that sends another has to wait.
pub const CHANNEL_CAPACITY: usize = 32;

/// What the driver tells the scan.
#[derive(Debug, PartialEq, Eq)]
pub enum Event {
    /// The walk yielded an entry that it could read.
    Entry { path: String, is_dir: bool },
    /// The walk met an entry that it could not read.
    Unreadable,
    /// The walk has yielded its last entry.
    WalkEnded,
    /// A unit delivered the size of its directory.
    Sized { unit: usize, size: u64 },
    /// Something went wrong outside the scan.
    Failed(Fatal),
    /// The channel has been closed: no further result will arrive.
    Closed,
}

/// An [`Event`] as a mathematical value.
pub enum EventView {
    Entry { path: Seq<char>, is_dir: bool },
    Unreadable,
    WalkEnded,
    Sized { unit: usize, size: u64 },
    Failed(Fatal),
    Closed,
}

impl View for Event {
    type V = EventView;

    open spec fn view(&self) -> EventView {
        match self {
            Event::Entry { path, is_dir } => EventView::Entry { path: path@, is_dir: *is_dir },
            Event::Unreadable => EventView::Unreadable,
            Event::WalkEnded => EventView::WalkEnded,
            Event::Sized { unit, size } => EventView::Sized { unit: *unit, size: *size },
            Event::Failed(fatal) => EventView::Failed(*fatal),
            Event::Closed => EventView::Closed,
        }
    }
}

/// What the scan tells the driver to do.
#[derive(Debug, PartialEq, Eq)]
pub enum Action {
    /// Launch the unit with this number on the directory just entered.
    Launch { unit: usize },
    /// Nothing to do but to go on.
    Continue,
    /// The scan is complete: print these lines.
    Report(Vec<String>),
    /// Give up.
    Abort(Fatal),
}

/// An [`Action`] as a mathematical value.
pub enum ActionView {
    Launch { unit: nat },
    Continue,
    Report(Seq<Seq<char>>),
    Abort(Fatal),
}

impl View for Action {
    type V = ActionView;

    open spec fn view(&self) -> ActionView {
        match self {
            Action::Launch { unit } => ActionView::Launch { unit: *unit as nat },
            Action::Continue => ActionView::Continue,
            Action::Report(lines) => ActionView::Report(lines.deep_view()),
            Action::Abort(fatal) => ActionView::Abort(*fatal),
        }
    }
}

/// A result as it came in: the number of the unit and the size it found.
#[derive(Clone, Copy, Debug, PartialEq, Eq, Structural)]
pub struct Arrival {
    pub unit: usize,
    pub size: u64,
}

/// The state of a scan: its phase, the directory of each unit launched so
/// far, by unit number, and the results in the order of their arrival.
pub struct ScanView {
    pub phase: Phase,
    pub dirs: Seq<Seq<char>>,
    pub arrivals: Seq<Arrival>,
}

/// The state in which a scan starts.
pub open spec fn initial() -> ScanView {
    ScanView { phase: Phase::Walking, dirs: Seq::empty(), arrivals: Seq::empty() }
}

/// A result of unit `unit` is among `arrivals`.
pub open spec fn has_arrived(arrivals: Seq<Arrival>, unit: int) -> bool {
    exists|i: int| 0 <= i < arrivals.len() && #[trigger] arrivals[i].unit == unit
}

/// The collected results: each arrival with the directory of its unit.
pub open spec fn results_of(s: ScanView) -> Seq<SizeResultView> {
    Seq::new(
        s.arrivals.len(),
        |i: int|
            SizeResultView { path: s.dirs[s.arrivals[i].unit as int], size: s.arrivals[i].size },
    )
}

/// Every unit launched has delivered.
pub open spec fn complete(s: ScanView) -> bool {
    s.arrivals.len() == s.dirs.len()
}

/// What holds of every state that a scan can be in: each result belongs to
/// a unit that was launched, no unit has delivered twice, and a scan that
/// is done is complete.
pub open spec fn wf(s: ScanView) -> bool {
    &&& forall|i: int| 0 <= i < s.arrivals.len() ==> (#[trigger] s.arrivals[i]).unit < s.dirs.len()
    &&& forall|i: int, j: int|
        0 <= i < j < s.arrivals.len() ==> (#[trigger] s.arrivals[i]).unit != (
        #[trigger] s.arrivals[j]).unit
    &&& s.phase == Phase::Done ==> complete(s)
}

/// The scan given up for `fatal`.
pub open spec fn aborted(s: ScanView, fatal: Fatal) -> (ScanView, ActionView) {
    (ScanView { phase: Phase::Failed(fatal), ..s }, ActionView::Abort(fatal))
}

/// An entry of the walk: a directory gets the next unit, anything else is
/// passed over.
pub open spec fn entered(s: ScanView, path: Seq<char>, is_dir: bool) -> (ScanView, ActionView) {
    if is_dir {
        (ScanView { dirs: s.dirs.push(path), ..s }, ActionView::Launch { unit: s.dirs.len() })
    } else {
        (s, ActionView::Continue)
    }
}

/// A result: it is kept if its unit was launched and has not delivered
/// before, and fatal otherwise.
pub open spec fn delivered(s: ScanView, unit: usize, size: u64) -> (ScanView, ActionView) {
    if unit < s.dirs.len() && !has_arrived(s.arrivals, unit as int) {
        (ScanView { arrivals: s.arrivals.push(Arrival { unit, size }), ..s }, ActionView::Continue)
    } else {
        aborted(s, Fatal::Protocol)
    }
}

/// The closing of the channel: with every result in, the scan is done and
/// reports; with one missing, a unit has ended without delivering.
pub open spec fn closed(s: ScanView) -> (ScanView, ActionView) {
    if complete(s) {
        (ScanView { phase: Phase::Done, ..s }, ActionView::Report(report_lines(results_of(s))))
    } else {
        aborted(s, Fatal::UnitJoin)
    }
}

/// The state after `event` and the action that answers it.
pub open spec fn step_of(s: ScanView, event: EventView) -> (ScanView, ActionView) {
    match s.phase {
        Phase::Failed(fatal) => (s, ActionView::Abort(fatal)),
        Phase::Done => aborted(s, Fatal::Protocol),
        Phase::Walking => match event {
            EventView::Entry { path, is_dir } => entered(s, path, is_dir),
            EventView::Unreadable => (s, ActionView::Continue),
            EventView::WalkEnded => (
                ScanView { phase: Phase::Draining, ..s },
                ActionView::Continue,
            ),
            EventView::Sized { unit, size } => delivered(s, unit, size),
            EventView::Failed(fatal) => aborted(s, fatal),
            EventView::Closed => aborted(s, Fatal::Protocol),
        },
        Phase::Draining => match event {
            EventView::Sized { unit, size } => delivered(s, unit, size),
            EventView::Failed(fatal) => aborted(s, fatal),
            EventView::Closed => closed(s),
            _ => aborted(s, Fatal::Protocol),
        },
    }
}

/// The state of the machine behind a scan.
pub struct Scan {
    phase: Phase,
    dirs: Vec<String>,
    reported: Vec<bool>,
    arrivals: Vec<Arrival>,
}

impl View for Scan {
    type V = ScanView;

    closed spec fn view(&self) -> ScanView {
        ScanView { phase: self.phase, dirs: self.dirs.deep_view(), arrivals: self.arrivals@ }
    }
}

impl Scan {
    #[verifier::type_invariant]
    spec fn inv(&self) -> bool {
        &&& wf(self@)
        &&& self.reported.len() == self.dirs.len()
        &&& forall|unit: int|
            0 <= unit < self.reported.len() ==> (#[trigger] self.reported[unit] <==> has_arrived(
                self.arrivals@,
                unit,
            ))
    }

    /// A scan whose walk is about to start.
    pub fn new() -> (scan: Scan)
        ensures
            scan@ == initial(),
            wf(scan@),
    {
        let scan = Scan {
            phase: Phase::Walking,
            dirs: Vec::new(),
            reported: Vec::new(),
            arrivals: Vec::new(),
        };
        assert(scan.dirs.deep_view() =~= Seq::empty());
        scan
    }

    /// The phase that the scan is in.
    pub fn phase(&self) -> (phase: Phase)
        ensures
            phase == self@.phase,
    {
        self.phase
    }

    /// The number of units launched so far.
    pub fn launched(&self) -> (count: usize)
        ensures
            count == self@.dirs.len(),
    {
        self.dirs.len()
    }

    /// The number of results collected so far.
    pub fn collected(&self) -> (count: usize)
        ensures
            count == self@.arrivals.len(),
    {
        self.arrivals.len()
    }

    /// The results collected so far, in the order of their arrival.
    pub fn results(&self) -> (results: Vec<SizeResult>)
        ensures
            results.deep_view() == results_of(self@),
    {
        proof {
            use_type_invariant(self);
        }
        let mut results: Vec<SizeResult> = Vec::new();
        let mut i: usize = 0;
        while i < self.arrivals.len()
            invariant
                i <= self.arrivals.len(),
                wf(self@),
                results.len() == i,
                forall|k: int| 0 <= k < i ==> results[k]@ == results_of(self@)[k],
            decreases self.arrivals.len() - i,
        {
            let arrival = self.arrivals[i];
            assert(self@.arrivals[i as int].unit < self@.dirs.len());
            let path = self.dirs[arrival.unit].clone();
            results.push(SizeResult::new(path, arrival.size));
            i += 1;
        }
        assert(results.deep_view() =~= results_of(self@));
        results
    }

    /// Takes `event` in: the scan moves on and says what the driver is to
    /// do.
    pub fn step(self, event: Event) -> (next: (Scan, Action))
        ensures
            (next.0@, next.1@) == step_of(self@, event@),
            wf(next.0@),
    {
        proof {
            use_type_invariant(&self);
            lemma_step_keeps_wf(self@, event@);
        }
        match self.phase {
            Phase::Failed(fatal) => (self, Action::Abort(fatal)),
            Phase::Done => self.abort(Fatal::Protocol),
            Phase::Walking => match event {
                Event::Entry { path, is_dir } => self.enter(path, is_dir),
                Event::Unreadable => (self, Action::Continue),
                Event::WalkEnded => {
                    let Scan { phase, dirs, reported, arrivals } = self;
                    (Scan { phase: Phase::Draining, dirs, reported, arrivals }, Action::Continue)
                },
                Event::Sized { unit, size } => self.deliver(unit, size),
                Event::Failed(fatal) => self.abort(fatal),
                Event::Closed => self.abort(Fatal::Protocol),
            },
            Phase::Draining => match event {
                Event::Sized { unit, size } => self.deliver(unit, size),
                Event::Failed(fatal) => self.abort(fatal),
                Event::Closed => self.close(),
                _ => self.abort(Fatal::Protocol),
            },
        }
    }

    fn abort(self, fatal: Fatal) -> (next: (Scan, Action))
        ensures
            (next.0@, next.1@) == aborted(self@, fatal),
    {
        proof {
            use_type_invariant(&self);
        }
        let ghost before = self@;
        let Scan { phase, dirs, reported, arrivals } = self;
        let next = Scan { phase: Phase::Failed(fatal), dirs, reported, arrivals };
        assert(next@.arrivals == before.arrivals);
        assert(wf(before));
        (next, Action::Abort(fatal))
    }

    fn enter(self, path: String, is_dir: bool) -> (next: (Scan, Action))
        requires
            self@.phase == Phase::Walking,
        ensures
            (next.0@, next.1@) == entered(self@, path@, is_dir),
    {
        proof {
            use_type_invariant(&self);
        }
        if is_dir {
            let ghost before = self@;
            let Scan { phase, mut dirs, mut reported, arrivals } = self;
            let unit = dirs.len();
            dirs.push(path);
            reported.push(false);
            proof {
                assert(dirs.deep_view() =~= before.dirs.push(path@));
                assert(!has_arrived(arrivals@, unit as int));
            }
            (Scan { phase, dirs, reported, arrivals }, Action::Launch { unit })
        } else {
            (self, Action::Continue)
        }
    }

    fn deliver(self, unit: usize, size: u64) -> (next: (Scan, Action))
        requires
            self@.phase == Phase::Walking || self@.phase == Phase::Draining,
        ensures
            (next.0@, next.1@) == delivered(self@, unit, size),
    {
        proof {
            use_type_invariant(&self);
        }
        if unit < self.dirs.len() && !self.reported[unit] {
            let ghost before = self@;
            let Scan { phase, dirs, mut reported, mut arrivals } = self;
            reported.set(unit, true);
            arrivals.push(Arrival { unit, size });
            proof {
                let after = arrivals@;
                assert(after == before.arrivals.push(Arrival { unit, size }));
                assert(after[after.len() - 1].unit == unit);
                assert forall|other: int| 0 <= other < reported.len() implies (
                #[trigger] reported[other] <==> has_arrived(after, other)) by {
                    if has_arrived(before.arrivals, other) {
                        let i = choose|i: int|
                            0 <= i < before.arrivals.len() && #[trigger] before.arrivals[i].unit
                                == other;
                        assert(after[i].unit == other);
                    }
                    if has_arrived(after, other) && other != unit {
                        let i = choose|i: int|
                            0 <= i < after.len() && #[trigger] after[i].unit == other;
                        assert(before.arrivals[i].unit == other);
                    }
                }
                assert forall|i: int, j: int| 0 <= i < j < after.len() implies (
                #[trigger] after[i]).unit != (#[trigger] after[j]).unit by {
                    if j == after.len() - 1 {
                        assert(before.arrivals[i].unit != unit);
                    } else {
                        assert(before.arrivals[i].unit != before.arrivals[j].unit);
                    }
                }
            }
            (Scan { phase, dirs, reported, arrivals }, Action::Continue)
        } else {
            self.abort(Fatal::Protocol)
        }
    }

    fn close(self) -> (next: (Scan, Action))
        ensures
            (next.0@, next.1@) == closed(self@),
    {
        proof {
            use_type_invariant(&self);
        }
        if self.arrivals.len() == self.dirs.len() {
            let results = self.results();
            let lines = report(&results);
            let Scan { phase, dirs, reported, arrivals } = self;
            (Scan { phase: Phase::Done, dirs, reported, arrivals }, Action::Report(lines))
        } else {
            self.abort(Fatal::UnitJoin)
        }
    }
}

/// The state that a scan is in after `events`, taken in from the start.
pub open spec fn run(events: Seq<EventView>) -> ScanView
    decreases events.len(),
{
    if events.len() == 0 {
        initial()
    } else {
        step_of(run(events.drop_last()), events.last()).0
    }
}

/// The directories among the entries of `events`, in the order of the walk.
pub open spec fn directories(events: Seq<EventView>) -> Seq<Seq<char>>
    decreases events.len(),
{
    if events.len() == 0 {
        Seq::empty()
    } else {
        let before = directories(events.drop_last());
        match events.last() {
            EventView::Entry { path, is_dir } => if is_dir {
                before.push(path)
            } else {
                before
            },
            _ => before,
        }
    }
}

/// The units of `arrivals`, in the order of arrival.
pub open spec fn units_of(arrivals: Seq<Arrival>) -> Seq<int> {
    Seq::new(arrivals.len(), |i: int| arrivals[i].unit as int)
}

/// In a well-formed state the arrivals name units that were launched, none
/// of them twice.
pub proof fn lemma_wf_injects(s: ScanView)
    requires
        wf(s),
    ensures
        injects(units_of(s.arrivals), s.dirs.len()),
{
    let units = units_of(s.arrivals);
    assert forall|i: int| 0 <= i < units.len() implies 0 <= #[trigger] units[i]
        < s.dirs.len() by {
        assert(s.arrivals[i].unit < s.dirs.len());
    }
    assert forall|i: int, j: int| 0 <= i < j < units.len() implies units[i] != units[j] by {
        assert(s.arrivals[i].unit != s.arrivals[j].unit);
    }
}

/// A scan starts in a well-formed state.
pub proof fn lemma_initial_wf()
    ensures
        wf(initial()),
{
}

/// No event leads out of the well-formed states.
pub proof fn lemma_step_keeps_wf(s: ScanView, event: EventView)
    requires
        wf(s),
    ensures
        wf(step_of(s, event).0),
{
    let next = step_of(s, event).0;
    if next.arrivals != s.arrivals {
        let unit = event->Sized_unit;
        let size = event->Sized_size;
        assert(next.arrivals == s.arrivals.push(Arrival { unit, size }));
        assert(next.dirs == s.dirs);
        assert forall|i: int, j: int| 0 <= i < j < next.arrivals.len() implies (
        #[trigger] next.arrivals[i]).unit != (#[trigger] next.arrivals[j]).unit by {
            if j == s.arrivals.len() {
                assert(s.arrivals[i].unit != unit);
            } else {
                assert(s.arrivals[i].unit != s.arrivals[j].unit);
            }
        }
    }
}

/// Whatever the events, the scan is in a well-formed state.
pub proof fn lemma_run_wf(events: Seq<EventView>)
    ensures
        wf(run(events)),
    decreases events.len(),
{
    if events.len() == 0 {
        lemma_initial_wf();
    } else {
        lemma_run_wf(events.drop_last());
        lemma_step_keeps_wf(run(events.drop_last()), events.last());
    }
}

/// No more results are collected than units were launched; and in a
/// complete scan every unit has delivered.
pub proof fn lemma_complete_covers(s: ScanView)
    requires
        wf(s),
    ensures
        s.arrivals.len() <= s.dirs.len(),
        complete(s) ==> forall|unit: int|
            0 <= unit < s.dirs.len() ==> #[trigger] has_arrived(s.arrivals, unit),
{
    let units = units_of(s.arrivals);
    lemma_wf_injects(s);
    lemma_injection_covers(units, s.dirs.len());
    if complete(s) {
        assert forall|unit: int| 0 <= unit < s.dirs.len() implies #[trigger] has_arrived(
            s.arrivals,
            unit,
        ) by {
            assert(units.contains(unit));
            let i = choose|i: int| 0 <= i < units.len() && units[i] == unit;
            assert(s.arrivals[i].unit == unit);
        }
    }
}

/// As long as a scan has not failed, the units launched are the
/// directories that the walk has yielded: one unit for each, in the order
/// of the walk, and none for anything else.
pub proof fn lemma_launches_directories(events: Seq<EventView>)
    ensures
        !(run(events).phase is Failed) ==> run(events).dirs == directories(events),
    decreases events.len(),
{
    if events.len() > 0 {
        lemma_launches_directories(events.drop_last());
    }
}

/// Every result that a scan holds was delivered: among the events is the
/// one that brought this size from this unit.
pub proof fn lemma_arrivals_were_delivered(events: Seq<EventView>, i: int)
    requires
        0 <= i < run(events).arrivals.len(),
    ensures
        events.contains(
            EventView::Sized {
                unit: run(events).arrivals[i].unit,
                size: run(events).arrivals[i].size,
            },
        ),
    decreases events.len(),
{
    if events.len() > 0 {
        let before = run(events.drop_last());
        let arrival = run(events).arrivals[i];
        let event = EventView::Sized { unit: arrival.unit, size: arrival.size };
        if i < before.arrivals.len() {
            assert(before.arrivals[i] == arrival);
            lemma_arrivals_were_delivered(events.drop_last(), i);
            let earlier = events.drop_last();
            let k = choose|k: int| 0 <= k < earlier.len() && earlier[k] == event;
            assert(events[k] == event);
        } else {
            assert(events[events.len() - 1] == event);
        }
    }
}

/// A scan that is done has collected exactly one result for each directory
/// that the walk yielded, and nothing else: as many results as
/// directories, each under the path of the directory whose unit delivered
/// it, no two from one unit, and one from every unit.
pub proof fn lemma_done_covers_walk(events: Seq<EventView>)
    requires
        run(events).phase == Phase::Done,
    ensures
        ({
            let s = run(events);
            let found = directories(events);
            &&& results_of(s).len() == found.len()
            &&& forall|i: int|
                0 <= i < s.arrivals.len() ==> (#[trigger] s.arrivals[i]).unit < found.len()
                    && results_of(s)[i].path == found[s.arrivals[i].unit as int]
            &&& forall|i: int, j: int|
                0 <= i < j < s.arrivals.len() ==> (#[trigger] s.arrivals[i]).unit != (
                #[trigger] s.arrivals[j]).unit
            &&& forall|unit: int|
                0 <= unit < found.len() ==> #[trigger] has_arrived(s.arrivals, unit)
        }),
{
    lemma_run_wf(events);
    lemma_launches_directories(events);
    lemma_complete_covers(run(events));
}

/// A failure is final: whatever comes after it, the state stays as it is
/// and the answer is to give up for the same reason.
pub proof fn lemma_failed_is_final(s: ScanView, event: EventView)
    requires
        s.phase is Failed,
    ensures
        step_of(s, event) == (s, ActionView::Abort(s.phase->Failed_0)),
{
}

/// A report is handed out at one point only: when the channel is closed
/// on a draining scan that is complete. It is the report on the results
/// collected, and the scan is done with it.
pub proof fn lemma_report_when_done(s: ScanView, event: EventView)
    ensures
        step_of(s, event).1 is Report <==> s.phase == Phase::Draining && event is Closed
            && complete(s),
        step_of(s, event).1 is Report ==> step_of(s, event).0.phase == Phase::Done && step_of(
            s,
            event,
        ).1 == ActionView::Report(report_lines(results_of(s))),
        step_of(s, event).0.phase == Phase::Done ==> step_of(s, event).1 is Report,
{
}

/// Each unit that delivered in both scans delivered the same size in both.
pub open spec fn same_deliveries(a: ScanView, b: ScanView) -> bool {
    forall|i: int, j: int|
        0 <= i < a.arrivals.len() && 0 <= j < b.arrivals.len() && (#[trigger] a.arrivals[i]).unit
            == (#[trigger] b.arrivals[j]).unit ==> a.arrivals[i].size == b.arrivals[j].size
}

/// The size that unit `unit` delivered.
pub open spec fn size_from(arrivals: Seq<Arrival>, unit: int) -> u64 {
    let i = choose|i: int| 0 <= i < arrivals.len() && #[trigger] arrivals[i].unit == unit;
    arrivals[i].size
}

/// What each unit found, by unit number.
pub open spec fn findings(s: ScanView) -> Seq<SizeResultView> {
    Seq::new(
        s.dirs.len(),
        |unit: int| SizeResultView { path: s.dirs[unit], size: size_from(s.arrivals, unit) },
    )
}

/// The results of a complete scan are what the units found, in the order
/// of arrival: they hold each finding once.
pub proof fn lemma_results_are_findings(s: ScanView)
    requires
        wf(s),
        complete(s),
    ensures
        results_of(s).to_multiset() == findings(s).to_multiset(),
        forall|i: int|
            0 <= i < s.arrivals.len() ==> results_of(s)[i] == findings(s)[(
            #[trigger] s.arrivals[i]).unit as int],
{
    let units = units_of(s.arrivals);
    lemma_wf_injects(s);
    assert forall|i: int| 0 <= i < s.arrivals.len() implies results_of(s)[i] == findings(s)[(
    #[trigger] s.arrivals[i]).unit as int] by {
        let unit = s.arrivals[i].unit as int;
        let k = choose|k: int| 0 <= k < s.arrivals.len() && #[trigger] s.arrivals[k].unit == unit;
        if k < i {
            assert(s.arrivals[k].unit != s.arrivals[i].unit);
        } else if i < k {
            assert(s.arrivals[i].unit != s.arrivals[k].unit);
        }
    }
    assert forall|i: int| 0 <= i < results_of(s).len() implies results_of(s)[i] == findings(
        s,
    )[#[trigger] units[i]] by {
        assert(results_of(s)[i] == findings(s)[s.arrivals[i].unit as int]);
    }
    lemma_rearranged(findings(s), results_of(s), units);
}

/// In two complete scans of the same directories, walked in the same
/// order, in which each unit delivered the same size, the units found the
/// same.
pub proof fn lemma_same_findings(a: ScanView, b: ScanView)
    requires
        wf(a),
        wf(b),
        complete(a),
        complete(b),
        a.dirs == b.dirs,
        same_deliveries(a, b),
    ensures
        findings(a) == findings(b),
{
    lemma_complete_covers(a);
    lemma_complete_covers(b);
    assert forall|unit: int| 0 <= unit < a.dirs.len() implies size_from(a.arrivals, unit)
        == size_from(b.arrivals, unit) by {
        assert(has_arrived(a.arrivals, unit));
        assert(has_arrived(b.arrivals, unit));
        let i = choose|i: int| 0 <= i < a.arrivals.len() && #[trigger] a.arrivals[i].unit == unit;
        let j = choose|j: int| 0 <= j < b.arrivals.len() && #[trigger] b.arrivals[j].unit == unit;
        assert(a.arrivals[i].size == b.arrivals[j].size);
    }
    assert(findings(a) =~= findings(b));
}

/// Two complete scans whose units found the same, in whatever order the
/// directories were walked and the results arrived, collect the same
/// results. Their reports show the same sizes in every position; and
/// where no two directories have the same size, the reports are the same.
pub proof fn lemma_rerun_reports_alike(a: ScanView, b: ScanView)
    requires
        wf(a),
        wf(b),
        complete(a),
        complete(b),
        findings(a).to_multiset() == findings(b).to_multiset(),
    ensures
        results_of(a).to_multiset() == results_of(b).to_multiset(),
        sizes(ranking(results_of(a))) == sizes(ranking(results_of(b))),
        sizes_differ(results_of(a)) ==> ranking(results_of(a)) == ranking(results_of(b))
            && report_lines(results_of(a)) == report_lines(results_of(b)),
{
    lemma_results_are_findings(a);
    lemma_results_are_findings(b);
    lemma_ranking_sizes_of_permutation(results_of(a), results_of(b));
    if sizes_differ(results_of(a)) {
        lemma_ranking_of_permutation(results_of(a), results_of(b));
    }
}

} // verus!
