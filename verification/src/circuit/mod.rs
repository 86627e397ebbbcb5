//! Circuits: fixed, closed routes that a train repeats forever. A route is an
//! ordered list of steps; a step either occupies one segment exclusively or
//! batch-holds several segments at once, releasing them one at a time. The
//! lap runner executes a route one primitive operation at a time against the
//! shared segment network, so that an unverified shell can sleep between
//! operations and tests can probe the network mid-lap.

use vstd::prelude::*;

use crate::network::SegmentNetwork;
use crate::observer::PositionCell;
use crate::track::TrackState;
use crate::Train;

mod blue_circuit;
mod green_circuit;
mod purple_circuit;
mod red_circuit;

pub use blue_circuit::BlueCircuit;
pub use blue_circuit::blue_publishes;
pub use green_circuit::GreenCircuit;
pub use green_circuit::green_route;
pub use purple_circuit::PurpleCircuit;
pub use purple_circuit::purple_route;
pub use red_circuit::RedCircuit;
pub use red_circuit::red_route;

verus! {

/// One step of a route. `Exclusive` occupies a single segment and frees it
/// before the next step. `BatchHold` acquires every listed segment up front
/// (in the listed order), then traverses and releases them one at a time in
/// the second list's order, holding the not-yet-released ones throughout.
#[derive(Debug)]
pub enum Step {
    Exclusive(TrackState),
    BatchHold(Vec<TrackState>, Vec<TrackState>),
}

/// Why a route was rejected at construction. A rejected route is a fatal
/// startup condition; there is no runtime recovery.
#[derive(Clone, Copy, PartialEq, Eq, Structural, Debug)]
pub enum ConfigError {
    /// The route has no step at all.
    EmptyRoute,
    /// A batch hold lists no segment.
    EmptyBatch,
    /// A step names a segment outside the network.
    SegmentOutOfRange,
    /// A batch hold does not request its segments in ascending label order.
    /// Every circuit must acquire along the one global segment order, or two
    /// circuits could deadlock in a circular wait.
    UnorderedBatch,
    /// A batch hold's release order is not a rearrangement of its hold list.
    MismatchedRelease,
}

/// Every listed segment lies inside a network of `n` segments.
pub open spec fn segs_in_range(s: Seq<TrackState>, n: int) -> bool {
    forall|i: int| 0 <= i < s.len() ==> s[i].index_spec() < n
}

/// Segment labels strictly ascend: the global acquisition order that rules
/// out circular waits between batch holds.
pub open spec fn strictly_increasing(s: Seq<TrackState>) -> bool {
    forall|i: int, k: int|
        0 <= i < k < s.len() ==> s[i].index_spec() < s[k].index_spec()
}

/// No two listed segments share an index.
pub open spec fn distinct_indices(s: Seq<TrackState>) -> bool {
    forall|i: int, k: int|
        0 <= i < k < s.len() ==> s[i].index_spec() != s[k].index_spec()
}

/// The release order names exactly the held segments, each once.
pub open spec fn release_matches(hold: Seq<TrackState>, rel: Seq<TrackState>) -> bool {
    &&& rel.len() == hold.len()
    &&& forall|i: int| 0 <= i < rel.len() ==> hold.contains(rel[i])
    &&& forall|i: int| 0 <= i < hold.len() ==> rel.contains(hold[i])
    &&& distinct_indices(rel)
}

/// The first reason, if any, to reject one step against a network of `n`
/// segments.
pub open spec fn step_error(s: Step, n: int) -> Option<ConfigError> {
    match s {
        Step::Exclusive(t) => if t.index_spec() < n {
            None
        } else {
            Some(ConfigError::SegmentOutOfRange)
        },
        Step::BatchHold(hold, rel) => if hold@.len() == 0 {
            Some(ConfigError::EmptyBatch)
        } else if !segs_in_range(hold@, n) {
            Some(ConfigError::SegmentOutOfRange)
        } else if !strictly_increasing(hold@) {
            Some(ConfigError::UnorderedBatch)
        } else if !release_matches(hold@, rel@) {
            Some(ConfigError::MismatchedRelease)
        } else {
            None
        },
    }
}

/// The first reason, if any, to reject any step of the list, scanning in
/// route order.
pub open spec fn steps_error(steps: Seq<Step>, n: int) -> Option<ConfigError>
    decreases steps.len(),
{
    if steps.len() == 0 {
        None
    } else if step_error(steps[0], n) is Some {
        step_error(steps[0], n)
    } else {
        steps_error(steps.drop_first(), n)
    }
}

/// The first reason, if any, to reject a whole route.
pub open spec fn route_error(steps: Seq<Step>, n: int) -> Option<ConfigError> {
    if steps.len() == 0 {
        Some(ConfigError::EmptyRoute)
    } else {
        steps_error(steps, n)
    }
}

/// A route construction accepts exactly the routes without any error.
pub open spec fn route_valid(steps: Seq<Step>, n: int) -> bool {
    route_error(steps, n) is None
}

/// The positions one step publishes, in order.
pub open spec fn step_publishes(s: Step) -> Seq<TrackState> {
    match s {
        Step::Exclusive(t) => seq![t],
        Step::BatchHold(hold, rel) => rel@,
    }
}

/// The positions one full lap publishes, in order.
pub open spec fn route_publishes(steps: Seq<Step>) -> Seq<TrackState>
    decreases steps.len(),
{
    if steps.len() == 0 {
        Seq::empty()
    } else {
        route_publishes(steps.drop_last()) + step_publishes(steps.last())
    }
}

/// The first step's primary segment: where the train is rendered before its
/// first lap, and where every lap starts publishing.
pub open spec fn route_first(steps: Seq<Step>) -> TrackState {
    match steps[0] {
        Step::Exclusive(t) => t,
        Step::BatchHold(hold, rel) => rel@[0],
    }
}

/// In a valid route every step is free of errors.
pub proof fn lemma_steps_all_ok(steps: Seq<Step>, n: int, i: int)
    requires
        steps_error(steps, n) is None,
        0 <= i < steps.len(),
    ensures
        step_error(steps[i], n) is None,
    decreases i,
{
    if i > 0 {
        lemma_steps_all_ok(steps.drop_first(), n, i - 1);
        assert(steps.drop_first()[i - 1] == steps[i]);
    }
}

/// A valid route publishes at least one position, and the first one is the
/// route's first segment.
pub proof fn lemma_route_first_published(steps: Seq<Step>, n: int)
    requires
        route_valid(steps, n),
    ensures
        route_publishes(steps).len() > 0,
        route_publishes(steps)[0] == route_first(steps),
    decreases steps.len(),
{
    lemma_steps_all_ok(steps, n, 0);
    if steps.len() == 1 {
        assert(steps.drop_last().len() == 0);
        assert(steps.last() == steps[0]);
        assert(route_publishes(steps.drop_last()) == Seq::<TrackState>::empty());
        assert(route_publishes(steps) =~= step_publishes(steps[0]));
        match steps[0] {
            Step::Exclusive(t) => {
                assert(step_publishes(steps[0])[0] == t);
            }
            Step::BatchHold(hold, rel) => {
                assert(rel@.len() > 0);
                assert(step_publishes(steps[0])[0] == rel@[0]);
            }
        }
    } else {
        let front = steps.drop_last();
        assert(front[0] == steps[0]);
        assert(steps_error(front, n) is None) by {
            lemma_steps_error_drop_last(steps, n);
        }
        lemma_route_first_published(front, n);
    }
}

/// Dropping the last step of an error-free step list keeps it error-free.
pub proof fn lemma_steps_error_drop_last(steps: Seq<Step>, n: int)
    requires
        steps_error(steps, n) is None,
        steps.len() > 0,
    ensures
        steps_error(steps.drop_last(), n) is None,
    decreases steps.len(),
{
    if steps.len() > 1 {
        lemma_steps_error_drop_last(steps.drop_first(), n);
        assert(steps.drop_first().drop_last() =~= steps.drop_last().drop_first());
        assert(steps.drop_last()[0] == steps[0]);
    }
}

/// A fixed, validated route: an ordered list of steps over a segment network.
#[derive(Debug)]
pub struct Route {
    pub steps: Vec<Step>,
}

/// One primitive operation of a lap, identified in specifications by the
/// position inside a step.
pub enum LapOp {
    Acquire(TrackState),
    Traverse(TrackState),
    Release(TrackState),
}

/// What one call of `LapRunner::step` did. `Blocked` reports an acquisition
/// attempt on a segment held elsewhere: the runner did not move, and the
/// caller decides whether to retry — the network itself promises no fairness.
#[derive(Clone, Copy, PartialEq, Eq, Structural, Debug)]
pub enum StepOutcome {
    Acquired(TrackState),
    Traversed(TrackState, u64),
    Released(TrackState),
    Blocked(TrackState),
}

/// How many primitive operations one step takes.
pub open spec fn step_len(s: Step) -> int {
    match s {
        Step::Exclusive(t) => 3,
        Step::BatchHold(hold, rel) => hold@.len() as int + 2 * rel@.len() as int,
    }
}

/// The operation a step performs at position `sub`: an exclusive step goes
/// acquire, traverse, release; a batch hold first acquires every segment in
/// hold order, then alternates traverse and release in release order.
pub open spec fn step_op_at(s: Step, sub: int) -> LapOp {
    match s {
        Step::Exclusive(t) => if sub == 0 {
            LapOp::Acquire(t)
        } else if sub == 1 {
            LapOp::Traverse(t)
        } else {
            LapOp::Release(t)
        },
        Step::BatchHold(hold, rel) => if sub < hold@.len() {
            LapOp::Acquire(hold@[sub])
        } else if (sub - hold@.len()) % 2 == 0 {
            LapOp::Traverse(rel@[(sub - hold@.len()) / 2])
        } else {
            LapOp::Release(rel@[(sub - hold@.len()) / 2])
        },
    }
}

/// Some listed segment has index `j`.
pub open spec fn seq_has_index(s: Seq<TrackState>, j: int) -> bool {
    exists|m: int| 0 <= m < s.len() && s[m].index_spec() == j
}

/// Which segment indices are held at position `sub` of a step.
pub open spec fn step_holds(s: Step, sub: int, j: int) -> bool {
    match s {
        Step::Exclusive(t) => 1 <= sub <= 2 && j == t.index_spec(),
        Step::BatchHold(hold, rel) => if sub <= hold@.len() {
            seq_has_index(hold@.take(sub), j)
        } else {
            seq_has_index(hold@, j) && !seq_has_index(
                rel@.take((sub - hold@.len()) / 2),
                j,
            )
        },
    }
}

/// The positions a step has published once it stands at position `sub`.
pub open spec fn step_published(s: Step, sub: int) -> Seq<TrackState> {
    match s {
        Step::Exclusive(t) => if sub >= 2 {
            seq![t]
        } else {
            Seq::empty()
        },
        Step::BatchHold(hold, rel) => if sub <= hold@.len() {
            Seq::empty()
        } else {
            rel@.take((sub - hold@.len() + 1) / 2)
        },
    }
}

/// Every position a lap has published by the time the runner stands at
/// `(step_i, sub)`.
pub open spec fn lap_published(steps: Seq<Step>, step_i: int, sub: int) -> Seq<TrackState> {
    if step_i >= steps.len() {
        route_publishes(steps)
    } else {
        route_publishes(steps.take(step_i)) + step_published(steps[step_i], sub)
    }
}

/// The runner's position after one successful operation: the next position
/// inside the step, or the start of the following step.
pub open spec fn next_position(steps: Seq<Step>, step_i: int, sub: int) -> (int, int) {
    if sub + 1 < step_len(steps[step_i]) {
        (step_i, sub + 1)
    } else {
        (step_i + 1, 0)
    }
}

/// Every segment label indexes below the network's largest layout.
pub proof fn lemma_index_upper(t: TrackState)
    ensures
        0 <= t.index_spec() < 13,
{
}

/// In a strictly ascending list the index at position `i` is at least `i`.
pub proof fn lemma_increasing_index_lower(s: Seq<TrackState>, i: int)
    requires
        strictly_increasing(s),
        0 <= i < s.len(),
    ensures
        s[i].index_spec() >= i,
    decreases i,
{
    if i > 0 {
        lemma_increasing_index_lower(s, i - 1);
    }
}

/// An error-free step takes between one and 39 operations: thirteen labels
/// bound a strictly ascending hold list, and the release list matches it.
pub proof fn lemma_step_len_bounded(s: Step, n: int)
    requires
        step_error(s, n) is None,
    ensures
        0 < step_len(s) <= 39,
{
    match s {
        Step::Exclusive(t) => {}
        Step::BatchHold(hold, rel) => {
            if hold@.len() > 13 {
                lemma_increasing_index_lower(hold@, 13);
                lemma_index_upper(hold@[13]);
            }
        }
    }
}

/// At the start of a step nothing is held yet.
pub proof fn lemma_no_holds_at_step_start(s: Step)
    ensures
        forall|j: int| !step_holds(s, 0, j),
{
    match s {
        Step::Exclusive(t) => {}
        Step::BatchHold(hold, rel) => {
            assert(hold@.take(0) =~= Seq::<TrackState>::empty());
            assert forall|j: int| !step_holds(s, 0, j) by {
                assert(!seq_has_index(hold@.take(0), j));
            }
        }
    }
}

/// Acquiring the next hold-list segment of a batch adds exactly that index
/// to the held set.
proof fn lemma_batch_acquire_holds(
    hold: Vec<TrackState>,
    rel: Vec<TrackState>,
    sub: int,
    su1: int,
)
    requires
        0 <= sub < hold@.len(),
        su1 == sub + 1,
    ensures
        forall|j: int|
            #[trigger] step_holds(Step::BatchHold(hold, rel), su1, j) <==> (step_holds(
                Step::BatchHold(hold, rel),
                sub,
                j,
            ) || j == hold@[sub].index_spec()),
{
    let s = Step::BatchHold(hold, rel);
    assert forall|j: int|
        #[trigger] step_holds(s, su1, j) <==> (step_holds(s, sub, j) || j
            == hold@[sub].index_spec()) by {
        if seq_has_index(hold@.take(sub + 1), j) {
            let m = choose|m: int|
                0 <= m < hold@.take(sub + 1).len() && #[trigger] hold@.take(sub + 1)[m].index_spec() == j;
            if m < sub {
                assert(hold@.take(sub)[m].index_spec() == j);
            } else {
                assert(hold@[sub].index_spec() == j);
            }
        }
        if seq_has_index(hold@.take(sub), j) {
            let m = choose|m: int|
                0 <= m < hold@.take(sub).len() && #[trigger] hold@.take(sub)[m].index_spec() == j;
            assert(hold@.take(sub + 1)[m].index_spec() == j);
        }
        if j == hold@[sub].index_spec() {
            assert(hold@.take(sub + 1)[sub].index_spec() == j);
        }
    }
}

/// Traversing during the release phase of a batch does not change the held
/// set.
proof fn lemma_batch_traverse_holds(
    hold: Vec<TrackState>,
    rel: Vec<TrackState>,
    k: int,
    su0: int,
    su1: int,
)
    requires
        0 <= k < rel@.len(),
        su0 == hold@.len() + 2 * k,
        su1 == su0 + 1,
    ensures
        forall|j: int|
            #[trigger] step_holds(Step::BatchHold(hold, rel), su1, j) <==> step_holds(
                Step::BatchHold(hold, rel),
                su0,
                j,
            ),
{
    let s = Step::BatchHold(hold, rel);
    let h = hold@.len() as int;
    assert((h + 2 * k - h) / 2 == k);
    assert((h + 2 * k + 1 - h) / 2 == k);
    assert forall|j: int|
        #[trigger] step_holds(s, su1, j) <==> step_holds(s, su0, j) by {
        if k == 0 {
            assert(hold@.take(h) =~= hold@);
            assert(rel@.take(0) =~= Seq::<TrackState>::empty());
            assert(!seq_has_index(rel@.take(0), j));
        }
    }
}

/// Releasing `rel[k]` removes exactly that index from the held set.
proof fn lemma_batch_release_holds(
    hold: Vec<TrackState>,
    rel: Vec<TrackState>,
    k: int,
    su0: int,
    su1: int,
)
    requires
        0 <= k < rel@.len(),
        distinct_indices(rel@),
        su0 == hold@.len() + 2 * k + 1,
        su1 == su0 + 1,
    ensures
        forall|j: int|
            #[trigger] step_holds(Step::BatchHold(hold, rel), su1, j) <==> (step_holds(
                Step::BatchHold(hold, rel),
                su0,
                j,
            ) && j != rel@[k].index_spec()),
{
    let s = Step::BatchHold(hold, rel);
    let h = hold@.len() as int;
    assert((h + 2 * k + 1 - h) / 2 == k);
    assert((h + 2 * k + 2 - h) / 2 == k + 1);
    assert forall|j: int|
        #[trigger] step_holds(s, su1, j) <==> (step_holds(s, su0, j) && j
            != rel@[k].index_spec()) by {
        if seq_has_index(rel@.take(k + 1), j) {
            let m = choose|m: int|
                0 <= m < rel@.take(k + 1).len() && #[trigger] rel@.take(k + 1)[m].index_spec() == j;
            if m < k {
                assert(rel@.take(k)[m].index_spec() == j);
            } else {
                assert(rel@[k].index_spec() == j);
            }
        }
        if seq_has_index(rel@.take(k), j) {
            let m = choose|m: int|
                0 <= m < rel@.take(k).len() && #[trigger] rel@.take(k)[m].index_spec() == j;
            assert(rel@.take(k + 1)[m].index_spec() == j);
        }
        if j == rel@[k].index_spec() {
            assert(rel@.take(k + 1)[k].index_spec() == j);
        }
    }
}

/// During the release phase the segment about to be traversed or released is
/// still held.
proof fn lemma_batch_target_held(hold: Vec<TrackState>, rel: Vec<TrackState>, k: int, sub: int)
    requires
        0 <= k < rel@.len(),
        release_matches(hold@, rel@),
        hold@.len() <= sub <= hold@.len() + 2 * k + 1,
        (sub - hold@.len()) / 2 == k,
    ensures
        step_holds(Step::BatchHold(hold, rel), sub, rel@[k].index_spec()),
{
    let j = rel@[k].index_spec();
    assert(hold@.contains(rel@[k]));
    let m = choose|m: int| 0 <= m < hold@.len() && #[trigger] hold@[m] == rel@[k];
    if sub == hold@.len() {
        assert(hold@.take(sub)[m].index_spec() == j);
    } else {
        assert(hold@[m].index_spec() == j);
        if seq_has_index(rel@.take(k), j) {
            let m2 = choose|m2: int|
                0 <= m2 < rel@.take(k).len() && #[trigger] rel@.take(k)[m2].index_spec() == j;
            assert(rel@[m2].index_spec() == rel@[k].index_spec());
            assert(false);
        }
    }
}

/// At the last release of a batch, exactly the final release-order segment
/// is still held.
proof fn lemma_batch_last_holds(hold: Vec<TrackState>, rel: Vec<TrackState>, su0: int)
    requires
        hold@.len() > 0,
        release_matches(hold@, rel@),
        su0 == hold@.len() + 2 * rel@.len() - 1,
    ensures
        forall|j: int|
            #[trigger] step_holds(Step::BatchHold(hold, rel), su0, j) <==> j == rel@[rel@.len()
                - 1].index_spec(),
{
    let s = Step::BatchHold(hold, rel);
    let h = hold@.len() as int;
    let last = rel@.len() as int - 1;
    assert((h + 2 * last + 1 - h) / 2 == last);
    lemma_batch_target_held(hold, rel, last, h + 2 * last + 1);
    assert forall|j: int|
        #[trigger] step_holds(s, su0, j) implies j == rel@[last].index_spec() by {
        let m = choose|m: int| 0 <= m < hold@.len() && #[trigger] hold@[m].index_spec() == j;
        assert(rel@.contains(hold@[m]));
        let m2 = choose|m2: int| 0 <= m2 < rel@.len() && #[trigger] rel@[m2] == hold@[m];
        assert(rel@[m2].index_spec() == j);
        if m2 < last {
            assert(rel@.take(last)[m2].index_spec() == j);
            assert(false);
        }
    }
}

/// A release-order segment lies in the network because it appears in the
/// in-range hold list.
proof fn lemma_release_target_in_range(
    hold: Vec<TrackState>,
    rel: Vec<TrackState>,
    k: int,
    n: int,
)
    requires
        0 <= k < rel@.len(),
        release_matches(hold@, rel@),
        segs_in_range(hold@, n),
    ensures
        0 <= rel@[k].index_spec() < n,
{
    lemma_index_upper(rel@[k]);
    assert(hold@.contains(rel@[k]));
    let m = choose|m: int| 0 <= m < hold@.len() && #[trigger] hold@[m] == rel@[k];
    assert(hold@[m].index_spec() < n);
}

/// A batch never re-requests a segment it already holds: the strictly
/// ascending hold order makes every acquisition target new.
proof fn lemma_batch_acquire_target_new(hold: Vec<TrackState>, rel: Vec<TrackState>, sub: int)
    requires
        0 <= sub < hold@.len(),
        strictly_increasing(hold@),
    ensures
        !step_holds(Step::BatchHold(hold, rel), sub, hold@[sub].index_spec()),
{
    let j = hold@[sub].index_spec();
    if seq_has_index(hold@.take(sub), j) {
        let m = choose|m: int| 0 <= m < hold@.take(sub).len() && #[trigger] hold@.take(sub)[m].index_spec() == j;
        assert(hold@[m].index_spec() < hold@[sub].index_spec());
        assert(false);
    }
}

/// A lap in progress: which step of the route, and which operation inside
/// that step, the train's runtime will perform next. The runner carries no
/// route of its own; callers pass the same route to every call.
pub struct LapRunner {
    pub step_i: usize,
    pub sub: usize,
    pub train_id: u64,
}

impl LapRunner {
    /// Whether the runner's train holds segment index `j`.
    pub open spec fn holds(self, steps: Seq<Step>, j: int) -> bool {
        self.step_i < steps.len() && step_holds(
            steps[self.step_i as int],
            self.sub as int,
            j,
        )
    }

    /// The runner agrees with the network: its position is inside the route,
    /// and its train holds exactly the segments the position says it does.
    pub open spec fn wf(self, steps: Seq<Step>, net: SegmentNetwork) -> bool {
        &&& net.wf()
        &&& route_valid(steps, net.len_spec())
        &&& self.step_i <= steps.len()
        &&& (self.step_i < steps.len() ==> self.sub < step_len(steps[self.step_i as int]))
        &&& (self.step_i == steps.len() ==> self.sub == 0)
        &&& forall|j: int|
            0 <= j < net.len_spec() ==> ((net.holder_spec(j) == Some(self.train_id))
                <==> self.holds(steps, j))
    }

    /// The lap is complete.
    pub open spec fn done(self, steps: Seq<Step>) -> bool {
        self.step_i >= steps.len()
    }

    /// Begin a lap for a train that currently holds nothing.
    pub fn start(route: &Route, net: &SegmentNetwork, train_id: u64) -> (r: LapRunner)
        requires
            net.wf(),
            route_valid(route.steps@, net.len_spec()),
            net.holds_none(train_id),
        ensures
            r.wf(route.steps@, *net),
            r.step_i == 0,
            r.sub == 0,
            r.train_id == train_id,
    {
        let r = LapRunner { step_i: 0, sub: 0, train_id };
        proof {
            lemma_steps_all_ok(route.steps@, net.len_spec(), 0);
            lemma_step_len_bounded(route.steps@[0], net.len_spec());
            lemma_no_holds_at_step_start(route.steps@[0]);
        }
        r
    }

    /// Whether the lap has traversed its whole route.
    pub fn lap_done(&self, route: &Route) -> (b: bool)
        ensures
            b == self.done(route.steps@),
    {
        self.step_i >= route.steps.len()
    }

    /// Perform the lap's next primitive operation against the network. An
    /// acquisition attempt on a segment held elsewhere changes nothing and
    /// reports `Blocked` — acquisition blocks until the holder releases, and
    /// the caller chooses when to retry, with no fairness promised. Every
    /// other operation moves the lap one position forward. A traversal
    /// publishes its segment and reports for how many simulated seconds the
    /// caller is to occupy it. The train's speed is read from the snapshot
    /// the caller passes: the runtime takes one snapshot per lap.
    #[verifier::rlimit(60)]
    pub fn step(
        &mut self,
        route: &Route,
        net: &mut SegmentNetwork,
        sink: &mut PositionCell,
        train: &Train,
    ) -> (out: StepOutcome)
        requires
            old(self).wf(route.steps@, *old(net)),
            !old(self).done(route.steps@),
            train.valid(),
            train.id == old(self).train_id,
        ensures
            final(self).train_id == old(self).train_id,
            final(self).wf(route.steps@, *final(net)),
            final(net).tracks@ == old(net).tracks@,
            forall|j: int|
                0 <= j < old(net).len_spec() ==> final(net).holder_spec(j) == old(
                    net,
                ).holder_spec(j) || (old(net).holder_spec(j) is None && final(net).holder_spec(j)
                    == Some(old(self).train_id)) || (old(net).holder_spec(j) == Some(
                    old(self).train_id,
                ) && final(net).holder_spec(j) is None),
            (match step_op_at(route.steps@[old(self).step_i as int], old(self).sub as int) {
                LapOp::Acquire(t) => if old(net).holder_spec(t.index_spec()) is None {
                    &&& out == StepOutcome::Acquired(t)
                    &&& final(net).holders@ == old(net).holders@.update(
                        t.index_spec(),
                        Some(old(self).train_id),
                    )
                    &&& *final(sink) == *old(sink)
                    &&& (final(self).step_i as int, final(self).sub as int) == next_position(
                        route.steps@,
                        old(self).step_i as int,
                        old(self).sub as int,
                    )
                } else {
                    &&& out == StepOutcome::Blocked(t)
                    &&& *final(net) == *old(net)
                    &&& *final(sink) == *old(sink)
                    &&& *final(self) == *old(self)
                },
                LapOp::Traverse(t) => {
                    &&& (out matches StepOutcome::Traversed(t2, d) && t2 == t && d as int == old(
                        net,
                    ).distance_spec(t.index_spec()) / (train.velocity as int))
                    &&& final(net).holders@ == old(net).holders@
                    &&& final(sink).current == t
                    &&& (final(self).step_i as int, final(self).sub as int) == next_position(
                        route.steps@,
                        old(self).step_i as int,
                        old(self).sub as int,
                    )
                },
                LapOp::Release(t) => {
                    &&& out == StepOutcome::Released(t)
                    &&& final(net).holders@ == old(net).holders@.update(
                        t.index_spec(),
                        None::<u64>,
                    )
                    &&& *final(sink) == *old(sink)
                    &&& (final(self).step_i as int, final(self).sub as int) == next_position(
                        route.steps@,
                        old(self).step_i as int,
                        old(self).sub as int,
                    )
                },
            }),
            lap_published(route.steps@, final(self).step_i as int, final(self).sub as int)
                == lap_published(route.steps@, old(self).step_i as int, old(self).sub as int) + (
            match out {
                StepOutcome::Traversed(t2, d) => seq![t2],
                _ => Seq::<TrackState>::empty(),
            }),
    {
        let ghost steps = route.steps@;
        let ghost r0 = *self;
        let ghost net0 = *net;
        let ghost i0 = self.step_i as int;
        let ghost s0 = self.sub as int;
        let ghost me = self.train_id;
        let ghost n = net0.len_spec();
        proof {
            lemma_steps_all_ok(steps, n, i0);
            lemma_step_len_bounded(steps[i0], n);
        }
        let route_len = route.steps.len();
        let cur = &route.steps[self.step_i];
        match cur {
            Step::Exclusive(seg) => {
                let t = *seg;
                proof {
                    assert(steps[i0] == Step::Exclusive(t));
                }
                if self.sub == 0 {
                    if net.is_free(t) {
                        net.acquire(t, self.train_id);
                        self.sub = 1;
                        proof {
                            assert forall|j: int|
                                0 <= j < net.len_spec() implies ((net.holder_spec(j) == Some(me))
                                <==> self.holds(steps, j)) by {
                                if j != t.index_spec() {
                                    assert(net.holder_spec(j) == net0.holder_spec(j));
                                }
                            }
                            assert(lap_published(steps, i0, 1) =~= lap_published(steps, i0, 0)
                                + Seq::<TrackState>::empty());
                        }
                        StepOutcome::Acquired(t)
                    } else {
                        proof {
                            assert(lap_published(steps, i0, s0) =~= lap_published(steps, i0, s0)
                                + Seq::<TrackState>::empty());
                        }
                        StepOutcome::Blocked(t)
                    }
                } else if self.sub == 1 {
                    sink.write(t);
                    let d = net.distance_of(t);
                    let time = d / train.velocity;
                    self.sub = 2;
                    proof {
                        assert(step_published(steps[i0], 2) =~= seq![t]);
                        assert(lap_published(steps, i0, 2) =~= lap_published(steps, i0, 1)
                            + seq![t]);
                    }
                    StepOutcome::Traversed(t, time)
                } else {
                    proof {
                        assert(r0.holds(steps, t.index_spec()));
                        assert(net.holder_spec(t.index_spec()) == Some(me));
                    }
                    net.release(t, self.train_id);
                    proof {
                        assert(self.step_i < route_len);
                    }
                    self.step_i = self.step_i + 1;
                    self.sub = 0;
                    proof {
                        if i0 + 1 < steps.len() {
                            lemma_steps_all_ok(steps, n, i0 + 1);
                            lemma_step_len_bounded(steps[i0 + 1], n);
                            lemma_no_holds_at_step_start(steps[i0 + 1]);
                        }
                        assert forall|j: int|
                            0 <= j < net.len_spec() implies ((net.holder_spec(j) == Some(me))
                            <==> self.holds(steps, j)) by {
                            assert(!self.holds(steps, j));
                            if j != t.index_spec() {
                                assert(net.holder_spec(j) == net0.holder_spec(j));
                            }
                        }
                        assert(steps.take(i0 + 1).drop_last() =~= steps.take(i0));
                        assert(steps.take(i0 + 1).last() == steps[i0]);
                        if i0 + 1 == steps.len() {
                            assert(steps.take(i0 + 1) =~= steps);
                        }
                        assert(route_publishes(steps.take(i0 + 1)) == route_publishes(
                            steps.take(i0),
                        ) + step_publishes(steps[i0]));
                        assert(step_publishes(steps[i0]) =~= seq![t]);
                        if i0 + 1 < steps.len() {
                            assert(step_published(steps[i0 + 1], 0) == Seq::<TrackState>::empty());
                        }
                        assert(lap_published(steps, i0 + 1, 0) =~= lap_published(steps, i0, 2)
                            + Seq::<TrackState>::empty());
                    }
                    StepOutcome::Released(t)
                }
            }
            Step::BatchHold(hold, rel) => {
                proof {
                    assert(steps[i0] == Step::BatchHold(*hold, *rel));
                    assert(hold@.len() > 0);
                    assert(segs_in_range(hold@, n));
                    assert(strictly_increasing(hold@));
                    assert(release_matches(hold@, rel@));
                }
                if self.sub < hold.len() {
                    let t = hold[self.sub];
                    if net.is_free(t) {
                        net.acquire(t, self.train_id);
                        self.sub = self.sub + 1;
                        proof {
                            lemma_batch_acquire_holds(*hold, *rel, s0, s0 + 1);
                            assert forall|j: int|
                                0 <= j < net.len_spec() implies ((net.holder_spec(j) == Some(me))
                                <==> self.holds(steps, j)) by {
                                if j != t.index_spec() {
                                    assert(net.holder_spec(j) == net0.holder_spec(j));
                                }
                            }
                            assert(step_published(steps[i0], s0 + 1) == step_published(
                                steps[i0],
                                s0,
                            ));
                            assert(lap_published(steps, i0, s0 + 1) =~= lap_published(
                                steps,
                                i0,
                                s0,
                            ) + Seq::<TrackState>::empty());
                        }
                        StepOutcome::Acquired(t)
                    } else {
                        proof {
                            assert(lap_published(steps, i0, s0) =~= lap_published(steps, i0, s0)
                                + Seq::<TrackState>::empty());
                        }
                        StepOutcome::Blocked(t)
                    }
                } else {
                    let rr = self.sub - hold.len();
                    let k = rr / 2;
                    proof {
                        assert(s0 < step_len(steps[i0]));
                        assert(rr < 2 * rel@.len());
                        assert(rr == 2 * (k as int) + (rr as int % 2));
                        assert(k < rel@.len());
                        lemma_release_target_in_range(*hold, *rel, k as int, n);
                    }
                    if rr % 2 == 0 {
                        let t = rel[k];
                        sink.write(t);
                        let d = net.distance_of(t);
                        let time = d / train.velocity;
                        self.sub = self.sub + 1;
                        proof {
                            lemma_batch_traverse_holds(*hold, *rel, k as int, s0, s0 + 1);
                            assert forall|j: int|
                                0 <= j < net.len_spec() implies ((net.holder_spec(j) == Some(me))
                                <==> self.holds(steps, j)) by {
                                assert(net.holder_spec(j) == net0.holder_spec(j));
                            }
                            assert((s0 - hold@.len() + 1) / 2 == k as int);
                            assert((s0 + 1 - hold@.len() + 1) / 2 == k as int + 1);
                            if s0 == hold@.len() as int {
                                assert(rel@.take(0) =~= Seq::<TrackState>::empty());
                            }
                            assert(step_published(steps[i0], s0) =~= rel@.take(k as int));
                            assert(rel@.take(k as int + 1) =~= rel@.take(k as int).push(
                                rel@[k as int],
                            ));
                            assert(step_published(steps[i0], s0 + 1) =~= rel@.take(k as int + 1));
                            assert(lap_published(steps, i0, s0 + 1) =~= lap_published(
                                steps,
                                i0,
                                s0,
                            ) + seq![t]);
                        }
                        StepOutcome::Traversed(t, time)
                    } else {
                        let t = rel[k];
                        proof {
                            lemma_batch_target_held(*hold, *rel, k as int, s0);
                            assert(r0.holds(steps, t.index_spec()));
                            assert(net.holder_spec(t.index_spec()) == Some(me));
                        }
                        net.release(t, self.train_id);
                        if k + 1 == rel.len() {
                            proof {
                                assert(self.step_i < route_len);
                            }
                            self.step_i = self.step_i + 1;
                            self.sub = 0;
                            proof {
                                lemma_batch_last_holds(*hold, *rel, s0);
                                if i0 + 1 < steps.len() {
                                    lemma_steps_all_ok(steps, n, i0 + 1);
                                    lemma_step_len_bounded(steps[i0 + 1], n);
                                    lemma_no_holds_at_step_start(steps[i0 + 1]);
                                }
                                assert forall|j: int|
                                    0 <= j < net.len_spec() implies ((net.holder_spec(j) == Some(
                                    me,
                                )) <==> self.holds(steps, j)) by {
                                    assert(!self.holds(steps, j));
                                    if j != t.index_spec() {
                                        assert(net.holder_spec(j) == net0.holder_spec(j));
                                    }
                                }
                                assert((s0 - hold@.len() + 1) / 2 == rel@.len() as int);
                                assert(rel@.take(rel@.len() as int) =~= rel@);
                                assert(step_published(steps[i0], s0) =~= rel@);
                                assert(steps.take(i0 + 1).drop_last() =~= steps.take(i0));
                                assert(steps.take(i0 + 1).last() == steps[i0]);
                                if i0 + 1 == steps.len() {
                                    assert(steps.take(i0 + 1) =~= steps);
                                }
                                assert(route_publishes(steps.take(i0 + 1)) == route_publishes(
                                    steps.take(i0),
                                ) + step_publishes(steps[i0]));
                                if i0 + 1 < steps.len() {
                                    assert(step_published(steps[i0 + 1], 0)
                                        == Seq::<TrackState>::empty());
                                }
                                assert(lap_published(steps, i0 + 1, 0) =~= lap_published(
                                    steps,
                                    i0,
                                    s0,
                                ) + Seq::<TrackState>::empty());
                            }
                            StepOutcome::Released(t)
                        } else {
                            self.sub = self.sub + 1;
                            proof {
                                lemma_batch_release_holds(*hold, *rel, k as int, s0, s0 + 1);
                                assert forall|j: int|
                                    0 <= j < net.len_spec() implies ((net.holder_spec(j) == Some(
                                    me,
                                )) <==> self.holds(steps, j)) by {
                                    if j != t.index_spec() {
                                        assert(net.holder_spec(j) == net0.holder_spec(j));
                                    }
                                }
                                assert((s0 - hold@.len() + 1) / 2 == k as int + 1);
                                assert((s0 + 1 - hold@.len() + 1) / 2 == k as int + 1);
                                assert(step_published(steps[i0], s0 + 1) == step_published(
                                    steps[i0],
                                    s0,
                                ));
                                assert(lap_published(steps, i0, s0 + 1) =~= lap_published(
                                    steps,
                                    i0,
                                    s0,
                                ) + Seq::<TrackState>::empty());
                            }
                            StepOutcome::Released(t)
                        }
                    }
                }
            }
        }
    }
}

/// The route can be asked for its first segment: it has a first step, and a
/// leading batch hold has a release order to take the primary segment from.
pub open spec fn route_shape_ok(steps: Seq<Step>) -> bool {
    &&& steps.len() > 0
    &&& (steps[0] matches Step::BatchHold(hold, rel) ==> rel@.len() > 0)
}

/// A valid route has the shape the position queries need.
pub proof fn lemma_route_shape(steps: Seq<Step>, n: int)
    requires
        route_valid(steps, n),
    ensures
        route_shape_ok(steps),
{
    lemma_steps_all_ok(steps, n, 0);
}

/// The first step's primary segment, as executable code.
pub fn route_initial(route: &Route) -> (t: TrackState)
    requires
        route_shape_ok(route.steps@),
    ensures
        t == route_first(route.steps@),
{
    match &route.steps[0] {
        Step::Exclusive(seg) => *seg,
        Step::BatchHold(_hold, rel) => rel[0],
    }
}

/// Execute one full lap: traverse every step of the route in order against a
/// network whose segments are all free, and return the published positions
/// with the simulated seconds each was occupied. The whole lap runs on the
/// one speed snapshot passed in; a command that lands mid-lap is seen only by
/// the next lap.
pub fn run_route(
    route: &Route,
    net: &mut SegmentNetwork,
    sink: &mut PositionCell,
    train: &Train,
) -> (trace: Vec<(TrackState, u64)>)
    requires
        old(net).wf(),
        train.valid(),
        route_valid(route.steps@, old(net).len_spec()),
        old(net).all_free(),
    ensures
        final(net).wf(),
        final(net).len_spec() == old(net).len_spec(),
        final(net).tracks@ == old(net).tracks@,
        final(net).all_free(),
        trace@.len() == route_publishes(route.steps@).len(),
        forall|i: int|
            0 <= i < trace@.len() ==> trace@[i].0 == route_publishes(route.steps@)[i],
        forall|i: int|
            0 <= i < trace@.len() ==> trace@[i].1 as int == old(net).distance_spec(
                trace@[i].0.index_spec(),
            ) / (train.velocity as int),
        trace@.len() > 0,
        trace@[0].0 == route_first(route.steps@),
        final(sink).current == trace@[trace@.len() - 1].0,
{
    let ghost steps = route.steps@;
    let ghost n0 = old(net).len_spec();
    proof {
        lemma_route_first_published(steps, n0);
    }
    let mut runner = LapRunner::start(route, net, train.id);
    let mut trace: Vec<(TrackState, u64)> = Vec::new();
    proof {
        assert(steps.take(0) =~= Seq::<Step>::empty());
        assert(lap_published(steps, 0, 0) =~= Seq::<TrackState>::empty());
    }
    while !runner.lap_done(route)
        invariant
            steps == route.steps@,
            runner.wf(steps, *net),
            runner.train_id == train.id,
            train.valid(),
            net.len_spec() == n0,
            net.tracks@ == old(net).tracks@,
            forall|j: int|
                0 <= j < n0 ==> net.holder_spec(j) is None || net.holder_spec(j) == Some(
                    train.id,
                ),
            trace@.len() == lap_published(steps, runner.step_i as int, runner.sub as int).len(),
            forall|i: int|
                0 <= i < trace@.len() ==> trace@[i].0 == lap_published(
                    steps,
                    runner.step_i as int,
                    runner.sub as int,
                )[i],
            forall|i: int|
                0 <= i < trace@.len() ==> trace@[i].1 as int == net.distance_spec(
                    trace@[i].0.index_spec(),
                ) / (train.velocity as int),
            trace@.len() > 0 ==> sink.current == trace@[trace@.len() - 1].0,
        decreases
            steps.len() - runner.step_i,
            step_len(steps[runner.step_i as int]) - runner.sub,
    {
        let ghost net_pre = *net;
        let ghost r_pre = runner;
        let out = runner.step(route, net, sink, train);
        match out {
            StepOutcome::Traversed(t, time) => {
                trace.push((t, time));
            }
            StepOutcome::Blocked(_) => {
                proof {
                    let i = r_pre.step_i as int;
                    let s = r_pre.sub as int;
                    lemma_steps_all_ok(steps, n0, i);
                    match steps[i] {
                        Step::Exclusive(seg) => {
                            assert(seg.index_spec() < n0);
                            assert(net_pre.holder_spec(seg.index_spec()) == Some(train.id));
                            assert(r_pre.holds(steps, seg.index_spec()));
                            assert(false);
                        }
                        Step::BatchHold(hold, rel) => {
                            assert(segs_in_range(hold@, n0));
                            assert(0 <= s < hold@.len());
                            assert(net_pre.holder_spec(hold@[s].index_spec()) == Some(train.id));
                            assert(r_pre.holds(steps, hold@[s].index_spec()));
                            lemma_batch_acquire_target_new(hold, rel, s);
                            assert(false);
                        }
                    }
                }
            }
            _ => {}
        }
    }
    proof {
        assert(runner.step_i == steps.len());
        assert(lap_published(steps, steps.len() as int, 0) == route_publishes(steps));
        assert forall|j: int| 0 <= j < n0 implies net.holder_spec(j) is None by {
            assert(!runner.holds(steps, j));
        }
    }
    trace
}

/// The shared behaviour of the four colour circuits: run one full lap
/// against the segment network, and say where the train stands before its
/// first lap. Each variant is pure route data behind this one algorithm.
pub trait Circuit {
    /// The fixed route this circuit drives.
    spec fn route_of(&self) -> Seq<Step>;

    /// Execute exactly one lap: every step of the route in order, returning
    /// the published positions with the simulated seconds each was occupied.
    /// The lap uses the one speed snapshot passed in.
    fn run(&self, net: &mut SegmentNetwork, sink: &mut PositionCell, train: &Train) -> (trace:
        Vec<(TrackState, u64)>)
        requires
            old(net).wf(),
            train.valid(),
            route_valid(self.route_of(), old(net).len_spec()),
            old(net).all_free(),
        ensures
            final(net).wf(),
            final(net).len_spec() == old(net).len_spec(),
            final(net).tracks@ == old(net).tracks@,
            final(net).all_free(),
            trace@.len() == route_publishes(self.route_of()).len(),
            forall|i: int|
                0 <= i < trace@.len() ==> trace@[i].0 == route_publishes(self.route_of())[i],
            forall|i: int|
                0 <= i < trace@.len() ==> trace@[i].1 as int == old(net).distance_spec(
                    trace@[i].0.index_spec(),
                ) / (train.velocity as int),
            trace@.len() > 0,
            trace@[0].0 == route_first(self.route_of()),
            final(sink).current == trace@[trace@.len() - 1].0,
    ;

    /// The segment the train is rendered at before the first lap runs.
    fn initial_track_state(&self) -> (t: TrackState)
        requires
            route_shape_ok(self.route_of()),
        ensures
            t == route_first(self.route_of()),
    ;
}

/// Law: segment holdings are mutually exclusive. Two lap runners that agree
/// with the same network but drive different trains never hold the same
/// segment at the same instant: a holder slot has room for one occupant.
pub proof fn lemma_mutual_exclusion(
    r1: LapRunner,
    r2: LapRunner,
    steps1: Seq<Step>,
    steps2: Seq<Step>,
    net: SegmentNetwork,
    j: int,
)
    requires
        r1.wf(steps1, net),
        r2.wf(steps2, net),
        r1.train_id != r2.train_id,
        0 <= j < net.len_spec(),
    ensures
        !(r1.holds(steps1, j) && r2.holds(steps2, j)),
{
    if r1.holds(steps1, j) && r2.holds(steps2, j) {
        assert(net.holder_spec(j) == Some(r1.train_id));
        assert(net.holder_spec(j) == Some(r2.train_id));
        assert(false);
    }
}

/// Law: a batch hold publishes nothing until every segment of the batch is
/// acquired. At the position where the batch's first traversal is about to
/// run, the train already holds all of the batch, and the step has published
/// no position yet.
pub proof fn lemma_batch_hold_window(
    r: LapRunner,
    steps: Seq<Step>,
    net: SegmentNetwork,
    hold: Vec<TrackState>,
    rel: Vec<TrackState>,
)
    requires
        r.wf(steps, net),
        r.step_i < steps.len(),
        steps[r.step_i as int] == Step::BatchHold(hold, rel),
        r.sub == hold@.len(),
    ensures
        forall|m: int|
            0 <= m < hold@.len() ==> net.holder_spec(hold@[m].index_spec()) == Some(r.train_id),
        step_published(steps[r.step_i as int], r.sub as int) == Seq::<TrackState>::empty(),
{
    let s = steps[r.step_i as int];
    lemma_steps_all_ok(steps, net.len_spec(), r.step_i as int);
    assert(hold@.take(hold@.len() as int) =~= hold@);
    assert forall|m: int|
        0 <= m < hold@.len() implies net.holder_spec(hold@[m].index_spec()) == Some(
        r.train_id,
    ) by {
        let j = hold@[m].index_spec();
        assert(seq_has_index(hold@.take(hold@.len() as int), j));
        assert(step_holds(s, r.sub as int, j));
        assert(0 <= j < net.len_spec());
        assert(r.holds(steps, j));
    }
}

/// Law: a batch hold frees its segments one at a time, in the declared
/// release order. At the position where the batch is about to traverse its
/// `k`-th release-order segment, the train no longer holds the segments
/// already released and still holds every remaining one.
pub proof fn lemma_batch_release_window(
    r: LapRunner,
    steps: Seq<Step>,
    net: SegmentNetwork,
    hold: Vec<TrackState>,
    rel: Vec<TrackState>,
    k: int,
)
    requires
        r.wf(steps, net),
        r.step_i < steps.len(),
        steps[r.step_i as int] == Step::BatchHold(hold, rel),
        0 <= k < rel@.len(),
        r.sub == hold@.len() + 2 * k,
    ensures
        forall|m: int|
            0 <= m < k ==> net.holder_spec(rel@[m].index_spec()) != Some(r.train_id),
        forall|m: int|
            k <= m < rel@.len() ==> net.holder_spec(rel@[m].index_spec()) == Some(r.train_id),
{
    lemma_steps_all_ok(steps, net.len_spec(), r.step_i as int);
    let s = steps[r.step_i as int];
    let h = hold@.len() as int;
    let sub = r.sub as int;
    assert(release_matches(hold@, rel@));
    assert(segs_in_range(hold@, net.len_spec()));
    assert((sub - h) / 2 == k);
    assert(hold@.take(h) =~= hold@);
    assert forall|m: int|
        0 <= m < k implies net.holder_spec(rel@[m].index_spec()) != Some(r.train_id) by {
        let j = rel@[m].index_spec();
        assert(rel@.take(k)[m].index_spec() == j);
        assert(seq_has_index(rel@.take(k), j));
        assert(!step_holds(s, sub, j));
        lemma_release_target_in_range(hold, rel, m, net.len_spec());
        assert(!r.holds(steps, j));
    }
    assert forall|m: int|
        k <= m < rel@.len() implies net.holder_spec(rel@[m].index_spec()) == Some(
        r.train_id,
    ) by {
        let j = rel@[m].index_spec();
        assert(hold@.contains(rel@[m]));
        let w = choose|w: int| 0 <= w < hold@.len() && #[trigger] hold@[w] == rel@[m];
        assert(hold@[w].index_spec() == j);
        assert(seq_has_index(hold@, j));
        if seq_has_index(rel@.take(k), j) {
            let m2 = choose|m2: int|
                0 <= m2 < rel@.take(k).len() && #[trigger] rel@.take(k)[m2].index_spec() == j;
            assert(rel@[m2].index_spec() == rel@[m].index_spec());
            assert(false);
        }
        assert(step_holds(s, sub, j));
        lemma_release_target_in_range(hold, rel, m, net.len_spec());
        assert(r.holds(steps, j));
    }
}

fn contains_track(segs: &Vec<TrackState>, t: TrackState) -> (found: bool)
    ensures
        found == segs@.contains(t),
{
    let mut i: usize = 0;
    while i < segs.len()
        invariant
            i <= segs@.len(),
            forall|m: int| 0 <= m < i ==> segs@[m] != t,
        decreases segs@.len() - i,
    {
        if segs[i] == t {
            return true;
        }
        i = i + 1;
    }
    false
}

fn check_segs_in_range(segs: &Vec<TrackState>, n: usize) -> (ok: bool)
    ensures
        ok == segs_in_range(segs@, n as int),
{
    let mut i: usize = 0;
    while i < segs.len()
        invariant
            i <= segs@.len(),
            forall|m: int| 0 <= m < i ==> segs@[m].index_spec() < n,
        decreases segs@.len() - i,
    {
        if segs[i].index() >= n {
            return false;
        }
        i = i + 1;
    }
    true
}

fn check_strictly_increasing(segs: &Vec<TrackState>) -> (ok: bool)
    ensures
        ok == strictly_increasing(segs@),
{
    let mut i: usize = 0;
    while i < segs.len()
        invariant
            i <= segs@.len(),
            forall|m: int, k: int|
                0 <= m < k < segs@.len() && m < i ==> segs@[m].index_spec() < segs@[k].index_spec(),
        decreases segs@.len() - i,
    {
        let mut k: usize = i + 1;
        while k < segs.len()
            invariant
                i < k,
                k <= segs@.len(),
                i < segs@.len(),
                forall|m: int| i < m < k ==> segs@[i as int].index_spec() < segs@[m].index_spec(),
            decreases segs@.len() - k,
        {
            if segs[i].index() >= segs[k].index() {
                return false;
            }
            k = k + 1;
        }
        i = i + 1;
    }
    true
}

fn check_distinct_indices(segs: &Vec<TrackState>) -> (ok: bool)
    ensures
        ok == distinct_indices(segs@),
{
    let mut i: usize = 0;
    while i < segs.len()
        invariant
            i <= segs@.len(),
            forall|m: int, k: int|
                0 <= m < k < segs@.len() && m < i ==> segs@[m].index_spec() != segs@[k].index_spec(),
        decreases segs@.len() - i,
    {
        let mut k: usize = i + 1;
        while k < segs.len()
            invariant
                i < k,
                k <= segs@.len(),
                i < segs@.len(),
                forall|m: int| i < m < k ==> segs@[i as int].index_spec() != segs@[m].index_spec(),
            decreases segs@.len() - k,
        {
            if segs[i].index() == segs[k].index() {
                return false;
            }
            k = k + 1;
        }
        i = i + 1;
    }
    true
}

fn check_release_matches(hold: &Vec<TrackState>, rel: &Vec<TrackState>) -> (ok: bool)
    ensures
        ok == release_matches(hold@, rel@),
{
    if rel.len() != hold.len() {
        return false;
    }
    let mut i: usize = 0;
    while i < rel.len()
        invariant
            i <= rel@.len(),
            forall|m: int| 0 <= m < i ==> hold@.contains(rel@[m]),
        decreases rel@.len() - i,
    {
        if !contains_track(hold, rel[i]) {
            return false;
        }
        i = i + 1;
    }
    let mut k: usize = 0;
    while k < hold.len()
        invariant
            k <= hold@.len(),
            forall|m: int| 0 <= m < k ==> rel@.contains(hold@[m]),
            forall|m: int| 0 <= m < rel@.len() ==> hold@.contains(rel@[m]),
            rel@.len() == hold@.len(),
        decreases hold@.len() - k,
    {
        if !contains_track(rel, hold[k]) {
            return false;
        }
        k = k + 1;
    }
    check_distinct_indices(rel)
}

fn check_step(s: &Step, n: usize) -> (e: Option<ConfigError>)
    ensures
        e == step_error(*s, n as int),
{
    match s {
        Step::Exclusive(t) => {
            if t.index() < n {
                None
            } else {
                Some(ConfigError::SegmentOutOfRange)
            }
        }
        Step::BatchHold(hold, rel) => {
            if hold.len() == 0 {
                Some(ConfigError::EmptyBatch)
            } else if !check_segs_in_range(hold, n) {
                Some(ConfigError::SegmentOutOfRange)
            } else if !check_strictly_increasing(hold) {
                Some(ConfigError::UnorderedBatch)
            } else if !check_release_matches(hold, rel) {
                Some(ConfigError::MismatchedRelease)
            } else {
                None
            }
        }
    }
}

impl Route {
    /// Validate and fix a route against a network of `segment_count`
    /// segments. Construction succeeds exactly when no step breaks a rule;
    /// otherwise the first broken rule, in route order, is reported and the
    /// startup is expected to abort.
    pub fn new(steps: Vec<Step>, segment_count: usize) -> (r: Result<Route, ConfigError>)
        ensures
            match r {
                Ok(route) => route.steps@ == steps@ && route_valid(steps@, segment_count as int),
                Err(e) => route_error(steps@, segment_count as int) == Some(e),
            },
    {
        if steps.len() == 0 {
            return Err(ConfigError::EmptyRoute);
        }
        let mut i: usize = 0;
        proof {
            assert(steps@.skip(0) =~= steps@);
        }
        while i < steps.len()
            invariant
                i <= steps@.len(),
                steps_error(steps@, segment_count as int) == steps_error(
                    steps@.skip(i as int),
                    segment_count as int,
                ),
            decreases steps@.len() - i,
        {
            let e = check_step(&steps[i], segment_count);
            proof {
                assert(steps@.skip(i as int)[0] == steps@[i as int]);
                assert(steps@.skip(i as int).drop_first() =~= steps@.skip(i as int + 1));
            }
            match e {
                Some(err) => {
                    return Err(err);
                }
                None => {}
            }
            i = i + 1;
        }
        proof {
            assert(steps@.skip(steps@.len() as int).len() == 0);
        }
        Ok(Route { steps })
    }
}

} // verus!
