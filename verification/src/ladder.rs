//! The order of a whole campaign: gates before timings, calibration before candidates, one
//! candidate behind the other, and one confirmation at the end.
use crate::campaign::Outcome;
use vstd::prelude::*;

verus! {

/// An artifact of a campaign: the original baseline, or a candidate by its place.
#[derive(Clone, Copy, Debug, PartialEq, Eq, Structural)]
pub enum Artifact {
    Original,
    Candidate(usize),
}

/// What a campaign does next.
#[derive(Clone, Copy, Debug, PartialEq, Eq, Structural)]
pub enum Action {
    /// Check an artifact on a workload.
    Gate(Artifact, usize),
    /// Compare the original with itself on a workload.
    Calibrate(usize),
    /// Compare a candidate with the current baseline on a workload, in so many blocks.
    Compare(Artifact, usize, usize, usize),
    /// Compare the winner with the original on a workload, in so many blocks.
    Confirm(usize, usize, usize),
    /// Nothing: the campaign is over.
    Stop,
}

/// What came of an action.
#[derive(Clone, Copy, Debug, PartialEq, Eq, Structural)]
pub enum Event {
    /// The artifact does what it should, or does not.
    Gated(bool),
    /// The calibration recommends so many blocks.
    Calibrated(usize),
    /// The lower bound clears the threshold, or does not.
    Compared(bool),
    /// The action did not work.
    Broken,
}

/// Where a campaign is.
#[derive(Clone, Copy, Debug, PartialEq, Eq, Structural)]
pub enum Step {
    /// Checking the original on a workload.
    GateOriginal(usize),
    /// Calibrating a workload.
    Calibrate(usize),
    /// Checking a candidate on a workload.
    GateCandidate(usize, usize),
    /// Comparing a candidate on a workload; whether it cleared the earlier ones.
    CompareCandidate(usize, usize, bool),
    /// Confirming the winner on a workload; whether it cleared the earlier ones.
    Confirm(usize, bool),
    /// Complete; whether the winner was confirmed, if there was one.
    Complete(Option<bool>),
    /// Given up, because something did not work.
    Failed,
}

/// The state of a campaign.
pub struct State {
    pub candidates: nat,
    pub min_blocks: Seq<usize>,
    pub max_blocks: Seq<usize>,
    pub step: Step,
    pub recommended: Seq<usize>,
    pub outcomes: Seq<Outcome>,
    pub current: Artifact,
    pub accepted: Artifact,
}

/// The state in which a campaign starts.
pub open spec fn at_start(
    candidates: nat,
    min_blocks: Seq<usize>,
    max_blocks: Seq<usize>,
) -> State {
    State {
        candidates,
        min_blocks,
        max_blocks,
        step: Step::GateOriginal(0),
        recommended: Seq::empty(),
        outcomes: Seq::empty(),
        current: Artifact::Original,
        accepted: Artifact::Original,
    }
}

/// `recommended`, moved between `low` and `high`.
pub open spec fn clamped(recommended: usize, low: usize, high: usize) -> usize {
    if recommended < low {
        low
    } else if recommended > high {
        high
    } else {
        recommended
    }
}

/// Choose how many blocks the comparisons on a workload have.
pub fn chosen_blocks(recommended: usize, low: usize, high: usize) -> (blocks: usize)
    ensures
        blocks == clamped(recommended, low, high),
{
    if recommended < low {
        low
    } else if recommended > high {
        high
    } else {
        recommended
    }
}

/// The blocks of the comparisons on a workload.
pub open spec fn blocks_of(state: State, workload: int) -> usize {
    clamped(
        state.recommended[workload],
        state.min_blocks[workload],
        state.max_blocks[workload],
    )
}

/// What is done at a step.
pub open spec fn action_of(state: State) -> Action {
    match state.step {
        Step::GateOriginal(w) => Action::Gate(Artifact::Original, w),
        Step::Calibrate(w) => Action::Calibrate(w),
        Step::GateCandidate(c, w) => Action::Gate(Artifact::Candidate(c), w),
        Step::CompareCandidate(c, w, _) => Action::Compare(
            state.current,
            c,
            w,
            blocks_of(state, w as int),
        ),
        Step::Confirm(w, _) => match state.current {
            Artifact::Original => Action::Stop,
            Artifact::Candidate(c) => Action::Confirm(c, w, blocks_of(state, w as int)),
        },
        Step::Complete(_) | Step::Failed => Action::Stop,
    }
}

/// Whether `event` can come of `action`.
pub open spec fn can_come(action: Action, event: Event) -> bool {
    match event {
        Event::Gated(_) => action is Gate,
        Event::Calibrated(_) => action is Calibrate,
        Event::Compared(_) => action is Compare || action is Confirm,
        Event::Broken => !(action is Stop),
    }
}

/// The step behind the last word on candidate `c`.
pub open spec fn behind_candidate(state: State, c: usize, current: Artifact) -> Step {
    if c + 1 < state.candidates {
        Step::GateCandidate((c + 1) as usize, 0)
    } else if current is Original {
        Step::Complete(None)
    } else {
        Step::Confirm(0, true)
    }
}

/// The state behind `event`.
pub open spec fn stepped(state: State, event: Event) -> State {
    let workloads = state.min_blocks.len();
    match (state.step, event) {
        (Step::GateOriginal(w), Event::Gated(true)) => State {
            step: if w + 1 < workloads {
                Step::GateOriginal((w + 1) as usize)
            } else {
                Step::Calibrate(0)
            },
            ..state
        },
        (Step::Calibrate(w), Event::Calibrated(n)) => State {
            recommended: state.recommended.push(n),
            step: if w + 1 < workloads {
                Step::Calibrate((w + 1) as usize)
            } else {
                Step::GateCandidate(0, 0)
            },
            ..state
        },
        (Step::GateCandidate(c, w), Event::Gated(true)) => State {
            step: if w + 1 < workloads {
                Step::GateCandidate(c, (w + 1) as usize)
            } else {
                Step::CompareCandidate(c, 0, true)
            },
            ..state
        },
        (Step::GateCandidate(c, w), Event::Gated(false)) => State {
            outcomes: state.outcomes.push(Outcome::GateFailed),
            step: behind_candidate(state, c, state.current),
            ..state
        },
        (Step::CompareCandidate(c, w, clear), Event::Compared(clears)) => if w + 1 < workloads {
            State { step: Step::CompareCandidate(c, (w + 1) as usize, clear && clears), ..state }
        } else if clear && clears {
            State {
                outcomes: state.outcomes.push(Outcome::Promoted),
                current: Artifact::Candidate(c),
                step: behind_candidate(state, c, Artifact::Candidate(c)),
                ..state
            }
        } else {
            State {
                outcomes: state.outcomes.push(Outcome::NotPromoted),
                step: behind_candidate(state, c, state.current),
                ..state
            }
        },
        (Step::Confirm(w, clear), Event::Compared(clears)) => if w + 1 < workloads {
            State { step: Step::Confirm((w + 1) as usize, clear && clears), ..state }
        } else {
            State {
                step: Step::Complete(Some(clear && clears)),
                accepted: if clear && clears {
                    state.current
                } else {
                    state.accepted
                },
                ..state
            }
        },
        _ => State { step: Step::Failed, ..state },
    }
}

/// The candidate that was promoted last, or the original if none was.
pub open spec fn last_promoted(outcomes: Seq<Outcome>) -> Artifact
    decreases outcomes.len(),
{
    if outcomes.len() == 0 {
        Artifact::Original
    } else if outcomes.last() == Outcome::Promoted {
        Artifact::Candidate((outcomes.len() - 1) as usize)
    } else {
        last_promoted(outcomes.drop_last())
    }
}

/// What holds of the state of every campaign.
pub open spec fn is_in_order(state: State) -> bool {
    let workloads = state.min_blocks.len();
    let timed = state.recommended.len() == workloads;
    &&& 0 < state.candidates <= usize::MAX
    &&& 0 < workloads <= usize::MAX
    &&& state.max_blocks.len() == workloads
    &&& state.current == last_promoted(state.outcomes)
    &&& state.accepted != Artifact::Original ==> state.step == Step::Complete(Some(true))
        && state.accepted == state.current
    &&& state.outcomes.len() <= state.candidates
    &&& !state.outcomes.contains(Outcome::OperationalFailure)
    &&& match state.step {
        Step::GateOriginal(w) => w < workloads && state.recommended.len() == 0
            && state.outcomes.len() == 0,
        Step::Calibrate(w) => w < workloads && state.recommended.len() == w
            && state.outcomes.len() == 0,
        Step::GateCandidate(c, w) => c < state.candidates && w < workloads && timed
            && state.outcomes.len() == c,
        Step::CompareCandidate(c, w, _) => c < state.candidates && w < workloads && timed
            && state.outcomes.len() == c,
        Step::Confirm(w, _) => w < workloads && timed && state.outcomes.len() == state.candidates
            && state.current != Artifact::Original,
        Step::Complete(confirmed) => {
            &&& timed && state.outcomes.len() == state.candidates
            &&& confirmed is None <==> state.current == Artifact::Original
            &&& confirmed == Some(true) ==> state.accepted == state.current
        },
        Step::Failed => state.accepted == Artifact::Original,
    }
}

/// Whatever comes of the action at hand, the campaign stays in order.
pub proof fn campaigns_stay_in_order(state: State, event: Event)
    requires
        is_in_order(state),
        can_come(action_of(state), event),
    ensures
        is_in_order(stepped(state, event)),
{
    let next = stepped(state, event);
    let outcomes = state.outcomes;
    assert forall|o: Outcome| o != Outcome::OperationalFailure implies !(#[trigger] outcomes.push(
        o,
    ).contains(Outcome::OperationalFailure)) by {
        let more = outcomes.push(o);
        if more.contains(Outcome::OperationalFailure) {
            let i = choose|i: int| 0 <= i < more.len() && more[i] == Outcome::OperationalFailure;
            assert(i < outcomes.len());
            assert(outcomes[i] == Outcome::OperationalFailure);
        }
    }
    if next.outcomes.len() > outcomes.len() {
        assert(next.outcomes.drop_last() =~= outcomes);
    }
}

/// How many actions a campaign still takes at most.
pub open spec fn to_go(state: State) -> int {
    let workloads = state.min_blocks.len() as int;
    let round = 2 * workloads;
    match state.step {
        Step::GateOriginal(w) => state.candidates * round + workloads + workloads + (workloads - w),
        Step::Calibrate(w) => state.candidates * round + workloads + (workloads - w),
        Step::GateCandidate(c, w) => (state.candidates - c - 1) * round + workloads + (round - w),
        Step::CompareCandidate(c, w, _) => (state.candidates - c - 1) * round + workloads + (
        workloads - w),
        Step::Confirm(w, _) => workloads - w,
        Step::Complete(_) | Step::Failed => 0,
    }
}

/// Every action brings the end of a campaign closer.
pub proof fn campaigns_end(state: State, event: Event)
    requires
        is_in_order(state),
        can_come(action_of(state), event),
    ensures
        0 <= to_go(stepped(state, event)) < to_go(state),
{
    let round = 2 * state.min_blocks.len() as int;
    let n = state.candidates as int;
    match state.step {
        Step::GateOriginal(_) | Step::Calibrate(_) => {
            assert(n * round == (n - 1) * round + round) by (nonlinear_arith);
            assert((n - 1) * round >= 0) by (nonlinear_arith)
                requires
                    n > 0,
                    round > 0,
            ;
        },
        Step::GateCandidate(c, _) | Step::CompareCandidate(c, _, _) => {
            let left = n - c - 1;
            assert(left * round >= 0) by (nonlinear_arith)
                requires
                    left >= 0,
                    round > 0,
            ;
            if left > 0 {
                assert(left * round == (left - 1) * round + round) by (nonlinear_arith);
                assert((left - 1) * round >= 0) by (nonlinear_arith)
                    requires
                        left > 0,
                        round > 0,
                ;
            }
        },
        _ => {},
    }
}

// ---------------------------------------------------------------------------
// Histories.
// ---------------------------------------------------------------------------

/// The state behind `events`.
pub open spec fn reached(start: State, events: Seq<Event>) -> State
    decreases events.len(),
{
    if events.len() == 0 {
        start
    } else {
        stepped(reached(start, events.drop_last()), events.last())
    }
}

/// Whether each of `events` can come of the action at which it came.
pub open spec fn is_history(start: State, events: Seq<Event>) -> bool
    decreases events.len(),
{
    events.len() == 0 || {
        &&& is_history(start, events.drop_last())
        &&& can_come(action_of(reached(start, events.drop_last())), events.last())
    }
}

/// Whether `artifact` was checked on `workload` and passed.
pub open spec fn passed(
    start: State,
    events: Seq<Event>,
    artifact: Artifact,
    workload: int,
) -> bool {
    exists|k: int|
        0 <= k < events.len() && #[trigger] events[k] == Event::Gated(true) && action_of(
            reached(start, events.take(k)),
        ) == Action::Gate(artifact, workload as usize)
}

/// Whether `artifact` passed on all of the first `workloads` workloads.
pub open spec fn all_passed(
    start: State,
    events: Seq<Event>,
    artifact: Artifact,
    workloads: int,
) -> bool {
    forall|w: int| 0 <= w < workloads ==> #[trigger] passed(start, events, artifact, w)
}

proof fn lemma_passed_push(
    start: State,
    events: Seq<Event>,
    event: Event,
    artifact: Artifact,
    workload: int,
)
    requires
        passed(start, events, artifact, workload),
    ensures
        passed(start, events.push(event), artifact, workload),
{
    let k = choose|k: int|
        0 <= k < events.len() && #[trigger] events[k] == Event::Gated(true) && action_of(
            reached(start, events.take(k)),
        ) == Action::Gate(artifact, workload as usize);
    assert(events.push(event)[k] == events[k]);
    assert(events.push(event).take(k) =~= events.take(k));
}

proof fn lemma_all_passed_push(
    start: State,
    events: Seq<Event>,
    event: Event,
    artifact: Artifact,
    workloads: int,
)
    requires
        all_passed(start, events, artifact, workloads),
    ensures
        all_passed(start, events.push(event), artifact, workloads),
{
    assert forall|w: int| 0 <= w < workloads implies #[trigger] passed(
        start,
        events.push(event),
        artifact,
        w,
    ) by {
        assert(passed(start, events, artifact, w));
        lemma_passed_push(start, events, event, artifact, w);
    }
}

proof fn lemma_passed_now(start: State, events: Seq<Event>, artifact: Artifact, workload: usize)
    requires
        action_of(reached(start, events)) == Action::Gate(artifact, workload),
    ensures
        passed(start, events.push(Event::Gated(true)), artifact, workload as int),
{
    let more = events.push(Event::Gated(true));
    let k = events.len() as int;
    assert(more[k] == Event::Gated(true));
    assert(more.take(k) =~= events);
}

/// Which gates a state has behind it.
spec fn has_gated(start: State, events: Seq<Event>, state: State) -> bool {
    let workloads = state.min_blocks.len() as int;
    &&& match state.step {
        Step::GateOriginal(w) => all_passed(start, events, Artifact::Original, w as int),
        Step::Failed => true,
        _ => all_passed(start, events, Artifact::Original, workloads),
    }
    &&& match state.step {
        Step::GateCandidate(c, w) => all_passed(start, events, Artifact::Candidate(c), w as int),
        Step::CompareCandidate(c, _, _) => all_passed(
            start,
            events,
            Artifact::Candidate(c),
            workloads,
        ),
        _ => true,
    }
    &&& forall|i: int|
        0 <= i < state.outcomes.len() && #[trigger] state.outcomes[i] != Outcome::GateFailed
            ==> all_passed(start, events, Artifact::Candidate(i as usize), workloads)
}

proof fn lemma_has_gated(start: State, events: Seq<Event>)
    requires
        is_in_order(start),
        start.step == Step::GateOriginal(0),
        is_history(start, events),
    ensures
        is_in_order(reached(start, events)),
        has_gated(start, events, reached(start, events)),
        reached(start, events).min_blocks == start.min_blocks,
        reached(start, events).max_blocks == start.max_blocks,
        reached(start, events).candidates == start.candidates,
    decreases events.len(),
{
    if events.len() > 0 {
        let before = events.drop_last();
        let event = events.last();
        let state = reached(start, before);
        let next = stepped(state, event);
        let workloads = state.min_blocks.len() as int;
        assert(before.push(event) =~= events);
        lemma_has_gated(start, before);
        campaigns_stay_in_order(state, event);
        assert forall|a: Artifact, n: int| all_passed(start, before, a, n) implies all_passed(
            start,
            events,
            a,
            n,
        ) by {
            lemma_all_passed_push(start, before, event, a, n);
        }
        if event == Event::Gated(true) {
            match action_of(state) {
                Action::Gate(artifact, w) => {
                    lemma_passed_now(start, before, artifact, w);
                    assert(passed(start, events, artifact, w as int));
                    assert(all_passed(start, events, artifact, w as int));
                    assert(all_passed(start, events, artifact, w + 1)) by {
                        assert forall|v: int| 0 <= v < w + 1 implies #[trigger] passed(
                            start,
                            events,
                            artifact,
                            v,
                        ) by {
                            if v < w {
                                assert(passed(start, before, artifact, v));
                                lemma_passed_push(start, before, event, artifact, v);
                            }
                        }
                    }
                },
                _ => {},
            }
        }
        assert forall|i: int|
            0 <= i < next.outcomes.len() && #[trigger] next.outcomes[i]
                != Outcome::GateFailed implies all_passed(
            start,
            events,
            Artifact::Candidate(i as usize),
            workloads,
        ) by {
            if i < state.outcomes.len() {
                assert(state.outcomes[i] == next.outcomes[i]);
                assert(all_passed(start, before, Artifact::Candidate(i as usize), workloads));
            } else {
                assert(state.step is CompareCandidate);
            }
        }
    }
}

/// Whether `artifact` may be timed after `events`: it passed on every workload.
pub open spec fn may_be_timed(start: State, events: Seq<Event>, artifact: Artifact) -> bool {
    all_passed(start, events, artifact, start.min_blocks.len() as int)
}

/// In every campaign, whatever comes of its actions, gates come before timings: what is
/// calibrated, compared or confirmed has passed its gate on every workload before.
pub proof fn gates_come_first(start: State, events: Seq<Event>)
    requires
        is_in_order(start),
        start.step == Step::GateOriginal(0),
        is_history(start, events),
    ensures
        match action_of(reached(start, events)) {
            Action::Calibrate(_) => may_be_timed(start, events, Artifact::Original),
            Action::Compare(baseline, candidate, _, _) => {
                &&& may_be_timed(start, events, Artifact::Candidate(candidate))
                &&& may_be_timed(start, events, baseline)
            },
            Action::Confirm(winner, _, _) => {
                &&& may_be_timed(start, events, Artifact::Candidate(winner))
                &&& may_be_timed(start, events, Artifact::Original)
            },
            _ => true,
        },
{
    lemma_has_gated(start, events);
    let state = reached(start, events);
    lemma_last_promoted(state.outcomes);
}

/// The candidate promoted last was promoted, and none behind it was.
proof fn lemma_last_promoted(outcomes: Seq<Outcome>)
    requires
        outcomes.len() <= usize::MAX,
    ensures
        match last_promoted(outcomes) {
            Artifact::Original => !outcomes.contains(Outcome::Promoted),
            Artifact::Candidate(c) => {
                &&& c < outcomes.len()
                &&& outcomes[c as int] == Outcome::Promoted
                &&& forall|i: int|
                    c < i < outcomes.len() ==> #[trigger] outcomes[i] != Outcome::Promoted
            },
        },
    decreases outcomes.len(),
{
    if outcomes.len() > 0 && outcomes.last() != Outcome::Promoted {
        let fewer = outcomes.drop_last();
        lemma_last_promoted(fewer);
        if last_promoted(fewer) == Artifact::Original {
            assert(!outcomes.contains(Outcome::Promoted)) by {
                if outcomes.contains(Outcome::Promoted) {
                    let i = choose|i: int| 0 <= i < outcomes.len() && outcomes[i]
                        == Outcome::Promoted;
                    assert(fewer[i] == Outcome::Promoted);
                }
            }
        } else {
            let c = last_promoted(fewer)->Candidate_0;
            assert forall|i: int| c < i < outcomes.len() implies #[trigger] outcomes[i]
                != Outcome::Promoted by {
                if i < fewer.len() {
                    assert(fewer[i] == outcomes[i]);
                }
            }
        }
    }
}

/// In every campaign, whatever comes of its actions: a candidate is compared with the
/// candidate that was promoted last, or with the original if none was; in as many blocks as
/// the calibration recommended, within the limits of the workload; and the candidates come in
/// their order.
pub proof fn ladder_is_cumulative(start: State, events: Seq<Event>)
    requires
        is_in_order(start),
        start.step == Step::GateOriginal(0),
        forall|w: int|
            0 <= w < start.min_blocks.len() ==> #[trigger] start.min_blocks[w]
                <= start.max_blocks[w],
        is_history(start, events),
    ensures
        match action_of(reached(start, events)) {
            Action::Compare(baseline, candidate, workload, blocks) => {
                let state = reached(start, events);
                &&& baseline == last_promoted(state.outcomes)
                &&& candidate == state.outcomes.len()
                &&& start.min_blocks[workload as int] <= blocks
                    <= start.max_blocks[workload as int]
            },
            _ => true,
        },
{
    lemma_has_gated(start, events);
    let state = reached(start, events);
    if let Action::Compare(_, _, workload, _) = action_of(state) {
        assert(start.min_blocks[workload as int] <= start.max_blocks[workload as int]);
    }
}

/// In every campaign, whatever comes of its actions: the winner is confirmed against the
/// original, and only when all candidates are through and one was promoted; and the original
/// stays accepted unless the campaign is complete and the winner was confirmed.
pub proof fn acceptance_is_confirmed(start: State, events: Seq<Event>)
    requires
        is_in_order(start),
        start.step == Step::GateOriginal(0),
        is_history(start, events),
    ensures
        ({
            let state = reached(start, events);
            &&& action_of(state) matches Action::Confirm(winner, _, _) ==> {
                &&& state.outcomes.len() == start.candidates
                &&& last_promoted(state.outcomes) == Artifact::Candidate(winner)
                &&& state.accepted == Artifact::Original
            }
            &&& state.accepted != Artifact::Original <==> state.step == Step::Complete(Some(true))
            &&& state.step matches Step::Complete(confirmed) ==> {
                &&& state.outcomes.len() == start.candidates
                &&& confirmed is None <==> !state.outcomes.contains(Outcome::Promoted)
            }
        }),
{
    lemma_has_gated(start, events);
    let state = reached(start, events);
    lemma_last_promoted(state.outcomes);
    if let Artifact::Candidate(c) = last_promoted(state.outcomes) {
        assert(state.outcomes[c as int] == Outcome::Promoted);
    }
}

/// An action that did not work ends the campaign. It decides nothing about a candidate, and
/// the original stays accepted.
pub proof fn breakdowns_decide_nothing(state: State)
    requires
        is_in_order(state),
        !(action_of(state) is Stop),
    ensures
        stepped(state, Event::Broken).step == Step::Failed,
        stepped(state, Event::Broken).outcomes == state.outcomes,
        stepped(state, Event::Broken).accepted == Artifact::Original,
        action_of(stepped(state, Event::Broken)) == Action::Stop,
{
}

// ---------------------------------------------------------------------------
// What the events decide.
// ---------------------------------------------------------------------------

/// The action of which the `k`-th event came.
pub open spec fn action_at(start: State, events: Seq<Event>, k: int) -> Action {
    action_of(reached(start, events.take(k)))
}

/// Whether the comparison of a candidate on a workload was made and cleared the threshold.
pub open spec fn cleared(start: State, events: Seq<Event>, candidate: int, workload: int) -> bool {
    exists|k: int|
        0 <= k < events.len() && #[trigger] events[k] == Event::Compared(true) && (action_at(
            start,
            events,
            k,
        ) matches Action::Compare(_, c, w, _) && c == candidate && w == workload)
}

/// Whether the confirmation on a workload was made and cleared the threshold.
pub open spec fn confirmed_on(start: State, events: Seq<Event>, workload: int) -> bool {
    exists|k: int|
        0 <= k < events.len() && #[trigger] events[k] == Event::Compared(true) && (action_at(
            start,
            events,
            k,
        ) matches Action::Confirm(_, w, _) && w == workload)
}

/// Whether a candidate was found, on some workload, to do something else.
pub open spec fn gate_failed(start: State, events: Seq<Event>, candidate: int) -> bool {
    exists|k: int|
        0 <= k < events.len() && #[trigger] events[k] == Event::Gated(false) && (action_at(
            start,
            events,
            k,
        ) matches Action::Gate(Artifact::Candidate(c), _) && c == candidate)
}

/// Whether a candidate cleared the threshold on all of the first `workloads` workloads.
pub open spec fn cleared_all(
    start: State,
    events: Seq<Event>,
    candidate: int,
    workloads: int,
) -> bool {
    forall|w: int| 0 <= w < workloads ==> #[trigger] cleared(start, events, candidate, w)
}

/// Whether the winner cleared the threshold again on all of the first `workloads` workloads.
pub open spec fn confirmed_on_all(start: State, events: Seq<Event>, workloads: int) -> bool {
    forall|w: int| 0 <= w < workloads ==> #[trigger] confirmed_on(start, events, w)
}

/// One more event.
proof fn lemma_one_event_more(start: State, events: Seq<Event>, event: Event)
    ensures
        ({
            let more = events.push(event);
            let action = action_of(reached(start, events));
            &&& forall|c: int, w: int| #[trigger]
                cleared(start, more, c, w) <==> cleared(start, events, c, w) || (event
                    == Event::Compared(true) && (action matches Action::Compare(_, x, v, _) && x
                    == c && v == w))
            &&& forall|w: int| #[trigger]
                confirmed_on(start, more, w) <==> confirmed_on(start, events, w) || (event
                    == Event::Compared(true) && (action matches Action::Confirm(_, v, _) && v
                    == w))
            &&& forall|c: int| #[trigger]
                gate_failed(start, more, c) <==> gate_failed(start, events, c) || (event
                    == Event::Gated(false) && (action matches Action::Gate(
                    Artifact::Candidate(x),
                    _,
                ) && x == c))
            &&& forall|k: int|
                0 <= k < events.len() ==> #[trigger] action_at(start, more, k) == action_at(
                    start,
                    events,
                    k,
                )
            &&& action_at(start, more, events.len() as int) == action
        }),
{
    let more = events.push(event);
    let n = events.len() as int;
    let action = action_of(reached(start, events));
    assert forall|k: int| 0 <= k < n implies #[trigger] action_at(start, more, k) == action_at(
        start,
        events,
        k,
    ) by {
        assert(more.take(k) =~= events.take(k));
    }
    assert(more.take(n) =~= events);
    assert(more[n] == event);
    assert forall|c: int, w: int| #[trigger] cleared(start, more, c, w) <==> cleared(
        start,
        events,
        c,
        w,
    ) || (event == Event::Compared(true) && (action matches Action::Compare(_, x, v, _) && x == c
        && v == w)) by {
        if cleared(start, events, c, w) {
            let k = choose|k: int|
                0 <= k < events.len() && #[trigger] events[k] == Event::Compared(true) && (
                action_at(start, events, k) matches Action::Compare(_, x, v, _) && x == c && v
                    == w);
            assert(more[k] == events[k]);
            assert(action_at(start, more, k) == action_at(start, events, k));
        }
        if cleared(start, more, c, w) {
            let k = choose|k: int|
                0 <= k < more.len() && #[trigger] more[k] == Event::Compared(true) && (action_at(
                    start,
                    more,
                    k,
                ) matches Action::Compare(_, x, v, _) && x == c && v == w);
            if k < n {
                assert(events[k] == more[k]);
                assert(action_at(start, more, k) == action_at(start, events, k));
            }
        }
    }
    assert forall|w: int| #[trigger] confirmed_on(start, more, w) <==> confirmed_on(
        start,
        events,
        w,
    ) || (event == Event::Compared(true) && (action matches Action::Confirm(_, v, _) && v
        == w)) by {
        if confirmed_on(start, events, w) {
            let k = choose|k: int|
                0 <= k < events.len() && #[trigger] events[k] == Event::Compared(true) && (
                action_at(start, events, k) matches Action::Confirm(_, v, _) && v == w);
            assert(more[k] == events[k]);
            assert(action_at(start, more, k) == action_at(start, events, k));
        }
        if confirmed_on(start, more, w) {
            let k = choose|k: int|
                0 <= k < more.len() && #[trigger] more[k] == Event::Compared(true) && (action_at(
                    start,
                    more,
                    k,
                ) matches Action::Confirm(_, v, _) && v == w);
            if k < n {
                assert(events[k] == more[k]);
                assert(action_at(start, more, k) == action_at(start, events, k));
            }
        }
    }
    assert forall|c: int| #[trigger] gate_failed(start, more, c) <==> gate_failed(start, events, c)
        || (event == Event::Gated(false) && (action matches Action::Gate(
        Artifact::Candidate(x),
        _,
    ) && x == c)) by {
        if gate_failed(start, events, c) {
            let k = choose|k: int|
                0 <= k < events.len() && #[trigger] events[k] == Event::Gated(false) && (action_at(
                    start,
                    events,
                    k,
                ) matches Action::Gate(Artifact::Candidate(x), _) && x == c);
            assert(more[k] == events[k]);
            assert(action_at(start, more, k) == action_at(start, events, k));
        }
        if gate_failed(start, more, c) {
            let k = choose|k: int|
                0 <= k < more.len() && #[trigger] more[k] == Event::Gated(false) && (action_at(
                    start,
                    more,
                    k,
                ) matches Action::Gate(Artifact::Candidate(x), _) && x == c);
            if k < n {
                assert(events[k] == more[k]);
                assert(action_at(start, more, k) == action_at(start, events, k));
            }
        }
    }
}

/// Which comparisons a state has behind it.
spec fn has_compared(start: State, events: Seq<Event>, state: State) -> bool {
    let workloads = state.min_blocks.len() as int;
    &&& match state.step {
        Step::CompareCandidate(c, w, clear) => {
            &&& clear <==> cleared_all(start, events, c as int, w as int)
            &&& forall|x: int, v: int| #[trigger]
                cleared(start, events, x, v) ==> x < c || (x == c && v < w)
        },
        Step::Failed => true,
        _ => forall|x: int, v: int| #[trigger]
            cleared(start, events, x, v) ==> x < state.outcomes.len(),
    }
    &&& match state.step {
        Step::Confirm(w, clear) => {
            &&& clear <==> confirmed_on_all(start, events, w as int)
            &&& forall|v: int| #[trigger] confirmed_on(start, events, v) ==> v < w
        },
        Step::Complete(Some(_)) | Step::Failed => true,
        _ => forall|v: int| !#[trigger] confirmed_on(start, events, v),
    }
    &&& confirmed_on_all(start, events, workloads) <==> state.step == Step::Complete(Some(true))
    &&& forall|c: int|
        0 <= c ==> (#[trigger] cleared_all(start, events, c, workloads) <==> c
            < state.outcomes.len() && state.outcomes[c] == Outcome::Promoted)
    &&& forall|c: int|
        0 <= c ==> (#[trigger] gate_failed(start, events, c) <==> c < state.outcomes.len()
            && state.outcomes[c] == Outcome::GateFailed)
    &&& forall|k: int|
        0 <= k < events.len() ==> (#[trigger] events[k] matches Event::Calibrated(n) ==> action_at(
            start,
            events,
            k,
        ) matches Action::Calibrate(w) ==> w < state.recommended.len()
            && state.recommended[w as int] == n)
}

proof fn lemma_has_compared(start: State, events: Seq<Event>)
    requires
        is_in_order(start),
        start.step == Step::GateOriginal(0),
        is_history(start, events),
    ensures
        has_compared(start, events, reached(start, events)),
    decreases events.len(),
{
    let workloads = start.min_blocks.len() as int;
    if events.len() == 0 {
        assert(!cleared(start, events, 0, 0));
        assert(!confirmed_on(start, events, 0));
        assert forall|c: int| 0 <= c implies !#[trigger] cleared_all(
            start,
            events,
            c,
            workloads,
        ) by {
            assert(!cleared(start, events, c, 0));
        }
    } else {
        let before = events.drop_last();
        let event = events.last();
        let state = reached(start, before);
        let next = stepped(state, event);
        let action = action_of(state);
        assert(before.push(event) =~= events);
        lemma_has_compared(start, before);
        lemma_has_gated(start, before);
        lemma_one_event_more(start, before, event);
        if event != Event::Compared(true) {
            assert forall|c: int, n: int| #[trigger] cleared_all(start, events, c, n)
                == cleared_all(start, before, c, n) by {
                if cleared_all(start, before, c, n) {
                    assert forall|w: int| 0 <= w < n implies #[trigger] cleared(
                        start,
                        events,
                        c,
                        w,
                    ) by {
                        assert(cleared(start, before, c, w));
                    }
                }
                if cleared_all(start, events, c, n) {
                    assert forall|w: int| 0 <= w < n implies #[trigger] cleared(
                        start,
                        before,
                        c,
                        w,
                    ) by {
                        assert(cleared(start, events, c, w));
                    }
                }
            }
            lemma_confirmed_same(start, before, events, workloads);
        }
        match (state.step, event) {
            (Step::CompareCandidate(c, w, clear), Event::Compared(clears)) => {
                lemma_cleared_more(start, before, event, c as int, w as int);
                lemma_confirmed_same(start, before, events, workloads);
                assert(cleared_all(start, events, c as int, w + 1) <==> clear && clears);
                assert forall|x: int| 0 <= x && x != c implies #[trigger] cleared_all(
                    start,
                    events,
                    x,
                    workloads,
                ) == cleared_all(start, before, x, workloads) by {
                    if cleared_all(start, before, x, workloads) {
                        assert forall|v: int| 0 <= v < workloads implies #[trigger] cleared(
                            start,
                            events,
                            x,
                            v,
                        ) by {
                            assert(cleared(start, before, x, v));
                        }
                    }
                    if cleared_all(start, events, x, workloads) {
                        assert forall|v: int| 0 <= v < workloads implies #[trigger] cleared(
                            start,
                            before,
                            x,
                            v,
                        ) by {
                            assert(cleared(start, events, x, v));
                        }
                    }
                }
                if w + 1 < workloads {
                    assert(!cleared(start, events, c as int, w + 1));
                    assert(!cleared_all(start, events, c as int, workloads));
                }
            },
            (Step::Confirm(w, clear), Event::Compared(clears)) => {
                lemma_confirmed_more(start, before, event, w as int);
                assert(confirmed_on_all(start, events, w + 1) <==> clear && clears);
                assert forall|x: int| 0 <= x implies #[trigger] cleared_all(
                    start,
                    events,
                    x,
                    workloads,
                ) == cleared_all(start, before, x, workloads) by {
                    if cleared_all(start, before, x, workloads) {
                        assert forall|v: int| 0 <= v < workloads implies #[trigger] cleared(
                            start,
                            events,
                            x,
                            v,
                        ) by {
                            assert(cleared(start, before, x, v));
                        }
                    }
                    if cleared_all(start, events, x, workloads) {
                        assert forall|v: int| 0 <= v < workloads implies #[trigger] cleared(
                            start,
                            before,
                            x,
                            v,
                        ) by {
                            assert(cleared(start, events, x, v));
                        }
                    }
                }
                if w + 1 < workloads {
                    assert(!confirmed_on(start, events, w + 1));
                    assert(!confirmed_on_all(start, events, workloads));
                }
            },
            _ => {},
        }
        assert forall|k: int| 0 <= k < events.len() implies (#[trigger] events[k] matches
            Event::Calibrated(n) ==> action_at(start, events, k) matches Action::Calibrate(w) ==> w
            < next.recommended.len() && next.recommended[w as int] == n) by {
            if k < before.len() {
                assert(before[k] == events[k]);
                assert(action_at(start, events, k) == action_at(start, before, k));
            }
        }
    }
}

/// What an event that is no confirmation leaves as it was.
proof fn lemma_confirmed_same(start: State, before: Seq<Event>, events: Seq<Event>, n: int)
    requires
        forall|w: int| #[trigger]
            confirmed_on(start, events, w) <==> confirmed_on(start, before, w),
    ensures
        confirmed_on_all(start, events, n) == confirmed_on_all(start, before, n),
{
    if confirmed_on_all(start, before, n) {
        assert forall|w: int| 0 <= w < n implies #[trigger] confirmed_on(start, events, w) by {
            assert(confirmed_on(start, before, w));
        }
    }
    if confirmed_on_all(start, events, n) {
        assert forall|w: int| 0 <= w < n implies #[trigger] confirmed_on(start, before, w) by {
            assert(confirmed_on(start, events, w));
        }
    }
}

/// One more workload on which a candidate is compared.
proof fn lemma_cleared_more(start: State, events: Seq<Event>, event: Event, c: int, w: int)
    requires
        action_of(reached(start, events)) matches Action::Compare(_, x, v, _) && x == c && v == w,
        !cleared(start, events, c, w),
        0 <= w,
        event is Compared,
    ensures
        cleared_all(start, events.push(event), c, w + 1) <==> cleared_all(start, events, c, w)
            && event == Event::Compared(true),
{
    let more = events.push(event);
    lemma_one_event_more(start, events, event);
    if cleared_all(start, more, c, w + 1) {
        assert(cleared(start, more, c, w));
        assert forall|v: int| 0 <= v < w implies #[trigger] cleared(start, events, c, v) by {
            assert(cleared(start, more, c, v));
        }
    }
    if cleared_all(start, events, c, w) && event == Event::Compared(true) {
        assert forall|v: int| 0 <= v < w + 1 implies #[trigger] cleared(start, more, c, v) by {
            if v < w {
                assert(cleared(start, events, c, v));
            }
        }
    }
}

/// One more workload on which the winner is confirmed.
proof fn lemma_confirmed_more(start: State, events: Seq<Event>, event: Event, w: int)
    requires
        action_of(reached(start, events)) matches Action::Confirm(_, v, _) && v == w,
        !confirmed_on(start, events, w),
        0 <= w,
        event is Compared,
    ensures
        confirmed_on_all(start, events.push(event), w + 1) <==> confirmed_on_all(start, events, w)
            && event == Event::Compared(true),
{
    let more = events.push(event);
    lemma_one_event_more(start, events, event);
    if confirmed_on_all(start, more, w + 1) {
        assert(confirmed_on(start, more, w));
        assert forall|v: int| 0 <= v < w implies #[trigger] confirmed_on(start, events, v) by {
            assert(confirmed_on(start, more, v));
        }
    }
    if confirmed_on_all(start, events, w) && event == Event::Compared(true) {
        assert forall|v: int| 0 <= v < w + 1 implies #[trigger] confirmed_on(start, more, v) by {
            if v < w {
                assert(confirmed_on(start, events, v));
            }
        }
    }
}

/// In every campaign, a candidate is promoted if and only if its comparison on every workload
/// cleared the threshold; it is out for its gate if and only if it was found to do something
/// else on some workload; and the candidate that was promoted last is the current baseline.
pub proof fn promotions_come_of_every_workload(start: State, events: Seq<Event>, candidate: int)
    requires
        is_in_order(start),
        start.step == Step::GateOriginal(0),
        is_history(start, events),
        0 <= candidate,
    ensures
        ({
            let state = reached(start, events);
            let workloads = start.min_blocks.len() as int;
            let through = candidate < state.outcomes.len();
            &&& (through && state.outcomes[candidate] == Outcome::Promoted) <==> forall|w: int|
                0 <= w < workloads ==> #[trigger] cleared(start, events, candidate, w)
            &&& (through && state.outcomes[candidate] == Outcome::GateFailed) <==> gate_failed(
                start,
                events,
                candidate,
            )
            &&& through ==> state.outcomes[candidate] != Outcome::OperationalFailure
            &&& match state.current {
                Artifact::Original => !(through && state.outcomes[candidate]
                    == Outcome::Promoted),
                Artifact::Candidate(c) => {
                    &&& c < state.outcomes.len() && state.outcomes[c as int] == Outcome::Promoted
                    &&& through && state.outcomes[candidate] == Outcome::Promoted ==> candidate
                        <= c
                },
            }
        }),
{
    lemma_has_compared(start, events);
    lemma_has_gated(start, events);
    let state = reached(start, events);
    let workloads = start.min_blocks.len() as int;
    lemma_last_promoted(state.outcomes);
    assert(cleared_all(start, events, candidate, workloads) <==> forall|w: int|
        0 <= w < workloads ==> #[trigger] cleared(start, events, candidate, w));
    assert(gate_failed(start, events, candidate) <==> candidate < state.outcomes.len()
        && state.outcomes[candidate] == Outcome::GateFailed);
    if candidate < state.outcomes.len() {
        assert(state.outcomes.contains(state.outcomes[candidate]));
    }
}

/// In every campaign, the winner is confirmed and accepted if and only if its confirmation on
/// every workload cleared the threshold.
pub proof fn acceptance_comes_of_every_workload(start: State, events: Seq<Event>)
    requires
        is_in_order(start),
        start.step == Step::GateOriginal(0),
        is_history(start, events),
    ensures
        ({
            let state = reached(start, events);
            let workloads = start.min_blocks.len() as int;
            let confirmed = forall|w: int|
                0 <= w < workloads ==> #[trigger] confirmed_on(start, events, w);
            &&& state.step == Step::Complete(Some(true)) <==> confirmed
            &&& state.accepted != Artifact::Original <==> confirmed
            &&& confirmed ==> state.accepted == last_promoted(state.outcomes)
        }),
{
    lemma_has_compared(start, events);
    acceptance_is_confirmed(start, events);
    lemma_has_gated(start, events);
    let workloads = start.min_blocks.len() as int;
    assert(confirmed_on_all(start, events, workloads) <==> forall|w: int|
        0 <= w < workloads ==> #[trigger] confirmed_on(start, events, w));
}

/// In every campaign, a comparison or a confirmation on a workload has as many blocks as the
/// calibration of that workload recommended; or the fewest allowed if it recommended fewer, or
/// the most allowed if it recommended more.
pub proof fn blocks_come_of_the_calibration(start: State, events: Seq<Event>, k: int)
    requires
        is_in_order(start),
        start.step == Step::GateOriginal(0),
        is_history(start, events),
        0 <= k < events.len(),
        events[k] is Calibrated,
        action_at(start, events, k) is Calibrate,
    ensures
        ({
            let workload = action_at(start, events, k)->Calibrate_0;
            let n = events[k]->Calibrated_0;
            let low = start.min_blocks[workload as int];
            let high = start.max_blocks[workload as int];
            match action_of(reached(start, events)) {
                Action::Compare(_, _, w, blocks) => w == workload ==> {
                    &&& low <= n <= high ==> blocks == n
                    &&& n < low ==> blocks == low
                    &&& low <= high < n ==> blocks == high
                },
                Action::Confirm(_, w, blocks) => w == workload ==> {
                    &&& low <= n <= high ==> blocks == n
                    &&& n < low ==> blocks == low
                    &&& low <= high < n ==> blocks == high
                },
                _ => true,
            }
        }),
{
    lemma_has_compared(start, events);
    lemma_has_gated(start, events);
}

/// Whether the comparisons on a workload have fewer blocks than recommended, if that is known.
pub open spec fn underpowered(state: State, workload: int) -> Option<bool> {
    if workload < state.recommended.len() {
        Some(state.recommended[workload] > state.max_blocks[workload])
    } else {
        None
    }
}

/// In every campaign, what the calibration of a workload recommended stays recommended; and the
/// workload is known to be underpowered if and only if that was more than the most allowed.
pub proof fn recommendations_are_kept(start: State, events: Seq<Event>, k: int)
    requires
        is_in_order(start),
        start.step == Step::GateOriginal(0),
        is_history(start, events),
        0 <= k < events.len(),
        events[k] is Calibrated,
        action_at(start, events, k) is Calibrate,
    ensures
        ({
            let workload = action_at(start, events, k)->Calibrate_0;
            let state = reached(start, events);
            &&& workload < state.recommended.len()
            &&& state.recommended[workload as int] == events[k]->Calibrated_0
            &&& underpowered(state, workload as int) == Some(
                events[k]->Calibrated_0 > start.max_blocks[workload as int],
            )
        }),
{
    lemma_has_compared(start, events);
    lemma_has_gated(start, events);
}

// ---------------------------------------------------------------------------
// The driver's side.
// ---------------------------------------------------------------------------

/// A campaign under way.
pub struct Ladder {
    candidates: usize,
    min_blocks: Vec<usize>,
    max_blocks: Vec<usize>,
    step: Step,
    recommended: Vec<usize>,
    outcomes: Vec<Outcome>,
    current: Artifact,
    accepted: Artifact,
}

impl View for Ladder {
    type V = State;

    closed spec fn view(&self) -> State {
        State {
            candidates: self.candidates as nat,
            min_blocks: self.min_blocks@,
            max_blocks: self.max_blocks@,
            step: self.step,
            recommended: self.recommended@,
            outcomes: self.outcomes@,
            current: self.current,
            accepted: self.accepted,
        }
    }
}

impl Ladder {
    /// Start a campaign of `candidates` candidates on workloads with the given limits.
    pub fn new(candidates: usize, min_blocks: Vec<usize>, max_blocks: Vec<usize>) -> (ladder: Self)
        requires
            candidates > 0,
            min_blocks.len() > 0,
            max_blocks.len() == min_blocks.len(),
        ensures
            ladder@ == at_start(candidates as nat, min_blocks@, max_blocks@),
            is_in_order(ladder@),
    {
        let ladder = Ladder {
            candidates,
            min_blocks,
            max_blocks,
            step: Step::GateOriginal(0),
            recommended: Vec::new(),
            outcomes: Vec::new(),
            current: Artifact::Original,
            accepted: Artifact::Original,
        };
        assert(ladder.recommended@ =~= Seq::empty());
        assert(ladder.outcomes@ =~= Seq::empty());
        ladder
    }

    fn blocks(&self, workload: usize) -> (blocks: usize)
        requires
            workload < self@.recommended.len(),
            self@.recommended.len() == self@.min_blocks.len(),
            self@.recommended.len() == self@.max_blocks.len(),
        ensures
            blocks == blocks_of(self@, workload as int),
    {
        chosen_blocks(
            self.recommended[workload],
            self.min_blocks[workload],
            self.max_blocks[workload],
        )
    }

    /// What is to be done next.
    pub fn next_action(&self) -> (action: Action)
        requires
            is_in_order(self@),
        ensures
            action == action_of(self@),
    {
        match self.step {
            Step::GateOriginal(w) => Action::Gate(Artifact::Original, w),
            Step::Calibrate(w) => Action::Calibrate(w),
            Step::GateCandidate(c, w) => Action::Gate(Artifact::Candidate(c), w),
            Step::CompareCandidate(c, w, _) => Action::Compare(self.current, c, w, self.blocks(w)),
            Step::Confirm(w, _) => match self.current {
                Artifact::Original => Action::Stop,
                Artifact::Candidate(c) => Action::Confirm(c, w, self.blocks(w)),
            },
            Step::Complete(_) => Action::Stop,
            Step::Failed => Action::Stop,
        }
    }

    fn behind(&self, c: usize, current: Artifact) -> (step: Step)
        requires
            c < self@.candidates,
        ensures
            step == behind_candidate(self@, c, current),
    {
        if c + 1 < self.candidates {
            Step::GateCandidate(c + 1, 0)
        } else {
            match current {
                Artifact::Original => Step::Complete(None),
                Artifact::Candidate(_) => Step::Confirm(0, true),
            }
        }
    }

    /// Take note of what came of the action at hand.
    pub fn advance(&mut self, event: Event)
        requires
            is_in_order(old(self)@),
            can_come(action_of(old(self)@), event),
        ensures
            final(self)@ == stepped(old(self)@, event),
            is_in_order(final(self)@),
    {
        proof {
            campaigns_stay_in_order(self@, event);
        }
        let workloads: usize = self.min_blocks.len();
        match (self.step, event) {
            (Step::GateOriginal(w), Event::Gated(true)) => {
                self.step = if w + 1 < workloads {
                    Step::GateOriginal(w + 1)
                } else {
                    Step::Calibrate(0)
                };
            },
            (Step::Calibrate(w), Event::Calibrated(n)) => {
                self.recommended.push(n);
                self.step = if w + 1 < workloads {
                    Step::Calibrate(w + 1)
                } else {
                    Step::GateCandidate(0, 0)
                };
            },
            (Step::GateCandidate(c, w), Event::Gated(true)) => {
                self.step = if w + 1 < workloads {
                    Step::GateCandidate(c, w + 1)
                } else {
                    Step::CompareCandidate(c, 0, true)
                };
            },
            (Step::GateCandidate(c, _), Event::Gated(false)) => {
                self.step = self.behind(c, self.current);
                self.outcomes.push(Outcome::GateFailed);
            },
            (Step::CompareCandidate(c, w, clear), Event::Compared(clears)) => {
                if w + 1 < workloads {
                    self.step = Step::CompareCandidate(c, w + 1, clear && clears);
                } else if clear && clears {
                    self.step = self.behind(c, Artifact::Candidate(c));
                    self.outcomes.push(Outcome::Promoted);
                    self.current = Artifact::Candidate(c);
                } else {
                    self.step = self.behind(c, self.current);
                    self.outcomes.push(Outcome::NotPromoted);
                }
            },
            (Step::Confirm(w, clear), Event::Compared(clears)) => {
                if w + 1 < workloads {
                    self.step = Step::Confirm(w + 1, clear && clears);
                } else {
                    self.step = Step::Complete(Some(clear && clears));
                    if clear && clears {
                        self.accepted = self.current;
                    }
                }
            },
            _ => {
                self.step = Step::Failed;
            },
        }
    }

    /// Where the campaign is.
    pub fn step(&self) -> (step: Step)
        ensures
            step == self@.step,
    {
        self.step
    }

    /// The baseline of the next comparison.
    pub fn current_baseline(&self) -> (artifact: Artifact)
        ensures
            artifact == self@.current,
    {
        self.current
    }

    /// The artifact that is accepted.
    pub fn accepted_baseline(&self) -> (artifact: Artifact)
        ensures
            artifact == self@.accepted,
    {
        self.accepted
    }

    /// What became of a candidate, if that is decided.
    pub fn outcome(&self, candidate: usize) -> (outcome: Option<Outcome>)
        ensures
            outcome == (if candidate < self@.outcomes.len() {
                Some(self@.outcomes[candidate as int])
            } else {
                None
            }),
    {
        if candidate < self.outcomes.len() {
            Some(self.outcomes[candidate])
        } else {
            None
        }
    }

    /// Whether the comparisons on a workload have fewer blocks than recommended, if that is
    /// known.
    pub fn is_underpowered(&self, workload: usize) -> (yes: Option<bool>)
        requires
            is_in_order(self@),
            workload < self@.min_blocks.len(),
        ensures
            yes == underpowered(self@, workload as int),
            yes == (if workload < self@.recommended.len() {
                Some(self@.recommended[workload as int] > self@.max_blocks[workload as int])
            } else {
                None
            }),
    {
        if workload < self.recommended.len() {
            Some(self.recommended[workload] > self.max_blocks[workload])
        } else {
            None
        }
    }
}

}
