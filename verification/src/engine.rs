//! The comparison engine: the sweep of one left image over a list of right
//! candidates.
//!
//! A sweep decides and the caller works.  The sweep asks for one thing at a
//! time with a [`Request`]: to resolve the representation of a path, or to
//! measure a pair.  The caller does that and answers with an [`Event`];
//! [`compare_imgs`] takes the answer, may report something with a
//! [`Notice`], and asks for the next thing, until the sweep is finished or
//! aborted.

use crate::score::{is_nan, Score};
use crate::tracker::{after_claims, claimable, texts, PairTracker};
use vstd::prelude::*;

verus! {

/// Where a sweep stands.
#[derive(Clone, Copy, Debug, PartialEq, Eq, Structural)]
pub enum Stage {
    /// The representation of the left image has been asked for.
    Left,
    /// The representation of the current right image has been asked for.
    Right,
    /// The score of the left and the current right image has been asked for.
    Metric,
    /// Every right candidate has been dealt with.
    Finished,
    /// The left image has no representation: nothing was compared.
    Aborted,
}

/// What the caller reports back to a sweep.
#[derive(Debug, PartialEq, Eq)]
pub enum Event {
    /// The representation that was asked for is there.
    Resolved,
    /// The image that was asked for has no representation, for this reason.
    Unresolved(String),
    /// The score that was asked for.
    Scored(Score),
}

/// What a sweep asks of the caller.
#[derive(Debug, PartialEq, Eq)]
pub enum Request<'a> {
    /// Resolve the representation of this path.
    Resolve(&'a String),
    /// Measure the dissimilarity of these two images, left and right.
    Measure(&'a String, &'a String),
    /// Nothing: the sweep is finished.
    Finished,
    /// Nothing: the sweep was aborted, for this reason.
    Aborted(String),
}

/// A pair whose score is at or below the threshold.
#[derive(Debug, PartialEq, Eq)]
pub struct ComparisonOutcome {
    pub left: String,
    pub right: String,
    pub score: Score,
}

/// What a sweep has to report after an event.
#[derive(Debug, PartialEq, Eq)]
pub enum Notice {
    /// Nothing.
    Silent,
    /// The pair that was measured is similar enough to be reported.
    Match(ComparisonOutcome),
    /// The right image with this path was skipped, for this reason.
    Skipped(String, String),
}

/// What a sweep hands back for an event.
#[derive(Debug, PartialEq, Eq)]
pub struct Step<'a> {
    pub notice: Notice,
    pub request: Request<'a>,
}

pub enum EventView {
    Resolved,
    Unresolved(Seq<char>),
    Scored(Score),
}

pub enum RequestView {
    Resolve(Seq<char>),
    Measure(Seq<char>, Seq<char>),
    Finished,
    Aborted(Seq<char>),
}

pub struct OutcomeView {
    pub left: Seq<char>,
    pub right: Seq<char>,
    pub score: Score,
}

pub enum NoticeView {
    Silent,
    Match(OutcomeView),
    Skipped(Seq<char>, Seq<char>),
}

pub struct StepView {
    pub notice: NoticeView,
    pub request: RequestView,
}

impl View for Event {
    type V = EventView;

    open spec fn view(&self) -> EventView {
        match *self {
            Event::Resolved => EventView::Resolved,
            Event::Unresolved(reason) => EventView::Unresolved(reason@),
            Event::Scored(score) => EventView::Scored(score),
        }
    }
}

impl<'a> View for Request<'a> {
    type V = RequestView;

    open spec fn view(&self) -> RequestView {
        match *self {
            Request::Resolve(path) => RequestView::Resolve(path@),
            Request::Measure(left, right) => RequestView::Measure(left@, right@),
            Request::Finished => RequestView::Finished,
            Request::Aborted(reason) => RequestView::Aborted(reason@),
        }
    }
}

impl View for ComparisonOutcome {
    type V = OutcomeView;

    open spec fn view(&self) -> OutcomeView {
        OutcomeView { left: self.left@, right: self.right@, score: self.score }
    }
}

impl View for Notice {
    type V = NoticeView;

    open spec fn view(&self) -> NoticeView {
        match *self {
            Notice::Silent => NoticeView::Silent,
            Notice::Match(outcome) => NoticeView::Match(outcome@),
            Notice::Skipped(path, reason) => NoticeView::Skipped(path@, reason@),
        }
    }
}

impl<'a> View for Step<'a> {
    type V = StepView;

    open spec fn view(&self) -> StepView {
        StepView { notice: self.notice@, request: self.request@ }
    }
}

/// A sweep as the contracts see it.
pub struct SweepView {
    /// The left image.
    pub left: Seq<char>,
    /// The right candidates, in the order in which they are tried.
    pub rights: Seq<Seq<char>>,
    /// The score up to which a pair is reported.
    pub threshold: Score,
    /// How many of the right candidates have been taken up.
    pub cursor: int,
    pub stage: Stage,
    /// Why the sweep was aborted; empty unless it was.
    pub reason: Seq<char>,
}

impl SweepView {
    /// The right candidate that was taken up last.
    pub open spec fn current(self) -> Seq<char> {
        self.rights[self.cursor - 1]
    }

    /// Whether the sweep stands at a place that it can have reached.
    pub open spec fn in_step(self) -> bool {
        &&& 0 <= self.cursor <= self.rights.len()
        &&& (self.stage == Stage::Right || self.stage == Stage::Metric) ==> self.cursor >= 1
    }

    /// A bound on the events that the sweep still takes.
    pub open spec fn steps_left(self) -> int {
        3 * (self.rights.len() - self.cursor) + (match self.stage {
            Stage::Left => 1int,
            Stage::Right => 2int,
            Stage::Metric => 1int,
            Stage::Finished => 0int,
            Stage::Aborted => 0int,
        })
    }

    /// What the sweep is waiting for.
    pub open spec fn pending(self) -> RequestView {
        match self.stage {
            Stage::Left => RequestView::Resolve(self.left),
            Stage::Right => RequestView::Resolve(self.current()),
            Stage::Metric => RequestView::Measure(self.left, self.current()),
            Stage::Finished => RequestView::Finished,
            Stage::Aborted => RequestView::Aborted(self.reason),
        }
    }
}

/// The first candidate at or after `from` whose pair with `left` can still
/// be claimed, or the number of candidates if there is none.
pub open spec fn next_claimable(
    claims: Set<(Seq<char>, Seq<char>)>,
    left: Seq<char>,
    rights: Seq<Seq<char>>,
    from: int,
) -> int
    decreases rights.len() - from,
{
    if from < 0 || from >= rights.len() {
        rights.len() as int
    } else if claimable(claims, left, rights[from]) {
        from
    } else {
        next_claimable(claims, left, rights, from + 1)
    }
}

/// A sweep, the claims and what the sweep hands back, after an event.
pub struct Transition {
    pub sweep: SweepView,
    pub claims: Set<(Seq<char>, Seq<char>)>,
    pub step: StepView,
}

/// The sweep moves on to the next candidate whose pair it can claim, claims
/// it and asks for that candidate's representation; when no candidate is
/// left, it is finished.
pub open spec fn move_on(sweep: SweepView, claims: Set<(Seq<char>, Seq<char>)>, notice: NoticeView) -> Transition {
    let next = next_claimable(claims, sweep.left, sweep.rights, sweep.cursor);
    if next < sweep.rights.len() {
        Transition {
            sweep: SweepView { cursor: next + 1, stage: Stage::Right, ..sweep },
            claims: claims.insert((sweep.left, sweep.rights[next])),
            step: StepView { notice, request: RequestView::Resolve(sweep.rights[next]) },
        }
    } else {
        Transition {
            sweep: SweepView { cursor: sweep.rights.len() as int, stage: Stage::Finished, ..sweep },
            claims,
            step: StepView { notice, request: RequestView::Finished },
        }
    }
}

/// What is said of a measured pair: it is reported if and only if its score
/// is at or below the threshold.
pub open spec fn report(left: Seq<char>, right: Seq<char>, score: Score, threshold: Score) -> NoticeView {
    if score.within(threshold) {
        NoticeView::Match(OutcomeView { left, right, score })
    } else {
        NoticeView::Silent
    }
}

/// What an event does to a sweep.
///
/// A left image without a representation aborts the sweep.  A right image
/// without one is skipped.  Either way the pair of the failed image with
/// each candidate is claimed, so that no sweep on these claims takes the
/// image up again.  A score at or below the threshold is reported.  An
/// event that does not answer what the sweep is waiting for changes nothing,
/// and the sweep asks again.
pub open spec fn transition(sweep: SweepView, claims: Set<(Seq<char>, Seq<char>)>, event: EventView) -> Transition {
    match (sweep.stage, event) {
        (Stage::Left, EventView::Resolved) => move_on(sweep, claims, NoticeView::Silent),
        (Stage::Left, EventView::Unresolved(reason)) => Transition {
            sweep: SweepView { stage: Stage::Aborted, reason, ..sweep },
            claims: after_claims(claims, sweep.left, sweep.rights),
            step: StepView { notice: NoticeView::Silent, request: RequestView::Aborted(reason) },
        },
        (Stage::Right, EventView::Resolved) => Transition {
            sweep: SweepView { stage: Stage::Metric, ..sweep },
            claims,
            step: StepView {
                notice: NoticeView::Silent,
                request: RequestView::Measure(sweep.left, sweep.current()),
            },
        },
        (Stage::Right, EventView::Unresolved(reason)) => move_on(
            sweep,
            after_claims(claims, sweep.current(), sweep.rights),
            NoticeView::Skipped(sweep.current(), reason),
        ),
        (Stage::Metric, EventView::Scored(score)) => move_on(
            sweep,
            claims,
            report(sweep.left, sweep.current(), score, sweep.threshold),
        ),
        _ => Transition {
            sweep,
            claims,
            step: StepView { notice: NoticeView::Silent, request: sweep.pending() },
        },
    }
}

/// The sweep of one left image over a list of right candidates.
pub struct Sweep<'a> {
    left: &'a String,
    rights: &'a Vec<String>,
    threshold: Score,
    cursor: usize,
    stage: Stage,
    reason: String,
}

impl<'a> View for Sweep<'a> {
    type V = SweepView;

    closed spec fn view(&self) -> SweepView {
        SweepView {
            left: self.left@,
            rights: texts(self.rights@),
            threshold: self.threshold,
            cursor: self.cursor as int,
            stage: self.stage,
            reason: self.reason@,
        }
    }
}

impl<'a> Sweep<'a> {
    #[verifier::type_invariant]
    spec fn well_formed(&self) -> bool {
        &&& self.cursor <= self.rights.len()
        &&& (self.stage == Stage::Right || self.stage == Stage::Metric) ==> self.cursor >= 1
        &&& self.stage != Stage::Aborted ==> self.reason@ == Seq::<char>::empty()
    }

    /// A sweep of `left` over `rights` that reports the pairs whose score is
    /// at or below `threshold`.  It starts by waiting for the representation
    /// of `left`.
    pub fn new(left: &'a String, rights: &'a Vec<String>, threshold: Score) -> (sweep: Sweep<'a>)
        ensures
            sweep@ == (SweepView {
                left: left@,
                rights: texts(rights@),
                threshold,
                cursor: 0,
                stage: Stage::Left,
                reason: Seq::<char>::empty(),
            }),
    {
        Sweep { left, rights, threshold, cursor: 0, stage: Stage::Left, reason: String::new() }
    }

    /// Where the sweep stands.  Every sweep is in step.
    pub fn stage(&self) -> (stage: Stage)
        ensures
            stage == self@.stage,
            self@.in_step(),
    {
        proof {
            use_type_invariant(self);
        }
        self.stage
    }

    /// What the sweep is waiting for.
    pub fn pending(&self) -> (request: Request<'a>)
        ensures
            request@ == self@.pending(),
    {
        proof {
            use_type_invariant(self);
        }
        match self.stage {
            Stage::Left => Request::Resolve(self.left),
            Stage::Right => Request::Resolve(&self.rights[self.cursor - 1]),
            Stage::Metric => Request::Measure(self.left, &self.rights[self.cursor - 1]),
            Stage::Finished => Request::Finished,
            Stage::Aborted => Request::Aborted(self.reason.clone()),
        }
    }
}

/// `next_claimable` is the least candidate from `from` on that can be
/// claimed.
proof fn lemma_next_claimable(
    claims: Set<(Seq<char>, Seq<char>)>,
    left: Seq<char>,
    rights: Seq<Seq<char>>,
    from: int,
    next: int,
)
    requires
        0 <= from <= next <= rights.len(),
        forall|k: int| from <= k < next ==> !claimable(claims, left, #[trigger] rights[k]),
        next < rights.len() ==> claimable(claims, left, rights[next]),
    ensures
        next_claimable(claims, left, rights, from) == next,
    decreases next - from,
{
    if from < next {
        lemma_next_claimable(claims, left, rights, from + 1, next);
    }
}

/// Moves the sweep on to the next candidate whose pair it can claim.
fn move_on_from<'a>(sweep: &mut Sweep<'a>, tracker: &mut PairTracker, notice: Notice) -> (step: Step<'a>)
    requires
        old(sweep).stage != Stage::Aborted,
    ensures
        (Transition { sweep: final(sweep)@, claims: final(tracker)@, step: step@ }) == move_on(
            old(sweep)@,
            old(tracker)@,
            notice@,
        ),
{
    proof {
        use_type_invariant(&*sweep);
    }
    let left = sweep.left;
    let rights = sweep.rights;
    let threshold = sweep.threshold;
    let start: usize = sweep.cursor;
    let mut i: usize = start;
    while i < rights.len()
        invariant
            start <= i <= rights.len(),
            tracker@ == old(tracker)@,
            sweep@ == old(sweep)@,
            left == old(sweep).left,
            rights == old(sweep).rights,
            threshold == old(sweep).threshold,
            start == old(sweep).cursor,
            old(sweep).stage != Stage::Aborted,
            old(sweep).reason@ == Seq::<char>::empty(),
            forall|k: int| start <= k < i ==> !claimable(tracker@, left@, #[trigger] texts(rights@)[k]),
        decreases rights.len() - i,
    {
        if tracker.try_claim(left, &rights[i]) {
            proof {
                lemma_next_claimable(old(tracker)@, left@, texts(rights@), start as int, i as int);
            }
            *sweep = Sweep { left, rights, threshold, cursor: i + 1, stage: Stage::Right, reason: String::new() };
            return Step { notice, request: Request::Resolve(&rights[i]) };
        }
        i += 1;
    }
    proof {
        lemma_next_claimable(old(tracker)@, left@, texts(rights@), start as int, i as int);
    }
    *sweep = Sweep { left, rights, threshold, cursor: i, stage: Stage::Finished, reason: String::new() };
    Step { notice, request: Request::Finished }
}

/// Takes the caller's answer to what `sweep` was waiting for and tells what
/// to do next.
///
/// The sweep first waits for the representation of its left image; without
/// one it is aborted.  It then takes up the right candidates in order.  A
/// candidate that is the left image itself, or whose pair with the left
/// image is claimed in `tracker` already, is passed over.  The first other
/// one is claimed in `tracker`, and its representation is asked for; if it
/// has none, the candidate is skipped with a notice, else the score of the
/// pair is asked for, and the pair is reported if the score is at or below
/// the threshold.  The pair of an image without a representation with each
/// candidate is claimed in `tracker`, so that the image is not taken up
/// again.  An event that does not answer the pending request is ignored,
/// and the request is repeated.
pub fn compare_imgs<'a>(sweep: &mut Sweep<'a>, tracker: &mut PairTracker, event: Event) -> (step: Step<'a>)
    ensures
        (Transition { sweep: final(sweep)@, claims: final(tracker)@, step: step@ }) == transition(
            old(sweep)@,
            old(tracker)@,
            event@,
        ),
{
    proof {
        use_type_invariant(&*sweep);
    }
    let left = sweep.left;
    let rights = sweep.rights;
    let threshold = sweep.threshold;
    let cursor: usize = sweep.cursor;
    match (sweep.stage, event) {
        (Stage::Left, Event::Resolved) => move_on_from(sweep, tracker, Notice::Silent),
        (Stage::Left, Event::Unresolved(reason)) => {
            tracker.exclude(left, rights);
            let told = reason.clone();
            *sweep = Sweep { left, rights, threshold, cursor, stage: Stage::Aborted, reason };
            Step { notice: Notice::Silent, request: Request::Aborted(told) }
        },
        (Stage::Right, Event::Resolved) => {
            *sweep = Sweep { left, rights, threshold, cursor, stage: Stage::Metric, reason: String::new() };
            Step { notice: Notice::Silent, request: Request::Measure(left, &rights[cursor - 1]) }
        },
        (Stage::Right, Event::Unresolved(reason)) => {
            tracker.exclude(&rights[cursor - 1], rights);
            let skipped = rights[cursor - 1].clone();
            move_on_from(sweep, tracker, Notice::Skipped(skipped, reason))
        },
        (Stage::Metric, Event::Scored(score)) => {
            let notice = if score.is_within(threshold) {
                Notice::Match(ComparisonOutcome { left: left.clone(), right: rights[cursor - 1].clone(), score })
            } else {
                Notice::Silent
            };
            move_on_from(sweep, tracker, notice)
        },
        _ => {
            let request = sweep.pending();
            Step { notice: Notice::Silent, request }
        },
    }
}

/// `next_claimable` finds the first candidate from `from` on that can be
/// claimed.
pub proof fn lemma_next_claimable_is_first(
    claims: Set<(Seq<char>, Seq<char>)>,
    left: Seq<char>,
    rights: Seq<Seq<char>>,
    from: int,
)
    requires
        0 <= from <= rights.len(),
    ensures
        from <= next_claimable(claims, left, rights, from) <= rights.len(),
        next_claimable(claims, left, rights, from) < rights.len() ==> claimable(
            claims,
            left,
            rights[next_claimable(claims, left, rights, from)],
        ),
        forall|k: int|
            from <= k < next_claimable(claims, left, rights, from) ==> !claimable(
                claims,
                left,
                #[trigger] rights[k],
            ),
    decreases rights.len() - from,
{
    if from < rights.len() && !claimable(claims, left, rights[from]) {
        lemma_next_claimable_is_first(claims, left, rights, from + 1);
    }
}

/// A sweep stays in step whatever event it is given, and never has more
/// events left to take than before.
pub proof fn lemma_transition_stays_in_step(
    sweep: SweepView,
    claims: Set<(Seq<char>, Seq<char>)>,
    event: EventView,
)
    requires
        sweep.in_step(),
    ensures
        transition(sweep, claims, event).sweep.in_step(),
        transition(sweep, claims, event).sweep.steps_left() <= sweep.steps_left(),
        transition(sweep, claims, event).sweep.left == sweep.left,
        transition(sweep, claims, event).sweep.rights == sweep.rights,
        transition(sweep, claims, event).sweep.threshold == sweep.threshold,
{
    lemma_next_claimable_is_first(claims, sweep.left, sweep.rights, sweep.cursor);
    if sweep.cursor >= 1 {
        lemma_next_claimable_is_first(
            after_claims(claims, sweep.current(), sweep.rights),
            sweep.left,
            sweep.rights,
            sweep.cursor,
        );
    }
}

/// The threshold decides and nothing else: a measured pair is reported if
/// and only if its score is at or below the threshold, and then with that
/// score.  A score equal to the threshold is reported.
pub proof fn lemma_reported_iff_within(sweep: SweepView, claims: Set<(Seq<char>, Seq<char>)>, score: Score)
    requires
        sweep.stage == Stage::Metric,
    ensures
        transition(sweep, claims, EventView::Scored(score)).step.notice is Match <==> score.within(
            sweep.threshold,
        ),
        transition(sweep, claims, EventView::Scored(score)).step.notice is Match ==> transition(
            sweep,
            claims,
            EventView::Scored(score),
        ).step.notice == NoticeView::Match(OutcomeView { left: sweep.left, right: sweep.current(), score }),
        !score.within(sweep.threshold) ==> transition(sweep, claims, EventView::Scored(score)).step.notice
            is Silent,
        score == sweep.threshold && !is_nan(score.bits) ==> transition(
            sweep,
            claims,
            EventView::Scored(score),
        ).step.notice is Match,
{
}

} // verus!
