//! What a sweep comes to.
//!
//! The engine takes one event at a time.  This module says what a whole
//! sweep comes to when the caller answers each request by what it finds, and
//! proves that this is what the candidates come to when they are taken up in
//! order, one after the other.

use crate::engine::{
    lemma_next_claimable_is_first, lemma_transition_stays_in_step, move_on, next_claimable, report,
    transition, EventView, NoticeView, RequestView, Stage, SweepView,
};
use crate::score::Score;
use crate::tracker::{after_claims, claimable, is_claimed, lemma_after_claims};
use vstd::prelude::*;

verus! {

/// What the caller finds when it does what a sweep asks: which images have
/// no representation, and why, and the score of each pair.
pub struct Findings {
    pub failures: Map<Seq<char>, Seq<char>>,
    pub scores: spec_fn(Seq<char>, Seq<char>) -> Score,
}

impl Findings {
    /// The event that answers a request.
    pub open spec fn answer(self, request: RequestView) -> EventView {
        match request {
            RequestView::Resolve(path) => if self.failures.contains_key(path) {
                EventView::Unresolved(self.failures[path])
            } else {
                EventView::Resolved
            },
            RequestView::Measure(left, right) => EventView::Scored((self.scores)(left, right)),
            _ => EventView::Resolved,
        }
    }
}

/// What comes of a sweep, or of several: the notices and the pairs that were
/// measured, each in the order in which it happened, and the claims at the
/// end.
pub struct Course {
    pub notices: Seq<NoticeView>,
    pub measured: Seq<(Seq<char>, Seq<char>)>,
    pub claims: Set<(Seq<char>, Seq<char>)>,
}

impl Course {
    /// The course that begins with `notices` and `measured` and goes on as
    /// this one.
    pub open spec fn after(self, notices: Seq<NoticeView>, measured: Seq<(Seq<char>, Seq<char>)>) -> Course {
        Course { notices: notices + self.notices, measured: measured + self.measured, claims: self.claims }
    }
}

/// A notice as a list: nothing if it is silent.
pub open spec fn said(notice: NoticeView) -> Seq<NoticeView> {
    if notice is Silent {
        Seq::empty()
    } else {
        seq![notice]
    }
}

/// The pair that a request asks to measure, as a list.
pub open spec fn asked(request: RequestView) -> Seq<(Seq<char>, Seq<char>)> {
    match request {
        RequestView::Measure(left, right) => seq![(left, right)],
        _ => Seq::empty(),
    }
}

/// The answer to what a sweep is waiting for gets it on: it has fewer events
/// left to take, so every sweep comes to an end.
pub proof fn lemma_answer_gets_on(sweep: SweepView, claims: Set<(Seq<char>, Seq<char>)>, findings: Findings)
    requires
        sweep.in_step(),
        sweep.stage != Stage::Finished,
        sweep.stage != Stage::Aborted,
    ensures
        transition(sweep, claims, findings.answer(sweep.pending())).sweep.steps_left() < sweep.steps_left(),
{
    lemma_transition_stays_in_step(sweep, claims, findings.answer(sweep.pending()));
    lemma_next_claimable_is_first(claims, sweep.left, sweep.rights, sweep.cursor);
    if sweep.cursor >= 1 {
        lemma_next_claimable_is_first(
            after_claims(claims, sweep.current(), sweep.rights),
            sweep.left,
            sweep.rights,
            sweep.cursor,
        );
    }
}

/// What comes of a sweep from where it stands, when the caller answers each
/// request by `findings` and nobody else claims in between.  Nothing comes
/// of a sweep that is out of step.
pub open spec fn course(sweep: SweepView, claims: Set<(Seq<char>, Seq<char>)>, findings: Findings) -> Course
    decreases sweep.steps_left(),
    via course_ends
{
    if sweep.stage == Stage::Finished || sweep.stage == Stage::Aborted || !sweep.in_step() {
        Course { notices: Seq::empty(), measured: Seq::empty(), claims }
    } else {
        let next = transition(sweep, claims, findings.answer(sweep.pending()));
        course(next.sweep, next.claims, findings).after(said(next.step.notice), asked(sweep.pending()))
    }
}

#[via_fn]
proof fn course_ends(sweep: SweepView, claims: Set<(Seq<char>, Seq<char>)>, findings: Findings) {
    if sweep.stage != Stage::Finished && sweep.stage != Stage::Aborted && sweep.in_step() {
        lemma_answer_gets_on(sweep, claims, findings);
    }
}

/// The candidates from `from` on, taken up in order: what the comparison of
/// `left` with them comes to.
///
/// A candidate that is `left` itself, or whose pair with `left` is claimed,
/// is passed over.  Every other one is claimed.  If it has no
/// representation, it is skipped with a notice, and its pair with each
/// candidate is claimed.  Else the pair is measured, and reported if its
/// score is at or below the threshold.
pub open spec fn walk(
    claims: Set<(Seq<char>, Seq<char>)>,
    left: Seq<char>,
    rights: Seq<Seq<char>>,
    threshold: Score,
    findings: Findings,
    from: int,
) -> Course
    decreases rights.len() - from,
{
    if from < 0 || from >= rights.len() {
        Course { notices: Seq::empty(), measured: Seq::empty(), claims }
    } else {
        let right = rights[from];
        if !claimable(claims, left, right) {
            walk(claims, left, rights, threshold, findings, from + 1)
        } else if findings.failures.contains_key(right) {
            walk(
                after_claims(claims.insert((left, right)), right, rights),
                left,
                rights,
                threshold,
                findings,
                from + 1,
            ).after(seq![NoticeView::Skipped(right, findings.failures[right])], Seq::empty())
        } else {
            walk(claims.insert((left, right)), left, rights, threshold, findings, from + 1).after(
                said(report(left, right, (findings.scores)(left, right), threshold)),
                seq![(left, right)],
            )
        }
    }
}

/// What the sweep of `left` over `rights` comes to: nothing if `left` has no
/// representation, but that its pair with each candidate is claimed; else
/// what the candidates come to, taken up in order.
pub open spec fn sweep_course(
    claims: Set<(Seq<char>, Seq<char>)>,
    left: Seq<char>,
    rights: Seq<Seq<char>>,
    threshold: Score,
    findings: Findings,
) -> Course {
    if findings.failures.contains_key(left) {
        Course { notices: Seq::empty(), measured: Seq::empty(), claims: after_claims(claims, left, rights) }
    } else {
        walk(claims, left, rights, threshold, findings, 0)
    }
}

proof fn lemma_after_nothing(course: Course)
    ensures
        course.after(Seq::empty(), Seq::empty()) == course,
{
    assert(course.after(Seq::empty(), Seq::empty()).notices =~= course.notices);
    assert(course.after(Seq::empty(), Seq::empty()).measured =~= course.measured);
}

/// Candidates that cannot be claimed come to nothing.
proof fn lemma_walk_passes_over(
    claims: Set<(Seq<char>, Seq<char>)>,
    left: Seq<char>,
    rights: Seq<Seq<char>>,
    threshold: Score,
    findings: Findings,
    from: int,
    next: int,
)
    requires
        0 <= from <= next <= rights.len(),
        forall|k: int| from <= k < next ==> !claimable(claims, left, #[trigger] rights[k]),
    ensures
        walk(claims, left, rights, threshold, findings, from) == walk(
            claims,
            left,
            rights,
            threshold,
            findings,
            next,
        ),
    decreases next - from,
{
    if from < next {
        lemma_walk_passes_over(claims, left, rights, threshold, findings, from + 1, next);
    }
}

/// Once a sweep moves on from its `cursor`, it comes to what the candidates
/// from there on come to, taken up in order.
proof fn lemma_course_after_move_on(
    sweep: SweepView,
    claims: Set<(Seq<char>, Seq<char>)>,
    findings: Findings,
    notice: NoticeView,
)
    requires
        0 <= sweep.cursor <= sweep.rights.len(),
    ensures
        course(move_on(sweep, claims, notice).sweep, move_on(sweep, claims, notice).claims, findings) == walk(
            claims,
            sweep.left,
            sweep.rights,
            sweep.threshold,
            findings,
            sweep.cursor,
        ),
    decreases sweep.rights.len() - sweep.cursor,
{
    let left = sweep.left;
    let rights = sweep.rights;
    let next = next_claimable(claims, left, rights, sweep.cursor);
    lemma_next_claimable_is_first(claims, left, rights, sweep.cursor);
    lemma_walk_passes_over(claims, left, rights, sweep.threshold, findings, sweep.cursor, next);
    if next < rights.len() {
        let right = rights[next];
        let resolving = move_on(sweep, claims, notice).sweep;
        let claimed = claims.insert((left, right));
        assert(resolving.pending() == RequestView::Resolve(right));
        if findings.failures.contains_key(right) {
            let skipped = NoticeView::Skipped(right, findings.failures[right]);
            lemma_course_after_move_on(resolving, after_claims(claimed, right, rights), findings, skipped);
        } else {
            let measuring = SweepView { stage: Stage::Metric, ..resolving };
            let told = report(left, right, (findings.scores)(left, right), sweep.threshold);
            assert(transition(resolving, claimed, findings.answer(resolving.pending())).sweep == measuring);
            assert(measuring.pending() == RequestView::Measure(left, right));
            lemma_course_after_move_on(measuring, claimed, findings, told);
            lemma_after_nothing(course(measuring, claimed, findings));
        }
    }
}

/// A sweep that is given what it asks for comes to what its candidates come
/// to, taken up in order.  In particular its notices follow the order of the
/// candidates, no pair is measured that was claimed before or that is the
/// left image with itself, and a failed candidate does not end the sweep.
pub proof fn lemma_sweep_takes_its_course(
    claims: Set<(Seq<char>, Seq<char>)>,
    left: Seq<char>,
    rights: Seq<Seq<char>>,
    threshold: Score,
    findings: Findings,
)
    ensures
        course(
            SweepView { left, rights, threshold, cursor: 0, stage: Stage::Left, reason: Seq::empty() },
            claims,
            findings,
        ) == sweep_course(claims, left, rights, threshold, findings),
{
    let fresh = SweepView { left, rights, threshold, cursor: 0, stage: Stage::Left, reason: Seq::empty() };
    assert(fresh.pending() == RequestView::Resolve(left));
    let next = transition(fresh, claims, findings.answer(fresh.pending()));
    if !findings.failures.contains_key(left) {
        lemma_course_after_move_on(fresh, claims, findings, NoticeView::Silent);
    }
    lemma_after_nothing(course(next.sweep, next.claims, findings));
}

/// What a walk measures and reports: each measured pair is the left image
/// with a candidate other than itself whose pair was not claimed before,
/// and each reported pair was measured at or below the threshold.
pub proof fn lemma_walk_measures_new_pairs(
    claims: Set<(Seq<char>, Seq<char>)>,
    left: Seq<char>,
    rights: Seq<Seq<char>>,
    threshold: Score,
    findings: Findings,
    from: int,
)
    requires
        0 <= from,
    ensures
        claims.subset_of(walk(claims, left, rights, threshold, findings, from).claims),
        forall|i: int|
            0 <= i < walk(claims, left, rights, threshold, findings, from).measured.len() ==> {
                let pair = #[trigger] walk(claims, left, rights, threshold, findings, from).measured[i];
                &&& pair.0 == left
                &&& pair.1 != left
                &&& rights.contains(pair.1)
                &&& !is_claimed(claims, left, pair.1)
                &&& !findings.failures.contains_key(pair.1)
            },
        forall|i: int|
            0 <= i < walk(claims, left, rights, threshold, findings, from).notices.len() ==> (
            #[trigger] walk(claims, left, rights, threshold, findings, from).notices[i] matches NoticeView::Match(
                outcome,
            ) ==> {
                &&& outcome.left == left
                &&& outcome.score == (findings.scores)(left, outcome.right)
                &&& outcome.score.within(threshold)
                &&& walk(claims, left, rights, threshold, findings, from).measured.contains(
                    (left, outcome.right),
                )
            }),
    decreases rights.len() - from,
{
    if from < rights.len() {
        let right = rights[from];
        let whole = walk(claims, left, rights, threshold, findings, from);
        if !claimable(claims, left, right) {
            lemma_walk_measures_new_pairs(claims, left, rights, threshold, findings, from + 1);
        } else if findings.failures.contains_key(right) {
            let claimed = claims.insert((left, right));
            let excluded = after_claims(claimed, right, rights);
            lemma_after_claims(claimed, right, rights);
            lemma_walk_measures_new_pairs(excluded, left, rights, threshold, findings, from + 1);
            let rest = walk(excluded, left, rights, threshold, findings, from + 1);
            assert(whole.measured =~= rest.measured);
            assert forall|i: int| 0 <= i < whole.notices.len() implies (#[trigger] whole.notices[i] matches NoticeView::Match(
                outcome,
            ) ==> {
                &&& outcome.left == left
                &&& outcome.score == (findings.scores)(left, outcome.right)
                &&& outcome.score.within(threshold)
                &&& whole.measured.contains((left, outcome.right))
            }) by {
                if i > 0 {
                    assert(whole.notices[i] == rest.notices[i - 1]);
                }
            }
        } else {
            let claimed = claims.insert((left, right));
            lemma_walk_measures_new_pairs(claimed, left, rights, threshold, findings, from + 1);
            let rest = walk(claimed, left, rights, threshold, findings, from + 1);
            let told = said(report(left, right, (findings.scores)(left, right), threshold));
            assert(whole.measured =~= seq![(left, right)] + rest.measured);
            assert(whole.notices =~= told + rest.notices);
            assert(whole.measured[0] == (left, right));
            assert forall|i: int| 0 <= i < whole.measured.len() implies {
                let pair = #[trigger] whole.measured[i];
                &&& pair.0 == left
                &&& pair.1 != left
                &&& rights.contains(pair.1)
                &&& !is_claimed(claims, left, pair.1)
                &&& !findings.failures.contains_key(pair.1)
            } by {
                if i > 0 {
                    assert(whole.measured[i] == rest.measured[i - 1]);
                }
            }
            assert forall|i: int| 0 <= i < whole.notices.len() implies (#[trigger] whole.notices[i] matches NoticeView::Match(
                outcome,
            ) ==> {
                &&& outcome.left == left
                &&& outcome.score == (findings.scores)(left, outcome.right)
                &&& outcome.score.within(threshold)
                &&& whole.measured.contains((left, outcome.right))
            }) by {
                if i >= told.len() {
                    assert(whole.notices[i] == rest.notices[i - told.len()]);
                    if let NoticeView::Match(outcome) = whole.notices[i] {
                        let at = choose|at: int|
                            0 <= at < rest.measured.len() && rest.measured[at] == (left, outcome.right);
                        assert(whole.measured[at + 1] == (left, outcome.right));
                    }
                }
            }
        }
    }
}

/// Whether no two of the pairs are the same two images, in either
/// orientation, and none is an image with itself.
pub open spec fn each_pair_once(pairs: Seq<(Seq<char>, Seq<char>)>) -> bool {
    &&& forall|i: int| 0 <= i < pairs.len() ==> (#[trigger] pairs[i]).0 != pairs[i].1
    &&& forall|i: int, j: int|
        #![trigger pairs[i], pairs[j]]
        0 <= i < j < pairs.len() ==> pairs[i] != pairs[j] && pairs[i] != (pairs[j].1, pairs[j].0)
}

/// Whether two findings say the same of the given images: the same images
/// have no representation, for the same reasons, and each pair has the same
/// score.
pub open spec fn same_findings(a: Findings, b: Findings, images: Seq<Seq<char>>) -> bool {
    &&& forall|i: int|
        0 <= i < images.len() ==> a.failures.contains_key(#[trigger] images[i]) == b.failures.contains_key(
            images[i],
        )
    &&& forall|i: int|
        0 <= i < images.len() && a.failures.contains_key(#[trigger] images[i]) ==> a.failures[images[i]]
            == b.failures[images[i]]
    &&& forall|i: int, j: int|
        #![trigger images[i], images[j]]
        0 <= i < images.len() && 0 <= j < images.len() ==> (a.scores)(images[i], images[j]) == (b.scores)(
            images[i],
            images[j],
        )
}

/// No pair is measured twice: the pairs that a walk measures are pairs of
/// the left image with another, no two of them are the same, none was
/// claimed before, and each is claimed after.
pub proof fn lemma_walk_measures_each_pair_once(
    claims: Set<(Seq<char>, Seq<char>)>,
    left: Seq<char>,
    rights: Seq<Seq<char>>,
    threshold: Score,
    findings: Findings,
    from: int,
)
    requires
        0 <= from,
    ensures
        each_pair_once(walk(claims, left, rights, threshold, findings, from).measured),
        claims.subset_of(walk(claims, left, rights, threshold, findings, from).claims),
        forall|i: int|
            0 <= i < walk(claims, left, rights, threshold, findings, from).measured.len() ==> {
                let pair = #[trigger] walk(claims, left, rights, threshold, findings, from).measured[i];
                &&& pair.0 == left
                &&& !is_claimed(claims, pair.0, pair.1)
                &&& walk(claims, left, rights, threshold, findings, from).claims.contains(pair)
            },
    decreases rights.len() - from,
{
    if from < rights.len() {
        let right = rights[from];
        let whole = walk(claims, left, rights, threshold, findings, from);
        lemma_walk_measures_new_pairs(claims, left, rights, threshold, findings, from);
        if !claimable(claims, left, right) {
            lemma_walk_measures_each_pair_once(claims, left, rights, threshold, findings, from + 1);
        } else if findings.failures.contains_key(right) {
            let claimed = claims.insert((left, right));
            let excluded = after_claims(claimed, right, rights);
            lemma_after_claims(claimed, right, rights);
            lemma_walk_measures_each_pair_once(excluded, left, rights, threshold, findings, from + 1);
            let rest = walk(excluded, left, rights, threshold, findings, from + 1);
            assert(whole.measured =~= rest.measured);
        } else {
            let claimed = claims.insert((left, right));
            lemma_walk_measures_each_pair_once(claimed, left, rights, threshold, findings, from + 1);
            let rest = walk(claimed, left, rights, threshold, findings, from + 1);
            assert(whole.measured =~= seq![(left, right)] + rest.measured);
            assert(whole.measured[0] == (left, right));
            assert forall|i: int| 0 <= i < whole.measured.len() implies {
                let pair = #[trigger] whole.measured[i];
                &&& pair.0 == left
                &&& !is_claimed(claims, pair.0, pair.1)
                &&& whole.claims.contains(pair)
            } by {
                if i > 0 {
                    assert(whole.measured[i] == rest.measured[i - 1]);
                }
            }
            assert forall|i: int, j: int|
                #![trigger whole.measured[i], whole.measured[j]]
                0 <= i < j < whole.measured.len() implies whole.measured[i] != whole.measured[j]
                && whole.measured[i] != (whole.measured[j].1, whole.measured[j].0) by {
                assert(whole.measured[j] == rest.measured[j - 1]);
                if i > 0 {
                    assert(whole.measured[i] == rest.measured[i - 1]);
                }
            }
        }
    }
}

/// No pair is measured twice in a sweep: the pairs that it measures are
/// pairs of the left image with another, no two of them are the same, none
/// was claimed before, and each is claimed after.
pub proof fn lemma_sweep_measures_each_pair_once(
    claims: Set<(Seq<char>, Seq<char>)>,
    left: Seq<char>,
    rights: Seq<Seq<char>>,
    threshold: Score,
    findings: Findings,
)
    ensures
        each_pair_once(sweep_course(claims, left, rights, threshold, findings).measured),
        claims.subset_of(sweep_course(claims, left, rights, threshold, findings).claims),
        forall|i: int|
            0 <= i < sweep_course(claims, left, rights, threshold, findings).measured.len() ==> {
                let pair = #[trigger] sweep_course(claims, left, rights, threshold, findings).measured[i];
                &&& pair.0 == left
                &&& !is_claimed(claims, pair.0, pair.1)
                &&& sweep_course(claims, left, rights, threshold, findings).claims.contains(pair)
            },
{
    lemma_after_claims(claims, left, rights);
    lemma_walk_measures_each_pair_once(claims, left, rights, threshold, findings, 0);
}

/// Whether the pair is that of an image without a representation with
/// another.
pub open spec fn involves_failure(findings: Findings, pair: (Seq<char>, Seq<char>)) -> bool {
    findings.failures.contains_key(pair.0) || findings.failures.contains_key(pair.1)
}

/// Where the claims of a walk come from: each pair that is claimed after it
/// was claimed before, or was measured, or is that of an image without a
/// representation.
pub proof fn lemma_walk_claims_what_it_measures(
    claims: Set<(Seq<char>, Seq<char>)>,
    left: Seq<char>,
    rights: Seq<Seq<char>>,
    threshold: Score,
    findings: Findings,
    from: int,
)
    requires
        0 <= from,
    ensures
        forall|pair: (Seq<char>, Seq<char>)| #[trigger]
            walk(claims, left, rights, threshold, findings, from).claims.contains(pair) ==> claims.contains(
                pair,
            ) || walk(claims, left, rights, threshold, findings, from).measured.contains(pair)
                || involves_failure(findings, pair),
    decreases rights.len() - from,
{
    if from < rights.len() {
        let right = rights[from];
        let whole = walk(claims, left, rights, threshold, findings, from);
        if !claimable(claims, left, right) {
            lemma_walk_claims_what_it_measures(claims, left, rights, threshold, findings, from + 1);
            assert(whole == walk(claims, left, rights, threshold, findings, from + 1));
        } else if findings.failures.contains_key(right) {
            let claimed = claims.insert((left, right));
            let excluded = after_claims(claimed, right, rights);
            lemma_after_claims(claimed, right, rights);
            lemma_walk_claims_what_it_measures(excluded, left, rights, threshold, findings, from + 1);
            let rest = walk(excluded, left, rights, threshold, findings, from + 1);
            assert(whole.measured =~= rest.measured);
            assert forall|pair: (Seq<char>, Seq<char>)| #[trigger]
                whole.claims.contains(pair) implies claims.contains(pair) || whole.measured.contains(pair)
                || involves_failure(findings, pair) by {
                if excluded.contains(pair) && !claimed.contains(pair) {
                    assert(pair.0 == right);
                }
            }
        } else {
            let claimed = claims.insert((left, right));
            lemma_walk_claims_what_it_measures(claimed, left, rights, threshold, findings, from + 1);
            let rest = walk(claimed, left, rights, threshold, findings, from + 1);
            assert(whole.measured =~= seq![(left, right)] + rest.measured);
            assert(whole.measured[0] == (left, right));
            assert forall|pair: (Seq<char>, Seq<char>)| #[trigger]
                whole.claims.contains(pair) implies claims.contains(pair) || whole.measured.contains(pair)
                || involves_failure(findings, pair) by {
                if rest.measured.contains(pair) {
                    let at = choose|at: int| 0 <= at < rest.measured.len() && rest.measured[at] == pair;
                    assert(whole.measured[at + 1] == pair);
                }
            }
        }
    }
}

/// Where the claims of a sweep come from: each pair that is claimed after it
/// was claimed before, or was measured, or is that of an image without a
/// representation.
pub proof fn lemma_sweep_claims_what_it_measures(
    claims: Set<(Seq<char>, Seq<char>)>,
    left: Seq<char>,
    rights: Seq<Seq<char>>,
    threshold: Score,
    findings: Findings,
)
    ensures
        forall|pair: (Seq<char>, Seq<char>)| #[trigger]
            sweep_course(claims, left, rights, threshold, findings).claims.contains(pair) ==> claims.contains(
                pair,
            ) || sweep_course(claims, left, rights, threshold, findings).measured.contains(pair)
                || involves_failure(findings, pair),
{
    lemma_after_claims(claims, left, rights);
    lemma_walk_claims_what_it_measures(claims, left, rights, threshold, findings, 0);
}

/// Nothing is left out: a walk measures the pair of the left image with
/// every candidate from `from` on that is another image, has a
/// representation, and whose pair was not claimed before.
pub proof fn lemma_walk_measures_every_new_pair(
    claims: Set<(Seq<char>, Seq<char>)>,
    left: Seq<char>,
    rights: Seq<Seq<char>>,
    threshold: Score,
    findings: Findings,
    from: int,
    at: int,
)
    requires
        0 <= from <= at < rights.len(),
        rights[at] != left,
        !is_claimed(claims, left, rights[at]),
        !findings.failures.contains_key(left),
        !findings.failures.contains_key(rights[at]),
    ensures
        walk(claims, left, rights, threshold, findings, from).measured.contains((left, rights[at])),
    decreases rights.len() - from,
{
    let right = rights[from];
    let whole = walk(claims, left, rights, threshold, findings, from);
    if !claimable(claims, left, right) {
        lemma_walk_measures_every_new_pair(claims, left, rights, threshold, findings, from + 1, at);
    } else if findings.failures.contains_key(right) {
        let claimed = claims.insert((left, right));
        lemma_after_claims(claimed, right, rights);
        lemma_walk_measures_every_new_pair(
            after_claims(claimed, right, rights),
            left,
            rights,
            threshold,
            findings,
            from + 1,
            at,
        );
        let rest = walk(after_claims(claimed, right, rights), left, rights, threshold, findings, from + 1);
        assert(whole.measured =~= rest.measured);
    } else {
        let claimed = claims.insert((left, right));
        let rest = walk(claimed, left, rights, threshold, findings, from + 1);
        assert(whole.measured =~= seq![(left, right)] + rest.measured);
        if right == rights[at] {
            assert(whole.measured[0] == (left, rights[at]));
        } else {
            lemma_walk_measures_every_new_pair(claimed, left, rights, threshold, findings, from + 1, at);
            let found = choose|found: int|
                0 <= found < rest.measured.len() && rest.measured[found] == (left, rights[at]);
            assert(whole.measured[found + 1] == (left, rights[at]));
        }
    }
}

/// What the candidates come to depends on the findings only as far as they
/// speak of the left image and of the candidates.
pub proof fn lemma_same_findings_same_walk(
    claims: Set<(Seq<char>, Seq<char>)>,
    left: Seq<char>,
    rights: Seq<Seq<char>>,
    threshold: Score,
    first: Findings,
    second: Findings,
    images: Seq<Seq<char>>,
    from: int,
)
    requires
        0 <= from,
        same_findings(first, second, images),
        images.contains(left),
        forall|k: int| 0 <= k < rights.len() ==> images.contains(#[trigger] rights[k]),
    ensures
        walk(claims, left, rights, threshold, first, from) == walk(claims, left, rights, threshold, second, from),
        from == 0 ==> sweep_course(claims, left, rights, threshold, first) == sweep_course(
            claims,
            left,
            rights,
            threshold,
            second,
        ),
    decreases rights.len() - from,
{
    let at = choose|at: int| 0 <= at < images.len() && images[at] == left;
    assert(images[at] == left);
    if from < rights.len() {
        let right = rights[from];
        assert(images.contains(right));
        let to = choose|to: int| 0 <= to < images.len() && images[to] == right;
        assert(images[to] == right);
        assert((first.scores)(images[at], images[to]) == (second.scores)(images[at], images[to]));
        if !claimable(claims, left, right) {
            lemma_same_findings_same_walk(claims, left, rights, threshold, first, second, images, from + 1);
        } else if first.failures.contains_key(right) {
            lemma_same_findings_same_walk(
                after_claims(claims.insert((left, right)), right, rights),
                left,
                rights,
                threshold,
                first,
                second,
                images,
                from + 1,
            );
        } else {
            lemma_same_findings_same_walk(
                claims.insert((left, right)),
                left,
                rights,
                threshold,
                first,
                second,
                images,
                from + 1,
            );
        }
    }
}

} // verus!
