//! The scheduler: the optional prescale pass and the sweeps of a run.
//!
//! Prescaling resolves the representation of every candidate before the
//! first comparison.  The caller does that work, in parallel if it likes;
//! [`prescale`] and [`working_set`] then read the cache and tell which
//! candidates failed and which are left.  [`run`] lays out the sweeps.

use crate::cache::{is_failed, Entry, RepresentationCache};
use crate::course::{
    each_pair_once, involves_failure, lemma_same_findings_same_walk, lemma_sweep_claims_what_it_measures,
    lemma_sweep_measures_each_pair_once, lemma_walk_measures_every_new_pair, same_findings, sweep_course,
    walk, Course, Findings,
};
use crate::engine::{Stage, Sweep, SweepView};
use crate::score::Score;
use crate::tracker::{after_claims, is_claimed, lemma_after_claims, texts, PairTracker};
use vstd::prelude::*;

verus! {

/// The claims after every failed path among `done` has been excluded from
/// comparison with each of `paths`.
pub open spec fn after_prescale<R>(
    claims: Set<(Seq<char>, Seq<char>)>,
    cache: Map<Seq<char>, Entry<R>>,
    paths: Seq<Seq<char>>,
    done: Seq<Seq<char>>,
) -> Set<(Seq<char>, Seq<char>)>
    decreases done.len(),
{
    if done.len() == 0 {
        claims
    } else {
        let before = after_prescale(claims, cache, paths, done.drop_last());
        if is_failed(cache, done.last()) {
            after_claims(before, done.last(), paths)
        } else {
            before
        }
    }
}

/// Closes the prescale pass over `paths`, whose representations the caller
/// has resolved into `cache`.
///
/// Returns the paths that failed, in the order of `paths`, so that the
/// caller can report them once and leave them out.  The pair of each failed
/// path with every other of `paths` is claimed in `tracker`, so that no
/// sweep takes it up.
pub fn prescale<R>(paths: &Vec<String>, cache: &RepresentationCache<R>, tracker: &mut PairTracker) -> (failed:
    Vec<String>)
    ensures
        texts(failed@) == texts(paths@).filter(|path: Seq<char>| is_failed(cache@, path)),
        final(tracker)@ == after_prescale(old(tracker)@, cache@, texts(paths@), texts(paths@)),
{
    let ghost all = texts(paths@);
    let ghost failing = |path: Seq<char>| is_failed(cache@, path);
    let mut failed: Vec<String> = Vec::new();
    let mut i: usize = 0;
    proof {
        reveal(Seq::filter);
        assert(all.take(0).filter(failing) =~= texts(failed@));
    }
    while i < paths.len()
        invariant
            i <= paths.len(),
            all == texts(paths@),
            failing == |path: Seq<char>| is_failed(cache@, path),
            texts(failed@) == all.take(i as int).filter(failing),
            tracker@ == after_prescale(old(tracker)@, cache@, all, all.take(i as int)),
        decreases paths.len() - i,
    {
        proof {
            reveal(Seq::filter);
            assert(all.take(i + 1).drop_last() =~= all.take(i as int));
            assert(all.take(i + 1).last() == paths@[i as int]@);
        }
        if cache.has_failed(&paths[i]) {
            let ghost before = texts(failed@);
            tracker.exclude(&paths[i], paths);
            failed.push(paths[i].clone());
            assert(texts(failed@) =~= before.push(paths@[i as int]@));
        }
        i += 1;
    }
    assert(all.take(i as int) =~= all);
    failed
}

/// After the prescale pass no pair with a failed path is handed out: every
/// earlier claim stands, and the pair of each failed path among `done` with
/// each other of `paths` is claimed.
pub proof fn lemma_prescale_excludes_failures<R>(
    claims: Set<(Seq<char>, Seq<char>)>,
    cache: Map<Seq<char>, Entry<R>>,
    paths: Seq<Seq<char>>,
    done: Seq<Seq<char>>,
)
    ensures
        claims.subset_of(after_prescale(claims, cache, paths, done)),
        forall|i: int, j: int|
            #![trigger done[i], paths[j]]
            0 <= i < done.len() && 0 <= j < paths.len() && is_failed(cache, done[i]) && done[i] != paths[j]
                ==> is_claimed(after_prescale(claims, cache, paths, done), done[i], paths[j]),
    decreases done.len(),
{
    if done.len() > 0 {
        let front = done.drop_last();
        let before = after_prescale(claims, cache, paths, front);
        lemma_prescale_excludes_failures(claims, cache, paths, front);
        lemma_after_claims(before, done.last(), paths);
        assert forall|i: int, j: int|
            #![trigger done[i], paths[j]]
            0 <= i < done.len() && 0 <= j < paths.len() && is_failed(cache, done[i]) && done[i]
                != paths[j] implies is_claimed(after_prescale(claims, cache, paths, done), done[i], paths[j]) by {
            if i < front.len() {
                assert(front[i] == done[i]);
                assert(is_claimed(before, front[i], paths[j]));
            }
        }
    }
}

/// The candidates that are left for comparison: those of `paths` that did
/// not fail, in their order.
pub fn working_set<R>(paths: &Vec<String>, cache: &RepresentationCache<R>) -> (usable: Vec<String>)
    ensures
        texts(usable@) == texts(paths@).filter(|path: Seq<char>| !is_failed(cache@, path)),
{
    let ghost all = texts(paths@);
    let ghost passing = |path: Seq<char>| !is_failed(cache@, path);
    let mut usable: Vec<String> = Vec::new();
    let mut i: usize = 0;
    proof {
        reveal(Seq::filter);
        assert(all.take(0).filter(passing) =~= texts(usable@));
    }
    while i < paths.len()
        invariant
            i <= paths.len(),
            all == texts(paths@),
            passing == |path: Seq<char>| !is_failed(cache@, path),
            texts(usable@) == all.take(i as int).filter(passing),
        decreases paths.len() - i,
    {
        proof {
            reveal(Seq::filter);
            assert(all.take(i + 1).drop_last() =~= all.take(i as int));
            assert(all.take(i + 1).last() == paths@[i as int]@);
        }
        if !cache.has_failed(&paths[i]) {
            let ghost before = texts(usable@);
            usable.push(paths[i].clone());
            assert(texts(usable@) =~= before.push(paths@[i as int]@));
        }
        i += 1;
    }
    assert(all.take(i as int) =~= all);
    usable
}

/// How a run pairs its images, and how far a claim reaches.
#[derive(Clone, Copy, Debug, PartialEq, Eq, Structural)]
pub enum Mode {
    /// Every candidate against every other.  All sweeps share one tracker,
    /// so that each pair is compared once in the whole run.
    AllPairs,
    /// Every left image against every candidate.  Each sweep has a tracker
    /// of its own: a pair is compared once within a sweep.
    LeftRight,
}

/// The sweeps of a run.
pub struct Run<'a> {
    pub mode: Mode,
    pub sweeps: Vec<Sweep<'a>>,
}

/// A sweep that has not started.
pub open spec fn fresh_sweep(left: Seq<char>, rights: Seq<Seq<char>>, threshold: Score) -> SweepView {
    SweepView { left, rights, threshold, cursor: 0, stage: Stage::Left, reason: Seq::<char>::empty() }
}

/// The left images of a run: the given ones, or every candidate.
pub open spec fn lefts_of(lefts: Option<&Vec<String>>, rights: &Vec<String>) -> Seq<Seq<char>> {
    match lefts {
        Some(lefts) => texts(lefts@),
        None => texts(rights@),
    }
}

/// Lays out a run over the candidates `rights`: one sweep for each left
/// image, in order, each over all of `rights`.
///
/// Without `lefts` every candidate is a left image in turn, and the run is
/// in all-pairs mode.  With `lefts` it is in left-right mode, also when the
/// list is empty: the run then has no sweep.
pub fn run<'a>(lefts: Option<&'a Vec<String>>, rights: &'a Vec<String>, threshold: Score) -> (plan: Run<'a>)
    ensures
        plan.mode == (if lefts is Some {
            Mode::LeftRight
        } else {
            Mode::AllPairs
        }),
        plan.sweeps.len() == lefts_of(lefts, rights).len(),
        forall|i: int|
            0 <= i < plan.sweeps.len() ==> (#[trigger] plan.sweeps[i])@ == fresh_sweep(
                lefts_of(lefts, rights)[i],
                texts(rights@),
                threshold,
            ),
{
    let (mode, sources) = match lefts {
        Some(lefts) => (Mode::LeftRight, lefts),
        None => (Mode::AllPairs, rights),
    };
    let mut sweeps: Vec<Sweep<'a>> = Vec::new();
    let mut i: usize = 0;
    while i < sources.len()
        invariant
            i <= sources.len(),
            sweeps.len() == i,
            texts(sources@) == lefts_of(lefts, rights),
            forall|k: int|
                0 <= k < i ==> (#[trigger] sweeps[k])@ == fresh_sweep(
                    texts(sources@)[k],
                    texts(rights@),
                    threshold,
                ),
        decreases sources.len() - i,
    {
        sweeps.push(Sweep::new(&sources[i], rights, threshold));
        i += 1;
    }
    Run { mode, sweeps }
}

/// What a run comes to when its sweeps are run one after the other and each
/// is given what it asks for.
///
/// In all-pairs mode the sweeps share the claims, from `claims` on.  In
/// left-right mode each sweep starts from `claims` by itself, and the claims
/// of the run stay as they were.
pub open spec fn run_course(
    mode: Mode,
    claims: Set<(Seq<char>, Seq<char>)>,
    lefts: Seq<Seq<char>>,
    rights: Seq<Seq<char>>,
    threshold: Score,
    findings: Findings,
) -> Course
    decreases lefts.len(),
{
    if lefts.len() == 0 {
        Course { notices: Seq::empty(), measured: Seq::empty(), claims }
    } else {
        let earlier = run_course(mode, claims, lefts.drop_last(), rights, threshold, findings);
        let last = sweep_course(earlier.claims, lefts.last(), rights, threshold, findings);
        Course {
            notices: earlier.notices + last.notices,
            measured: earlier.measured + last.measured,
            claims: if mode == Mode::AllPairs {
                last.claims
            } else {
                claims
            },
        }
    }
}

/// The pairs that an all-pairs run over `paths` has claimed when the first
/// `k` sweeps are through and the next has taken up `m` candidates: each
/// earlier image with every later one.
spec fn handed_out(paths: Seq<Seq<char>>, k: int, m: int) -> Set<(Seq<char>, Seq<char>)> {
    Set::new(
        |pair: (Seq<char>, Seq<char>)|
            exists|i: int, j: int|
                #![trigger paths[i], paths[j]]
                0 <= i < j < paths.len() && (i < k || (i == k && j < m)) && pair == (paths[i], paths[j]),
    )
}

proof fn lemma_sweep_in_all_pairs(paths: Seq<Seq<char>>, threshold: Score, findings: Findings, k: int, m: int)
    requires
        paths.no_duplicates(),
        forall|i: int| 0 <= i < paths.len() ==> !findings.failures.contains_key(#[trigger] paths[i]),
        0 <= k < paths.len(),
        0 <= m <= paths.len(),
    ensures
        walk(handed_out(paths, k, m), paths[k], paths, threshold, findings, m).claims == handed_out(
            paths,
            k,
            paths.len() as int,
        ),
        walk(handed_out(paths, k, m), paths[k], paths, threshold, findings, m).measured.len() == (if m > k {
            paths.len() - m
        } else {
            paths.len() - k - 1
        }),
    decreases paths.len() - m,
{
    if m < paths.len() {
        let before = handed_out(paths, k, m);
        let after = handed_out(paths, k, m + 1);
        lemma_sweep_in_all_pairs(paths, threshold, findings, k, m + 1);
        if m < k {
            assert(before.contains((paths[m], paths[k])));
            assert(before =~= after);
        } else if m == k {
            assert(before =~= after);
        } else {
            assert(!before.contains((paths[k], paths[m])));
            assert(!before.contains((paths[m], paths[k])));
            assert(after.contains((paths[k], paths[m])));
            assert(before.insert((paths[k], paths[m])) =~= after);
        }
    }
}

proof fn lemma_sweeps_in_all_pairs(paths: Seq<Seq<char>>, threshold: Score, findings: Findings, k: int)
    requires
        paths.no_duplicates(),
        forall|i: int| 0 <= i < paths.len() ==> !findings.failures.contains_key(#[trigger] paths[i]),
        0 <= k <= paths.len(),
    ensures
        run_course(Mode::AllPairs, Set::empty(), paths.take(k), paths, threshold, findings).claims
            == handed_out(paths, k, 0),
        2 * run_course(Mode::AllPairs, Set::empty(), paths.take(k), paths, threshold, findings).measured.len()
            == k * (2 * paths.len() - k - 1),
    decreases k,
{
    let n = paths.len() as int;
    if k == 0 {
        assert(paths.take(0).len() == 0);
        assert(handed_out(paths, 0, 0) =~= Set::empty());
    } else {
        lemma_sweeps_in_all_pairs(paths, threshold, findings, k - 1);
        lemma_sweep_in_all_pairs(paths, threshold, findings, k - 1, 0);
        assert(paths.take(k).drop_last() =~= paths.take(k - 1));
        assert(paths.take(k).last() == paths[k - 1]);
        assert(handed_out(paths, k - 1, n) =~= handed_out(paths, k, 0));
        assert((k - 1) * (2 * n - (k - 1) - 1) + 2 * (n - k) == k * (2 * n - k - 1)) by (nonlinear_arith);
    }
}

/// An all-pairs run over `n` distinct images, each with a representation,
/// measures `n * (n - 1) / 2` pairs, not `n * n`: in the end each image is
/// claimed with every later one.
pub proof fn lemma_all_pairs_attempts(paths: Seq<Seq<char>>, threshold: Score, findings: Findings)
    requires
        paths.no_duplicates(),
        forall|i: int| 0 <= i < paths.len() ==> !findings.failures.contains_key(#[trigger] paths[i]),
    ensures
        2 * run_course(Mode::AllPairs, Set::empty(), paths, paths, threshold, findings).measured.len()
            == paths.len() * (paths.len() - 1),
        forall|i: int, j: int|
            #![trigger paths[i], paths[j]]
            0 <= i < j < paths.len() ==> run_course(
                Mode::AllPairs,
                Set::empty(),
                paths,
                paths,
                threshold,
                findings,
            ).claims.contains((paths[i], paths[j])),
{
    let n = paths.len() as int;
    lemma_sweeps_in_all_pairs(paths, threshold, findings, n);
    assert(paths.take(n) =~= paths);
    assert(n * (2 * n - n - 1) == n * (n - 1)) by (nonlinear_arith);
}

/// No pair is measured twice: in an all-pairs run, whatever the images and
/// whatever becomes of them, the measured pairs are pairs of two different
/// images, no two of them are the same two images in either orientation,
/// none was claimed before the run, and each is claimed after it.
pub proof fn lemma_run_measures_each_pair_once(
    claims: Set<(Seq<char>, Seq<char>)>,
    lefts: Seq<Seq<char>>,
    rights: Seq<Seq<char>>,
    threshold: Score,
    findings: Findings,
)
    ensures
        each_pair_once(run_course(Mode::AllPairs, claims, lefts, rights, threshold, findings).measured),
        claims.subset_of(run_course(Mode::AllPairs, claims, lefts, rights, threshold, findings).claims),
        forall|i: int|
            0 <= i < run_course(Mode::AllPairs, claims, lefts, rights, threshold, findings).measured.len() ==> {
                let pair = #[trigger] run_course(
                    Mode::AllPairs,
                    claims,
                    lefts,
                    rights,
                    threshold,
                    findings,
                ).measured[i];
                &&& !is_claimed(claims, pair.0, pair.1)
                &&& run_course(Mode::AllPairs, claims, lefts, rights, threshold, findings).claims.contains(pair)
            },
    decreases lefts.len(),
{
    if lefts.len() > 0 {
        let whole = run_course(Mode::AllPairs, claims, lefts, rights, threshold, findings);
        let earlier = run_course(Mode::AllPairs, claims, lefts.drop_last(), rights, threshold, findings);
        let last = sweep_course(earlier.claims, lefts.last(), rights, threshold, findings);
        lemma_run_measures_each_pair_once(claims, lefts.drop_last(), rights, threshold, findings);
        lemma_sweep_measures_each_pair_once(earlier.claims, lefts.last(), rights, threshold, findings);
        assert(whole.measured =~= earlier.measured + last.measured);
        assert forall|i: int| 0 <= i < whole.measured.len() implies {
            let pair = #[trigger] whole.measured[i];
            &&& pair.0 != pair.1
            &&& !is_claimed(claims, pair.0, pair.1)
            &&& whole.claims.contains(pair)
        } by {
            if i < earlier.measured.len() {
                assert(whole.measured[i] == earlier.measured[i]);
            } else {
                assert(whole.measured[i] == last.measured[i - earlier.measured.len()]);
            }
        }
        assert forall|i: int, j: int|
            #![trigger whole.measured[i], whole.measured[j]]
            0 <= i < j < whole.measured.len() implies whole.measured[i] != whole.measured[j]
            && whole.measured[i] != (whole.measured[j].1, whole.measured[j].0) by {
            let split = earlier.measured.len() as int;
            if j < split {
                assert(whole.measured[i] == earlier.measured[i]);
                assert(whole.measured[j] == earlier.measured[j]);
            } else if i >= split {
                assert(whole.measured[i] == last.measured[i - split]);
                assert(whole.measured[j] == last.measured[j - split]);
            } else {
                assert(whole.measured[i] == earlier.measured[i]);
                assert(whole.measured[j] == last.measured[j - split]);
            }
        }
    }
}

/// Where the claims of an all-pairs run come from: each pair that is claimed
/// after it was claimed before, or was measured, or is that of an image
/// without a representation.
pub proof fn lemma_run_claims_what_it_measures(
    claims: Set<(Seq<char>, Seq<char>)>,
    lefts: Seq<Seq<char>>,
    rights: Seq<Seq<char>>,
    threshold: Score,
    findings: Findings,
)
    ensures
        forall|pair: (Seq<char>, Seq<char>)| #[trigger]
            run_course(Mode::AllPairs, claims, lefts, rights, threshold, findings).claims.contains(pair)
                ==> claims.contains(pair) || run_course(
                Mode::AllPairs,
                claims,
                lefts,
                rights,
                threshold,
                findings,
            ).measured.contains(pair) || involves_failure(findings, pair),
    decreases lefts.len(),
{
    if lefts.len() > 0 {
        let whole = run_course(Mode::AllPairs, claims, lefts, rights, threshold, findings);
        let earlier = run_course(Mode::AllPairs, claims, lefts.drop_last(), rights, threshold, findings);
        let last = sweep_course(earlier.claims, lefts.last(), rights, threshold, findings);
        lemma_run_claims_what_it_measures(claims, lefts.drop_last(), rights, threshold, findings);
        lemma_sweep_claims_what_it_measures(earlier.claims, lefts.last(), rights, threshold, findings);
        assert forall|pair: (Seq<char>, Seq<char>)| #[trigger] whole.claims.contains(pair) implies claims.contains(
            pair,
        ) || whole.measured.contains(pair) || involves_failure(findings, pair) by {
            lemma_measured_in_both(earlier.measured, last.measured, pair);
        }
    }
}

/// What is in one of two lists is in the two put together.
proof fn lemma_measured_in_both(
    first: Seq<(Seq<char>, Seq<char>)>,
    second: Seq<(Seq<char>, Seq<char>)>,
    pair: (Seq<char>, Seq<char>),
)
    ensures
        first.contains(pair) || second.contains(pair) ==> (first + second).contains(pair),
{
    if first.contains(pair) {
        let at = choose|at: int| 0 <= at < first.len() && first[at] == pair;
        assert((first + second)[at] == pair);
    } else if second.contains(pair) {
        let at = choose|at: int| 0 <= at < second.len() && second[at] == pair;
        assert((first + second)[first.len() + at] == pair);
    }
}

/// Nothing is left out: an all-pairs run measures every pair of a left image
/// with a candidate that is another image, when both have a representation
/// and the pair was not claimed before the run.  It measures the pair in
/// one orientation or the other, and by
/// `lemma_run_measures_each_pair_once` not in both.
pub proof fn lemma_run_measures_every_pair(
    claims: Set<(Seq<char>, Seq<char>)>,
    lefts: Seq<Seq<char>>,
    rights: Seq<Seq<char>>,
    threshold: Score,
    findings: Findings,
    a: int,
    b: int,
)
    requires
        0 <= a < lefts.len(),
        0 <= b < rights.len(),
        lefts[a] != rights[b],
        !findings.failures.contains_key(lefts[a]),
        !findings.failures.contains_key(rights[b]),
        !is_claimed(claims, lefts[a], rights[b]),
    ensures
        run_course(Mode::AllPairs, claims, lefts, rights, threshold, findings).measured.contains(
            (lefts[a], rights[b]),
        ) || run_course(Mode::AllPairs, claims, lefts, rights, threshold, findings).measured.contains(
            (rights[b], lefts[a]),
        ),
    decreases lefts.len(),
{
    let front = lefts.drop_last();
    let earlier = run_course(Mode::AllPairs, claims, front, rights, threshold, findings);
    let last = sweep_course(earlier.claims, lefts.last(), rights, threshold, findings);
    let forward = (lefts[a], rights[b]);
    let backward = (rights[b], lefts[a]);
    if a < front.len() {
        assert(front[a] == lefts[a]);
        lemma_run_measures_every_pair(claims, front, rights, threshold, findings, a, b);
    } else if is_claimed(earlier.claims, lefts[a], rights[b]) {
        lemma_run_claims_what_it_measures(claims, front, rights, threshold, findings);
    } else {
        lemma_walk_measures_every_new_pair(earlier.claims, lefts[a], rights, threshold, findings, 0, b);
    }
    lemma_measured_in_both(earlier.measured, last.measured, forward);
    lemma_measured_in_both(earlier.measured, last.measured, backward);
}

/// Running again reports the same: what a run comes to depends on the
/// images, the threshold and the claims it starts from, and on what the
/// codec and the metric say of these images, and on nothing else.
pub proof fn lemma_same_findings_same_course(
    mode: Mode,
    claims: Set<(Seq<char>, Seq<char>)>,
    lefts: Seq<Seq<char>>,
    rights: Seq<Seq<char>>,
    threshold: Score,
    first: Findings,
    second: Findings,
)
    requires
        same_findings(first, second, lefts + rights),
    ensures
        run_course(mode, claims, lefts, rights, threshold, first) == run_course(
            mode,
            claims,
            lefts,
            rights,
            threshold,
            second,
        ),
    decreases lefts.len(),
{
    if lefts.len() > 0 {
        let images = lefts + rights;
        let front = lefts.drop_last();
        let fewer = front + rights;
        assert forall|i: int| 0 <= i < fewer.len() implies images.contains(#[trigger] fewer[i]) by {
            if i < front.len() {
                assert(images[i] == fewer[i]);
            } else {
                assert(images[i + 1] == fewer[i]);
            }
        }
        lemma_findings_agree_on_fewer(first, second, images, fewer);
        lemma_same_findings_same_course(mode, claims, front, rights, threshold, first, second);
        let earlier = run_course(mode, claims, front, rights, threshold, first);
        assert(images[lefts.len() - 1] == lefts.last());
        assert forall|k: int| 0 <= k < rights.len() implies images.contains(#[trigger] rights[k]) by {
            assert(images[lefts.len() + k] == rights[k]);
        }
        lemma_same_findings_same_walk(earlier.claims, lefts.last(), rights, threshold, first, second, images, 0);
    }
}

/// Findings that say the same of some images say the same of any of them.
proof fn lemma_findings_agree_on_fewer(
    first: Findings,
    second: Findings,
    images: Seq<Seq<char>>,
    fewer: Seq<Seq<char>>,
)
    requires
        same_findings(first, second, images),
        forall|i: int| 0 <= i < fewer.len() ==> images.contains(#[trigger] fewer[i]),
    ensures
        same_findings(first, second, fewer),
{
    assert forall|i: int| 0 <= i < fewer.len() implies first.failures.contains_key(#[trigger] fewer[i])
        == second.failures.contains_key(fewer[i]) && (first.failures.contains_key(fewer[i])
        ==> first.failures[fewer[i]] == second.failures[fewer[i]]) by {
        let at = choose|at: int| 0 <= at < images.len() && images[at] == fewer[i];
        assert(images[at] == fewer[i]);
    }
    assert forall|i: int, j: int|
        #![trigger fewer[i], fewer[j]]
        0 <= i < fewer.len() && 0 <= j < fewer.len() implies (first.scores)(fewer[i], fewer[j]) == (
        second.scores)(fewer[i], fewer[j]) by {
        let at = choose|at: int| 0 <= at < images.len() && images[at] == fewer[i];
        let to = choose|to: int| 0 <= to < images.len() && images[to] == fewer[j];
        assert((first.scores)(images[at], images[to]) == (second.scores)(images[at], images[to]));
    }
}

} // verus!
