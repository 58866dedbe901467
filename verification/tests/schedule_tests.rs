use imgdup::cache::{Lookup, RepresentationCache};
use imgdup::engine::{compare_imgs, Event, Request, Stage, Sweep};
use imgdup::schedule::{prescale, run, working_set, Mode};
use imgdup::score::Score;
use imgdup::tracker::PairTracker;

fn path(name: &str) -> String {
    name.to_string()
}

fn paths(names: &[&str]) -> Vec<String> {
    names.iter().map(|name| name.to_string()).collect()
}

/// Resolves every path into the cache; a name that starts with "bad" fails.
fn resolve_all(cache: &mut RepresentationCache<usize>, names: &[String]) -> usize {
    let mut decoded = 0;
    for name in names {
        if cache.get_or_compute(name) == Lookup::Compute {
            decoded += 1;
            let outcome = if name.starts_with("bad") {
                Err(format!("Could not process '{name}'"))
            } else {
                Ok(name.len())
            };
            assert!(cache.settle(name, outcome));
        }
    }
    decoded
}

/// Runs one sweep to its end with every image resolved and every score 0.5;
/// returns the pairs measured.
fn measure_all(sweep: &mut Sweep<'_>, tracker: &mut PairTracker) -> Vec<(String, String)> {
    let mut measured = Vec::new();
    let mut request = sweep.pending();
    loop {
        let event = match &request {
            Request::Resolve(_) => Event::Resolved,
            Request::Measure(left, right) => {
                measured.push(((*left).clone(), (*right).clone()));
                Event::Scored(Score::from_bits(0.5f64.to_bits()))
            }
            _ => return measured,
        };
        request = compare_imgs(sweep, tracker, event).request;
    }
}

#[test]
fn prescale_returns_the_failed_paths_in_order() {
    let names = paths(&["a.png", "bad1.png", "b.png", "bad0.png", "c.png"]);
    let mut cache = RepresentationCache::new();
    assert_eq!(resolve_all(&mut cache, &names), 5);
    let mut tracker = PairTracker::new();
    let failed = prescale(&names, &cache, &mut tracker);
    assert_eq!(failed, paths(&["bad1.png", "bad0.png"]));
}

#[test]
fn prescale_of_good_images_fails_none() {
    let names = paths(&["a.png", "b.png"]);
    let mut cache = RepresentationCache::new();
    resolve_all(&mut cache, &names);
    let mut tracker = PairTracker::new();
    assert_eq!(prescale(&names, &cache, &mut tracker), Vec::<String>::new());
    assert!(!tracker.contains(&names[0], &names[1]));
    assert_eq!(working_set(&names, &cache), names);
}

#[test]
fn prescale_of_nothing_fails_none() {
    let cache: RepresentationCache<usize> = RepresentationCache::new();
    let mut tracker = PairTracker::new();
    assert_eq!(prescale(&Vec::new(), &cache, &mut tracker), Vec::<String>::new());
    assert_eq!(working_set(&Vec::new(), &cache), Vec::<String>::new());
}

#[test]
fn prescale_claims_the_pairs_of_a_failed_path() {
    let names = paths(&["a.png", "bad.png", "b.png"]);
    let mut cache = RepresentationCache::new();
    resolve_all(&mut cache, &names);
    let mut tracker = PairTracker::new();
    prescale(&names, &cache, &mut tracker);
    assert!(tracker.contains(&path("bad.png"), &path("a.png")));
    assert!(tracker.contains(&path("b.png"), &path("bad.png")));
    assert!(!tracker.contains(&path("a.png"), &path("b.png")));
    assert!(!tracker.try_claim(&path("a.png"), &path("bad.png")));
    assert!(tracker.try_claim(&path("b.png"), &path("a.png")));
}

#[test]
fn prescale_reports_a_failed_path_as_often_as_it_is_named() {
    let names = paths(&["bad.png", "a.png", "bad.png"]);
    let mut cache = RepresentationCache::new();
    assert_eq!(resolve_all(&mut cache, &names), 2);
    let mut tracker = PairTracker::new();
    assert_eq!(prescale(&names, &cache, &mut tracker), paths(&["bad.png", "bad.png"]));
    assert_eq!(working_set(&names, &cache), paths(&["a.png"]));
}

#[test]
fn path_that_was_never_resolved_has_not_failed() {
    let names = paths(&["a.png", "b.png"]);
    let mut cache: RepresentationCache<usize> = RepresentationCache::new();
    assert_eq!(cache.get_or_compute(&names[1]), Lookup::Compute);
    let mut tracker = PairTracker::new();
    assert_eq!(prescale(&names, &cache, &mut tracker), Vec::<String>::new());
    assert_eq!(working_set(&names, &cache), names);
}

#[test]
fn working_set_leaves_out_the_failed_paths() {
    let names = paths(&["a.png", "bad1.png", "b.png", "bad0.png", "c.png"]);
    let mut cache = RepresentationCache::new();
    resolve_all(&mut cache, &names);
    assert_eq!(working_set(&names, &cache), paths(&["a.png", "b.png", "c.png"]));
}

#[test]
fn unreadable_path_is_reported_and_the_other_two_are_compared() {
    let names = paths(&["a.png", "bad.png", "b.png"]);
    let mut cache = RepresentationCache::new();
    resolve_all(&mut cache, &names);
    let mut tracker = PairTracker::new();
    let failed = prescale(&names, &cache, &mut tracker);
    assert_eq!(failed, paths(&["bad.png"]));
    assert_eq!(cache.get(&failed[0]), Some(Err(&path("Could not process 'bad.png'"))));
    let usable = working_set(&names, &cache);
    assert_eq!(usable, paths(&["a.png", "b.png"]));
    let plan = run(None, &usable, Score::default_threshold());
    let mut measured = Vec::new();
    for mut sweep in plan.sweeps {
        measured.extend(measure_all(&mut sweep, &mut tracker));
        assert_eq!(sweep.stage(), Stage::Finished);
    }
    assert_eq!(measured, vec![(path("a.png"), path("b.png"))]);
}

#[test]
fn run_without_lefts_sweeps_every_candidate() {
    let rights = paths(&["a.png", "b.png", "c.png"]);
    let plan = run(None, &rights, Score::default_threshold());
    assert_eq!(plan.mode, Mode::AllPairs);
    assert_eq!(plan.sweeps.len(), 3);
    for (sweep, left) in plan.sweeps.iter().zip(&rights) {
        assert_eq!(sweep.stage(), Stage::Left);
        assert_eq!(sweep.pending(), Request::Resolve(left));
    }
}

#[test]
fn run_with_lefts_sweeps_every_left_image() {
    let lefts = paths(&["x.png", "y.png"]);
    let rights = paths(&["a.png", "b.png", "c.png"]);
    let plan = run(Some(&lefts), &rights, Score::default_threshold());
    assert_eq!(plan.mode, Mode::LeftRight);
    assert_eq!(plan.sweeps.len(), 2);
    let mut measured = Vec::new();
    for (mut sweep, left) in plan.sweeps.into_iter().zip(&lefts) {
        assert_eq!(sweep.pending(), Request::Resolve(left));
        let mut tracker = PairTracker::new();
        measured.extend(measure_all(&mut sweep, &mut tracker));
    }
    assert_eq!(
        measured,
        vec![
            (path("x.png"), path("a.png")),
            (path("x.png"), path("b.png")),
            (path("x.png"), path("c.png")),
            (path("y.png"), path("a.png")),
            (path("y.png"), path("b.png")),
            (path("y.png"), path("c.png")),
        ]
    );
}

#[test]
fn run_with_an_empty_list_of_lefts_has_no_sweep() {
    let lefts = Vec::new();
    let rights = paths(&["a.png", "b.png"]);
    let plan = run(Some(&lefts), &rights, Score::default_threshold());
    assert_eq!(plan.mode, Mode::LeftRight);
    assert!(plan.sweeps.is_empty());
}

#[test]
fn run_over_no_candidates_has_no_sweep() {
    let rights = Vec::new();
    let plan = run(None, &rights, Score::default_threshold());
    assert_eq!(plan.mode, Mode::AllPairs);
    assert!(plan.sweeps.is_empty());
}

#[test]
fn left_image_among_the_rights_is_not_compared_with_itself() {
    let lefts = paths(&["X.png"]);
    let rights = paths(&["X.png", "Y.png"]);
    let plan = run(Some(&lefts), &rights, Score::default_threshold());
    let mut measured = Vec::new();
    for mut sweep in plan.sweeps {
        let mut tracker = PairTracker::new();
        measured.extend(measure_all(&mut sweep, &mut tracker));
    }
    assert_eq!(measured, vec![(path("X.png"), path("Y.png"))]);
}

#[test]
fn left_right_mode_compares_a_pair_once_for_each_left_image() {
    let lefts = paths(&["a.png", "b.png"]);
    let rights = paths(&["a.png", "b.png"]);
    let plan = run(Some(&lefts), &rights, Score::default_threshold());
    let mut measured = Vec::new();
    for mut sweep in plan.sweeps {
        let mut tracker = PairTracker::new();
        measured.extend(measure_all(&mut sweep, &mut tracker));
    }
    assert_eq!(measured, vec![(path("a.png"), path("b.png")), (path("b.png"), path("a.png"))]);
}

#[test]
fn all_pairs_run_measures_n_times_n_minus_one_over_two_pairs() {
    for n in [0usize, 1, 2, 3, 5, 12] {
        let rights: Vec<String> = (0..n).map(|i| format!("img{i}.png")).collect();
        let plan = run(None, &rights, Score::default_threshold());
        let mut tracker = PairTracker::new();
        let mut measured = 0;
        for mut sweep in plan.sweeps {
            measured += measure_all(&mut sweep, &mut tracker).len();
        }
        assert_eq!(measured, n * n.saturating_sub(1) / 2);
    }
}

#[test]
fn sweeps_of_a_run_use_its_threshold() {
    let rights = paths(&["a.png", "b.png"]);
    let plan = run(None, &rights, Score::from_bits(0.5f64.to_bits()));
    let mut tracker = PairTracker::new();
    let mut sweeps = plan.sweeps;
    let sweep = &mut sweeps[0];
    compare_imgs(sweep, &mut tracker, Event::Resolved);
    compare_imgs(sweep, &mut tracker, Event::Resolved);
    let step = compare_imgs(sweep, &mut tracker, Event::Scored(Score::from_bits(0.5f64.to_bits())));
    assert!(matches!(step.notice, imgdup::engine::Notice::Match(_)));
}
