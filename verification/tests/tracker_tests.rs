use imgdup::tracker::{already_checked, PairTracker};

fn path(name: &str) -> String {
    name.to_string()
}

#[test]
fn claim_then_reverse_claim_is_refused() {
    let mut tracker = PairTracker::new();
    assert!(tracker.try_claim(&path("a.png"), &path("b.png")));
    assert!(!tracker.try_claim(&path("b.png"), &path("a.png")));
}

#[test]
fn claim_is_refused_the_second_time() {
    let mut tracker = PairTracker::new();
    assert!(tracker.try_claim(&path("a.png"), &path("b.png")));
    assert!(!tracker.try_claim(&path("a.png"), &path("b.png")));
}

#[test]
fn self_pair_is_never_claimed() {
    let mut tracker = PairTracker::new();
    assert!(!tracker.try_claim(&path("a.png"), &path("a.png")));
    assert!(!tracker.try_claim(&path("a.png"), &path("a.png")));
    assert!(!tracker.contains(&path("a.png"), &path("a.png")));
    assert!(tracker.try_claim(&path("a.png"), &path("b.png")));
    assert!(!tracker.try_claim(&path("a.png"), &path("a.png")));
    assert!(!tracker.try_claim(&path("b.png"), &path("b.png")));
}

#[test]
fn contains_answers_for_both_orientations() {
    let mut tracker = PairTracker::new();
    assert!(!tracker.contains(&path("a"), &path("b")));
    assert!(tracker.try_claim(&path("a"), &path("b")));
    assert!(tracker.contains(&path("a"), &path("b")));
    assert!(tracker.contains(&path("b"), &path("a")));
    assert!(!tracker.contains(&path("a"), &path("c")));
    assert!(!tracker.contains(&path("c"), &path("b")));
}

#[test]
fn contains_changes_nothing() {
    let mut tracker = PairTracker::new();
    assert!(!tracker.contains(&path("a"), &path("b")));
    assert!(!tracker.contains(&path("b"), &path("a")));
    assert!(tracker.try_claim(&path("b"), &path("a")));
}

#[test]
fn paths_are_told_apart_exactly() {
    let mut tracker = PairTracker::new();
    assert!(tracker.try_claim(&path("dir/a.png"), &path("dir/b.png")));
    assert!(tracker.try_claim(&path("./dir/a.png"), &path("dir/b.png")));
    assert!(tracker.try_claim(&path("dir/a.png"), &path("dir/B.png")));
    assert!(tracker.try_claim(&path("dir/a.png"), &path("./dir/a.png")));
    assert!(!tracker.try_claim(&path("dir/b.png"), &path("./dir/a.png")));
}

#[test]
fn pairs_that_share_a_path_are_distinct() {
    let mut tracker = PairTracker::new();
    assert!(tracker.try_claim(&path("a"), &path("b")));
    assert!(tracker.try_claim(&path("a"), &path("c")));
    assert!(tracker.try_claim(&path("c"), &path("b")));
    assert!(!tracker.try_claim(&path("b"), &path("c")));
    assert!(!tracker.try_claim(&path("c"), &path("a")));
    assert!(!tracker.try_claim(&path("b"), &path("a")));
}

#[test]
fn already_checked_is_true_for_the_same_path() {
    let mut tracker = PairTracker::new();
    assert!(already_checked(&mut tracker, path("a.png"), path("a.png")));
}

#[test]
fn already_checked_claims_a_new_pair() {
    let mut tracker = PairTracker::new();
    assert!(!already_checked(&mut tracker, path("a.png"), path("b.png")));
    assert!(already_checked(&mut tracker, path("a.png"), path("b.png")));
    assert!(already_checked(&mut tracker, path("b.png"), path("a.png")));
    assert!(tracker.contains(&path("b.png"), &path("a.png")));
}

#[test]
fn exclude_claims_the_pair_with_every_other_path() {
    let mut tracker = PairTracker::new();
    let others = vec![path("a"), path("bad"), path("b"), path("c")];
    assert!(tracker.try_claim(&path("b"), &path("bad")));
    tracker.exclude(&path("bad"), &others);
    assert!(tracker.contains(&path("bad"), &path("a")));
    assert!(tracker.contains(&path("b"), &path("bad")));
    assert!(tracker.contains(&path("c"), &path("bad")));
    assert!(!tracker.contains(&path("bad"), &path("bad")));
    assert!(!tracker.contains(&path("a"), &path("b")));
    assert!(!tracker.try_claim(&path("a"), &path("bad")));
    assert!(tracker.try_claim(&path("a"), &path("b")));
}

#[test]
fn exclude_with_no_other_path_changes_nothing() {
    let mut tracker = PairTracker::new();
    tracker.exclude(&path("bad"), &Vec::new());
    assert!(tracker.try_claim(&path("bad"), &path("a")));
}

#[test]
fn every_unordered_pair_is_claimed_once() {
    let n = 40;
    let paths: Vec<String> = (0..n).map(|i| format!("img{i}.png")).collect();
    let mut tracker = PairTracker::new();
    let mut won = 0;
    let mut tried = 0;
    for a in &paths {
        for b in &paths {
            tried += 1;
            if tracker.try_claim(a, b) {
                won += 1;
            }
        }
    }
    assert_eq!(tried, n * n);
    assert_eq!(won, n * (n - 1) / 2);
    for a in &paths {
        for b in &paths {
            assert_eq!(tracker.contains(a, b), a != b);
        }
    }
}
