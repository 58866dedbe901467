use imgdup::cache::{Lookup, RepresentationCache};

fn path(name: &str) -> String {
    name.to_string()
}

#[test]
fn first_caller_is_told_to_compute() {
    let mut cache: RepresentationCache<u32> = RepresentationCache::new();
    assert_eq!(cache.get_or_compute(&path("a.png")), Lookup::Compute);
}

#[test]
fn later_callers_wait_until_the_outcome_is_settled() {
    let mut cache: RepresentationCache<u32> = RepresentationCache::new();
    assert_eq!(cache.get_or_compute(&path("a.png")), Lookup::Compute);
    assert_eq!(cache.get_or_compute(&path("a.png")), Lookup::Wait);
    assert_eq!(cache.get_or_compute(&path("a.png")), Lookup::Wait);
    assert_eq!(cache.get(&path("a.png")), None);
    assert!(cache.settle(&path("a.png"), Ok(7)));
    assert_eq!(cache.get_or_compute(&path("a.png")), Lookup::Hit);
    assert_eq!(cache.get(&path("a.png")), Some(Ok(&7)));
}

#[test]
fn work_is_done_once_however_often_a_path_is_asked_for() {
    let mut cache: RepresentationCache<String> = RepresentationCache::new();
    let mut decoded = 0;
    for _ in 0..25 {
        match cache.get_or_compute(&path("a.png")) {
            Lookup::Compute => {
                decoded += 1;
                assert!(cache.settle(&path("a.png"), Ok(path("pixels of a"))));
            }
            Lookup::Hit => {}
            Lookup::Wait => panic!("nobody else is computing"),
        }
        assert_eq!(cache.get(&path("a.png")), Some(Ok(&path("pixels of a"))));
    }
    assert_eq!(decoded, 1);
}

#[test]
fn work_is_done_once_for_each_path() {
    let mut cache: RepresentationCache<usize> = RepresentationCache::new();
    let names: Vec<String> = (0..10).map(|i| format!("img{i}.png")).collect();
    let mut decoded = vec![0; names.len()];
    for round in 0..3 {
        for (i, name) in names.iter().enumerate() {
            if cache.get_or_compute(name) == Lookup::Compute {
                decoded[i] += 1;
                assert!(cache.settle(name, Ok(i * 10)));
            }
            assert_eq!(cache.get(name), Some(Ok(&(i * 10))), "round {round}");
        }
    }
    assert_eq!(decoded, vec![1; names.len()]);
}

#[test]
fn failure_is_kept_and_not_tried_again() {
    let mut cache: RepresentationCache<u32> = RepresentationCache::new();
    assert_eq!(cache.get_or_compute(&path("bad.png")), Lookup::Compute);
    assert!(!cache.has_failed(&path("bad.png")));
    assert!(cache.settle(&path("bad.png"), Err(path("Could not read 'bad.png'"))));
    assert!(cache.has_failed(&path("bad.png")));
    for _ in 0..5 {
        assert_eq!(cache.get_or_compute(&path("bad.png")), Lookup::Hit);
        assert_eq!(cache.get(&path("bad.png")), Some(Err(&path("Could not read 'bad.png'"))));
    }
}

#[test]
fn first_outcome_stays() {
    let mut cache: RepresentationCache<u32> = RepresentationCache::new();
    assert!(cache.settle(&path("a.png"), Ok(1)));
    assert!(!cache.settle(&path("a.png"), Ok(2)));
    assert!(!cache.settle(&path("a.png"), Err(path("late failure"))));
    assert_eq!(cache.get(&path("a.png")), Some(Ok(&1)));
    assert!(!cache.has_failed(&path("a.png")));

    assert!(cache.settle(&path("b.png"), Err(path("broken"))));
    assert!(!cache.settle(&path("b.png"), Ok(3)));
    assert_eq!(cache.get(&path("b.png")), Some(Err(&path("broken"))));
}

#[test]
fn settle_without_asking_first_is_kept() {
    let mut cache: RepresentationCache<u32> = RepresentationCache::new();
    assert!(cache.settle(&path("a.png"), Ok(5)));
    assert_eq!(cache.get_or_compute(&path("a.png")), Lookup::Hit);
}

#[test]
fn unknown_path_has_no_outcome() {
    let mut cache: RepresentationCache<u32> = RepresentationCache::new();
    assert_eq!(cache.get(&path("a.png")), None);
    assert!(!cache.has_failed(&path("a.png")));
    assert_eq!(cache.get_or_compute(&path("b.png")), Lookup::Compute);
    assert_eq!(cache.get(&path("a.png")), None);
    assert_eq!(cache.get_or_compute(&path("a.png")), Lookup::Compute);
}

#[test]
fn one_failure_leaves_the_other_paths_alone() {
    let mut cache: RepresentationCache<u32> = RepresentationCache::new();
    assert_eq!(cache.get_or_compute(&path("a.png")), Lookup::Compute);
    assert_eq!(cache.get_or_compute(&path("bad.png")), Lookup::Compute);
    assert!(cache.settle(&path("bad.png"), Err(path("broken"))));
    assert_eq!(cache.get_or_compute(&path("a.png")), Lookup::Wait);
    assert!(cache.settle(&path("a.png"), Ok(9)));
    assert_eq!(cache.get(&path("a.png")), Some(Ok(&9)));
    assert_eq!(cache.get(&path("bad.png")), Some(Err(&path("broken"))));
}
