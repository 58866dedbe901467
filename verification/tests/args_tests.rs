use imgdup::args::Args;
use imgdup::score::Score;

fn args() -> Args {
    Args {
        recurse: false,
        threshold: None,
        filenames: vec!["a.png".to_string()],
        left_filenames: Vec::new(),
        no_prescale: false,
        max_threads: None,
    }
}

#[test]
fn threshold_defaults_to_one_tenth() {
    assert_eq!(args().threshold_or_default(), Score::from_bits(0.1f64.to_bits()));
}

#[test]
fn configured_threshold_is_used() {
    let configured = Args { threshold: Some(Score::from_bits(0.25f64.to_bits())), ..args() };
    assert_eq!(configured.threshold_or_default().to_bits(), 0.25f64.to_bits());
    let zero = Args { threshold: Some(Score::from_bits(0)), ..args() };
    assert_eq!(zero.threshold_or_default().to_bits(), 0);
}

#[test]
fn worker_threads_default_to_what_was_detected() {
    assert_eq!(args().worker_threads(8), 8);
    assert_eq!(args().worker_threads(1), 1);
}

#[test]
fn configured_worker_threads_are_used() {
    let configured = Args { max_threads: Some(3), ..args() };
    assert_eq!(configured.worker_threads(8), 3);
}
