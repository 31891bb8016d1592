use smag::sampler::{controller_step, is_quit_key, Action, Event, Key, Sampler};
use smag::datastore::DataStore;
use smag::Sample;

// Diff mode: raw samples 10, 13, 11 emit 3 and -2, with nothing emitted for
// the very first sample.
#[test]
fn test_diff_mode_emits_deltas() {
    let mut s = Sampler::new(true);
    assert_eq!(s.observe(Some(10)), None);
    assert_eq!(
        s.observe(Some(13)),
        Some(Sample { x: 1, value: Some(3) })
    );
    assert_eq!(
        s.observe(Some(11)),
        Some(Sample { x: 2, value: Some(-2) })
    );
}

#[test]
fn test_diff_mode_skips_failures() {
    let mut s = Sampler::new(true);
    assert_eq!(s.observe(Some(10)), None);
    assert_eq!(s.observe(None), None);
    // The previous successful value is still 10.
    assert_eq!(
        s.observe(Some(25)),
        Some(Sample { x: 2, value: Some(15) })
    );
}

#[test]
fn test_raw_mode_keeps_cadence() {
    let mut s = Sampler::new(false);
    assert_eq!(s.observe(Some(5)), Some(Sample { x: 0, value: Some(5) }));
    assert_eq!(s.observe(None), Some(Sample { x: 1, value: None }));
    assert_eq!(s.observe(Some(8)), Some(Sample { x: 2, value: Some(8) }));
}

#[test]
fn test_quit_keys() {
    assert!(is_quit_key(&Key::Char('q')));
    assert!(is_quit_key(&Key::Esc));
    assert!(is_quit_key(&Key::CtrlChar('c')));
    assert!(!is_quit_key(&Key::Char('x')));
    assert!(!is_quit_key(&Key::CtrlChar('q')));
    assert!(!is_quit_key(&Key::Other));
}

#[test]
fn test_controller_applies_updates() {
    let mut ds = DataStore::new(1, 4, String::new());
    let a = controller_step(
        &mut ds,
        &Event::Update { cmd_index: 0, sample: Sample { x: 0, value: Some(6) } },
    );
    assert_eq!(a, Action::Redraw);
    assert_eq!(ds.last(0), 6);
}

#[test]
fn test_controller_quit_and_ignore() {
    let mut ds = DataStore::new(1, 4, String::new());
    ds.update(0, 0, Some(3));
    let q = controller_step(&mut ds, &Event::Input { key: Key::Esc });
    assert_eq!(q, Action::Quit);
    let i = controller_step(&mut ds, &Event::Input { key: Key::Char('z') });
    assert_eq!(i, Action::Ignore);
    // The store is untouched by key events.
    assert_eq!(ds.last(0), 3);
}
