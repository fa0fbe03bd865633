use metaballs::search::first_trigger;

#[test]
fn triggers_at_first_marked_step_after_the_start() {
    assert_eq!(first_trigger(&vec![false, false, true, true]), Some(2));
    assert_eq!(first_trigger(&vec![false, true]), Some(1));
}

#[test]
fn the_very_first_step_never_triggers() {
    // The sample before step zero belongs to the previous scan interval,
    // so a crossing there is not this interval's to report.
    assert_eq!(first_trigger(&vec![true, false, true]), Some(2));
    assert_eq!(first_trigger(&vec![true]), None);
    assert_eq!(first_trigger(&vec![true, false, false]), None);
}

#[test]
fn no_marked_step_means_no_trigger() {
    assert_eq!(first_trigger(&vec![false, false, false]), None);
    assert_eq!(first_trigger(&vec![]), None);
    assert_eq!(first_trigger(&vec![false]), None);
}
