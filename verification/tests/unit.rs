use service_orchestrator::unit::OneshotBuilder;
use std::time::Duration;

#[test]
fn a_new_builder_has_no_schedule() {
    let builder = OneshotBuilder::new("backup".to_string(), "tar", vec!["-c", "/home"]);
    assert_eq!(builder.name, "backup");
    assert_eq!(builder.prog, "tar");
    assert_eq!(builder.args, vec!["-c", "/home"]);
    assert_eq!(builder.schedule, None);
}

#[test]
fn schedule_replaces_the_earlier_one() {
    let mut builder = OneshotBuilder::new("backup".to_string(), "tar", vec![]);
    builder.schedule(Duration::from_secs(60));
    assert_eq!(builder.schedule, Some(Duration::from_secs(60)));
    builder.schedule(Duration::from_secs(5));
    assert_eq!(builder.schedule, Some(Duration::from_secs(5)));
    assert_eq!(builder.name, "backup");
}
