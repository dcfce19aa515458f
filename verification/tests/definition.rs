use service_orchestrator::command::Command;
use service_orchestrator::definition::{validate, ConfigError, ServiceDef};

fn command(prog: &str) -> Command {
    Command { prog: prog.to_string(), args: vec!["--now".to_string()], delay: 3 }
}

fn service(name: &str, same: &[&str], after: &[&str]) -> ServiceDef {
    ServiceDef {
        name: name.to_string(),
        same: same.iter().map(|s| s.to_string()).collect(),
        after: after.iter().map(|s| s.to_string()).collect(),
        start_command: command("start"),
        run_command: command("run"),
    }
}

#[test]
fn a_collection_with_resolved_references_is_valid() {
    let definitions = vec![
        service("Totoro", &[], &[]),
        service("Popcorn", &["Mao"], &["Totoro", "Totoro"]),
        service("Mao", &[], &["Popcorn", "Totoro"]),
    ];
    assert_eq!(validate(&definitions), Ok(()));
}

#[test]
fn the_empty_collection_is_valid() {
    assert_eq!(validate(&vec![]), Ok(()));
}

#[test]
fn an_empty_name_is_reported() {
    let definitions = vec![service("Totoro", &[], &[]), service("", &[], &[])];
    assert_eq!(validate(&definitions), Err(ConfigError::EmptyName { index: 1 }));
}

#[test]
fn a_repeated_name_is_reported_with_its_first_bearer() {
    let definitions = vec![
        service("Totoro", &[], &[]),
        service("Mao", &[], &[]),
        service("Popcorn", &[], &[]),
        service("Mao", &[], &[]),
        service("Mao", &[], &[]),
    ];
    assert_eq!(validate(&definitions), Err(ConfigError::DuplicateName { index: 3, earlier: 1 }));
}

#[test]
fn an_unknown_peer_is_reported() {
    let definitions = vec![service("Totoro", &[], &[]), service("Mao", &["Totoro", "Catbus"], &[])];
    assert_eq!(validate(&definitions), Err(ConfigError::UnknownPeer { index: 1, position: 1 }));
}

#[test]
fn an_unknown_dependency_is_reported() {
    let definitions =
        vec![service("Totoro", &[], &["Totoro", "Mao", "Catbus"]), service("Mao", &[], &[])];
    assert_eq!(
        validate(&definitions),
        Err(ConfigError::UnknownDependency { index: 0, position: 2 })
    );
}

#[test]
fn names_are_looked_at_before_references() {
    let definitions = vec![service("Totoro", &["Catbus"], &[]), service("", &[], &[])];
    assert_eq!(validate(&definitions), Err(ConfigError::EmptyName { index: 1 }));
}

#[test]
fn peers_are_looked_at_before_dependencies() {
    let definitions = vec![service("Totoro", &["Catbus"], &["Susuwatari"])];
    assert_eq!(validate(&definitions), Err(ConfigError::UnknownPeer { index: 0, position: 0 }));
}

#[test]
fn a_service_may_depend_on_a_later_definition() {
    let definitions = vec![service("Mao", &[], &["Totoro"]), service("Totoro", &[], &[])];
    assert_eq!(validate(&definitions), Ok(()));
}

#[test]
fn a_clone_has_the_same_fields() {
    let definition = service("Popcorn", &["Mao"], &["Totoro", "Totoro"]);
    let copy = definition.clone();
    assert_eq!(copy.name, "Popcorn");
    assert_eq!(copy.same, vec!["Mao".to_string()]);
    assert_eq!(copy.after, vec!["Totoro".to_string(), "Totoro".to_string()]);
    assert_eq!(copy.start_command.prog, "start");
    assert_eq!(copy.start_command.args, vec!["--now".to_string()]);
    assert_eq!(copy.start_command.delay, 3);
    assert_eq!(copy.run_command.prog, "run");
}

#[test]
fn a_service_that_depends_on_itself_is_reported() {
    let definitions = vec![service("Totoro", &[], &[]), service("Mao", &[], &["Totoro", "Mao"])];
    assert_eq!(validate(&definitions), Err(ConfigError::DependencyCycle { index: 1 }));
}

#[test]
fn a_circle_of_dependencies_is_reported_at_its_first_definition() {
    let definitions = vec![
        service("Totoro", &[], &[]),
        service("Catbus", &[], &["Kiki"]),
        service("Mao", &[], &["Popcorn"]),
        service("Popcorn", &[], &["Totoro", "Mao"]),
        service("Kiki", &[], &["Totoro"]),
    ];
    assert_eq!(validate(&definitions), Err(ConfigError::DependencyCycle { index: 2 }));
}

#[test]
fn a_service_that_depends_on_a_circle_is_reported() {
    let definitions = vec![
        service("Catbus", &[], &["Mao"]),
        service("Mao", &[], &["Popcorn"]),
        service("Popcorn", &[], &["Mao"]),
    ];
    assert_eq!(validate(&definitions), Err(ConfigError::DependencyCycle { index: 0 }));
}

#[test]
fn peers_may_name_each_other() {
    let definitions = vec![
        service("Mao", &["Popcorn", "Mao"], &[]),
        service("Popcorn", &["Mao"], &["Totoro"]),
        service("Totoro", &["Popcorn"], &[]),
    ];
    assert_eq!(validate(&definitions), Ok(()));
}

#[test]
fn a_long_chain_of_dependencies_is_valid_in_any_order() {
    let definitions = vec![
        service("d", &[], &["c"]),
        service("a", &[], &[]),
        service("e", &[], &["d", "a"]),
        service("c", &[], &["b"]),
        service("b", &[], &["a"]),
    ];
    assert_eq!(validate(&definitions), Ok(()));
}

#[test]
fn references_are_looked_at_before_circles() {
    let definitions = vec![service("Mao", &[], &["Mao"]), service("Totoro", &[], &["Catbus"])];
    assert_eq!(
        validate(&definitions),
        Err(ConfigError::UnknownDependency { index: 1, position: 0 })
    );
}
