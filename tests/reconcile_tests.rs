use load_balancer_llamaedge::reconcile::{apply_sync, event_step, plan_sync, reconcile, ClusterEvent, SyncAction};
use load_balancer_llamaedge::registry::{ServiceEntry, ServiceRegistry};

fn entry(name: &str, weight: u32, ip: &str, port: u16) -> ServiceEntry {
    ServiceEntry::new(name.to_string(), weight, ip.to_string(), port)
}

fn summary(reg: &ServiceRegistry) -> Vec<(String, u32, String, u16)> {
    let mut v: Vec<_> = reg.list_services().into_iter().map(|e| (e.name, e.weight, e.ip, e.port)).collect();
    v.sort();
    v
}

fn describe(actions: &[SyncAction]) -> Vec<String> {
    actions
        .iter()
        .map(|a| match a {
            SyncAction::Register(e) => format!("register {} {}", e.name, e.weight),
            SyncAction::Unregister(n) => format!("unregister {}", n),
        })
        .collect()
}

#[test]
fn one_pass_adds_missing_and_removes_stale() {
    let mut reg = ServiceRegistry::new();
    reg.register_service(entry("Y", 1, "10.0.0.2", 8080));
    reg.register_service(entry("Z", 1, "10.0.0.3", 8080));
    let desired = vec![entry("X", 2, "10.0.0.1", 8080), entry("Y", 1, "10.0.0.2", 8080)];
    let actions = reconcile(&mut reg, &desired);
    assert_eq!(describe(&actions), vec!["register X 2".to_string(), "unregister Z".to_string()]);
    assert_eq!(
        summary(&reg),
        vec![
            ("X".to_string(), 2, "10.0.0.1".to_string(), 8080),
            ("Y".to_string(), 1, "10.0.0.2".to_string(), 8080),
        ]
    );
}

#[test]
fn second_pass_changes_nothing() {
    let mut reg = ServiceRegistry::new();
    reg.register_service(entry("Y", 1, "10.0.0.2", 8080));
    reg.register_service(entry("Z", 1, "10.0.0.3", 8080));
    let desired = vec![entry("X", 2, "10.0.0.1", 8080), entry("Y", 4, "10.0.0.2", 8080)];
    reconcile(&mut reg, &desired);
    let after_first = summary(&reg);
    assert!(reconcile(&mut reg, &desired).is_empty());
    assert!(plan_sync(&desired, &reg).is_empty());
    assert_eq!(summary(&reg), after_first);
}

#[test]
fn changed_entries_are_registered_anew() {
    let mut reg = ServiceRegistry::new();
    reg.register_service(entry("Y", 1, "10.0.0.2", 8080));
    let actions = plan_sync(&[entry("Y", 1, "10.0.0.9", 8080)], &reg);
    assert_eq!(describe(&actions), vec!["register Y 1".to_string()]);
    let actions = plan_sync(&[entry("Y", 3, "10.0.0.2", 8080)], &reg);
    assert_eq!(describe(&actions), vec!["register Y 3".to_string()]);
    let actions = plan_sync(&[entry("Y", 1, "10.0.0.2", 9090)], &reg);
    assert_eq!(describe(&actions), vec!["register Y 1".to_string()]);
}

#[test]
fn actions_come_as_additions_then_removals_then_updates() {
    let mut reg = ServiceRegistry::new();
    reg.register_service(entry("B", 1, "h", 1));
    reg.register_service(entry("C", 1, "h", 1));
    let desired = vec![entry("B", 2, "h", 1), entry("A", 1, "h", 1)];
    let actions = plan_sync(&desired, &reg);
    assert_eq!(
        describe(&actions),
        vec!["register A 1".to_string(), "unregister C".to_string(), "register B 2".to_string()]
    );
}

#[test]
fn last_desired_entry_of_a_name_wins() {
    let reg = ServiceRegistry::new();
    let desired = vec![entry("A", 1, "h", 1), entry("A", 9, "h", 1)];
    assert_eq!(describe(&plan_sync(&desired, &reg)), vec!["register A 9".to_string()]);
}

#[test]
fn empty_desired_state_empties_the_registry() {
    let mut reg = ServiceRegistry::new();
    reg.register_service(entry("A", 1, "h", 1));
    reg.register_service(entry("B", 1, "h", 1));
    reconcile(&mut reg, &[]);
    assert!(reg.list_services().is_empty());
}

#[test]
fn apply_runs_actions_in_order() {
    let mut reg = ServiceRegistry::new();
    apply_sync(
        &mut reg,
        &[
            SyncAction::Register(entry("A", 1, "h", 1)),
            SyncAction::Register(entry("B", 1, "h", 1)),
            SyncAction::Unregister("A".to_string()),
            SyncAction::Unregister("missing".to_string()),
        ],
    );
    assert_eq!(summary(&reg), vec![("B".to_string(), 1, "h".to_string(), 1)]);
}

#[test]
fn cluster_events_become_actions() {
    let step = event_step(ClusterEvent::Applied(Some(entry("A", 2, "h", 1))));
    assert!(step.resync);
    assert_eq!(describe(&step.action.into_iter().collect::<Vec<_>>()), vec!["register A 2".to_string()]);
    let step = event_step(ClusterEvent::Deleted("A".to_string()));
    assert!(step.resync);
    assert_eq!(describe(&step.action.into_iter().collect::<Vec<_>>()), vec!["unregister A".to_string()]);
    let step = event_step(ClusterEvent::Applied(None));
    assert!(step.resync && step.action.is_none());
    let step = event_step(ClusterEvent::Other);
    assert!(!step.resync && step.action.is_none());
}
