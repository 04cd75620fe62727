use load_balancer_llamaedge::registry::{ServiceEntry, ServiceRegistry};

fn entry(name: &str, weight: u32, ip: &str, port: u16) -> ServiceEntry {
    ServiceEntry::new(name.to_string(), weight, ip.to_string(), port)
}

fn names(reg: &ServiceRegistry) -> Vec<String> {
    reg.list_services().into_iter().map(|e| e.name).collect()
}

#[test]
fn register_appends_new_names_in_order() {
    let mut reg = ServiceRegistry::new();
    reg.register_service(entry("a", 3, "10.0.0.1", 8080));
    reg.register_service(entry("b", 1, "10.0.0.2", 8081));
    assert_eq!(names(&reg), vec!["a".to_string(), "b".to_string()]);
}

#[test]
fn register_replaces_existing_entry_in_place() {
    let mut reg = ServiceRegistry::new();
    reg.register_service(entry("a", 3, "10.0.0.1", 8080));
    reg.register_service(entry("b", 1, "10.0.0.2", 8081));
    reg.register_service(entry("a", 7, "10.0.0.9", 9000));
    let list = reg.list_services();
    assert_eq!(list.len(), 2);
    assert_eq!(list[0].name, "a");
    assert_eq!(list[0].weight, 7);
    assert_eq!(list[0].ip, "10.0.0.9");
    assert_eq!(list[0].port, 9000);
    assert_eq!(list[1].name, "b");
}

#[test]
fn register_is_idempotent() {
    let mut reg = ServiceRegistry::new();
    for _ in 0..3 {
        reg.register_service(entry("a", 3, "10.0.0.1", 8080));
    }
    let list = reg.list_services();
    assert_eq!(list.len(), 1);
    assert_eq!(list[0].weight, 3);
}

#[test]
fn unregister_twice_gives_true_then_false() {
    let mut reg = ServiceRegistry::new();
    reg.register_service(entry("a", 3, "10.0.0.1", 8080));
    assert!(reg.unregister_service("a"));
    assert!(!reg.unregister_service("a"));
    assert!(reg.list_services().is_empty());
}

#[test]
fn unregister_unknown_name_is_false() {
    let mut reg = ServiceRegistry::new();
    reg.register_service(entry("a", 3, "10.0.0.1", 8080));
    assert!(!reg.unregister_service("b"));
    assert_eq!(names(&reg), vec!["a".to_string()]);
}

#[test]
fn unregister_keeps_order_of_the_rest() {
    let mut reg = ServiceRegistry::new();
    reg.register_service(entry("a", 1, "h", 1));
    reg.register_service(entry("b", 1, "h", 1));
    reg.register_service(entry("c", 1, "h", 1));
    assert!(reg.unregister_service("b"));
    assert_eq!(names(&reg), vec!["a".to_string(), "c".to_string()]);
}

#[test]
fn address_lookup_by_name() {
    let mut reg = ServiceRegistry::new();
    reg.register_service(entry("a", 3, "10.42.0.12", 8080));
    assert_eq!(reg.get_service_address("a"), Some("10.42.0.12:8080".to_string()));
    assert_eq!(reg.get_service_address("b"), None);
}

#[test]
fn entry_address_writes_port_in_decimal() {
    assert_eq!(entry("x", 1, "backend.local", 0).address(), "backend.local:0");
    assert_eq!(entry("x", 1, "10.0.0.1", 65535).address(), "10.0.0.1:65535");
}

#[test]
fn get_finds_entry_by_name() {
    let mut reg = ServiceRegistry::new();
    reg.register_service(entry("a", 3, "10.0.0.1", 8080));
    assert_eq!(reg.get("a").map(|e| e.weight), Some(3));
    assert!(reg.get("z").is_none());
}

#[test]
fn from_entries_keeps_last_of_each_name() {
    let reg = ServiceRegistry::from_entries(&[
        entry("a", 1, "h1", 1),
        entry("b", 2, "h2", 2),
        entry("a", 5, "h3", 3),
    ]);
    let list = reg.list_services();
    assert_eq!(list.len(), 2);
    assert_eq!(list[0].name, "a");
    assert_eq!(list[0].weight, 5);
    assert_eq!(list[0].ip, "h3");
    assert_eq!(list[1].name, "b");
}

#[test]
fn clone_keeps_all_fields() {
    let e = entry("a", 3, "10.0.0.1", 8080);
    let c = e.clone();
    assert_eq!((c.name, c.weight, c.ip, c.port), (e.name, e.weight, e.ip, e.port));
}

#[test]
fn names_compare_by_every_character() {
    let mut reg = ServiceRegistry::new();
    reg.register_service(entry("llama-é", 1, "h", 1));
    assert!(reg.get("llama-e").is_none());
    assert!(reg.get("llama-é").is_some());
    assert!(reg.get("llama-éx").is_none());
}
