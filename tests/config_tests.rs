use load_balancer_llamaedge::config::{
    annotated_weight, cluster_address, endpoint_from_env, parse_definition, parse_service_list,
    registration_endpoint, service_env_vars, service_port,
};

#[test]
fn start_up_list_with_and_without_endpoints() {
    let list = parse_service_list(
        "llama-low-cost-service,3,10.42.0.12,8080; llama-high-cost-service , 1 ;bad;c,x;d,1,h,99999;",
    );
    assert_eq!(list.len(), 2);
    assert_eq!(list[0].name, "llama-low-cost-service");
    assert_eq!(list[0].weight, 3);
    assert_eq!(list[0].endpoint, Some(("10.42.0.12".to_string(), 8080)));
    assert_eq!(list[1].name, "llama-high-cost-service");
    assert_eq!(list[1].weight, 1);
    assert_eq!(list[1].endpoint, None);
}

#[test]
fn definition_with_three_fields_has_no_endpoint() {
    let d = parse_definition("a,2,10.0.0.1").unwrap();
    assert_eq!(d.weight, 2);
    assert_eq!(d.endpoint, None);
}

#[test]
fn definition_weight_must_fit_u32() {
    assert!(parse_definition("a,4294967296").is_none());
    assert_eq!(parse_definition("a,+4294967295").unwrap().weight, u32::MAX);
    assert!(parse_definition("a,-1").is_none());
}

#[test]
fn empty_list_names_nothing() {
    assert!(parse_service_list("").is_empty());
}

#[test]
fn weight_annotation() {
    assert_eq!(annotated_weight(Some("5")), 5);
    assert_eq!(annotated_weight(Some("+7")), 7);
    assert_eq!(annotated_weight(Some(" 5")), 1);
    assert_eq!(annotated_weight(Some("heavy")), 1);
    assert_eq!(annotated_weight(Some("4294967296")), 1);
    assert_eq!(annotated_weight(None), 1);
}

#[test]
fn first_port_or_default() {
    assert_eq!(service_port(Some(9000)), 9000);
    assert_eq!(service_port(Some(70000)), 4464);
    assert_eq!(service_port(None), 8080);
}

#[test]
fn cluster_dns_address() {
    assert_eq!(cluster_address("llama", Some("ai"), 8080), "llama.ai.svc.cluster.local:8080");
    assert_eq!(cluster_address("llama", None, 80), "llama.default.svc.cluster.local:80");
}

#[test]
fn env_variable_names() {
    let (h, p) = service_env_vars("llama-low-cost");
    assert_eq!(h, "LLAMA_LOW_COST_SERVICE_HOST");
    assert_eq!(p, "LLAMA_LOW_COST_SERVICE_PORT");
}

#[test]
fn endpoint_from_environment() {
    assert_eq!(endpoint_from_env(Some("10.0.0.1"), None), Some(("10.0.0.1".to_string(), 8080)));
    assert_eq!(endpoint_from_env(Some("10.0.0.1"), Some("9000")), Some(("10.0.0.1".to_string(), 9000)));
    assert_eq!(endpoint_from_env(Some("10.0.0.1"), Some("port")), None);
    assert_eq!(endpoint_from_env(None, Some("9000")), None);
}

#[test]
fn fields_are_trimmed_of_unicode_white_space() {
    let d = parse_definition("a,\u{3000}5").unwrap();
    assert_eq!(d.name, "a");
    assert_eq!(d.weight, 5);
    let list = parse_service_list("\u{a0}llama\u{2003},2,\u{85}10.0.0.7\u{3000},\u{2028}9000\t;b,1");
    assert_eq!(list.len(), 2);
    assert_eq!(list[0].name, "llama");
    assert_eq!(list[0].weight, 2);
    assert_eq!(list[0].endpoint, Some(("10.0.0.7".to_string(), 9000)));
    assert_eq!(list[1].name, "b");
}

#[test]
fn non_ascii_names_are_kept_as_written() {
    let d = parse_definition(" modèle-é ,4").unwrap();
    assert_eq!(d.name, "modèle-é");
    assert_eq!(d.weight, 4);
}

#[test]
fn registration_endpoint_defaults() {
    let env = Some(("10.9.9.9".to_string(), 7000));
    assert_eq!(
        registration_endpoint(Some("10.0.0.1".to_string()), Some(9000), env.clone()),
        Some(("10.0.0.1".to_string(), 9000))
    );
    assert_eq!(registration_endpoint(Some("10.0.0.1".to_string()), None, env.clone()), Some(("10.0.0.1".to_string(), 8080)));
    assert_eq!(registration_endpoint(None, Some(9000), env.clone()), Some(("10.9.9.9".to_string(), 9000)));
    assert_eq!(registration_endpoint(None, None, env), Some(("10.9.9.9".to_string(), 7000)));
    assert_eq!(registration_endpoint(None, Some(9000), None), None);
}
