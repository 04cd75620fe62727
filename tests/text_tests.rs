use load_balancer_llamaedge::text::{join_host_port, str_eq};

#[test]
fn host_and_port_are_joined() {
    assert_eq!(join_host_port("10.0.0.1", 8080), "10.0.0.1:8080");
    assert_eq!(join_host_port("h", 0), "h:0");
    assert_eq!(join_host_port("h", 10), "h:10");
    assert_eq!(join_host_port("", 65535), ":65535");
}

#[test]
fn string_slices_compare_by_characters() {
    assert!(str_eq("abc", "abc"));
    assert!(!str_eq("abc", "abd"));
    assert!(!str_eq("abc", "ab"));
    assert!(str_eq("", ""));
}
