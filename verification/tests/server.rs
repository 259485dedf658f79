use madore::server::guard_host;

#[test]
fn only_loopback_hosts_pass() {
    assert!(guard_host(Some("127.0.0.1:1234")));
    assert!(guard_host(Some("localhost")));
    assert!(guard_host(Some("localhost:80")));
    assert!(guard_host(Some("[::1]:1234")));
    assert!(!guard_host(Some("::1")));
    assert!(guard_host(Some("::1:8080")));
    assert!(!guard_host(Some("evil.example:1234")));
    assert!(!guard_host(Some("127.0.0.2")));
    assert!(!guard_host(None));
}
