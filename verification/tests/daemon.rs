use madore::daemon::{
    health_matches, is_wsl_version, log_file, record_file, server_args, server_url, shutdown_accepted,
    state_dir,
};
use madore::numtext::{hex16, parse_port, port_text};

#[test]
fn ports_read_back_as_written() {
    for p in [0u16, 1, 9, 10, 80, 8080, 65535] {
        assert_eq!(parse_port(&port_text(p)), Some(p));
    }
    assert_eq!(port_text(0), "0");
    assert_eq!(port_text(4321), "4321");
}

#[test]
fn recorded_text_is_trimmed_and_checked() {
    assert_eq!(parse_port(" 8080\n"), Some(8080));
    assert_eq!(parse_port("+42"), Some(42));
    assert_eq!(parse_port("007"), Some(7));
    assert_eq!(parse_port("65536"), None);
    assert_eq!(parse_port("99999999999999999999"), None);
    assert_eq!(parse_port("-1"), None);
    assert_eq!(parse_port("+"), None);
    assert_eq!(parse_port(""), None);
    assert_eq!(parse_port("12a"), None);
    assert_eq!(parse_port("1 2"), None);
}

#[test]
fn hex_is_sixteen_lower_case_digits() {
    assert_eq!(hex16(0), "0000000000000000");
    assert_eq!(hex16(0xdead_beef), "00000000deadbeef");
    assert_eq!(hex16(u64::MAX), "ffffffffffffffff");
}

#[test]
fn record_files_are_named_after_the_root_hash() {
    let a = record_file("/state", "/home/u/docs");
    let b = record_file("/state", "/home/u/other");
    assert!(a.starts_with("/state/server-"));
    assert!(a.ends_with(".port"));
    assert_eq!(a.len(), "/state/server-".len() + 16 + ".port".len());
    assert!(!a.contains("docs"));
    assert_ne!(a, b);
    assert_eq!(a, record_file("/state", "/home/u/docs"));
}

#[test]
fn state_dir_prefers_xdg_then_home_then_temp() {
    assert_eq!(state_dir(Some("/x"), Some("/h"), "/tmp"), "/x/madore");
    assert_eq!(state_dir(Some(""), Some("/h"), "/tmp"), "/h/.local/state/madore");
    assert_eq!(state_dir(None, Some("/h/"), "/tmp"), "/h/.local/state/madore");
    assert_eq!(state_dir(None, None, "/tmp"), "/tmp/madore");
    assert_eq!(state_dir(Some(""), Some(""), "/tmp"), "/tmp/madore");
}

#[test]
fn launcher_texts() {
    assert_eq!(server_url(8123), "http://127.0.0.1:8123");
    assert_eq!(log_file("/s", 8123), "/s/server-8123.log");
    assert_eq!(
        server_args("/root dir", 9),
        vec!["/root dir", "--foreground", "--port", "9", "--no-open"]
    );
}

#[test]
fn health_and_shutdown_replies_are_recognised() {
    let body = "HTTP/1.1 200 OK\r\n\r\n{\"app\":\"madore\",\"root\":\"/home/u/docs\"}";
    assert!(health_matches(body, "/home/u/docs"));
    assert!(!health_matches(body, "/home/u/other"));
    assert!(!health_matches("{\"app\":\"other\",\"root\":\"/home/u/docs\"}", "/home/u/docs"));
    assert!(shutdown_accepted("HTTP/1.1 200 OK\r\n\r\nshutting down"));
    assert!(!shutdown_accepted("HTTP/1.1 403 Forbidden\r\n"));
    assert!(!shutdown_accepted(""));
    assert!(!shutdown_accepted("HTTP/1.1 404 Not Found\r\ncontent-length: 200\r\n\r\n"));
    assert!(shutdown_accepted("HTTP/1.0 200 OK"));
    assert!(!shutdown_accepted("HTTP/1.1 20"));
    assert!(!shutdown_accepted("HTTP/2 200 OK"));
}

#[test]
fn wsl_is_told_by_the_kernel_version() {
    assert!(is_wsl_version("Linux version 5.15.90.1-microsoft-standard-WSL2"));
    assert!(is_wsl_version("Linux version 4.4.0-19041-Microsoft"));
    assert!(!is_wsl_version("Linux version 6.8.0-generic"));
}
