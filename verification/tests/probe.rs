use rivet::health::HealthChecker;
use rivet::probe::{build_checker, status_text, Target};

fn target(name: &str, kind: &str) -> Target {
    Target {
        name: name.into(),
        check_type: kind.into(),
        host: None,
        port: None,
        path: None,
        command: None,
    }
}

#[test]
fn tcp_target_defaults_host() {
    let mut t = target("dead", "tcp");
    t.port = Some(19);
    match build_checker(&t).unwrap() {
        HealthChecker::Tcp { host, port } => {
            assert_eq!(host, "127.0.0.1");
            assert_eq!(port, 19);
        }
        _ => panic!("wrong check"),
    }
    t.port = None;
    assert_eq!(build_checker(&t).unwrap_err(), "target 'dead': tcp check requires port");
}

#[test]
fn http_target_defaults_path() {
    let mut t = target("web", "http");
    t.port = Some(80);
    t.host = Some("example.com".into());
    match build_checker(&t).unwrap() {
        HealthChecker::Http { host, port, path } => {
            assert_eq!((host.as_str(), port, path.as_str()), ("example.com", 80, "/"));
        }
        _ => panic!("wrong check"),
    }
    t.port = None;
    assert_eq!(build_checker(&t).unwrap_err(), "target 'web': http check requires port");
}

#[test]
fn exec_target_needs_command() {
    let mut t = target("test", "exec");
    assert_eq!(build_checker(&t).unwrap_err(), "target 'test': exec check requires command");
    t.command = Some("true".into());
    match build_checker(&t).unwrap() {
        HealthChecker::Exec { command } => assert_eq!(command, "true"),
        _ => panic!("wrong check"),
    }
}

#[test]
fn rejects_unknown_check_type() {
    let mut t = target("bad", "grpc");
    t.port = Some(50051);
    assert_eq!(
        build_checker(&t).unwrap_err(),
        "target 'bad': unknown check type 'grpc' (expected tcp, http, or exec)"
    );
}

#[test]
fn text_format_lines() {
    assert_eq!(status_text("check", true, 3), "check UP 3ms");
    assert_eq!(status_text("dead", false, 2000), "dead DOWN 2000ms");
}
