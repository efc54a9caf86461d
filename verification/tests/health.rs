use rivet::health::{http_request, status_line_healthy, HealthChecker};

#[test]
fn http_request_text() {
    assert_eq!(
        http_request("/health", "127.0.0.1"),
        "GET /health HTTP/1.0\r\nHost: 127.0.0.1\r\nConnection: close\r\n\r\n"
    );
}

#[test]
fn status_lines() {
    assert!(status_line_healthy("HTTP/1.0 200 OK\r\n"));
    assert!(status_line_healthy("HTTP/1.1 302 Found\r\n"));
    assert!(!status_line_healthy("HTTP/1.0 500 Internal Server Error\r\n"));
    assert!(!status_line_healthy("HTTP/1.0 404 Not Found"));
    assert!(!status_line_healthy("HTTP/1.0"));
    assert!(!status_line_healthy(""));
    assert!(status_line_healthy("  HTTP/1.0   204\tNo Content"));
}

#[test]
fn constructors() {
    match HealthChecker::tcp(8080) {
        HealthChecker::Tcp { host, port } => {
            assert_eq!(host, "127.0.0.1");
            assert_eq!(port, 8080);
        }
        _ => panic!("not a tcp check"),
    }
    match HealthChecker::http("h".into(), 81, "/p".into()).duplicate() {
        HealthChecker::Http { host, port, path } => {
            assert_eq!((host.as_str(), port, path.as_str()), ("h", 81, "/p"));
        }
        _ => panic!("not an http check"),
    }
    assert!(matches!(HealthChecker::exec("true".into()), HealthChecker::Exec { .. }));
}
