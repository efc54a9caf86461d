use rivet::health::HealthChecker;
use rivet::podlet::{
    allocate_ports, build_health_check, is_workload_type, launch_plan, mem_bytes_fit, missing_host_ports, next_restart,
    parse_check_port, parse_http_check, parse_mem_bytes, parse_port, parse_restart_policy,
    port_map_to_json, split_duration, DurationUnit, Health, PodState, PortMapping, RestartDecision,
    RestartPolicy, Status,
};

fn pm(c: u16, h: Option<u16>) -> PortMapping {
    PortMapping { container_port: c, host_port: h }
}

#[test]
fn port_arguments() {
    assert_eq!(parse_port("8080"), Ok(pm(8080, None)));
    assert_eq!(parse_port("8443:9443"), Ok(pm(8443, Some(9443))));
    assert_eq!(parse_port("80:"), Ok(pm(80, None)));
    assert_eq!(parse_port("x:1"), Err("invalid container port: x".to_string()));
    assert_eq!(parse_port("80:y"), Err("invalid host port: y".to_string()));
    assert_eq!(parse_port("80:1:2"), Err("invalid host port: 1:2".to_string()));
    assert_eq!(parse_port("70000"), Err("invalid container port: 70000".to_string()));
    assert_eq!(parse_port(""), Err("invalid container port: ".to_string()));
    assert_eq!(parse_port("+80"), Ok(pm(80, None)));
}

#[test]
fn tcp_check_port() {
    assert_eq!(parse_check_port(":8080"), Ok(8080));
    assert_eq!(parse_check_port(" ::19999 "), Ok(19999));
    assert_eq!(parse_check_port("8080"), Ok(8080));
    assert_eq!(parse_check_port(":x"), Err("invalid port: x".to_string()));
}

#[test]
fn http_check_values() {
    assert_eq!(
        parse_http_check(":8080"),
        Ok(("127.0.0.1".to_string(), 8080, "/".to_string()))
    );
    assert_eq!(
        parse_http_check(":8080/health"),
        Ok(("127.0.0.1".to_string(), 8080, "/health".to_string()))
    );
    assert_eq!(
        parse_http_check("http://example.com:81/a/b"),
        Ok(("example.com".to_string(), 81, "/a/b".to_string()))
    );
    assert_eq!(
        parse_http_check("http://example.com"),
        Ok(("example.com".to_string(), 80, "/".to_string()))
    );
    assert_eq!(parse_http_check(":abc"), Err("invalid port: :abc".to_string()));
    assert_eq!(parse_http_check("http://h:p/x"), Err("invalid port: p".to_string()));
    assert_eq!(
        parse_http_check("/health"),
        Err("http-check must start with ':' or 'http://', got '/health'".to_string())
    );
}

#[test]
fn duration_arguments() {
    assert_eq!(split_duration("500ms"), Ok(("500".to_string(), DurationUnit::Millis)));
    assert_eq!(split_duration(" 30s "), Ok(("30".to_string(), DurationUnit::Seconds)));
    assert_eq!(split_duration("1.5 m"), Ok(("1.5".to_string(), DurationUnit::Minutes)));
    assert_eq!(split_duration("2h"), Ok(("2".to_string(), DurationUnit::Hours)));
    assert_eq!(split_duration("  "), Err("empty duration".to_string()));
    assert_eq!(
        split_duration("10x"),
        Err("unknown duration unit in '10x', expected ms/s/m/h".to_string())
    );
}

#[test]
fn memory_sizes() {
    assert_eq!(parse_mem_bytes("64Mi"), Ok(64 * 1024 * 1024));
    assert_eq!(parse_mem_bytes("1G"), Ok(1_000_000_000));
    assert_eq!(parse_mem_bytes("2Ki"), Ok(2048));
    assert_eq!(parse_mem_bytes("3K"), Ok(3000));
    assert_eq!(parse_mem_bytes("5M"), Ok(5_000_000));
    assert_eq!(parse_mem_bytes(" 4096 "), Ok(4096));
    assert_eq!(parse_mem_bytes("1 Gi"), Ok(1 << 30));
    assert_eq!(parse_mem_bytes(""), Err("empty memory value".to_string()));
    assert_eq!(parse_mem_bytes("abcMi"), Err("invalid memory number: 'abc'".to_string()));
    assert_eq!(parse_mem_bytes("1.5G"), Err("invalid memory number: '1.5'".to_string()));
    assert!(mem_bytes_fit("64Mi"));
    assert!(!mem_bytes_fit("18446744073709551615Ki"));
    assert!(mem_bytes_fit("18446744073709551615"));
    assert!(mem_bytes_fit("oops"));
}

#[test]
fn host_ports_are_assigned_in_order() {
    let ms = vec![pm(80, Some(8080)), pm(3000, None), pm(443, None)];
    assert_eq!(missing_host_ports(&ms), 2);
    let assigned = allocate_ports(&ms, &vec![40001, 40002]);
    assert_eq!(
        assigned,
        vec![(pm(80, Some(8080)), 8080), (pm(3000, None), 40001), (pm(443, None), 40002)]
    );
}

#[test]
fn port_map_uses_decimal_text_and_last_wins() {
    let ports = vec![(pm(80, None), 32771), (pm(443, None), 9443), (pm(80, None), 32772)];
    assert_eq!(
        port_map_to_json(&ports),
        vec![("80".to_string(), "32772".to_string()), ("443".to_string(), "9443".to_string())]
    );
    assert!(port_map_to_json(&vec![]).is_empty());
}

#[test]
fn restart_policies() {
    assert_eq!(parse_restart_policy(None), Ok(RestartPolicy::Never));
    assert_eq!(parse_restart_policy(Some("never")), Ok(RestartPolicy::Never));
    assert_eq!(parse_restart_policy(Some("always")), Ok(RestartPolicy::Always));
    assert_eq!(parse_restart_policy(Some("on-failure")), Ok(RestartPolicy::OnFailure));
    assert_eq!(
        parse_restart_policy(Some("sometimes")),
        Err("invalid --restart value 'sometimes'".to_string())
    );
    assert!(RestartPolicy::Always.should_restart(0));
    assert!(RestartPolicy::OnFailure.should_restart(1));
    assert!(!RestartPolicy::OnFailure.should_restart(0));
    assert!(!RestartPolicy::Never.should_restart(1));
}

#[test]
fn restart_limit_gives_up() {
    // on-failure with max 2: two restarts, then give up
    let p = RestartPolicy::OnFailure;
    let mut restarts = 0u32;
    let mut attempts = Vec::new();
    loop {
        match next_restart(p, 1, restarts, 2) {
            RestartDecision::Restart(n) => {
                attempts.push(n);
                restarts = n;
            }
            other => {
                assert_eq!(other, RestartDecision::GiveUp);
                break;
            }
        }
    }
    assert_eq!(attempts, vec![1, 2]);
    assert_eq!(next_restart(RestartPolicy::Never, 1, 0, 10), RestartDecision::Stop);
    assert_eq!(next_restart(RestartPolicy::OnFailure, 0, 0, 10), RestartDecision::Stop);
    assert_eq!(next_restart(RestartPolicy::Always, 0, 0, 0), RestartDecision::GiveUp);
}

#[test]
fn lifecycle_states() {
    let mut st = PodState::starting(vec![("80".to_string(), "32771".to_string())]);
    assert_eq!(st.status, Status::Starting);
    assert_eq!(st.status.word(), "starting");
    assert_eq!(st.pid, None);
    st.run(1234);
    assert_eq!(st.status.word(), "running");
    assert_eq!(st.pid, Some(1234));
    assert_eq!(st.health.word(), "unknown");
    assert!(st.observe_health(true));
    assert_eq!(st.health, Health::Healthy);
    assert!(!st.observe_health(true));
    assert!(st.observe_health(false));
    assert_eq!(st.health.word(), "unhealthy");
    st.drain();
    assert_eq!(st.status.word(), "draining");
    assert_eq!(st.pid, Some(1234));
    st.stop();
    assert_eq!(st.status.word(), "stopped");
    assert_eq!(st.pid, None);
    assert_eq!(st.health, Health::Unknown);
    st.exit();
    assert_eq!(st.status.word(), "exited");
    assert_eq!(st.ports.len(), 1);
}

#[test]
fn workload_types() {
    assert!(is_workload_type("process"));
    assert!(is_workload_type("container"));
    assert!(is_workload_type("vm"));
    assert!(!is_workload_type("pod"));
}

#[test]
fn launch_plans() {
    let cmd = vec!["sleep".to_string(), "10".to_string()];
    let p = launch_plan("process", &cmd, &vec![], "x").unwrap();
    assert_eq!(p.program, "sleep");
    assert_eq!(p.args, vec!["10".to_string()]);

    let ports = vec![(pm(80, Some(8080)), 8080), (pm(443, None), 40001)];
    let img = vec!["docker.io/nginx:alpine".to_string()];
    let p = launch_plan("container", &img, &ports, "web").unwrap();
    assert_eq!(p.program, "podman");
    assert_eq!(
        p.args,
        vec!["run", "--name", "web", "--rm", "-p", "8080:80", "-p", "40001:443", "docker.io/nginx:alpine"]
    );

    let p = launch_plan("vm", &cmd, &vec![], "v").unwrap();
    assert_eq!(p.program, "qemu-system-x86_64");
    assert_eq!(p.args, cmd);

    assert_eq!(launch_plan("process", &vec![], &vec![], "x").unwrap_err(), "no command provided");
    assert_eq!(launch_plan("container", &vec![], &vec![], "x").unwrap_err(), "no container image specified");
    assert_eq!(launch_plan("vm", &vec![], &vec![], "x").unwrap_err(), "no qemu arguments provided");
    assert_eq!(launch_plan("pod", &cmd, &vec![], "x").unwrap_err(), "unknown workload type: pod");
}

#[test]
fn health_check_options() {
    match build_health_check(Some(":8080"), Some(":9090"), None).unwrap() {
        Some(HealthChecker::Tcp { host, port }) => {
            assert_eq!(host, "127.0.0.1");
            assert_eq!(port, 8080);
        }
        _ => panic!("tcp check expected"),
    }
    match build_health_check(None, Some(":9090/ready"), Some("true")).unwrap() {
        Some(HealthChecker::Http { port, path, .. }) => {
            assert_eq!(port, 9090);
            assert_eq!(path, "/ready");
        }
        _ => panic!("http check expected"),
    }
    assert!(matches!(
        build_health_check(None, None, Some("pgrep x")).unwrap(),
        Some(HealthChecker::Exec { .. })
    ));
    assert!(build_health_check(None, None, None).unwrap().is_none());
    assert_eq!(
        build_health_check(Some("x"), None, None).unwrap_err(),
        "invalid tcp-check port: invalid port: x"
    );
    assert_eq!(
        build_health_check(None, Some("/h"), None).unwrap_err(),
        "invalid http-check: http-check must start with ':' or 'http://', got '/h'"
    );
}
