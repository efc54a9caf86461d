use rivet::scheduler::{loads_for_nodes, schedule, Scheduler};

fn nodes() -> Vec<String> {
    vec!["node1".into(), "node2".into(), "node3".into()]
}

#[test]
fn first_fit_picks_least_loaded() {
    let loads = vec![
        ("node1".into(), 5u32),
        ("node2".into(), 2u32),
        ("node3".into(), 4u32),
    ];

    let result = schedule(&Scheduler::FirstFit, &nodes(), &loads, "test", 0).unwrap();
    assert_eq!(result.node, "node2");
}

#[test]
fn best_fit_picks_least_loaded() {
    let loads = vec![
        ("node1".into(), 5u32),
        ("node2".into(), 2u32),
        ("node3".into(), 4u32),
    ];

    let result = schedule(&Scheduler::BestFit, &nodes(), &loads, "test", 0).unwrap();
    assert_eq!(result.node, "node2");
}

#[test]
fn returns_none_for_empty_nodes() {
    let loads = vec![];
    let result = schedule(&Scheduler::FirstFit, &[], &loads, "test", 0);
    assert!(result.is_none());
}

#[test]
fn first_fit_breaks_ties_by_index() {
    let loads = vec![
        ("node1".into(), 3u32),
        ("node2".into(), 3u32),
        ("node3".into(), 3u32),
    ];

    let result = schedule(&Scheduler::FirstFit, &nodes(), &loads, "test", 0).unwrap();
    assert_eq!(result.node, "node1");
}

#[test]
fn instance_id_is_spec_name_and_eight_hex_digits() {
    let loads: Vec<(String, u32)> = vec![];
    let r = schedule(&Scheduler::FirstFit, &nodes(), &loads, "web", 0).unwrap();
    assert_eq!(r.instance_id, "web-00000000");
    let r = schedule(&Scheduler::BestFit, &nodes(), &loads, "api", 7).unwrap();
    assert_eq!(r.instance_id, "api-00000007");
    let r = schedule(&Scheduler::BestFit, &nodes(), &loads, "x", 255).unwrap();
    assert_eq!(r.instance_id, "x-000000ff");
    let r = schedule(&Scheduler::BestFit, &nodes(), &loads, "x", u32::MAX).unwrap();
    assert_eq!(r.instance_id, "x-ffffffff");
}

#[test]
fn unlisted_nodes_have_no_load() {
    let ns: Vec<String> = vec!["a".into(), "b".into(), "c".into()];
    let loads = vec![("b".to_string(), 10u32)];
    let r = schedule(&Scheduler::FirstFit, &ns, &loads, "svc", 0).unwrap();
    assert_eq!(r.node, "a");
}

#[test]
fn later_load_entry_wins() {
    let ns: Vec<String> = vec!["a".into(), "b".into()];
    let loads = vec![("a".to_string(), 0u32), ("b".to_string(), 1u32), ("a".to_string(), 5u32)];
    let r = schedule(&Scheduler::BestFit, &ns, &loads, "svc", 0).unwrap();
    assert_eq!(r.node, "b");
}

#[test]
fn loads_for_nodes_defaults_to_zero() {
    let ns: Vec<String> = vec!["n1".into(), "n2".into(), "n3".into()];
    let loads = vec![("n2".to_string(), 4u32), ("other".to_string(), 9u32)];
    let table = loads_for_nodes(&ns, &loads);
    assert_eq!(
        table,
        vec![("n1".to_string(), 0u32), ("n2".to_string(), 4u32), ("n3".to_string(), 0u32)]
    );
}

#[test]
fn parses_scheduler_names() {
    assert_eq!(Scheduler::from_str("first-fit"), Ok(Scheduler::FirstFit));
    assert_eq!(Scheduler::from_str("best-fit"), Ok(Scheduler::BestFit));
    assert_eq!(
        Scheduler::from_str("round-robin"),
        Err("unknown scheduler 'round-robin', expected 'first-fit' or 'best-fit'".to_string())
    );
}

#[test]
fn schedule_from_input_scenarios() {
    let ns: Vec<String> = vec!["n1".into(), "n2".into()];
    let loads = vec![("n1".to_string(), 0u32), ("n2".to_string(), 1u32)];
    let r = schedule(&Scheduler::FirstFit, &ns, &loads, "svc", 0).unwrap();
    assert_eq!(r.node, "n1");
    assert_eq!(r.instance_id, "svc-00000000");
}
