use rivet::reconciler::{
    check_node_health, choose_excess, reconcile, replica_plan, select_instances, timestamp,
    Reconciler, ReplicaPlan, Selection, SpecEntry, Step,
};
use rivet::scheduler::Scheduler;
use rivet::spec::{hash_spec, Instance, Spec};
use rivet::state::StateDB;

fn test_nodes() -> Vec<String> {
    vec!["node1".into(), "node2".into()]
}

fn spec(name: &str, replicas: u32) -> Spec {
    Spec {
        name: name.into(),
        kind: "Service".into(),
        replicas,
        image: None,
        command: vec![],
        cpu: None,
        mem: None,
        ports: vec![],
        health_check: None,
        strategy: None,
    }
}

fn spec_json(name: &str, replicas: u32) -> String {
    format!(
        "{{\"name\":\"{}\",\"kind\":\"Service\",\"replicas\":{},\"image\":null,\"command\":[],\"cpu\":null,\"mem\":null,\"ports\":[],\"health_check\":null,\"strategy\":null}}",
        name, replicas
    )
}

fn entry(name: &str, replicas: u32) -> SpecEntry {
    SpecEntry { spec: spec(name, replicas), hash: Ok(hash_spec(&spec_json(name, replicas))) }
}

fn instance(id: &str, spec_name: &str, node: &str, status: &str, hash: &str) -> Instance {
    Instance {
        id: id.into(),
        spec_name: spec_name.into(),
        node: node.into(),
        status: status.into(),
        spec_hash: hash.into(),
        created_at: "0".into(),
    }
}

/// Runs a pass to the end, answering every command with success; returns the record, the
/// action lines and the commands run.
fn run(mut rec: Reconciler) -> (StateDB, Vec<String>, Vec<String>) {
    let mut outcome = None;
    let mut commands = Vec::new();
    loop {
        match rec.step(outcome.take(), 1700000000) {
            Step::Run(cmd) => {
                commands.push(cmd);
                outcome = Some(Ok(true));
            }
            Step::Continue => {}
            Step::Finished => break,
        }
    }
    let (db, actions) = rec.into_parts();
    (db, actions, commands)
}

fn test_db() -> StateDB {
    let mut db = StateDB::new();
    db.register_nodes(&test_nodes());
    db
}

#[test]
fn reconcile_creates_when_below_desired() {
    let db = test_db();
    let specs = vec![entry("test", 2)];

    let (db, actions, commands) = run(reconcile(
        db,
        specs,
        test_nodes(),
        Scheduler::FirstFit,
        "echo create {name} on {node}",
        "echo delete {name}",
        "",
    ));

    assert!(actions.iter().any(|a| a.contains("need 2 more")));
    assert!(actions.iter().any(|a| a.contains("created:")));
    assert_eq!(db.get_instances("test").len(), 2);
    assert_eq!(commands.len(), 2);
    assert!(commands[0].starts_with("echo create test-"));
}

#[test]
fn reconcile_deletes_when_above_desired() {
    let mut db = test_db();
    let e = entry("test", 1);
    let hash = e.hash.clone().unwrap();
    db.insert_instance(&instance("inst-1", "test", "node1", "running", &hash));
    db.insert_instance(&instance("inst-2", "test", "node2", "running", &hash));

    let (db, actions, commands) = run(reconcile(
        db,
        vec![e],
        test_nodes(),
        Scheduler::FirstFit,
        "echo create {name}",
        "echo delete {name}",
        "",
    ));

    assert!(actions.iter().any(|a| a.contains("excess")));
    assert!(actions.iter().any(|a| a.contains("delete:")));
    assert_eq!(db.get_instances("test").len(), 1);
    assert_eq!(commands.len(), 1);
}

#[test]
fn reconcile_no_change_when_at_desired() {
    let mut db = test_db();
    let e = entry("test", 1);
    let hash = e.hash.clone().unwrap();
    db.insert_instance(&instance("inst-1", "test", "node1", "running", &hash));

    let (_db, actions, commands) = run(reconcile(
        db,
        vec![e],
        test_nodes(),
        Scheduler::FirstFit,
        "echo create {name}",
        "echo delete {name}",
        "",
    ));

    assert!(actions.iter().any(|a| a.contains("no change")));
    assert!(commands.is_empty());
}

#[test]
fn garbage_collects_orphaned_instances() {
    let mut db = test_db();
    db.insert_instance(&instance("orphan-1", "deleted-spec", "node1", "running", "abc"));

    let (db, actions, commands) = run(reconcile(
        db,
        vec![],
        test_nodes(),
        Scheduler::FirstFit,
        "echo create {name}",
        "echo delete {name}",
        "",
    ));

    assert!(actions.iter().any(|a| a.contains("orphaned")));
    assert!(actions.iter().any(|a| a.contains("orphan-1")));
    assert!(db.get_all_instances().is_empty());
    assert_eq!(commands, vec!["echo delete orphan-1".to_string()]);
}

#[test]
fn finished_pass_leaves_no_orphans() {
    let mut db = test_db();
    db.insert_instance(&instance("a", "gone", "node1", "running", "x"));
    db.insert_instance(&instance("b", "kept", "node2", "running", "y"));
    db.insert_instance(&instance("c", "gone", "node2", "desired", "x"));

    let (db, _actions, _commands) = run(reconcile(
        db,
        vec![entry("kept", 0)],
        test_nodes(),
        Scheduler::BestFit,
        "echo create {name}",
        "echo delete {name}",
        "",
    ));

    assert!(db.get_all_instances().iter().all(|i| i.spec_name == "kept"));
}

#[test]
fn created_instances_record_node_hash_and_time() {
    let db = test_db();
    let e = entry("web", 1);
    let hash = e.hash.clone().unwrap();
    let (db, _actions, commands) = run(reconcile(
        db,
        vec![e],
        test_nodes(),
        Scheduler::FirstFit,
        "start {name} on {node}",
        "stop {name}",
        "",
    ));
    let insts = db.get_instances("web");
    assert_eq!(insts.len(), 1);
    assert_eq!(insts[0].id, "web-00000000");
    assert_eq!(insts[0].node, "node1");
    assert_eq!(insts[0].spec_hash, hash);
    assert_eq!(insts[0].created_at, "1700000000");
    assert_eq!(commands, vec!["start web-00000000 on node1".to_string()]);
}

#[test]
fn node_health_marks_failed_nodes_down() {
    let db = test_db();
    let mut pass = check_node_health(db, test_nodes(), "ping {node}");
    let mut outcome = None;
    let mut commands = Vec::new();
    loop {
        match pass.step(outcome.take()) {
            Step::Run(cmd) => {
                let ok = cmd.ends_with("node1");
                commands.push(cmd);
                outcome = Some(Ok(ok));
            }
            Step::Continue => {}
            Step::Finished => break,
        }
    }
    let (db, actions) = pass.into_parts();
    assert_eq!(commands, vec!["ping node1".to_string(), "ping node2".to_string()]);
    assert_eq!(actions, vec!["node node2 is down".to_string()]);
    assert_eq!(db.get_up_nodes(), vec!["node1".to_string()]);
}

#[test]
fn node_health_without_command_checks_nothing() {
    let db = test_db();
    let mut pass = check_node_health(db, test_nodes(), "");
    assert!(matches!(pass.step(None), Step::Finished));
    let (db, actions) = pass.into_parts();
    assert!(actions.is_empty());
    assert_eq!(db.get_up_nodes().len(), 2);
}

#[test]
fn timestamp_is_decimal_seconds() {
    assert_eq!(timestamp(0), "0");
    assert_eq!(timestamp(1700000000), "1700000000");
}

#[test]
fn replica_plan_counts() {
    assert_eq!(replica_plan(0, 2), ReplicaPlan::Create(2));
    assert_eq!(replica_plan(3, 1), ReplicaPlan::Delete(2));
    assert_eq!(replica_plan(1, 1), ReplicaPlan::Keep);
    assert_eq!(replica_plan(0, 0), ReplicaPlan::Keep);
}

#[test]
fn excess_prefers_unhealthy() {
    let running = vec![
        instance("a", "s", "n1", "running", "h"),
        instance("b", "s", "n1", "running", "h"),
        instance("c", "s", "n2", "running", "h"),
        instance("d", "s", "n2", "running", "h"),
    ];
    let healthy = vec![true, false, true, false];
    let doomed: Vec<String> = choose_excess(&running, &healthy, 3).into_iter().map(|i| i.id).collect();
    assert_eq!(doomed, vec!["b".to_string(), "d".to_string(), "a".to_string()]);
}

#[test]
fn selections() {
    let v = vec![
        instance("a", "s", "n1", "running", "h1"),
        instance("b", "s", "n1", "desired", "h2"),
        instance("c", "s", "n2", "deleting", "h2"),
        instance("d", "s", "n2", "draining", ""),
    ];
    let ids = |w: Selection, h: &str| -> Vec<String> {
        select_instances(&v, w, h).into_iter().map(|i| i.id).collect()
    };
    assert_eq!(ids(Selection::Live, "h1"), vec!["a", "b"]);
    assert_eq!(ids(Selection::Stale, "h1"), vec!["b"]);
    assert_eq!(ids(Selection::BuiltFrom, "h2"), vec!["b", "c"]);
}

#[test]
fn pass_only_runs_configured_commands() {
    let mut db = test_db();
    db.insert_instance(&instance("old-1", "gone", "node2", "running", "x"));
    let (_db, _actions, commands) = run(reconcile(
        db,
        vec![entry("web", 2)],
        test_nodes(),
        Scheduler::FirstFit,
        "mk {name}@{node}",
        "rm {name}@{node}",
        "",
    ));
    assert!(commands.iter().all(|c| c.starts_with("mk ") || c.starts_with("rm ")));
    assert!(commands.contains(&"rm old-1@node2".to_string()));
}

#[test]
fn pass_registers_configured_nodes() {
    let mut db = StateDB::new();
    db.register_nodes(&["node1".to_string()]);
    db.mark_node_down("node1");
    let (db, _actions, _commands) = run(reconcile(
        db,
        vec![],
        test_nodes(),
        Scheduler::FirstFit,
        "echo create {name}",
        "echo delete {name}",
        "",
    ));
    assert_eq!(db.get_node_status("node1").as_deref(), Some("down"));
    assert_eq!(db.get_node_status("node2").as_deref(), Some("up"));
}

#[test]
fn scale_down_keeps_healthy_when_unhealthy_exist() {
    let mut db = test_db();
    let e = entry("app", 1);
    let hash = e.hash.clone().unwrap();
    db.insert_instance(&instance("app-1", "app", "node1", "running", &hash));
    db.insert_instance(&instance("app-2", "app", "node2", "running", &hash));
    db.insert_instance(&instance("app-3", "app", "node1", "running", &hash));
    let mut rec = reconcile(
        db,
        vec![e],
        test_nodes(),
        Scheduler::FirstFit,
        "echo create {name}",
        "rm {name}",
        "check {name}",
    );
    let mut outcome = None;
    let mut commands = Vec::new();
    loop {
        match rec.step(outcome.take(), 1) {
            Step::Run(cmd) => {
                // app-2 fails its health check; every other command succeeds
                let ok = cmd != "check app-2";
                commands.push(cmd);
                outcome = Some(Ok(ok));
            }
            Step::Continue => {}
            Step::Finished => break,
        }
    }
    let (db, actions) = rec.into_parts();
    assert!(actions.iter().any(|a| a.contains("2 running, 1 excess")));
    assert!(commands.contains(&"rm app-2".to_string()));
    assert_eq!(db.get_instances("app").len(), 2);
}

fn instance_at(id: &str, created_at: &str) -> Instance {
    let mut i = instance(id, "s", "n1", "running", "h");
    i.created_at = created_at.into();
    i
}

#[test]
fn excess_takes_oldest_healthy_first() {
    let running = vec![
        instance_at("a", "300"),
        instance_at("b", "40"),
        instance_at("c", "1000"),
        instance_at("d", "40"),
        instance_at("e", "5"),
    ];
    let healthy = vec![true, true, false, true, true];
    let doomed: Vec<String> = choose_excess(&running, &healthy, 4).into_iter().map(|i| i.id).collect();
    assert_eq!(doomed, vec!["c".to_string(), "e".to_string(), "b".to_string(), "d".to_string()]);
}

#[test]
fn record_shows_changes_during_a_pass() {
    let db = test_db();
    let mut rec = reconcile(db, vec![entry("web", 1)], test_nodes(), Scheduler::FirstFit, "mk {name}", "rm {name}", "");
    let mut outcome = None;
    let mut seen_mid_pass = false;
    loop {
        let step = rec.step(outcome.take(), 7);
        if matches!(step, Step::Continue) && rec.record().get_instances("web").len() == 1 {
            seen_mid_pass = true;
        }
        match step {
            Step::Run(_) => outcome = Some(Ok(true)),
            Step::Continue => {}
            Step::Finished => break,
        }
    }
    assert!(seen_mid_pass);
    assert_eq!(rec.record().get_instances("web")[0].status, "running");
}

#[test]
fn rolling_update_runs_its_course() {
    let mut db = test_db();
    let hash = entry("app", 1).hash.unwrap();
    db.insert_instance(&instance("app-old", "app", "node1", "running", "oldhash"));
    let pass = |db: StateDB| {
        run(reconcile(db, vec![entry("app", 1)], test_nodes(), Scheduler::FirstFit, "create {name}", "delete {name}", ""))
    };

    let (db, actions, commands) = pass(db);
    assert_eq!(actions, vec!["spec 'app' changed (1 old instances), starting rollout".to_string()]);
    assert!(commands.is_empty());
    let r = db.get_rollout("app").unwrap();
    assert_eq!((r.phase.as_str(), r.created_count), ("creating", 0));
    assert_eq!(r.new_hash, hash);

    let (db, actions, commands) = pass(db);
    assert_eq!(actions, vec!["rollout: create 1/1 -> app-00000001 on node2".to_string()]);
    assert_eq!(commands, vec!["create app-00000001".to_string()]);
    assert_eq!(db.get_rollout("app").unwrap().created_count, 1);
    assert_eq!(db.get_instances("app").len(), 2);

    let (db, actions, _) = pass(db);
    assert_eq!(actions, vec!["rollout: 1 instances created, waiting for healthy".to_string()]);
    assert_eq!(db.get_rollout("app").unwrap().phase, "waiting_healthy");

    let (db, actions, _) = pass(db);
    assert_eq!(actions, vec!["rollout: 1 healthy, starting drain of old instances".to_string()]);
    assert_eq!(db.get_rollout("app").unwrap().phase, "draining");

    let (db, actions, commands) = pass(db);
    assert_eq!(actions, vec!["rollout: drain old app-old on node1 -> delete app-old".to_string()]);
    assert_eq!(commands, vec!["delete app-old".to_string()]);
    let ids: Vec<String> = db.get_instances("app").into_iter().map(|i| i.id).collect();
    assert_eq!(ids, vec!["app-00000001".to_string()]);

    // with no old instance left the spec is counted as usual
    let (db, actions, commands) = pass(db);
    assert_eq!(actions, vec!["spec 'app': 1 replicas healthy (no change)".to_string()]);
    assert!(commands.is_empty());
    assert_eq!(db.get_instances("app").len(), 1);
}
