use rivet::plan::{plan_command, plan_step, record_plan_result, PlanAction};
use rivet::reconciler::{reconcile, SpecEntry, Step};
use rivet::scheduler::Scheduler;
use rivet::spec::{hash_spec, Instance, Spec};
use rivet::state::StateDB;

fn spec(name: &str, replicas: u32) -> Spec {
    Spec {
        name: name.into(),
        kind: "Service".into(),
        replicas,
        image: None,
        command: vec![],
        cpu: None,
        mem: None,
        ports: vec![],
        health_check: None,
        strategy: None,
    }
}

fn entry(name: &str, replicas: u32) -> SpecEntry {
    SpecEntry { spec: spec(name, replicas), hash: Ok(hash_spec(&format!("{}:{}", name, replicas))) }
}

fn describe(a: &PlanAction) -> String {
    match a {
        PlanAction::Notify { message } => format!("Notify {}", message),
        PlanAction::Create { instance_id, node, cmd } => format!("Create {} {} {}", instance_id, node, cmd),
        PlanAction::Delete { instance_id, node, cmd } => format!("Delete {} {} {}", instance_id, node, cmd),
    }
}

fn plan_of(db: StateDB, specs: Vec<SpecEntry>, nodes: Vec<String>, create: &str, delete: &str) -> Vec<String> {
    let mut pass = reconcile(db, specs, nodes, Scheduler::FirstFit, create, delete, "");
    let mut plan = Vec::new();
    loop {
        let (step, entries) = plan_step(&mut pass, 5);
        plan.extend(entries.iter().map(describe));
        if matches!(step, Step::Finished) {
            break;
        }
    }
    plan
}

#[test]
fn plan_lists_creates_as_documented() {
    let plan = plan_of(
        StateDB::new(),
        vec![entry("frontend", 2)],
        vec!["node1".into(), "node2".into()],
        "ssh {node} systemctl start podlet@{name}",
        "ssh {node} systemctl stop podlet@{name}",
    );
    assert_eq!(
        plan,
        vec![
            "Notify spec 'frontend': 0 healthy, need 2 more".to_string(),
            "Create frontend-00000000 node1 ssh node1 systemctl start podlet@frontend-00000000".to_string(),
            "Create frontend-00000001 node2 ssh node2 systemctl start podlet@frontend-00000001".to_string(),
        ]
    );
}

#[test]
fn plan_lists_garbage_collection_and_deletes() {
    let mut db = StateDB::new();
    db.register_nodes(&["n1".to_string()]);
    db.insert_instance(&Instance {
        id: "old-1".into(),
        spec_name: "gone".into(),
        node: "n1".into(),
        status: "running".into(),
        spec_hash: "x".into(),
        created_at: "0".into(),
    });
    let plan = plan_of(db, vec![], vec!["n1".into()], "mk {name}", "rm {name}");
    assert_eq!(
        plan,
        vec![
            "Notify gc: spec 'gone' removed, cleaning up 1 orphaned instances".to_string(),
            "Delete old-1 n1 rm old-1".to_string(),
        ]
    );
}

#[test]
fn carrying_out_plan_entries() {
    let mut db = StateDB::new();
    let create = PlanAction::Create { instance_id: "web-0000000a".into(), node: "n2".into(), cmd: "mk".into() };
    assert_eq!(plan_command(&create).as_deref(), Some("mk"));
    assert_eq!(create.message(), "create: web-0000000a on n2 -> mk");
    assert!(record_plan_result(&mut db, &create, Ok(true), 1700000000).is_ok());
    let got = db.get_instances("web");
    assert_eq!(got.len(), 1);
    assert_eq!((got[0].id.as_str(), got[0].node.as_str(), got[0].status.as_str()), ("web-0000000a", "n2", "running"));
    assert_eq!(got[0].created_at, "1700000000");

    assert_eq!(record_plan_result(&mut db, &create, Ok(false), 1).unwrap_err(), "create failed: web-0000000a");
    assert_eq!(record_plan_result(&mut db, &create, Err("boom".into()), 1).unwrap_err(), "create error: boom");

    let delete = PlanAction::Delete { instance_id: "web-0000000a".into(), node: "n2".into(), cmd: "rm".into() };
    assert_eq!(
        record_plan_result(&mut db, &delete, Err("gone".into()), 1).unwrap_err(),
        "delete command error for web-0000000a: gone"
    );
    assert!(db.get_instances("web").is_empty());

    let note = PlanAction::Notify { message: "hello".into() };
    assert!(plan_command(&note).is_none());
    assert!(record_plan_result(&mut db, &note, Ok(true), 1).is_ok());
}
