use rivet::spec::{Instance, Rollout};
use rivet::state::StateDB;

fn test_db() -> StateDB {
    StateDB::new()
}

fn test_instance(name: &str, node: &str, status: &str) -> Instance {
    Instance {
        id: name.into(),
        spec_name: "test-spec".into(),
        node: node.into(),
        status: status.into(),
        spec_hash: "abc123".into(),
        created_at: "2024-01-01T00:00:00Z".into(),
    }
}

#[test]
fn insert_and_retrieve_instance() {
    let mut db = test_db();
    let inst = test_instance("inst-1", "node1", "running");
    db.insert_instance(&inst);

    let instances = db.get_instances("test-spec");
    assert_eq!(instances.len(), 1);
    assert_eq!(instances[0].id, "inst-1");
}

#[test]
fn update_instance_status() {
    let mut db = test_db();
    let inst = test_instance("inst-2", "node1", "desired");
    db.insert_instance(&inst);
    db.update_instance_status("inst-2", "running");

    let instances = db.get_instances("test-spec");
    assert_eq!(instances[0].status, "running");
}

#[test]
fn delete_instance() {
    let mut db = test_db();
    let inst = test_instance("inst-3", "node1", "running");
    db.insert_instance(&inst);
    db.delete_instance("inst-3");

    let instances = db.get_instances("test-spec");
    assert!(instances.is_empty());
}

#[test]
fn node_management() {
    let mut db = test_db();
    db.register_nodes(&["node1".into(), "node2".into()]);

    let nodes = db.get_up_nodes();
    assert_eq!(nodes.len(), 2);

    db.mark_node_down("node1");
    let up = db.get_up_nodes();
    assert_eq!(up.len(), 1);
    assert_eq!(up[0], "node2");

    db.mark_node_up("node1");
    let up = db.get_up_nodes();
    assert_eq!(up.len(), 2);
}

#[test]
fn instance_count_per_node() {
    let mut db = test_db();
    db.insert_instance(&test_instance("a", "node1", "running"));
    db.insert_instance(&test_instance("b", "node1", "desired"));
    db.insert_instance(&test_instance("c", "node2", "running"));

    assert_eq!(db.instance_count_on_node("node1").unwrap(), 2);
    assert_eq!(db.instance_count_on_node("node2").unwrap(), 1);
}

#[test]
fn rollout_lifecycle() {
    let mut db = test_db();
    let rollout = Rollout::new("test-spec", "abc123");
    db.insert_rollout(&rollout);

    let fetched = db.get_rollout("test-spec").unwrap();
    assert_eq!(fetched.phase, "creating");
    assert_eq!(fetched.created_count, 0);

    db.increment_rollout_count("test-spec");
    let fetched = db.get_rollout("test-spec").unwrap();
    assert_eq!(fetched.created_count, 1);

    db.update_rollout_phase("test-spec", "waiting_healthy");
    let fetched = db.get_rollout("test-spec").unwrap();
    assert_eq!(fetched.phase, "waiting_healthy");

    db.delete_rollout("test-spec");
    assert!(db.get_rollout("test-spec").is_none());
}

#[test]
fn rewriting_an_instance_replaces_it_and_moves_it_last() {
    let mut db = test_db();
    db.insert_instance(&test_instance("a", "node1", "running"));
    db.insert_instance(&test_instance("b", "node1", "running"));
    db.insert_instance(&test_instance("a", "node2", "desired"));
    let all = db.get_all_instances();
    assert_eq!(all.len(), 2);
    assert_eq!(all[0].id, "b");
    assert_eq!(all[1].id, "a");
    assert_eq!(all[1].node, "node2");
    assert_eq!(all[1].status, "desired");
}

#[test]
fn deleting_instances_are_not_counted() {
    let mut db = test_db();
    db.insert_instance(&test_instance("a", "node1", "running"));
    db.insert_instance(&test_instance("b", "node1", "deleting"));
    assert_eq!(db.instance_count_on_node("node1"), Some(1));
    assert_eq!(db.instance_count_on_node("node9"), Some(0));
}

#[test]
fn registering_keeps_known_node_status() {
    let mut db = test_db();
    db.register_nodes(&["node1".into()]);
    db.mark_node_down("node1");
    db.register_nodes(&["node1".into(), "node2".into()]);
    assert_eq!(db.get_node_status("node1").as_deref(), Some("down"));
    assert_eq!(db.get_node_status("node2").as_deref(), Some("up"));
    assert_eq!(db.get_node_status("node3"), None);
    assert_eq!(db.load_nodes(), vec!["node1".to_string(), "node2".to_string()]);
    assert_eq!(db.get_up_nodes(), vec!["node2".to_string()]);
}

#[test]
fn instance_hash_update_reads_back() {
    let mut db = test_db();
    db.insert_instance(&test_instance("a", "node1", "running"));
    db.update_instance_hash("a", "def456");
    assert_eq!(db.get_instances("test-spec")[0].spec_hash, "def456");
    assert!(db.get_instances("other").is_empty());
}

#[test]
fn replacing_a_rollout_keeps_one_per_spec() {
    let mut db = test_db();
    db.insert_rollout(&Rollout::new("s", "h1"));
    db.insert_rollout(&Rollout::new("t", "h2"));
    db.insert_rollout(&Rollout::new("s", "h3"));
    assert_eq!(db.all_rollouts().len(), 2);
    assert_eq!(db.get_rollout("s").unwrap().new_hash, "h3");
    assert_eq!(db.get_rollout("t").unwrap().new_hash, "h2");
}
