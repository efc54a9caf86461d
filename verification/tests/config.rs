use rivet::config::{accepts_spec_file, collect_specs, load_nodes, parse_nodes};
use rivet::spec::Spec;

#[test]
fn nodes_file_lines_are_trimmed_and_filtered() {
    let nodes = parse_nodes("node1\n  node2  \n\n# comment\n node3\r\n");
    assert_eq!(nodes, vec!["node1".to_string(), "node2".to_string(), "node3".to_string()]);
}

#[test]
fn without_nodes_file_localhost_is_used() {
    assert_eq!(load_nodes(None), vec!["localhost".to_string()]);
    assert!(load_nodes(Some("")).is_empty());
    assert_eq!(load_nodes(Some("a\nb")), vec!["a".to_string(), "b".to_string()]);
}

#[test]
fn spec_file_names() {
    assert!(accepts_spec_file("app.yaml"));
    assert!(accepts_spec_file("app.yml"));
    assert!(accepts_spec_file("a.b.yaml"));
    assert!(!accepts_spec_file(".hidden.yaml"));
    assert!(!accepts_spec_file("app.yaml~"));
    assert!(!accepts_spec_file("app.yaml.swp"));
    assert!(!accepts_spec_file("app.yaml.bak"));
    assert!(!accepts_spec_file("app.json"));
    assert!(!accepts_spec_file("yaml"));
    assert!(!accepts_spec_file("README"));
}

fn spec(name: &str, replicas: u32) -> Spec {
    Spec {
        name: name.into(),
        kind: "Service".into(),
        replicas,
        image: None,
        command: vec![],
        cpu: None,
        mem: None,
        ports: vec![],
        health_check: None,
        strategy: None,
    }
}

#[test]
fn specs_are_keyed_by_name() {
    let specs = vec![spec("web", 1), spec("api", 2), spec("web", 3), spec("db", 1)];
    let keyed = collect_specs(specs);
    let names: Vec<&str> = keyed.iter().map(|s| s.name.as_str()).collect();
    assert_eq!(names, vec!["api", "db", "web"]);
    assert_eq!(keyed[2].replicas, 3);
    assert!(collect_specs(vec![]).is_empty());
}
