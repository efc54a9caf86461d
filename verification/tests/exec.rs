use rivet::exec::substitute;

#[test]
fn substitutes_placeholders() {
    let result = substitute("ssh {node} start {name}", "frontend", "node1");
    assert_eq!(result, "ssh node1 start frontend");
}

#[test]
fn handles_multiple_placeholders() {
    let result = substitute("{node}:{name}:{node}", "app", "host1");
    assert_eq!(result, "host1:app:host1");
}

#[test]
fn substitute_leaves_other_text_alone() {
    assert_eq!(substitute("echo {other}", "a", "b"), "echo {other}");
    assert_eq!(substitute("", "a", "b"), "");
}

#[test]
fn substitute_name_before_node() {
    // the name is replaced first, so a name that itself reads `{node}` is replaced again
    assert_eq!(substitute("{name}", "{node}", "n1"), "n1");
}
