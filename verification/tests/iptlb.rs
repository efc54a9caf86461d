use rivet::iptlb::{build_rules, chain_name, hash_backends, join_words, parse_backends, RuleManager, RuleStep};

#[test]
fn chain_name_replaces_dots_and_colons() {
    assert_eq!(chain_name("10.0.0.1"), "IPTLB-10-0-0-1");
    assert_eq!(chain_name("192.168.1.1"), "IPTLB-192-168-1-1");
}

#[test]
fn chain_name_replaces_ipv6_colons() {
    assert_eq!(chain_name("fe80::1"), "IPTLB-fe80--1");
}

#[test]
fn empty_backends_produces_no_rules() {
    let rules = build_rules("10.0.0.1", 80, "TEST", &[]).unwrap();
    assert!(rules.is_empty());
}

#[test]
fn single_backend_generates_one_rule() {
    let backends: Vec<String> = vec!["10.0.0.2:8080".to_string()];
    let rules = build_rules("10.0.0.1", 80, "TEST", &backends).unwrap();
    assert_eq!(rules.len(), 1);

    let cmd = join_words(&rules[0]);
    assert!(cmd.contains("-j DNAT"));
    assert!(cmd.contains("10.0.0.2:8080"));
    assert!(cmd.contains("--every 1"));
    assert!(cmd.contains("--packet 0"));
}

#[test]
fn multiple_backends_generate_correct_nth_rules() {
    let backends: Vec<String> = vec![
        "10.0.0.2:8080".to_string(),
        "10.0.0.3:8080".to_string(),
        "10.0.0.4:8080".to_string(),
    ];
    let rules = build_rules("10.0.0.1", 80, "TEST", &backends).unwrap();
    assert_eq!(rules.len(), 3);

    let cmd0 = join_words(&rules[0]);
    assert!(cmd0.contains("--every 3"));
    assert!(cmd0.contains("--packet 0"));
    assert!(cmd0.contains("10.0.0.2:8080"));

    let cmd1 = join_words(&rules[1]);
    assert!(cmd1.contains("--every 3"));
    assert!(cmd1.contains("--packet 1"));
    assert!(cmd1.contains("10.0.0.3:8080"));

    let cmd2 = join_words(&rules[2]);
    assert!(cmd2.contains("--every 3"));
    assert!(cmd2.contains("--packet 2"));
    assert!(cmd2.contains("10.0.0.4:8080"));
}

#[test]
fn rule_has_exact_iptables_arguments() {
    let backends: Vec<String> = vec!["10.0.0.2:8080".to_string(), "10.0.0.3:80".to_string()];
    let rules = build_rules("10.0.0.1", 443, "IPTLB-10-0-0-1", &backends).unwrap();
    assert_eq!(
        join_words(&rules[1]),
        "-t nat -A IPTLB-10-0-0-1 -d 10.0.0.1 -p tcp --dport 443 -m statistic --mode nth --every 2 --packet 1 -j DNAT --to-destination 10.0.0.3:80"
    );
}

#[test]
fn rule_manager_arguments() {
    let m = RuleManager::new();
    assert_eq!(m.list_chain_args("C"), vec!["-t", "nat", "-L", "C"]);
    assert_eq!(m.new_chain_args("C"), vec!["-t", "nat", "-N", "C"]);
    assert_eq!(m.flush_args("C"), vec!["-t", "nat", "-F", "C"]);
    assert_eq!(
        m.jump_rule_args(false, "10.0.0.1", 80, "C"),
        vec!["-t", "nat", "-C", "PREROUTING", "-d", "10.0.0.1", "-p", "tcp", "--dport", "80", "-j", "C"]
    );
    assert_eq!(m.jump_rule_args(true, "10.0.0.1", 80, "C")[2], "-A");
}

#[test]
fn join_words_single_and_empty() {
    assert_eq!(join_words(&[]), "");
    assert_eq!(join_words(&["a".to_string()]), "a");
    assert_eq!(join_words(&["a".to_string(), "b".to_string()]), "a b");
}

#[test]
fn parses_simple_backends() {
    let backends = parse_backends("10.0.0.1:8080\n10.0.0.2:8080\n");
    assert_eq!(backends.len(), 2);
    assert_eq!(backends[0].address, "10.0.0.1:8080");
    assert_eq!(backends[1].address, "10.0.0.2:8080");
    assert_eq!(backends[0].line, 1);
    assert_eq!(backends[1].line, 2);
}

#[test]
fn ignores_comments_and_blanks() {
    let backends = parse_backends(
        "# this is a comment\n\n10.0.0.1:8080\n  # another comment\n10.0.0.2:9090\n",
    );
    assert_eq!(backends.len(), 2);
    assert_eq!(backends[0].address, "10.0.0.1:8080");
    assert_eq!(backends[0].line, 3);
    assert_eq!(backends[1].address, "10.0.0.2:9090");
    assert_eq!(backends[1].line, 5);
}

#[test]
fn defaults_port_80() {
    let backends = parse_backends("10.0.0.1\n");
    assert_eq!(backends.len(), 1);
    assert_eq!(backends[0].with_default_port, "10.0.0.1:80");
}

#[test]
fn empty_file_yields_empty_vec() {
    let backends = parse_backends("");
    assert!(backends.is_empty());
}

#[test]
fn trailing_comment_is_removed() {
    let backends = parse_backends("10.0.0.5:8080   # primary\r\n");
    assert_eq!(backends.len(), 1);
    assert_eq!(backends[0].address, "10.0.0.5:8080");
}

#[test]
fn backend_hash_detects_changes() {
    let a = vec!["10.0.0.1:80".to_string(), "10.0.0.2:80".to_string()];
    let b = vec!["10.0.0.1:80".to_string(), "10.0.0.3:80".to_string()];
    let c = vec!["10.0.0.1:8".to_string(), "010.0.0.2:80".to_string()];
    assert_eq!(hash_backends(&a), hash_backends(&a.clone()));
    assert_ne!(hash_backends(&a), hash_backends(&b));
    assert_ne!(hash_backends(&a), hash_backends(&c));
    assert!(hash_backends(&a).chars().all(|ch| ch.is_ascii_hexdigit()));
}

fn strs(v: &[&str]) -> Vec<String> {
    v.iter().map(|s| s.to_string()).collect()
}

fn run_args(step: RuleStep) -> (Vec<String>, bool) {
    match step {
        RuleStep::Run(a, q) => (a, q),
        other => panic!("expected a run, got {:?}", other),
    }
}

fn failure(step: RuleStep) -> String {
    match step {
        RuleStep::Failed(m) => m,
        other => panic!("expected a failure, got {:?}", other),
    }
}

#[test]
fn ensure_chain_lists_then_creates() {
    let m = RuleManager::new();
    let mut inst = m.ensure_chain("IPTLB-X");
    assert_eq!(run_args(inst.step(None)), (strs(&["-t", "nat", "-L", "IPTLB-X"]), true));
    assert_eq!(run_args(inst.step(Some(Ok(false)))), (strs(&["-t", "nat", "-N", "IPTLB-X"]), false));
    assert_eq!(failure(inst.step(Some(Ok(false)))), "iptables -t nat -N IPTLB-X failed");

    let mut present = m.ensure_chain("IPTLB-X");
    assert!(matches!(present.step(None), RuleStep::Run(_, true)));
    assert!(matches!(present.step(Some(Ok(true))), RuleStep::Done));
}

#[test]
fn ensure_jump_rule_checks_before_appending() {
    let m = RuleManager::new();
    let mut inst = m.ensure_jump_rule("10.0.0.1", 80, "IPTLB-10-0-0-1");
    let (check, quiet) = run_args(inst.step(None));
    assert!(quiet);
    assert_eq!(join_words(&check), "-t nat -C PREROUTING -d 10.0.0.1 -p tcp --dport 80 -j IPTLB-10-0-0-1");
    let (append, quiet) = run_args(inst.step(Some(Ok(false))));
    assert!(!quiet);
    assert_eq!(join_words(&append), "-t nat -A PREROUTING -d 10.0.0.1 -p tcp --dport 80 -j IPTLB-10-0-0-1");
    assert_eq!(failure(inst.step(Some(Ok(false)))), "failed to add jump rule to PREROUTING");

    let mut broken = m.ensure_jump_rule("10.0.0.1", 80, "C");
    let _ = broken.step(None);
    assert_eq!(failure(broken.step(Some(Err("no such file".to_string())))), "cannot run iptables: no such file");
}

#[test]
fn apply_rules_flushes_then_appends_until_a_failure() {
    let m = RuleManager::new();
    let cmds = vec![strs(&["-A", "C", "one"]), strs(&["-A", "C", "two"]), strs(&["-A", "C", "three"])];
    let mut inst = m.apply_rules("C", &cmds);
    assert_eq!(run_args(inst.step(None)), (strs(&["-t", "nat", "-F", "C"]), false));
    assert_eq!(run_args(inst.step(Some(Ok(true)))), (cmds[0].clone(), false));
    assert_eq!(run_args(inst.step(Some(Ok(true)))), (cmds[1].clone(), false));
    assert_eq!(failure(inst.step(Some(Ok(false)))), "failed to add rule: iptables -A C two");

    let mut all = m.apply_rules("C", &cmds[..1]);
    let _ = all.step(None);
    let _ = all.step(Some(Ok(true)));
    assert!(matches!(all.step(Some(Ok(true))), RuleStep::Done));

    let mut no_flush = m.apply_rules("C", &cmds);
    let _ = no_flush.step(None);
    assert_eq!(failure(no_flush.step(Some(Ok(false)))), "failed to flush chain C");

    let mut empty = m.apply_rules("C", &[]);
    let _ = empty.step(None);
    assert!(matches!(empty.step(Some(Ok(true))), RuleStep::Done));
}
