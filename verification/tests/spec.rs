use rivet::spec::{default_kind, default_strategy_type, hash_file, hash_spec, Rollout};

fn spec_json(replicas: u32) -> String {
    format!(
        "{{\"name\":\"test\",\"kind\":\"Service\",\"replicas\":{},\"image\":null,\"command\":[],\"cpu\":null,\"mem\":null,\"ports\":[],\"health_check\":null,\"strategy\":null}}",
        replicas
    )
}

#[test]
fn hash_changes_on_content_change() {
    let h1 = hash_spec(&spec_json(1));
    let h2 = hash_spec(&spec_json(2));
    assert_ne!(h1, h2);
}

#[test]
fn hash_stable_for_same_spec() {
    let h1 = hash_spec(&spec_json(1));
    let h2 = hash_spec(&spec_json(1));
    assert_eq!(h1, h2);
}

#[test]
fn hash_is_sha256_hex() {
    assert_eq!(
        hash_file("abc"),
        "ba7816bf8f01cfea414140de5dae2223b00361a396177a9cb410ff61f20015ad"
    );
    assert_eq!(
        hash_file(""),
        "e3b0c44298fc1c149afbf4c8996fb92427ae41e4649b934ca495991b7852b855"
    );
    assert_eq!(hash_spec("abc"), hash_file("abc"));
}

#[test]
fn defaults() {
    assert_eq!(default_kind(), "Service");
    assert_eq!(default_strategy_type(), "Recreate");
}

#[test]
fn new_rollout_starts_creating() {
    let r = Rollout::new("s", "h");
    assert_eq!(r.spec_name, "s");
    assert_eq!(r.new_hash, "h");
    assert_eq!(r.phase, "creating");
    assert_eq!(r.created_count, 0);
}
