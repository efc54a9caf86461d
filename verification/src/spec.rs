//! Desired-state documents and the records kept about running instances.

use vstd::prelude::*;
use vstd::string::StringSliceAdditionalSpecFns;
use crate::digest::{sha256, sha256_hex, spec_hex_bytes};

verus! {

/// A workload description. The CPU share keeps the decimal text it was written with.
#[derive(Debug, Clone)]
pub struct Spec {
    pub name: String,
    pub kind: String,
    pub replicas: u32,
    pub image: Option<String>,
    pub command: Vec<String>,
    pub cpu: Option<String>,
    pub mem: Option<String>,
    pub ports: Vec<u16>,
    pub health_check: Option<HealthCheck>,
    pub strategy: Option<Strategy>,
}

/// How the supervisor checks an instance.
#[derive(Debug, Clone)]
pub struct HealthCheck {
    pub tcp: Option<u16>,
    pub http: Option<String>,
    pub exec_command: Option<String>,
}

/// How a changed spec is rolled out.
#[derive(Debug, Clone)]
pub struct Strategy {
    pub type_: String,
    pub drain_timeout: Option<String>,
}

/// The kind a spec has when it names none.
pub fn default_kind() -> (r: String)
    ensures
        r@ == "Service"@,
{
    String::from_str("Service")
}

/// The rollout strategy type used when a spec names none.
pub fn default_strategy_type() -> (r: String)
    ensures
        r@ == "Recreate"@,
{
    String::from_str("Recreate")
}

/// One scheduled copy of a spec.
#[derive(Debug, Clone)]
pub struct Instance {
    pub id: String,
    pub spec_name: String,
    pub node: String,
    pub status: String,
    pub spec_hash: String,
    pub created_at: String,
}

/// The text of an instance record.
pub struct InstanceView {
    pub id: Seq<char>,
    pub spec_name: Seq<char>,
    pub node: Seq<char>,
    pub status: Seq<char>,
    pub spec_hash: Seq<char>,
    pub created_at: Seq<char>,
}

impl View for Instance {
    type V = InstanceView;

    open spec fn view(&self) -> InstanceView {
        InstanceView {
            id: self.id@,
            spec_name: self.spec_name@,
            node: self.node@,
            status: self.status@,
            spec_hash: self.spec_hash@,
            created_at: self.created_at@,
        }
    }
}

impl Instance {
    /// A field-by-field copy.
    pub fn duplicate(&self) -> (r: Instance)
        ensures
            r@ == self@,
    {
        Instance {
            id: self.id.clone(),
            spec_name: self.spec_name.clone(),
            node: self.node.clone(),
            status: self.status.clone(),
            spec_hash: self.spec_hash.clone(),
            created_at: self.created_at.clone(),
        }
    }
}

/// A cluster node and whether it is `up` or `down`.
#[derive(Debug, Clone)]
pub struct NodeInfo {
    pub name: String,
    pub status: String,
}

/// The text of a node record.
pub struct NodeView {
    pub name: Seq<char>,
    pub status: Seq<char>,
}

impl View for NodeInfo {
    type V = NodeView;

    open spec fn view(&self) -> NodeView {
        NodeView { name: self.name@, status: self.status@ }
    }
}

/// Progress of replacing the instances of a changed spec.
#[derive(Debug, Clone)]
pub struct Rollout {
    pub spec_name: String,
    pub new_hash: String,
    pub phase: String,
    pub created_count: u32,
}

/// The contents of a rollout record.
pub struct RolloutView {
    pub spec_name: Seq<char>,
    pub new_hash: Seq<char>,
    pub phase: Seq<char>,
    pub created_count: u32,
}

impl View for Rollout {
    type V = RolloutView;

    open spec fn view(&self) -> RolloutView {
        RolloutView {
            spec_name: self.spec_name@,
            new_hash: self.new_hash@,
            phase: self.phase@,
            created_count: self.created_count,
        }
    }
}

impl Rollout {
    /// A fresh rollout towards `new_hash`: phase `creating`, nothing created yet.
    pub fn new(spec_name: &str, new_hash: &str) -> (r: Rollout)
        ensures
            r@ == (RolloutView {
                spec_name: spec_name@,
                new_hash: new_hash@,
                phase: "creating"@,
                created_count: 0,
            }),
    {
        Rollout {
            spec_name: String::from_str(spec_name),
            new_hash: String::from_str(new_hash),
            phase: String::from_str("creating"),
            created_count: 0,
        }
    }

    /// A field-by-field copy.
    pub fn duplicate(&self) -> (r: Rollout)
        ensures
            r@ == self@,
    {
        Rollout {
            spec_name: self.spec_name.clone(),
            new_hash: self.new_hash.clone(),
            phase: self.phase.clone(),
            created_count: self.created_count,
        }
    }
}

/// The change-detection hash of a spec: SHA-256 of its JSON serialization, in hex.
pub open spec fn spec_hash_of(json: Seq<u8>) -> Seq<char> {
    spec_hex_bytes(sha256(json))
}

/// Hashes the JSON serialization of a spec (SHA-256, lowercase hex).
pub fn hash_spec(spec_json: &str) -> (r: String)
    ensures
        r@ == spec_hash_of(spec_json.spec_bytes()),
        r@.len() == 64,
{
    sha256_hex(spec_json)
}

/// Hashes the contents of a file (SHA-256 of its bytes, lowercase hex).
pub fn hash_file(content: &str) -> (r: String)
    ensures
        r@ == spec_hash_of(content.spec_bytes()),
        r@.len() == 64,
{
    sha256_hex(content)
}

} // verus!
